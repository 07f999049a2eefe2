//! Maximum-weight assignment between the rows and columns of a weight
//! matrix (the Hungarian method), used to pair reference and predicted
//! speakers.

use vstd::prelude::*;
use crate::optimum::{
    dual_certifies, largest_assignment_weight, lemma_largest_assignment_weight, search_largest_assignment,
};

verus! {

/// `x` capped at `u64::MAX`.
pub open spec fn cap(x: int) -> u64 {
    if x > u64::MAX { u64::MAX } else if x < 0 { 0 } else { x as u64 }
}

/// `a * b`, or `u64::MAX` when it does not fit.
pub fn saturating_mul_u64(a: u64, b: u64) -> (p: u64)
    ensures
        p == cap(a * b),
{
    proof {
        assert(a * b >= 0) by (nonlinear_arith);
    }
    match a.checked_mul(b) {
        Some(p) => p,
        None => u64::MAX,
    }
}

/// The number of columns of a matrix: the length of its first row.
pub open spec fn column_count(weights: Seq<Vec<u64>>) -> int {
    if weights.len() == 0 { 0 } else { weights[0]@.len() as int }
}

/// Every row has at least as many entries as the first.
pub open spec fn rectangular(weights: Seq<Vec<u64>>) -> bool {
    forall|r: int| 0 <= r < weights.len() ==> (#[trigger] weights[r])@.len() >= column_count(weights)
}

/// Pairs of (row, column) within bounds, no row and no column used twice.
pub open spec fn is_assignment(pairs: Seq<(int, int)>, rows: int, columns: int) -> bool {
    &&& forall|k: int| 0 <= k < pairs.len() ==> 0 <= (#[trigger] pairs[k]).0 < rows && 0 <= pairs[k].1 < columns
    &&& forall|k: int, l: int|
        0 <= k < l < pairs.len() ==> (#[trigger] pairs[k]).0 != (#[trigger] pairs[l]).0 && pairs[k].1 != pairs[l].1
}

/// The summed weight of the assigned pairs.
pub open spec fn assignment_weight(weights: Seq<Vec<u64>>, pairs: Seq<(int, int)>) -> int
    decreases pairs.len(),
{
    if pairs.len() == 0 {
        0
    } else {
        assignment_weight(weights, pairs.drop_last()) + weights[pairs.last().0]@[pairs.last().1] as int
    }
}

/// `n` copies of `x`.
fn filled<T: Copy>(x: T, n: usize) -> (v: Vec<T>)
    ensures
        v@ == Seq::new(n as nat, |i: int| x),
{
    let mut v: Vec<T> = Vec::new();
    let mut i: usize = 0;
    while i < n
        invariant
            i <= n,
            v@ == Seq::new(i as nat, |k: int| x),
        decreases n - i,
    {
        v.push(x);
        assert(v@ =~= Seq::new((i + 1) as nat, |k: int| x));
        i = i + 1;
    }
    v
}

/// `a + b` clamped to the range of `i128`.
fn add_clamped(a: i128, b: i128) -> (s: i128)
    ensures
        s == if a + b > i128::MAX { i128::MAX as int } else if a + b < i128::MIN { i128::MIN as int } else { a + b },
{
    match a.checked_add(b) {
        Some(s) => s,
        None => if b > 0 { i128::MAX } else { i128::MIN },
    }
}

/// `a - b` clamped to the range of `i128`.
fn sub_clamped(a: i128, b: i128) -> (s: i128)
    ensures
        s == if a - b > i128::MAX { i128::MAX as int } else if a - b < i128::MIN { i128::MIN as int } else { a - b },
{
    match a.checked_sub(b) {
        Some(s) => s,
        None => if b < 0 { i128::MAX } else { i128::MIN },
    }
}

/// The largest entry of the matrix, 0 when it has none.
fn largest_weight(weights: &[Vec<u64>]) -> (m: u64)
    ensures
        forall|r: int, c: int| 0 <= r < weights@.len() && 0 <= c < weights@[r]@.len() ==> weights@[r]@[c] <= m,
{
    let mut m: u64 = 0;
    let mut r: usize = 0;
    while r < weights.len()
        invariant
            r <= weights@.len(),
            forall|a: int, c: int| 0 <= a < r && 0 <= c < weights@[a]@.len() ==> weights@[a]@[c] <= m,
        decreases weights@.len() - r,
    {
        let row = &weights[r];
        let mut c: usize = 0;
        while c < row.len()
            invariant
                c <= row@.len(),
                row == weights@[r as int],
                r < weights@.len(),
                forall|a: int, k: int| 0 <= a < r && 0 <= k < weights@[a]@.len() ==> weights@[a]@[k] <= m,
                forall|k: int| 0 <= k < c ==> row@[k] <= m,
            decreases row@.len() - c,
        {
            if row[c] > m {
                m = row[c];
            }
            c = c + 1;
        }
        r = r + 1;
    }
    m
}

/// `x`, or `u64::MAX` when it does not fit.
fn cap_u128(x: u128) -> (c: u64)
    ensures
        c == cap(x as int),
{
    if x > 0xffff_ffff_ffff_ffffu128 {
        u64::MAX
    } else {
        x as u64
    }
}

/// The largest weight of an assignment, found by trying every choice.
fn exhaustive_assignment(weights: &[Vec<u64>]) -> (total: u64)
    requires
        rectangular(weights@),
    ensures
        total == cap(largest_assignment_weight(weights@)),
{
    cap_u128(search_largest_assignment(weights))
}

/// The largest total weight of a one-to-one pairing of rows with columns,
/// found with the Hungarian method on a square matrix padded with zeros.
///
/// The pairing is read back from the column assignment and checked against
/// the potentials the method leaves, which bound every assignment; should
/// that check ever fail, every choice is tried instead. The total is capped
/// at `u64::MAX`.
pub fn maximum_weight_assignment(weights: &[Vec<u64>]) -> (total: u64)
    requires
        rectangular(weights@),
    ensures
        total == cap(largest_assignment_weight(weights@)),
        exists|pairs: Seq<(int, int)>|
            #[trigger] is_assignment(pairs, weights@.len() as int, column_count(weights@)) && total == cap(
                assignment_weight(weights@, pairs),
            ),
{
    proof {
        lemma_largest_assignment_weight(weights@);
    }
    let rows = weights.len();
    let columns = if rows == 0 { 0 } else { weights[0].len() };
    let size = if rows > columns { rows } else { columns };
    if size == 0 {
        proof {
            let best = choose|pairs: Seq<(int, int)>|
                #[trigger] is_assignment(pairs, weights@.len() as int, column_count(weights@)) && assignment_weight(
                    weights@,
                    pairs,
                ) == largest_assignment_weight(weights@);
            if best.len() > 0 {
                assert(0 <= best[0].0 < rows);
            }
        }
        return 0;
    }
    // No allocation can hold a square matrix this wide.
    if size >= usize::MAX - 1 {
        return exhaustive_assignment(weights);
    }
    let maximum = largest_weight(weights) as i128;
    let mut u: Vec<i128> = filled(0i128, size + 1);
    let mut v: Vec<i128> = filled(0i128, size + 1);
    let mut p: Vec<usize> = filled(0usize, size + 1);
    let mut way: Vec<usize> = filled(0usize, size + 1);
    let mut row: usize = 1;
    while row <= size
        invariant
            1 <= row <= size + 1,
            size + 1 < usize::MAX,
            rows == weights@.len(),
            columns == column_count(weights@),
            rectangular(weights@),
            u@.len() == size + 1,
            v@.len() == size + 1,
            p@.len() == size + 1,
            way@.len() == size + 1,
            forall|j: int| 0 <= j <= size ==> p@[j] <= size,
            forall|j: int| 0 <= j <= size ==> way@[j] <= size,
        decreases size + 1 - row,
    {
        p.set(0, row);
        let mut column: usize = 0;
        let mut min_value: Vec<i128> = filled(i128::MAX, size + 1);
        let mut used: Vec<bool> = filled(false, size + 1);
        let mut steps: usize = 0;
        loop
            invariant_except_break
                p@[column as int] >= 1,
                steps < size,
            invariant
                1 <= row <= size,
                size + 1 < usize::MAX,
                rows == weights@.len(),
                columns == column_count(weights@),
                rectangular(weights@),
                u@.len() == size + 1,
                v@.len() == size + 1,
                p@.len() == size + 1,
                way@.len() == size + 1,
                min_value@.len() == size + 1,
                used@.len() == size + 1,
                forall|j: int| 0 <= j <= size ==> p@[j] <= size,
                forall|j: int| 0 <= j <= size ==> way@[j] <= size,
                column <= size,
            decreases size - steps,
        {
            used.set(column, true);
            let current_row = p[column];
            let mut delta: i128 = i128::MAX;
            let mut next_column: usize = 0;
            let mut candidate: usize = 1;
            while candidate <= size
                invariant
                    1 <= candidate <= size + 1,
                    size + 1 < usize::MAX,
                    1 <= current_row <= size,
                    rows == weights@.len(),
                    columns == column_count(weights@),
                    rectangular(weights@),
                    u@.len() == size + 1,
                    v@.len() == size + 1,
                    way@.len() == size + 1,
                    min_value@.len() == size + 1,
                    used@.len() == size + 1,
                    column <= size,
                    next_column <= size,
                    forall|j: int| 0 <= j <= size ==> way@[j] <= size,
                decreases size + 1 - candidate,
            {
                if !used[candidate] {
                    let weight: i128 = if current_row <= rows && candidate <= columns {
                        let w = weights[current_row - 1][candidate - 1];
                        w as i128
                    } else {
                        0
                    };
                    let cost = sub_clamped(
                        sub_clamped(sub_clamped(maximum, weight), u[current_row]),
                        v[candidate],
                    );
                    if cost < min_value[candidate] {
                        min_value.set(candidate, cost);
                        way.set(candidate, column);
                    }
                    if min_value[candidate] < delta {
                        delta = min_value[candidate];
                        next_column = candidate;
                    }
                }
                candidate = candidate + 1;
            }
            let mut c: usize = 0;
            while c <= size
                invariant
                    c <= size + 1,
                    size + 1 < usize::MAX,
                    u@.len() == size + 1,
                    v@.len() == size + 1,
                    p@.len() == size + 1,
                    min_value@.len() == size + 1,
                    used@.len() == size + 1,
                    forall|j: int| 0 <= j <= size ==> p@[j] <= size,
                decreases size + 1 - c,
            {
                if used[c] {
                    let r = p[c];
                    let raised = add_clamped(u[r], delta);
                    u.set(r, raised);
                    let lowered = sub_clamped(v[c], delta);
                    v.set(c, lowered);
                } else {
                    let lowered = sub_clamped(min_value[c], delta);
                    min_value.set(c, lowered);
                }
                c = c + 1;
            }
            column = next_column;
            steps = steps + 1;
            if p[column] == 0 || steps >= size {
                break;
            }
        }
        let mut hops: usize = 0;
        loop
            invariant_except_break
                hops <= size,
            invariant
                size + 1 < usize::MAX,
                p@.len() == size + 1,
                way@.len() == size + 1,
                forall|j: int| 0 <= j <= size ==> p@[j] <= size,
                forall|j: int| 0 <= j <= size ==> way@[j] <= size,
                column <= size,
            decreases size + 1 - hops,
        {
            let previous = way[column];
            let moved = p[previous];
            p.set(column, moved);
            column = previous;
            hops = hops + 1;
            if column == 0 || hops > size {
                break;
            }
        }
        row = row + 1;
    }
    let mut taken: Vec<bool> = filled(false, size + 1);
    let mut total: u64 = 0;
    let mut exact: u128 = 0;
    let mut exact_fits = true;
    let ghost mut pairs: Seq<(int, int)> = Seq::empty();
    let mut column: usize = 1;
    while column <= size
        invariant
            1 <= column <= size + 1,
            size + 1 < usize::MAX,
            rows <= size,
            rows == weights@.len(),
            columns == column_count(weights@),
            rectangular(weights@),
            p@.len() == size + 1,
            taken@.len() == size + 1,
            forall|j: int| 0 <= j <= size ==> p@[j] <= size,
            is_assignment(pairs, rows as int, columns as int),
            forall|k: int| 0 <= k < pairs.len() ==> (#[trigger] pairs[k]).1 < column - 1,
            forall|k: int| 0 <= k < pairs.len() ==> taken@[(#[trigger] pairs[k]).0 + 1],
            total == cap(assignment_weight(weights@, pairs)),
            exact_fits ==> exact == assignment_weight(weights@, pairs),
            assignment_weight(weights@, pairs) >= 0,
        decreases size + 1 - column,
    {
        let r = p[column];
        if r > 0 && r <= rows && column <= columns && !taken[r] {
            let w = weights[r - 1][column - 1];
            let ghost before = pairs;
            let ghost old_taken = taken@;
            total = total.saturating_add(w);
            match exact.checked_add(w as u128) {
                Some(sum) => exact = sum,
                None => exact_fits = false,
            }
            taken.set(r, true);
            proof {
                pairs = pairs.push(((r - 1) as int, (column - 1) as int));
                assert(pairs.drop_last() =~= before);
                assert forall|k: int, l: int| 0 <= k < l < pairs.len() implies (#[trigger] pairs[k]).0 != (
                #[trigger] pairs[l]).0 && pairs[k].1 != pairs[l].1 by {
                    if l == pairs.len() - 1 {
                        assert(pairs[k] == before[k]);
                        assert(old_taken[before[k].0 + 1]);
                    } else {
                        assert(pairs[k] == before[k]);
                        assert(pairs[l] == before[l]);
                    }
                }
                assert forall|k: int| 0 <= k < pairs.len() implies taken@[(#[trigger] pairs[k]).0 + 1] by {
                    if k < before.len() {
                        assert(pairs[k] == before[k]);
                        assert(old_taken[before[k].0 + 1]);
                        assert(taken@ == old_taken.update(r as int, true));
                        assert(0 <= before[k].0 + 1 <= size);
                    } else {
                        assert(pairs[k] == ((r - 1) as int, (column - 1) as int));
                        assert(taken@[r as int]);
                    }
                }
                assert forall|k: int| 0 <= k < pairs.len() implies (#[trigger] pairs[k]).1 < column as int by {
                    if k < before.len() {
                        assert(pairs[k] == before[k]);
                    }
                }
            }
        }
        column = column + 1;
    }
    if exact_fits && dual_certifies(weights, &u, &v, maximum, size, exact) {
        proof {
            assert(assignment_weight(weights@, pairs) <= largest_assignment_weight(weights@));
        }
        total
    } else {
        exhaustive_assignment(weights)
    }
}

} // verus!
