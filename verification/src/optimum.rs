//! The largest weight of an assignment in a weight matrix: its definition by
//! exhaustive choice, the bounds that pin it down, and the dual bound that
//! certifies a candidate assignment as one of largest weight.

use vstd::prelude::*;
use crate::assignment::{assignment_weight, column_count, is_assignment, rectangular};

verus! {

/// Entry `(i, j)` of the matrix padded with zeros beyond its rows and columns.
pub open spec fn padded_weight(weights: Seq<Vec<u64>>, i: int, j: int) -> int {
    if 0 <= i < weights.len() && 0 <= j < column_count(weights) {
        weights[i]@[j] as int
    } else {
        0
    }
}

/// Row values `du` and column values `dv` bound every entry of the padded
/// `n` by `n` matrix from above.
pub open spec fn dual_feasible(weights: Seq<Vec<u64>>, du: Seq<int>, dv: Seq<int>, n: int) -> bool {
    &&& du.len() == n
    &&& dv.len() == n
    &&& forall|i: int, j: int|
        #![trigger du[i], dv[j]]
        0 <= i < n && 0 <= j < n ==> padded_weight(weights, i, j) <= du[i] + dv[j]
}

/// The sum of `s[k]` over the marked `k < n`.
pub open spec fn marked_sum(s: Seq<int>, marks: Seq<bool>, n: int) -> int
    decreases n,
{
    if n <= 0 {
        0
    } else {
        marked_sum(s, marks, n - 1) + if marks[n - 1] {
            s[n - 1]
        } else {
            0
        }
    }
}

/// The number of marked `k < n`.
pub open spec fn marked_count(marks: Seq<bool>, n: int) -> int
    decreases n,
{
    if n <= 0 {
        0
    } else {
        marked_count(marks, n - 1) + if marks[n - 1] {
            1int
        } else {
            0int
        }
    }
}

/// `n` marks, all set.
pub open spec fn all_marked(n: int) -> Seq<bool> {
    Seq::new(n as nat, |k: int| true)
}

/// The sum of all row and column values.
pub open spec fn dual_total(du: Seq<int>, dv: Seq<int>, n: int) -> int {
    marked_sum(du, all_marked(n), n) + marked_sum(dv, all_marked(n), n)
}

proof fn lemma_marked_count_nonneg(marks: Seq<bool>, n: int)
    ensures
        marked_count(marks, n) >= 0,
    decreases n,
{
    if n > 0 {
        lemma_marked_count_nonneg(marks, n - 1);
    }
}

proof fn lemma_marks_below(s: Seq<int>, marks: Seq<bool>, n: int, i: int, b: bool)
    requires
        n <= i < marks.len(),
    ensures
        marked_sum(s, marks.update(i, b), n) == marked_sum(s, marks, n),
        marked_count(marks.update(i, b), n) == marked_count(marks, n),
    decreases n,
{
    if n > 0 {
        lemma_marks_below(s, marks, n - 1, i, b);
        assert(marks.update(i, b)[n - 1] == marks[n - 1]);
    }
}

proof fn lemma_unmark(s: Seq<int>, marks: Seq<bool>, n: int, i: int)
    requires
        0 <= i < n <= marks.len(),
        marks[i],
    ensures
        marked_sum(s, marks.update(i, false), n) == marked_sum(s, marks, n) - s[i],
        marked_count(marks.update(i, false), n) == marked_count(marks, n) - 1,
    decreases n,
{
    if n - 1 > i {
        lemma_unmark(s, marks, n - 1, i);
    } else {
        lemma_marks_below(s, marks, i, i, false);
    }
}

proof fn lemma_pick_marked(marks: Seq<bool>, n: int) -> (i: int)
    requires
        marked_count(marks, n) > 0,
    ensures
        0 <= i < n,
        marks[i],
    decreases n,
{
    if n > 0 && marks[n - 1] {
        n - 1
    } else if n > 0 {
        lemma_pick_marked(marks, n - 1)
    } else {
        0
    }
}

proof fn lemma_none_marked(s: Seq<int>, marks: Seq<bool>, n: int)
    requires
        marked_count(marks, n) == 0,
    ensures
        marked_sum(s, marks, n) == 0,
    decreases n,
{
    if n > 0 {
        lemma_marked_count_nonneg(marks, n - 1);
        lemma_none_marked(s, marks, n - 1);
    }
}

proof fn lemma_marked_dual_bound(
    weights: Seq<Vec<u64>>,
    du: Seq<int>,
    dv: Seq<int>,
    n: int,
    pairs: Seq<(int, int)>,
    row_marks: Seq<bool>,
    column_marks: Seq<bool>,
)
    requires
        weights.len() <= n,
        column_count(weights) <= n,
        dual_feasible(weights, du, dv, n),
        row_marks.len() == n,
        column_marks.len() == n,
        marked_count(row_marks, n) == marked_count(column_marks, n),
        is_assignment(pairs, weights.len() as int, column_count(weights)),
        forall|k: int| 0 <= k < pairs.len() ==> row_marks[(#[trigger] pairs[k]).0] && column_marks[pairs[k].1],
    ensures
        assignment_weight(weights, pairs) <= marked_sum(du, row_marks, n) + marked_sum(dv, column_marks, n),
    decreases marked_count(row_marks, n),
{
    lemma_marked_count_nonneg(row_marks, n);
    if pairs.len() > 0 {
        let last = pairs.last();
        let i = last.0;
        let j = last.1;
        let rest = pairs.drop_last();
        assert(pairs[pairs.len() - 1] == last);
        let rm = row_marks.update(i, false);
        let cm = column_marks.update(j, false);
        lemma_unmark(du, row_marks, n, i);
        lemma_unmark(dv, column_marks, n, j);
        lemma_marked_count_nonneg(rm, n);
        assert(is_assignment(rest, weights.len() as int, column_count(weights))) by {
            assert forall|k: int, l: int| 0 <= k < l < rest.len() implies (#[trigger] rest[k]).0 != (
            #[trigger] rest[l]).0 && rest[k].1 != rest[l].1 by {
                assert(rest[k] == pairs[k] && rest[l] == pairs[l]);
            }
            assert forall|k: int| 0 <= k < rest.len() implies 0 <= (#[trigger] rest[k]).0 < weights.len() && 0
                <= rest[k].1 < column_count(weights) by {
                assert(rest[k] == pairs[k]);
            }
        }
        assert forall|k: int| 0 <= k < rest.len() implies rm[(#[trigger] rest[k]).0] && cm[rest[k].1] by {
            assert(rest[k] == pairs[k]);
            assert(pairs[k].0 != pairs[pairs.len() - 1].0 && pairs[k].1 != pairs[pairs.len() - 1].1);
        }
        lemma_marked_dual_bound(weights, du, dv, n, rest, rm, cm);
        assert(padded_weight(weights, i, j) == weights[i]@[j] as int);
        assert(padded_weight(weights, i, j) <= du[i] + dv[j]);
    } else if marked_count(row_marks, n) > 0 {
        let i = lemma_pick_marked(row_marks, n);
        let j = lemma_pick_marked(column_marks, n);
        let rm = row_marks.update(i, false);
        let cm = column_marks.update(j, false);
        lemma_unmark(du, row_marks, n, i);
        lemma_unmark(dv, column_marks, n, j);
        lemma_marked_count_nonneg(rm, n);
        assert(padded_weight(weights, i, j) >= 0);
        assert(padded_weight(weights, i, j) <= du[i] + dv[j]);
        lemma_marked_dual_bound(weights, du, dv, n, pairs, rm, cm);
    } else {
        lemma_none_marked(du, row_marks, n);
        lemma_none_marked(dv, column_marks, n);
    }
}

/// Weak duality: when row and column values bound every entry of the matrix
/// padded to `n` by `n`, no assignment weighs more than their total.
pub proof fn lemma_dual_bound(weights: Seq<Vec<u64>>, du: Seq<int>, dv: Seq<int>, n: int, pairs: Seq<(int, int)>)
    requires
        weights.len() <= n,
        column_count(weights) <= n,
        dual_feasible(weights, du, dv, n),
        is_assignment(pairs, weights.len() as int, column_count(weights)),
    ensures
        assignment_weight(weights, pairs) <= dual_total(du, dv, n),
{
    let marks = all_marked(n);
    lemma_marked_dual_bound(weights, du, dv, n, pairs, marks, marks);
}

/// The largest weight of a pairing of the rows from `r` on with columns not
/// yet `used`, where row `r` itself may only take a column below `j`, or none.
spec fn best_weight(weights: Seq<Vec<u64>>, r: int, j: nat, used: Seq<bool>) -> int
    decreases weights.len() - r, j,
{
    if r < 0 || r >= weights.len() {
        0
    } else if j == 0 {
        best_weight(weights, r + 1, column_count(weights) as nat, used)
    } else {
        let skip = best_weight(weights, r, (j - 1) as nat, used);
        if used[j - 1] {
            skip
        } else {
            let take = weights[r]@[j - 1] as int + best_weight(
                weights,
                r + 1,
                column_count(weights) as nat,
                used.update(j - 1, true),
            );
            if take > skip {
                take
            } else {
                skip
            }
        }
    }
}

/// No column used yet.
spec fn no_columns_used(weights: Seq<Vec<u64>>) -> Seq<bool> {
    Seq::new(column_count(weights) as nat, |k: int| false)
}

/// The largest summed weight of an assignment of rows to columns.
pub closed spec fn largest_assignment_weight(weights: Seq<Vec<u64>>) -> int {
    best_weight(weights, 0, column_count(weights) as nat, no_columns_used(weights))
}

/// The pairs take rows from `r` on and columns not `used`, each row and
/// column once, and row `r` only a column below `j`.
spec fn fits_after(weights: Seq<Vec<u64>>, pairs: Seq<(int, int)>, r: int, j: int, used: Seq<bool>) -> bool {
    &&& forall|k: int|
        0 <= k < pairs.len() ==> r <= (#[trigger] pairs[k]).0 < weights.len() && 0 <= pairs[k].1 < column_count(
            weights,
        ) && !used[pairs[k].1] && (pairs[k].0 == r ==> pairs[k].1 < j)
    &&& forall|k: int, l: int|
        0 <= k < l < pairs.len() ==> (#[trigger] pairs[k]).0 != (#[trigger] pairs[l]).0 && pairs[k].1 != pairs[l].1
}

proof fn lemma_weight_without(weights: Seq<Vec<u64>>, pairs: Seq<(int, int)>, k: int)
    requires
        0 <= k < pairs.len(),
    ensures
        assignment_weight(weights, pairs) == assignment_weight(weights, pairs.remove(k))
            + weights[pairs[k].0]@[pairs[k].1] as int,
    decreases pairs.len(),
{
    pairs.remove_ensures(k);
    if k == pairs.len() - 1 {
        assert(pairs.remove(k) =~= pairs.drop_last());
    } else {
        let d = pairs.drop_last();
        lemma_weight_without(weights, d, k);
        d.remove_ensures(k);
        assert(pairs.remove(k).drop_last() =~= d.remove(k));
        assert(pairs.remove(k).last() == pairs.last());
        assert(d[k] == pairs[k]);
    }
}

proof fn lemma_best_is_upper(weights: Seq<Vec<u64>>, r: int, j: nat, used: Seq<bool>, pairs: Seq<(int, int)>)
    requires
        rectangular(weights),
        0 <= r,
        j <= column_count(weights),
        used.len() == column_count(weights),
        fits_after(weights, pairs, r, j as int, used),
    ensures
        assignment_weight(weights, pairs) <= best_weight(weights, r, j, used),
    decreases weights.len() - r, j,
{
    let rows = weights.len() as int;
    let columns = column_count(weights);
    if r >= rows {
        if pairs.len() > 0 {
            assert(r <= pairs[0].0 < rows);
        }
    } else if j == 0 {
        assert forall|k: int| 0 <= k < pairs.len() implies r + 1 <= (#[trigger] pairs[k]).0 by {
            if pairs[k].0 == r {
                assert(pairs[k].1 < 0);
            }
        }
        lemma_best_is_upper(weights, r + 1, columns as nat, used, pairs);
    } else {
        let c = j - 1;
        if exists|k: int| 0 <= k < pairs.len() && (#[trigger] pairs[k]).0 == r && pairs[k].1 == c {
            let k = choose|k: int| 0 <= k < pairs.len() && (#[trigger] pairs[k]).0 == r && pairs[k].1 == c;
            let rest = pairs.remove(k);
            let used2 = used.update(c, true);
            pairs.remove_ensures(k);
            lemma_weight_without(weights, pairs, k);
            assert(fits_after(weights, rest, r + 1, columns, used2)) by {
                assert forall|x: int| 0 <= x < rest.len() implies r + 1 <= (#[trigger] rest[x]).0 < weights.len() && 0
                    <= rest[x].1 < columns && !used2[rest[x].1] && (rest[x].0 == r + 1 ==> rest[x].1 < columns) by {
                    let y = if x < k { x } else { x + 1 };
                    assert(rest[x] == pairs[y]);
                    if y < k {
                        assert(pairs[y].0 != pairs[k].0 && pairs[y].1 != pairs[k].1);
                    } else {
                        assert(pairs[k].0 != pairs[y].0 && pairs[k].1 != pairs[y].1);
                    }
                }
                assert forall|x: int, z: int| 0 <= x < z < rest.len() implies (#[trigger] rest[x]).0 != (
                #[trigger] rest[z]).0 && rest[x].1 != rest[z].1 by {
                    let yx = if x < k { x } else { x + 1 };
                    let yz = if z < k { z } else { z + 1 };
                    assert(rest[x] == pairs[yx] && rest[z] == pairs[yz]);
                }
            }
            lemma_best_is_upper(weights, r + 1, columns as nat, used2, rest);
            assert(!used[c]);
        } else {
            assert forall|k: int| 0 <= k < pairs.len() && (#[trigger] pairs[k]).0 == r implies pairs[k].1 < c by {
                assert(!(pairs[k].0 == r && pairs[k].1 == c));
            }
            lemma_best_is_upper(weights, r, c as nat, used, pairs);
        }
    }
}

proof fn lemma_best_is_reached(weights: Seq<Vec<u64>>, r: int, j: nat, used: Seq<bool>) -> (pairs: Seq<(int, int)>)
    requires
        rectangular(weights),
        0 <= r,
        j <= column_count(weights),
        used.len() == column_count(weights),
    ensures
        fits_after(weights, pairs, r, j as int, used),
        assignment_weight(weights, pairs) == best_weight(weights, r, j, used),
    decreases weights.len() - r, j,
{
    let rows = weights.len() as int;
    let columns = column_count(weights);
    if r >= rows {
        Seq::empty()
    } else if j == 0 {
        lemma_best_is_reached(weights, r + 1, columns as nat, used)
    } else {
        let c = j - 1;
        let skip_pairs = lemma_best_is_reached(weights, r, c as nat, used);
        let used2 = used.update(c, true);
        let take = weights[r]@[c] as int + best_weight(weights, r + 1, columns as nat, used2);
        if used[c] || take <= best_weight(weights, r, c as nat, used) {
            skip_pairs
        } else {
            let rest = lemma_best_is_reached(weights, r + 1, columns as nat, used2);
            let pairs = rest.push((r, c as int));
            assert(pairs.drop_last() =~= rest);
            assert(pairs[pairs.len() - 1] == (r, c as int));
            assert forall|k: int| 0 <= k < pairs.len() implies r <= (#[trigger] pairs[k]).0 < weights.len() && 0
                <= pairs[k].1 < columns && !used[pairs[k].1] && (pairs[k].0 == r ==> pairs[k].1 < j) by {
                if k < rest.len() {
                    assert(pairs[k] == rest[k]);
                }
            }
            assert forall|k: int, l: int| 0 <= k < l < pairs.len() implies (#[trigger] pairs[k]).0 != (
            #[trigger] pairs[l]).0 && pairs[k].1 != pairs[l].1 by {
                assert(pairs[k] == rest[k]);
                if l < rest.len() {
                    assert(pairs[l] == rest[l]);
                }
            }
            pairs
        }
    }
}

/// `largest_assignment_weight` is the largest summed weight of an
/// assignment: no assignment weighs more, and some assignment weighs as much.
pub proof fn lemma_largest_assignment_weight(weights: Seq<Vec<u64>>)
    requires
        rectangular(weights),
    ensures
        forall|pairs: Seq<(int, int)>|
            #[trigger] is_assignment(pairs, weights.len() as int, column_count(weights)) ==> assignment_weight(
                weights,
                pairs,
            ) <= largest_assignment_weight(weights),
        exists|pairs: Seq<(int, int)>|
            #[trigger] is_assignment(pairs, weights.len() as int, column_count(weights)) && assignment_weight(
                weights,
                pairs,
            ) == largest_assignment_weight(weights),
{
    let columns = column_count(weights);
    let none = no_columns_used(weights);
    assert forall|pairs: Seq<(int, int)>|
        #[trigger] is_assignment(pairs, weights.len() as int, columns) implies assignment_weight(weights, pairs)
        <= largest_assignment_weight(weights) by {
        lemma_best_is_upper(weights, 0, columns as nat, none, pairs);
    }
    let best = lemma_best_is_reached(weights, 0, columns as nat, none);
    assert(is_assignment(best, weights.len() as int, columns));
}

/// Every partial choice weighs between nothing and the largest entry per
/// remaining row.
proof fn lemma_best_range(weights: Seq<Vec<u64>>, r: int, j: nat, used: Seq<bool>)
    requires
        rectangular(weights),
        0 <= r <= weights.len(),
        j <= column_count(weights),
    ensures
        0 <= best_weight(weights, r, j, used) <= (weights.len() - r) * 0xffff_ffff_ffff_ffff,
    decreases weights.len() - r, j,
{
    let columns = column_count(weights);
    if r < weights.len() {
        if j == 0 {
            lemma_best_range(weights, r + 1, columns as nat, used);
        } else {
            lemma_best_range(weights, r, (j - 1) as nat, used);
            lemma_best_range(weights, r + 1, columns as nat, used.update(j - 1, true));
        }
    }
}

/// The largest weight of a pairing of rows from `r` on with unused columns,
/// found by trying every choice.
fn search_best(weights: &[Vec<u64>], r: usize, j: usize, used: &mut Vec<bool>) -> (best: u128)
    requires
        rectangular(weights@),
        r <= weights@.len(),
        j <= column_count(weights@),
        old(used)@.len() == column_count(weights@),
    ensures
        best == best_weight(weights@, r as int, j as nat, old(used)@),
        final(used)@ == old(used)@,
    decreases weights@.len() - r, j,
{
    let rows = weights.len();
    if r >= rows {
        return 0;
    }
    let columns = weights[0].len();
    if j == 0 {
        return search_best(weights, r + 1, columns, used);
    }
    let c = j - 1;
    let skip = search_best(weights, r, c, used);
    if used[c] {
        return skip;
    }
    let ghost before = used@;
    used.set(c, true);
    let rest = search_best(weights, r + 1, columns, used);
    used.set(c, false);
    proof {
        assert(used@ =~= before);
        lemma_best_range(weights@, (r + 1) as int, columns as nat, before.update(c as int, true));
        assert((rows - r) * 0xffff_ffff_ffff_ffffint <= 0xffff_ffff_ffff_ffffint * 0xffff_ffff_ffff_ffffint)
            by (nonlinear_arith)
            requires
                0 <= rows - r <= 0xffff_ffff_ffff_ffff,
        ;
        assert(weights@[r as int]@.len() >= columns);
    }
    let take = weights[r][c] as u128 + rest;
    if take > skip {
        take
    } else {
        skip
    }
}

/// The largest weight of an assignment, found by trying every choice.
pub(crate) fn search_largest_assignment(weights: &[Vec<u64>]) -> (best: u128)
    requires
        rectangular(weights@),
    ensures
        best == largest_assignment_weight(weights@),
{
    let columns = if weights.len() == 0 {
        0
    } else {
        weights[0].len()
    };
    let mut used: Vec<bool> = Vec::new();
    let mut k: usize = 0;
    while k < columns
        invariant
            k <= columns,
            used@ == Seq::new(k as nat, |i: int| false),
        decreases columns - k,
    {
        used.push(false);
        assert(used@ =~= Seq::new((k + 1) as nat, |i: int| false));
        k = k + 1;
    }
    proof {
        assert(used@ =~= no_columns_used(weights@));
    }
    search_best(weights, 0, columns, &mut used)
}

/// The values of a sequence of `i128` as integers.
pub open spec fn ints(s: Seq<i128>) -> Seq<int> {
    Seq::new(s.len(), |k: int| s[k] as int)
}

/// Whether `x` is a value of `i128`.
pub open spec fn fits_i128(x: int) -> bool {
    i128::MIN <= x <= i128::MAX
}

/// Row values `maximum - u[k + 1]` for `k < size`.
pub open spec fn row_values(u: Seq<i128>, maximum: i128, size: int) -> Seq<int> {
    Seq::new(size as nat, |k: int| maximum - u[k + 1])
}

/// Column values `-v[k + 1]` for `k < size`.
pub open spec fn column_values(v: Seq<i128>, size: int) -> Seq<int> {
    Seq::new(size as nat, |k: int| 0 - v[k + 1])
}

/// The check made of the potentials: every row and column value, every
/// pairwise sum, every running total and the grand total are values of
/// `i128`; the values bound every entry of the padded matrix; and the grand
/// total is at most `claimed`.
pub open spec fn certificate_holds(
    weights: Seq<Vec<u64>>,
    u: Seq<i128>,
    v: Seq<i128>,
    maximum: i128,
    size: int,
    claimed: u128,
) -> bool {
    let du = row_values(u, maximum, size);
    let dv = column_values(v, size);
    let marks = all_marked(size);
    &&& forall|k: int| 0 <= k < size ==> fits_i128(#[trigger] du[k])
    &&& forall|k: int| 0 <= k < size ==> fits_i128(#[trigger] dv[k])
    &&& forall|i: int, j: int|
        #![trigger du[i], dv[j]]
        0 <= i < size && 0 <= j < size ==> fits_i128(du[i] + dv[j]) && padded_weight(weights, i, j) <= du[i] + dv[j]
    &&& forall|m: int| 1 <= m <= size ==> fits_i128(#[trigger] marked_sum(du, marks, m))
    &&& forall|m: int| 1 <= m <= size ==> fits_i128(#[trigger] marked_sum(dv, marks, m))
    &&& fits_i128(dual_total(du, dv, size))
    &&& (dual_total(du, dv, size) <= 0 || dual_total(du, dv, size) <= claimed)
}

/// Checks the potentials `u` and `v` left by the Hungarian method on the
/// padded `size` by `size` cost matrix (entry `maximum - weight`), read as
/// row values `maximum - u[i]` and column values `-v[j]`: they must bound
/// every entry of the padded weight matrix and total at most `claimed`.
/// When they do, no assignment weighs more than `claimed`.
pub fn dual_certifies(
    weights: &[Vec<u64>],
    u: &Vec<i128>,
    v: &Vec<i128>,
    maximum: i128,
    size: usize,
    claimed: u128,
) -> (ok: bool)
    requires
        rectangular(weights@),
        weights@.len() <= size,
        column_count(weights@) <= size,
        u@.len() == size + 1,
        v@.len() == size + 1,
    ensures
        ok == certificate_holds(weights@, u@, v@, maximum, size as int, claimed),
        ok ==> largest_assignment_weight(weights@) <= claimed,
{
    let ghost du_spec = row_values(u@, maximum, size as int);
    let ghost dv_spec = column_values(v@, size as int);
    let ghost marks = all_marked(size as int);
    let rows = weights.len();
    let columns = if rows == 0 {
        0
    } else {
        weights[0].len()
    };
    let mut du: Vec<i128> = Vec::new();
    let mut dv: Vec<i128> = Vec::new();
    let mut k: usize = 0;
    while k < size
        invariant
            k <= size,
            u@.len() == size + 1,
            v@.len() == size + 1,
            du@.len() == k,
            dv@.len() == k,
            du_spec == row_values(u@, maximum, size as int),
            dv_spec == column_values(v@, size as int),
            forall|t: int| 0 <= t < k ==> du@[t] == #[trigger] du_spec[t],
            forall|t: int| 0 <= t < k ==> dv@[t] == #[trigger] dv_spec[t],
        decreases size - k,
    {
        let a = match maximum.checked_sub(u[k + 1]) {
            Some(x) => x,
            None => {
                proof {
                    assert(!fits_i128(du_spec[k as int]));
                }
                return false;
            },
        };
        let b = match 0i128.checked_sub(v[k + 1]) {
            Some(x) => x,
            None => {
                proof {
                    assert(!fits_i128(dv_spec[k as int]));
                }
                return false;
            },
        };
        du.push(a);
        dv.push(b);
        proof {
            assert(du_spec[k as int] == maximum - u@[k + 1]);
            assert(dv_spec[k as int] == 0 - v@[k + 1]);
            assert(du@[k as int] == du_spec[k as int]);
            assert(dv@[k as int] == dv_spec[k as int]);
        }
        k = k + 1;
    }
    let ghost gu = ints(du@);
    let ghost gv = ints(dv@);
    proof {
        assert(gu =~= du_spec);
        assert(gv =~= dv_spec);
    }
    let mut i: usize = 0;
    while i < size
        invariant
            i <= size,
            du@.len() == size,
            dv@.len() == size,
            rows == weights@.len(),
            columns == column_count(weights@),
            rectangular(weights@),
            gu == ints(du@),
            gv == ints(dv@),
            gu == du_spec,
            gv == dv_spec,
            du_spec == row_values(u@, maximum, size as int),
            dv_spec == column_values(v@, size as int),
            forall|a: int, b: int|
                #![trigger gu[a], gv[b]]
                0 <= a < i && 0 <= b < size ==> fits_i128(gu[a] + gv[b]) && padded_weight(weights@, a, b) <= gu[a]
                    + gv[b],
        decreases size - i,
    {
        let mut j: usize = 0;
        while j < size
            invariant
                j <= size,
                i < size,
                du@.len() == size,
                dv@.len() == size,
                rows == weights@.len(),
                columns == column_count(weights@),
                rectangular(weights@),
                gu == ints(du@),
                gv == ints(dv@),
                gu == du_spec,
                gv == dv_spec,
                du_spec == row_values(u@, maximum, size as int),
                dv_spec == column_values(v@, size as int),
                forall|a: int, b: int|
                    #![trigger gu[a], gv[b]]
                    0 <= a < i && 0 <= b < size ==> fits_i128(gu[a] + gv[b]) && padded_weight(weights@, a, b)
                        <= gu[a] + gv[b],
                forall|b: int|
                    0 <= b < j ==> fits_i128(gu[i as int] + #[trigger] gv[b]) && padded_weight(weights@, i as int, b)
                        <= gu[i as int] + gv[b],
            decreases size - j,
        {
            let w: i128 = if i < rows && j < columns {
                proof {
                    assert(weights@[i as int]@.len() >= columns);
                }
                weights[i][j] as i128
            } else {
                0
            };
            proof {
                assert(w == padded_weight(weights@, i as int, j as int));
            }
            match du[i].checked_add(dv[j]) {
                Some(bound) => {
                    if w > bound {
                        proof {
                            assert(gu[i as int] == du_spec[i as int] && gv[j as int] == dv_spec[j as int]);
                            assert(gu[i as int] == du@[i as int] && gv[j as int] == dv@[j as int]);
                            assert(!(padded_weight(weights@, i as int, j as int) <= du_spec[i as int] + dv_spec[j as int]));
                            assert(!certificate_holds(weights@, u@, v@, maximum, size as int, claimed));
                        }
                        return false;
                    }
                },
                None => {
                    proof {
                        assert(gu[i as int] == du_spec[i as int] && gv[j as int] == dv_spec[j as int]);
                        assert(gu[i as int] == du@[i as int] && gv[j as int] == dv@[j as int]);
                        assert(!fits_i128(du_spec[i as int] + dv_spec[j as int]));
                        assert(!certificate_holds(weights@, u@, v@, maximum, size as int, claimed));
                    }
                    return false;
                },
            }
            j = j + 1;
        }
        i = i + 1;
    }
    let mut total_rows: i128 = 0;
    let mut m: usize = 0;
    while m < size
        invariant
            m <= size,
            du@.len() == size,
            gu == ints(du@),
            gu == du_spec,
            du_spec == row_values(u@, maximum, size as int),
            dv_spec == column_values(v@, size as int),
            marks == all_marked(size as int),
            total_rows == marked_sum(gu, marks, m as int),
            forall|t: int| 1 <= t <= m ==> fits_i128(#[trigger] marked_sum(du_spec, marks, t)),
        decreases size - m,
    {
        total_rows = match total_rows.checked_add(du[m]) {
            Some(x) => x,
            None => {
                proof {
                    assert(!fits_i128(marked_sum(du_spec, marks, m + 1)));
                    assert(!certificate_holds(weights@, u@, v@, maximum, size as int, claimed));
                }
                return false;
            },
        };
        m = m + 1;
    }
    let mut total_columns: i128 = 0;
    m = 0;
    while m < size
        invariant
            m <= size,
            dv@.len() == size,
            gv == ints(dv@),
            gv == dv_spec,
            du_spec == row_values(u@, maximum, size as int),
            dv_spec == column_values(v@, size as int),
            marks == all_marked(size as int),
            total_columns == marked_sum(gv, marks, m as int),
            forall|t: int| 1 <= t <= m ==> fits_i128(#[trigger] marked_sum(dv_spec, marks, t)),
        decreases size - m,
    {
        total_columns = match total_columns.checked_add(dv[m]) {
            Some(x) => x,
            None => {
                proof {
                    assert(!fits_i128(marked_sum(dv_spec, marks, m + 1)));
                    assert(!certificate_holds(weights@, u@, v@, maximum, size as int, claimed));
                }
                return false;
            },
        };
        m = m + 1;
    }
    let dual = match total_rows.checked_add(total_columns) {
        Some(x) => x,
        None => return false,
    };
    let ok = dual <= 0 || (dual as u128) <= claimed;
    proof {
        assert(forall|k: int| 0 <= k < size ==> fits_i128(#[trigger] du_spec[k])) by {
            assert forall|k: int| 0 <= k < size implies fits_i128(#[trigger] du_spec[k]) by {
                assert(gu[k] == du@[k] as int);
            }
        }
        assert(forall|k: int| 0 <= k < size ==> fits_i128(#[trigger] dv_spec[k])) by {
            assert forall|k: int| 0 <= k < size implies fits_i128(#[trigger] dv_spec[k]) by {
                assert(gv[k] == dv@[k] as int);
            }
        }
        assert(dual_feasible(weights@, gu, gv, size as int));
        lemma_largest_assignment_weight(weights@);
        let best = choose|pairs: Seq<(int, int)>|
            #[trigger] is_assignment(pairs, weights@.len() as int, column_count(weights@)) && assignment_weight(
                weights@,
                pairs,
            ) == largest_assignment_weight(weights@);
        lemma_dual_bound(weights@, gu, gv, size as int, best);
    }
    ok
}

} // verus!
