//! Character Error Rate (CER) metrics for ASR evaluation.
//!
//! CER = (S + D + I) / N, where S, D and I are the substitutions, deletions
//! and insertions of a minimal edit script from the reference to the
//! hypothesis and N is the number of reference characters.

use vstd::prelude::*;

use crate::chars::{chars_of, string_from_chars};
use crate::unicode::{is_punctuation, is_whitespace, spec_is_punctuation, spec_is_whitespace};

verus! {

/// Edit counts of an alignment between a reference and a hypothesis.
#[derive(Debug, Clone, Copy, PartialEq, Eq, Structural, Default)]
pub struct CerStats {
    pub substitutions: usize,
    pub deletions: usize,
    pub insertions: usize,
    pub reference_chars: usize,
}

/// Cost of aligning two characters: 0 when equal, 1 otherwise.
pub open spec fn char_cost(x: char, y: char) -> nat {
    if x == y { 0 } else { 1 }
}

pub open spec fn min3(x: nat, y: nat, z: nat) -> nat {
    if x <= y && x <= z { x } else if y <= z { y } else { z }
}

/// Levenshtein distance between the first `i` characters of `a` and the
/// first `j` characters of `b`.
pub open spec fn prefix_distance(a: Seq<char>, b: Seq<char>, i: nat, j: nat) -> nat
    decreases i + j,
{
    if i == 0 {
        j
    } else if j == 0 {
        i
    } else {
        min3(
            prefix_distance(a, b, (i - 1) as nat, j) + 1,
            prefix_distance(a, b, i, (j - 1) as nat) + 1,
            prefix_distance(a, b, (i - 1) as nat, (j - 1) as nat) + char_cost(a[i - 1], b[j - 1]),
        )
    }
}

/// Levenshtein distance (unit-cost substitutions, deletions, insertions).
pub open spec fn edit_distance(a: Seq<char>, b: Seq<char>) -> nat {
    prefix_distance(a, b, a.len(), b.len())
}

/// The substitution, deletion and insertion counts that the backtrace over
/// the distance table collects from cell `(i, j)` back to the origin: a
/// match is followed first, then a substitution, then a deletion, and an
/// insertion last.
pub open spec fn backtrace(a: Seq<char>, b: Seq<char>, i: nat, j: nat) -> (nat, nat, nat)
    decreases i + j,
{
    if i > 0 && j > 0 && a[i - 1] == b[j - 1] {
        backtrace(a, b, (i - 1) as nat, (j - 1) as nat)
    } else if i > 0 && j > 0 && prefix_distance(a, b, i, j) == prefix_distance(a, b, (i - 1) as nat, (j - 1) as nat) + 1 {
        let r = backtrace(a, b, (i - 1) as nat, (j - 1) as nat);
        (r.0 + 1, r.1, r.2)
    } else if i > 0 && prefix_distance(a, b, i, j) == prefix_distance(a, b, (i - 1) as nat, j) + 1 {
        let r = backtrace(a, b, (i - 1) as nat, j);
        (r.0, r.1 + 1, r.2)
    } else if j > 0 {
        let r = backtrace(a, b, i, (j - 1) as nat);
        (r.0, r.1, r.2 + 1)
    } else {
        (0, 0, 0)
    }
}

proof fn lemma_backtrace_empty_reference(a: Seq<char>, b: Seq<char>, j: nat)
    ensures
        backtrace(a, b, 0, j) == (0nat, 0nat, j),
    decreases j,
{
    if j > 0 {
        lemma_backtrace_empty_reference(a, b, (j - 1) as nat);
    }
}

proof fn lemma_backtrace_empty_hypothesis(a: Seq<char>, b: Seq<char>, i: nat)
    ensures
        backtrace(a, b, i, 0) == (0nat, i, 0nat),
    decreases i,
{
    if i > 0 {
        lemma_backtrace_empty_hypothesis(a, b, (i - 1) as nat);
    }
}

impl CerStats {
    /// Total number of edit operations, `S + D + I`.
    pub fn edits(&self) -> (e: usize)
        requires
            self.substitutions + self.deletions + self.insertions <= usize::MAX,
        ensures
            e == self.substitutions + self.deletions + self.insertions,
    {
        self.substitutions + self.deletions + self.insertions
    }
}

proof fn lemma_distance_upper_bound(a: Seq<char>, b: Seq<char>, i: nat, j: nat)
    ensures
        prefix_distance(a, b, i, j) <= if i >= j { i } else { j },
    decreases i + j,
{
    if i > 0 && j > 0 {
        lemma_distance_upper_bound(a, b, (i - 1) as nat, (j - 1) as nat);
    }
}

/// Deleting the last reference character changes the distance by at most one.
proof fn lemma_drop_reference_step(a: Seq<char>, b: Seq<char>, i: nat, j: nat)
    requires
        i >= 1,
    ensures
        prefix_distance(a, b, (i - 1) as nat, j) <= prefix_distance(a, b, i, j) + 1,
        prefix_distance(a, b, i, j) <= prefix_distance(a, b, (i - 1) as nat, j) + 1,
    decreases i + j,
{
    if j >= 1 {
        lemma_drop_reference_step(a, b, i, (j - 1) as nat);
        if i >= 2 {
            lemma_drop_reference_step(a, b, (i - 1) as nat, j);
            lemma_drop_reference_step(a, b, (i - 1) as nat, (j - 1) as nat);
        }
        lemma_drop_hypothesis_step(a, b, (i - 1) as nat, j);
        lemma_drop_hypothesis_step(a, b, i, j);
    }
}

/// Deleting the last hypothesis character changes the distance by at most one.
proof fn lemma_drop_hypothesis_step(a: Seq<char>, b: Seq<char>, i: nat, j: nat)
    requires
        j >= 1,
    ensures
        prefix_distance(a, b, i, (j - 1) as nat) <= prefix_distance(a, b, i, j) + 1,
        prefix_distance(a, b, i, j) <= prefix_distance(a, b, i, (j - 1) as nat) + 1,
    decreases i + j,
{
    if i >= 1 {
        lemma_drop_hypothesis_step(a, b, (i - 1) as nat, j);
        if j >= 2 {
            lemma_drop_hypothesis_step(a, b, i, (j - 1) as nat);
            lemma_drop_hypothesis_step(a, b, (i - 1) as nat, (j - 1) as nat);
        }
    }
}

/// When the last characters agree, they are matched for free.
proof fn lemma_equal_last_chars(a: Seq<char>, b: Seq<char>, i: nat, j: nat)
    requires
        i >= 1,
        j >= 1,
        a[i - 1] == b[j - 1],
    ensures
        prefix_distance(a, b, i, j) == prefix_distance(a, b, (i - 1) as nat, (j - 1) as nat),
{
    lemma_drop_hypothesis_step(a, b, (i - 1) as nat, j);
    lemma_drop_reference_step(a, b, i, (j - 1) as nat);
}

proof fn lemma_prefix_distance_symmetric(a: Seq<char>, b: Seq<char>, i: nat, j: nat)
    ensures
        prefix_distance(a, b, i, j) == prefix_distance(b, a, j, i),
    decreases i + j,
{
    if i > 0 && j > 0 {
        lemma_prefix_distance_symmetric(a, b, (i - 1) as nat, j);
        lemma_prefix_distance_symmetric(a, b, i, (j - 1) as nat);
        lemma_prefix_distance_symmetric(a, b, (i - 1) as nat, (j - 1) as nat);
    }
}

proof fn lemma_prefix_distance_lower_bound(a: Seq<char>, b: Seq<char>, i: nat, j: nat)
    ensures
        prefix_distance(a, b, i, j) >= if i >= j { i - j } else { j - i },
    decreases i + j,
{
    if i > 0 && j > 0 {
        lemma_prefix_distance_lower_bound(a, b, (i - 1) as nat, j);
        lemma_prefix_distance_lower_bound(a, b, i, (j - 1) as nat);
        lemma_prefix_distance_lower_bound(a, b, (i - 1) as nat, (j - 1) as nat);
    }
}

proof fn lemma_prefix_distance_zero(a: Seq<char>, b: Seq<char>, i: nat, j: nat)
    requires
        i <= a.len(),
        j <= b.len(),
    ensures
        prefix_distance(a, b, i, j) == 0 <==> (i == j && a.take(i as int) =~= b.take(j as int)),
    decreases i + j,
{
    if i > 0 && j > 0 {
        lemma_prefix_distance_zero(a, b, (i - 1) as nat, (j - 1) as nat);
        lemma_prefix_distance_lower_bound(a, b, (i - 1) as nat, j);
        lemma_prefix_distance_lower_bound(a, b, i, (j - 1) as nat);
        if prefix_distance(a, b, i, j) == 0 {
            assert(a[i - 1] == b[j - 1]);
            assert forall|k: int| 0 <= k < i implies #[trigger] a.take(i as int)[k] == b.take(
                j as int,
            )[k] by {
                if k < i - 1 {
                    assert(a.take((i - 1) as int)[k] == b.take((j - 1) as int)[k]);
                }
            }
        }
        if i == j && a.take(i as int) =~= b.take(j as int) {
            assert(a.take((i - 1) as int) =~= b.take((j - 1) as int)) by {
                assert forall|k: int| 0 <= k < i - 1 implies #[trigger] a.take((i - 1) as int)[k]
                    == b.take((j - 1) as int)[k] by {
                    assert(a.take(i as int)[k] == b.take(j as int)[k]);
                }
            }
            assert(a.take(i as int)[i - 1] == b.take(j as int)[j - 1]);
        }
    }
}

/// The edit distance is symmetric: turning the hypothesis into the reference
/// costs as much as the converse.
pub proof fn lemma_edit_distance_symmetric(a: Seq<char>, b: Seq<char>)
    ensures
        edit_distance(a, b) == edit_distance(b, a),
{
    lemma_prefix_distance_symmetric(a, b, a.len(), b.len());
}

/// The edit distance is zero exactly when the two texts are identical.
pub proof fn lemma_edit_distance_zero_iff_equal(a: Seq<char>, b: Seq<char>)
    ensures
        edit_distance(a, b) == 0 <==> a == b,
{
    lemma_prefix_distance_zero(a, b, a.len(), b.len());
    assert(a.take(a.len() as int) =~= a);
    assert(b.take(b.len() as int) =~= b);
}

/// The edit distance lies between the difference of the lengths and the
/// longer length.
pub proof fn lemma_edit_distance_bounds(a: Seq<char>, b: Seq<char>)
    ensures
        edit_distance(a, b) >= if a.len() >= b.len() { a.len() - b.len() } else { b.len() - a.len() },
        edit_distance(a, b) <= if a.len() >= b.len() { a.len() } else { b.len() },
{
    lemma_prefix_distance_lower_bound(a, b, a.len(), b.len());
    lemma_distance_upper_bound(a, b, a.len(), b.len());
}

/// Computes the substitution, deletion and insertion counts of a minimal
/// alignment by dynamic programming and a backtrace that prefers matches,
/// then substitutions, then deletions.
fn levenshtein_ops(reference: &Vec<char>, hypothesis: &Vec<char>) -> (ops: (usize, usize, usize))
    ensures
        ops.0 + ops.1 + ops.2 == edit_distance(reference@, hypothesis@),
        ops.0 + ops.1 <= reference@.len(),
        reference@.len() - ops.1 == hypothesis@.len() - ops.2,
        (ops.0 as nat, ops.1 as nat, ops.2 as nat) == backtrace(reference@, hypothesis@, reference@.len(), hypothesis@.len()),
{
    let n = reference.len();
    let m = hypothesis.len();
    let ghost a = reference@;
    let ghost b = hypothesis@;
    if n == 0 {
        proof {
            lemma_backtrace_empty_reference(a, b, m as nat);
        }
        return (0, 0, m);
    }
    if m == 0 {
        proof {
            lemma_backtrace_empty_hypothesis(a, b, n as nat);
        }
        return (0, n, 0);
    }
    let mut dp: Vec<Vec<usize>> = Vec::new();
    let mut first: Vec<usize> = Vec::new();
    let mut j: usize = 0;
    while j < m
        invariant
            m == b.len(),
            j <= m,
            first@.len() == j,
            forall|c: int| 0 <= c < j ==> first@[c] == prefix_distance(a, b, 0, c as nat),
        decreases m - j,
    {
        first.push(j);
        j = j + 1;
    }
    first.push(m);
    assert(forall|c: int| 0 <= c <= m ==> first@[c] == prefix_distance(a, b, 0, c as nat));
    dp.push(first);
    let mut k: usize = 0;
    while k < n
        invariant
            n == a.len(),
            m == b.len(),
            a == reference@,
            b == hypothesis@,
            k <= n,
            dp@.len() == k + 1,
            forall|r: int| #![trigger dp@[r]] 0 <= r <= k ==> dp@[r]@.len() == m + 1,
            forall|r: int, c: int|
                0 <= r <= k && 0 <= c <= m ==> #[trigger] dp@[r]@[c] == prefix_distance(
                    a,
                    b,
                    r as nat,
                    c as nat,
                ),
        decreases n - k,
    {
        let i = k + 1;
        let mut row: Vec<usize> = Vec::new();
        row.push(i);
        let mut t: usize = 0;
        while t < m
            invariant
                n == a.len(),
                m == b.len(),
                a == reference@,
                b == hypothesis@,
                1 <= i <= n,
                i == k + 1,
                t <= m,
                dp@.len() == i,
                forall|r: int| #![trigger dp@[r]] 0 <= r < i ==> dp@[r]@.len() == m + 1,
                forall|r: int, c: int|
                    0 <= r < i && 0 <= c <= m ==> #[trigger] dp@[r]@[c] == prefix_distance(
                        a,
                        b,
                        r as nat,
                        c as nat,
                    ),
                row@.len() == t + 1,
                forall|c: int|
                    0 <= c <= t ==> #[trigger] row@[c] == prefix_distance(a, b, i as nat, c as nat),
            decreases m - t,
        {
            let j = t + 1;
            let up = dp[i - 1][j];
            let left = row[j - 1];
            let diag = dp[i - 1][j - 1];
            let cost: usize = if reference[i - 1] != hypothesis[j - 1] { 1 } else { 0 };
            let deletion = up.saturating_add(1);
            let insertion = left.saturating_add(1);
            let replace = diag.saturating_add(cost);
            let mut best = deletion;
            if insertion < best {
                best = insertion;
            }
            if replace < best {
                best = replace;
            }
            proof {
                lemma_distance_upper_bound(a, b, i as nat, j as nat);
                assert(prefix_distance(a, b, i as nat, j as nat) <= usize::MAX);
            }
            row.push(best);
            t = t + 1;
        }
        dp.push(row);
        k = k + 1;
    }
    let mut i: usize = n;
    let mut j: usize = m;
    let mut substitutions: usize = 0;
    let mut deletions: usize = 0;
    let mut insertions: usize = 0;
    let ghost mut matched: nat = 0;
    while i > 0 || j > 0
        invariant
            n == a.len(),
            m == b.len(),
            a == reference@,
            b == hypothesis@,
            i <= n,
            j <= m,
            dp@.len() == n + 1,
            forall|r: int| #![trigger dp@[r]] 0 <= r <= n ==> dp@[r]@.len() == m + 1,
            forall|r: int, c: int|
                0 <= r <= n && 0 <= c <= m ==> #[trigger] dp@[r]@[c] == prefix_distance(
                    a,
                    b,
                    r as nat,
                    c as nat,
                ),
            substitutions + deletions + insertions + prefix_distance(a, b, i as nat, j as nat)
                == prefix_distance(a, b, n as nat, m as nat),
            n - i == matched + substitutions + deletions,
            m - j == matched + substitutions + insertions,
            backtrace(a, b, n as nat, m as nat).0 == substitutions + backtrace(a, b, i as nat, j as nat).0,
            backtrace(a, b, n as nat, m as nat).1 == deletions + backtrace(a, b, i as nat, j as nat).1,
            backtrace(a, b, n as nat, m as nat).2 == insertions + backtrace(a, b, i as nat, j as nat).2,
        decreases i + j,
    {
        if i > 0 && j > 0 && reference[i - 1] == hypothesis[j - 1] {
            proof {
                lemma_equal_last_chars(a, b, i as nat, j as nat);
                matched = matched + 1;
            }
            i = i - 1;
            j = j - 1;
            continue;
        }
        if i > 0 && j > 0 {
            proof {
                lemma_distance_upper_bound(a, b, (i - 1) as nat, (j - 1) as nat);
            }
            if dp[i][j] == dp[i - 1][j - 1] + 1 {
                substitutions = substitutions + 1;
                i = i - 1;
                j = j - 1;
                continue;
            }
        }
        if i > 0 {
            proof {
                lemma_distance_upper_bound(a, b, (i - 1) as nat, j as nat);
            }
            if dp[i][j] == dp[i - 1][j] + 1 {
                deletions = deletions + 1;
                i = i - 1;
                continue;
            }
        }
        insertions = insertions + 1;
        j = j - 1;
    }
    (substitutions, deletions, insertions)
}

/// Character-level edit statistics between `reference` and `hypothesis`.
pub fn compute_cer(reference: &str, hypothesis: &str) -> (stats: CerStats)
    ensures
        stats.reference_chars == reference@.len(),
        (stats.substitutions as nat, stats.deletions as nat, stats.insertions as nat) == backtrace(
            reference@,
            hypothesis@,
            reference@.len(),
            hypothesis@.len(),
        ),
        stats.substitutions + stats.deletions + stats.insertions == edit_distance(
            reference@,
            hypothesis@,
        ),
        stats.substitutions + stats.deletions <= reference@.len(),
        reference@.len() - stats.deletions == hypothesis@.len() - stats.insertions,
{
    let reference_chars = chars_of(reference);
    let hypothesis_chars = chars_of(hypothesis);
    let (substitutions, deletions, insertions) = levenshtein_ops(
        &reference_chars,
        &hypothesis_chars,
    );
    CerStats { substitutions, deletions, insertions, reference_chars: reference_chars.len() }
}

/// Whether normalization keeps `c`: punctuation is always dropped, white
/// space is dropped when `remove_spaces` is set.
pub open spec fn kept_for_cer(c: char, remove_spaces: bool) -> bool {
    !spec_is_punctuation(c) && (!remove_spaces || !spec_is_whitespace(c))
}

/// The characters of `text` that normalization keeps, in order.
pub open spec fn normalized_for_cer(text: Seq<char>, remove_spaces: bool) -> Seq<char>
    decreases text.len(),
{
    if text.len() == 0 {
        Seq::empty()
    } else {
        let rest = normalized_for_cer(text.drop_last(), remove_spaces);
        if kept_for_cer(text.last(), remove_spaces) {
            rest.push(text.last())
        } else {
            rest
        }
    }
}

/// Removes punctuation, and white space when `remove_spaces` is set.
pub fn normalize_for_cer(text: &str, remove_spaces: bool) -> (normalized: String)
    ensures
        normalized@ == normalized_for_cer(text@, remove_spaces),
        forall|c: char|
            !spec_is_punctuation(c) && !(remove_spaces && spec_is_whitespace(c)) ==> #[trigger] occurrences(
                normalized@,
                c,
            ) == occurrences(text@, c),
{
    proof {
        lemma_normalize_for_cer_drops_only_punctuation(text@, remove_spaces);
    }
    let chars = chars_of(text);
    let mut kept: Vec<char> = Vec::new();
    let mut i: usize = 0;
    while i < chars.len()
        invariant
            i <= chars@.len(),
            kept@ == normalized_for_cer(chars@.take(i as int), remove_spaces),
        decreases chars@.len() - i,
    {
        let ch = chars[i];
        let keep = !is_punctuation(ch) && (!remove_spaces || !is_whitespace(ch));
        proof {
            assert(chars@.take(i + 1).drop_last() =~= chars@.take(i as int));
        }
        if keep {
            kept.push(ch);
        }
        i = i + 1;
    }
    proof {
        assert(chars@.take(chars@.len() as int) =~= chars@);
    }
    string_from_chars(kept.as_slice())
}

proof fn lemma_normalized_chars_kept(text: Seq<char>, remove_spaces: bool)
    ensures
        forall|k: int|
            0 <= k < normalized_for_cer(text, remove_spaces).len() ==> kept_for_cer(
                #[trigger] normalized_for_cer(text, remove_spaces)[k],
                remove_spaces,
            ),
    decreases text.len(),
{
    if text.len() > 0 {
        lemma_normalized_chars_kept(text.drop_last(), remove_spaces);
        let rest = normalized_for_cer(text.drop_last(), remove_spaces);
        let all = normalized_for_cer(text, remove_spaces);
        assert forall|k: int| 0 <= k < all.len() implies kept_for_cer(
            #[trigger] all[k],
            remove_spaces,
        ) by {
            if k < rest.len() {
                assert(all[k] == rest[k]);
            }
        }
    }
}

proof fn lemma_normalize_all_kept(text: Seq<char>, remove_spaces: bool)
    requires
        forall|k: int| 0 <= k < text.len() ==> kept_for_cer(#[trigger] text[k], remove_spaces),
    ensures
        normalized_for_cer(text, remove_spaces) == text,
    decreases text.len(),
{
    if text.len() > 0 {
        lemma_normalize_all_kept(text.drop_last(), remove_spaces);
        assert(text.drop_last().push(text.last()) =~= text);
    }
}

/// Normalizing for CER is idempotent: a normalized text is left unchanged.
pub proof fn lemma_normalize_for_cer_idempotent(text: Seq<char>, remove_spaces: bool)
    ensures
        normalized_for_cer(normalized_for_cer(text, remove_spaces), remove_spaces)
            == normalized_for_cer(text, remove_spaces),
{
    lemma_normalized_chars_kept(text, remove_spaces);
    lemma_normalize_all_kept(normalized_for_cer(text, remove_spaces), remove_spaces);
}

/// How many times `c` occurs in `s`.
pub open spec fn occurrences(s: Seq<char>, c: char) -> nat
    decreases s.len(),
{
    if s.len() == 0 {
        0
    } else {
        occurrences(s.drop_last(), c) + if s.last() == c {
            1nat
        } else {
            0nat
        }
    }
}

/// Normalizing for CER drops exactly the punctuation, and the white space
/// when `remove_spaces` is set: no dropped character is left, every other
/// character keeps all its occurrences, and a text with nothing to drop
/// comes back unchanged.
pub proof fn lemma_normalize_for_cer_drops_only_punctuation(text: Seq<char>, remove_spaces: bool)
    ensures
        forall|k: int|
            0 <= k < normalized_for_cer(text, remove_spaces).len() ==> !spec_is_punctuation(
                #[trigger] normalized_for_cer(text, remove_spaces)[k],
            ) && !(remove_spaces && spec_is_whitespace(normalized_for_cer(text, remove_spaces)[k])),
        forall|c: char|
            !spec_is_punctuation(c) && !(remove_spaces && spec_is_whitespace(c)) ==> #[trigger] occurrences(
                normalized_for_cer(text, remove_spaces),
                c,
            ) == occurrences(text, c),
        (forall|k: int|
            0 <= k < text.len() ==> !spec_is_punctuation(#[trigger] text[k]) && !(remove_spaces
                && spec_is_whitespace(text[k]))) ==> normalized_for_cer(text, remove_spaces) == text,
    decreases text.len(),
{
    lemma_normalized_chars_kept(text, remove_spaces);
    if text.len() > 0 {
        lemma_normalize_for_cer_drops_only_punctuation(text.drop_last(), remove_spaces);
        let rest = normalized_for_cer(text.drop_last(), remove_spaces);
        let all = normalized_for_cer(text, remove_spaces);
        assert forall|c: char|
            !spec_is_punctuation(c) && !(remove_spaces && spec_is_whitespace(c)) implies #[trigger] occurrences(
            all,
            c,
        ) == occurrences(text, c) by {
            assert(occurrences(rest, c) == occurrences(text.drop_last(), c));
            if kept_for_cer(text.last(), remove_spaces) {
                assert(all == rest.push(text.last()));
                assert(all.drop_last() =~= rest);
                assert(all.last() == text.last());
            } else {
                assert(all == rest);
                assert(text.last() != c);
            }
        }
        if forall|k: int|
            0 <= k < text.len() ==> !spec_is_punctuation(#[trigger] text[k]) && !(remove_spaces && spec_is_whitespace(
                text[k],
            )) {
            assert forall|k: int| 0 <= k < text.len() implies kept_for_cer(#[trigger] text[k], remove_spaces) by {}
            lemma_normalize_all_kept(text, remove_spaces);
        }
    } else {
        assert(normalized_for_cer(text, remove_spaces) =~= text);
    }
}

} // verus!
