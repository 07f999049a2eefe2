//! Speaker diarization scoring: reference and predicted speaker turns are
//! cut at every boundary, speaker time is counted per window, and speakers
//! are paired by the assignment of largest overlap.

use vstd::prelude::*;

use crate::assignment::{
    assignment_weight, cap, column_count, is_assignment, maximum_weight_assignment, rectangular, saturating_mul_u64,
};
use crate::optimum::{largest_assignment_weight, lemma_largest_assignment_weight};
use crate::speaker_laws::{lemma_speaker_identities, no_self_overlap};
use crate::ordered::{lemma_text_lt_trichotomy, strictly_sorted, TextSet};

verus! {

/// A speaker turn: who speaks, and when, in milliseconds.
#[derive(Debug, Clone, PartialEq, Eq)]
pub struct SpeakerSpan {
    pub label: String,
    pub start_ms: u64,
    pub end_ms: u64,
}

/// Whether a turn overlaps the window `[start, end)`.
pub open spec fn is_active(span: SpeakerSpan, start: u64, end: u64) -> bool {
    span.start_ms < end && span.end_ms > start
}

/// The number of turns overlapping the window.
pub open spec fn active_count(spans: Seq<SpeakerSpan>, start: u64, end: u64) -> nat
    decreases spans.len(),
{
    if spans.len() == 0 {
        0
    } else {
        active_count(spans.drop_last(), start, end) + if is_active(spans.last(), start, end) { 1nat } else { 0nat }
    }
}

/// The number of turns of `label` overlapping the window.
pub open spec fn label_active_count(spans: Seq<SpeakerSpan>, label: Seq<char>, start: u64, end: u64) -> nat
    decreases spans.len(),
{
    if spans.len() == 0 {
        0
    } else {
        label_active_count(spans.drop_last(), label, start, end) + if is_active(spans.last(), start, end)
            && spans.last().label@ == label {
            1nat
        } else {
            0nat
        }
    }
}

/// Whether `x` is the start or the end of some turn.
pub open spec fn is_endpoint(spans: Seq<SpeakerSpan>, x: u64) -> bool {
    exists|i: int| 0 <= i < spans.len() && (spans[i].start_ms == x || spans[i].end_ms == x)
}

/// Strictly increasing.
pub open spec fn increasing(b: Seq<u64>) -> bool {
    forall|i: int, j: int| 0 <= i < j < b.len() ==> b[i] < b[j]
}

/// Two strictly increasing sequences with the same members are equal.
pub proof fn lemma_increasing_unique(a: Seq<u64>, b: Seq<u64>)
    requires
        increasing(a),
        increasing(b),
        forall|x: u64| a.contains(x) <==> b.contains(x),
    ensures
        a == b,
    decreases a.len(),
{
    if a.len() == 0 {
        if b.len() > 0 {
            assert(b.contains(b[0]));
        }
        assert(a =~= b);
    } else {
        assert(a.contains(a[0]));
        assert(b.contains(a[0]));
        let j = choose|j: int| 0 <= j < b.len() && b[j] == a[0];
        assert(b.contains(b[0]));
        assert(a.contains(b[0]));
        let i = choose|i: int| 0 <= i < a.len() && a[i] == b[0];
        if i > 0 {
            assert(a[0] < a[i]);
        }
        if j > 0 {
            assert(b[0] < b[j]);
        }
        assert(a[0] == b[0]);
        let a1 = a.drop_first();
        let b1 = b.drop_first();
        assert forall|x: u64| a1.contains(x) <==> b1.contains(x) by {
            if a1.contains(x) {
                let k = choose|k: int| 0 <= k < a1.len() && a1[k] == x;
                assert(a[k + 1] == x);
                assert(a[0] < x);
                assert(a.contains(x));
                let m = choose|m: int| 0 <= m < b.len() && b[m] == x;
                assert(m != 0);
                assert(b1[m - 1] == x);
            }
            if b1.contains(x) {
                let k = choose|k: int| 0 <= k < b1.len() && b1[k] == x;
                assert(b[k + 1] == x);
                assert(b[0] < x);
                assert(b.contains(x));
                let m = choose|m: int| 0 <= m < a.len() && a[m] == x;
                assert(m != 0);
                assert(a1[m - 1] == x);
            }
        }
        lemma_increasing_unique(a1, b1);
        assert(a =~= seq![a[0]] + a1);
        assert(b =~= seq![b[0]] + b1);
    }
}

/// Every start and end of the turns, ascending, each once.
pub open spec fn boundaries(reference: Seq<SpeakerSpan>, prediction: Seq<SpeakerSpan>) -> Seq<u64> {
    choose|b: Seq<u64>|
        increasing(b) && forall|x: u64| b.contains(x) <==> (is_endpoint(reference, x) || is_endpoint(prediction, x))
}

/// Inserts `x` into the strictly increasing `b` unless present.
fn insert_sorted(b: &mut Vec<u64>, x: u64)
    requires
        increasing(old(b)@),
    ensures
        increasing(final(b)@),
        forall|y: u64| #[trigger] final(b)@.contains(y) <==> (old(b)@.contains(y) || y == x),
{
    let mut pos: usize = 0;
    while pos < b.len() && b[pos] < x
        invariant
            pos <= b@.len(),
            increasing(b@),
            b@ == old(b)@,
            forall|k: int| 0 <= k < pos ==> b@[k] < x,
        decreases b@.len() - pos,
    {
        pos = pos + 1;
    }
    if pos < b.len() && b[pos] == x {
        assert(b@[pos as int] == x);
        return;
    }
    let ghost before = b@;
    b.insert(pos, x);
    proof {
        assert(b@ == before.insert(pos as int, x));
        assert(before == old(b)@);
        assert forall|i: int, j: int| 0 <= i < j < b@.len() implies b@[i] < b@[j] by {
            if j < pos {
                assert(b@[i] == before[i] && b@[j] == before[j]);
            } else if j == pos {
                assert(b@[i] == before[i]);
            } else if i < pos {
                assert(b@[i] == before[i] && b@[j] == before[j - 1]);
                assert(before[pos as int] > x);
                if j - 1 > pos {
                    assert(before[pos as int] < before[j - 1]);
                }
            } else if i == pos {
                assert(b@[j] == before[j - 1]);
                assert(before[pos as int] > x);
                if j - 1 > pos {
                    assert(before[pos as int] < before[j - 1]);
                }
            } else {
                assert(b@[i] == before[i - 1] && b@[j] == before[j - 1]);
            }
        }
        assert forall|y: u64| #[trigger] b@.contains(y) <==> (old(b)@.contains(y) || y == x) by {
            if b@.contains(y) {
                let k = choose|k: int| 0 <= k < b@.len() && b@[k] == y;
                if k < pos {
                    assert(before[k] == y);
                } else if k > pos {
                    assert(before[k - 1] == y);
                }
            }
            if before.contains(y) {
                let k = choose|k: int| 0 <= k < before.len() && before[k] == y;
                if k < pos {
                    assert(b@[k] == y);
                } else {
                    assert(b@[k + 1] == y);
                }
            }
            if y == x {
                assert(b@[pos as int] == y);
            }
        }
    }
}

/// Adds the starts and ends of `spans` to the strictly increasing `b`.
fn insert_endpoints(b: &mut Vec<u64>, spans: &[SpeakerSpan])
    requires
        increasing(old(b)@),
    ensures
        increasing(final(b)@),
        forall|y: u64| #[trigger] final(b)@.contains(y) <==> (old(b)@.contains(y) || is_endpoint(spans@, y)),
{
    let mut i: usize = 0;
    while i < spans.len()
        invariant
            i <= spans@.len(),
            increasing(b@),
            forall|y: u64| #[trigger] b@.contains(y) <==> (old(b)@.contains(y) || is_endpoint(spans@.take(i as int), y)),
        decreases spans@.len() - i,
    {
        insert_sorted(b, spans[i].start_ms);
        insert_sorted(b, spans[i].end_ms);
        proof {
            let s1 = spans@.take(i + 1);
            let s0 = spans@.take(i as int);
            assert forall|y: u64| is_endpoint(s1, y) <==> (is_endpoint(s0, y) || y == spans@[i as int].start_ms
                || y == spans@[i as int].end_ms) by {
                if is_endpoint(s1, y) {
                    let k = choose|k: int| 0 <= k < s1.len() && (#[trigger] s1[k].start_ms == y || s1[k].end_ms == y);
                    if k < i {
                        assert(s0[k] == s1[k]);
                    }
                }
                if is_endpoint(s0, y) {
                    let k = choose|k: int| 0 <= k < s0.len() && (#[trigger] s0[k].start_ms == y || s0[k].end_ms == y);
                    assert(s1[k] == s0[k]);
                }
                if y == spans@[i as int].start_ms || y == spans@[i as int].end_ms {
                    assert(s1[i as int] == spans@[i as int]);
                }
            }
        }
        i = i + 1;
    }
    assert(spans@.take(spans@.len() as int) =~= spans@);
}

/// Every start and end of the turns, ascending, each once.
pub fn sorted_boundaries(reference: &[SpeakerSpan], prediction: &[SpeakerSpan]) -> (b: Vec<u64>)
    ensures
        b@ == boundaries(reference@, prediction@),
        increasing(b@),
        forall|x: u64| #[trigger] b@.contains(x) <==> (is_endpoint(reference@, x) || is_endpoint(prediction@, x)),
{
    let mut b: Vec<u64> = Vec::new();
    let ghost empty = b@;
    assert(forall|y: u64| !empty.contains(y));
    insert_endpoints(&mut b, reference);
    let ghost middle = b@;
    insert_endpoints(&mut b, prediction);
    assert forall|y: u64| #[trigger] b@.contains(y) <==> (is_endpoint(reference@, y) || is_endpoint(prediction@, y)) by {
        assert(b@.contains(y) <==> (middle.contains(y) || is_endpoint(prediction@, y)));
        assert(middle.contains(y) <==> (empty.contains(y) || is_endpoint(reference@, y)));
    }
    proof {
        let w = boundaries(reference@, prediction@);
        assert(increasing(b@) && forall|x: u64| b@.contains(x) <==> (is_endpoint(reference@, x) || is_endpoint(prediction@, x)));
        lemma_increasing_unique(b@, w);
    }
    b
}

/// Speaker time of one source on one timeline, in milliseconds.
#[derive(Debug, Clone, Copy, PartialEq, Eq, Structural, Default)]
pub struct SpeakerStats {
    pub reference_speaker_ms: u64,
    pub predicted_speaker_ms: u64,
    pub correct_speaker_ms: u64,
    pub missed_speaker_ms: u64,
    pub false_alarm_ms: u64,
    pub speaker_confusion_ms: u64,
}

/// The length of the window `[start, end)`, 0 when it is empty.
pub open spec fn duration(start: u64, end: u64) -> int {
    if end > start { end - start } else { 0 }
}

/// The sum of `term` over consecutive boundary windows.
pub open spec fn windows_sum(b: Seq<u64>, term: spec_fn(u64, u64) -> int) -> int
    decreases b.len(),
{
    if b.len() < 2 {
        0
    } else {
        windows_sum(b.drop_last(), term) + term(b[b.len() - 2], b[b.len() - 1])
    }
}

/// Speaker time: each window's length times the turns active in it.
pub open spec fn speech_term(spans: Seq<SpeakerSpan>) -> spec_fn(u64, u64) -> int {
    |s: u64, e: u64| duration(s, e) * active_count(spans, s, e)
}

/// Missed speech: the reference turns in excess of predicted ones.
pub open spec fn missed_term(reference: Seq<SpeakerSpan>, prediction: Seq<SpeakerSpan>) -> spec_fn(u64, u64) -> int {
    |s: u64, e: u64|
        duration(s, e) * if active_count(reference, s, e) > active_count(prediction, s, e) {
            active_count(reference, s, e) - active_count(prediction, s, e)
        } else {
            0
        }
}

/// Paired speech: the smaller of the active reference and predicted counts.
pub open spec fn paired_term(reference: Seq<SpeakerSpan>, prediction: Seq<SpeakerSpan>) -> spec_fn(u64, u64) -> int {
    |s: u64, e: u64|
        duration(s, e) * if active_count(reference, s, e) < active_count(prediction, s, e) {
            active_count(reference, s, e) as int
        } else {
            active_count(prediction, s, e) as int
        }
}

/// Overlap of a reference speaker with a predicted speaker.
pub open spec fn overlap_term(
    reference: Seq<SpeakerSpan>,
    prediction: Seq<SpeakerSpan>,
    reference_label: Seq<char>,
    predicted_label: Seq<char>,
) -> spec_fn(u64, u64) -> int {
    |s: u64, e: u64|
        duration(s, e) * label_active_count(reference, reference_label, s, e) * label_active_count(
            prediction,
            predicted_label,
            s,
            e,
        )
}

/// The capped overlap time of two speakers over all windows.
pub open spec fn speaker_overlap(
    reference: Seq<SpeakerSpan>,
    prediction: Seq<SpeakerSpan>,
    reference_label: Seq<char>,
    predicted_label: Seq<char>,
) -> u64 {
    cap(windows_sum(boundaries(reference, prediction), overlap_term(reference, prediction, reference_label, predicted_label)))
}

/// Whether some turn carries `label`.
pub open spec fn has_label(spans: Seq<SpeakerSpan>, label: Seq<char>) -> bool {
    exists|i: int| 0 <= i < spans.len() && spans[i].label@ == label
}

/// Pairs of a reference and a predicted speaker, each used at most once.
pub open spec fn is_speaker_pairing(
    pairs: Seq<(Seq<char>, Seq<char>)>,
    reference: Seq<SpeakerSpan>,
    prediction: Seq<SpeakerSpan>,
) -> bool {
    &&& forall|k: int|
        0 <= k < pairs.len() ==> has_label(reference, (#[trigger] pairs[k]).0) && has_label(prediction, pairs[k].1)
    &&& forall|k: int, l: int|
        0 <= k < l < pairs.len() ==> (#[trigger] pairs[k]).0 != (#[trigger] pairs[l]).0 && pairs[k].1 != pairs[l].1
}

/// The summed overlap of paired speakers.
pub open spec fn pairing_overlap(
    pairs: Seq<(Seq<char>, Seq<char>)>,
    reference: Seq<SpeakerSpan>,
    prediction: Seq<SpeakerSpan>,
) -> int
    decreases pairs.len(),
{
    if pairs.len() == 0 {
        0
    } else {
        pairing_overlap(pairs.drop_last(), reference, prediction) + speaker_overlap(
            reference,
            prediction,
            pairs.last().0,
            pairs.last().1,
        ) as int
    }
}

/// A pairing of speakers whose summed overlap no other pairing exceeds.
pub open spec fn is_best_speaker_pairing(
    pairs: Seq<(Seq<char>, Seq<char>)>,
    reference: Seq<SpeakerSpan>,
    prediction: Seq<SpeakerSpan>,
) -> bool {
    &&& is_speaker_pairing(pairs, reference, prediction)
    &&& forall|other: Seq<(Seq<char>, Seq<char>)>|
        #[trigger] is_speaker_pairing(other, reference, prediction) ==> pairing_overlap(other, reference, prediction)
            <= pairing_overlap(pairs, reference, prediction)
}

/// The number of turns overlapping `[start, end)`.
fn count_active(spans: &[SpeakerSpan], start: u64, end: u64) -> (n: u64)
    ensures
        n == active_count(spans@, start, end),
{
    let mut n: u64 = 0;
    let mut i: usize = 0;
    while i < spans.len()
        invariant
            i <= spans@.len(),
            n == active_count(spans@.take(i as int), start, end),
            n <= i,
        decreases spans@.len() - i,
    {
        assert(spans@.take(i + 1).drop_last() =~= spans@.take(i as int));
        if spans[i].start_ms < end && spans[i].end_ms > start {
            n = n + 1;
        }
        i = i + 1;
    }
    assert(spans@.take(spans@.len() as int) =~= spans@);
    n
}

/// The distinct labels of the turns, ascending, and each turn's label
/// position among them.
fn label_positions(spans: &[SpeakerSpan]) -> (out: (TextSet, Vec<usize>))
    ensures
        out.0.wf(),
        out.1@.len() == spans@.len(),
        forall|i: int|
            0 <= i < spans@.len() ==> out.1@[i] < out.0.view_seq().len() && out.0.view_seq()[#[trigger] out.1@[i] as int]
                == spans@[i].label@,
        forall|r: int| 0 <= r < out.0.view_seq().len() ==> has_label(spans@, #[trigger] out.0.view_seq()[r]),
{
    let mut labels = TextSet::new();
    let mut i: usize = 0;
    while i < spans.len()
        invariant
            i <= spans@.len(),
            labels.wf(),
            forall|x: Seq<char>| labels.members().contains(x) <==> has_label(spans@.take(i as int), x),
        decreases spans@.len() - i,
    {
        labels.insert(spans[i].label.clone());
        proof {
            let s1 = spans@.take(i + 1);
            let s0 = spans@.take(i as int);
            assert forall|x: Seq<char>| labels.members().contains(x) <==> has_label(s1, x) by {
                if has_label(s1, x) {
                    let k = choose|k: int| 0 <= k < s1.len() && #[trigger] s1[k].label@ == x;
                    if k < i {
                        assert(s0[k] == s1[k]);
                    }
                }
                if has_label(s0, x) {
                    let k = choose|k: int| 0 <= k < s0.len() && #[trigger] s0[k].label@ == x;
                    assert(s1[k] == s0[k]);
                }
                if x == spans@[i as int].label@ {
                    assert(s1[i as int] == spans@[i as int]);
                }
            }
        }
        i = i + 1;
    }
    assert(spans@.take(spans@.len() as int) =~= spans@);
    let mut positions: Vec<usize> = Vec::new();
    let mut j: usize = 0;
    while j < spans.len()
        invariant
            j <= spans@.len(),
            labels.wf(),
            forall|x: Seq<char>| labels.members().contains(x) <==> has_label(spans@, x),
            positions@.len() == j,
            forall|t: int|
                0 <= t < j ==> positions@[t] < labels.view_seq().len() && labels.view_seq()[#[trigger] positions@[t] as int]
                    == spans@[t].label@,
        decreases spans@.len() - j,
    {
        proof {
            assert(has_label(spans@, spans@[j as int].label@));
            assert(labels.members().contains(spans@[j as int].label@));
        }
        match labels.position(spans[j].label.as_str()) {
            Some(r) => {
                positions.push(r);
            },
            None => {
                assert(false);
                positions.push(0);
            },
        }
        j = j + 1;
    }
    proof {
        assert forall|r: int| 0 <= r < labels.view_seq().len() implies has_label(spans@, #[trigger] labels.view_seq()[r]) by {
            assert(labels.members().contains(labels.view_seq()[r]));
        }
    }
    (labels, positions)
}

/// `cap(cap(x) + y)` is `cap(x + y)` for non-negative `x` and `y`.
proof fn lemma_cap_add(x: int, y: int)
    requires
        x >= 0,
        y >= 0,
    ensures
        cap(cap(x) + y) == cap(x + y),
{
}

/// Adds `d` times the product of the active turn counts of each speaker
/// pair to the overlap matrix.
fn add_window_overlap(
    overlap: &mut Vec<Vec<u64>>,
    reference: &[SpeakerSpan],
    prediction: &[SpeakerSpan],
    reference_labels: &TextSet,
    predicted_labels: &TextSet,
    reference_positions: &[usize],
    predicted_positions: &[usize],
    start: u64,
    end: u64,
    d: u64,
)
    requires
        reference_labels.wf(),
        predicted_labels.wf(),
        old(overlap)@.len() == reference_labels.view_seq().len(),
        forall|r: int| 0 <= r < old(overlap)@.len() ==> (#[trigger] old(overlap)@[r])@.len() == predicted_labels.view_seq().len(),
        reference_positions@.len() == reference@.len(),
        predicted_positions@.len() == prediction@.len(),
        forall|i: int|
            0 <= i < reference@.len() ==> reference_positions@[i] < reference_labels.view_seq().len()
                && reference_labels.view_seq()[#[trigger] reference_positions@[i] as int] == reference@[i].label@,
        forall|i: int|
            0 <= i < prediction@.len() ==> predicted_positions@[i] < predicted_labels.view_seq().len()
                && predicted_labels.view_seq()[#[trigger] predicted_positions@[i] as int] == prediction@[i].label@,
    ensures
        final(overlap)@.len() == old(overlap)@.len(),
        forall|r: int| 0 <= r < final(overlap)@.len() ==> (#[trigger] final(overlap)@[r])@.len() == old(overlap)@[r]@.len(),
        forall|r: int, q: int|
            0 <= r < final(overlap)@.len() && 0 <= q < predicted_labels.view_seq().len() ==> (#[trigger] final(overlap)@[r]@[q])
                == cap(
                old(overlap)@[r]@[q] + d * label_active_count(reference@, reference_labels.view_seq()[r], start, end)
                    * label_active_count(prediction@, predicted_labels.view_seq()[q], start, end),
            ),
{
    let ghost lr = reference_labels.view_seq();
    let ghost lp = predicted_labels.view_seq();
    let ghost base = overlap@;
    proof {
        reference_labels.lemma_sorted();
        predicted_labels.lemma_sorted();
        assert forall|r: int, q: int|
            0 <= r < overlap@.len() && 0 <= q < lp.len() implies (#[trigger] overlap@[r]@[q]) == cap(
            base[r]@[q] + d * label_active_count(reference@.take(0), lr[r], start, end) * label_active_count(
                prediction@,
                lp[q],
                start,
                end,
            ),
        ) by {
            let c = label_active_count(prediction@, lp[q], start, end);
            assert(label_active_count(reference@.take(0), lr[r], start, end) == 0);
            assert(d * 0 * c == 0) by (nonlinear_arith);
        }
    }
    let mut i: usize = 0;
    while i < reference.len()
        invariant
            i <= reference@.len(),
            lr == reference_labels.view_seq(),
            lp == predicted_labels.view_seq(),
            strictly_sorted(lr),
            strictly_sorted(lp),
            reference_positions@.len() == reference@.len(),
            predicted_positions@.len() == prediction@.len(),
            forall|t: int|
                0 <= t < reference@.len() ==> reference_positions@[t] < lr.len() && lr[#[trigger] reference_positions@[t] as int]
                    == reference@[t].label@,
            forall|t: int|
                0 <= t < prediction@.len() ==> predicted_positions@[t] < lp.len() && lp[#[trigger] predicted_positions@[t] as int]
                    == prediction@[t].label@,
            overlap@.len() == base.len(),
            base.len() == lr.len(),
            forall|r: int| 0 <= r < overlap@.len() ==> (#[trigger] overlap@[r])@.len() == lp.len(),
            forall|r: int| 0 <= r < base.len() ==> (#[trigger] base[r])@.len() == lp.len(),
            forall|r: int, q: int|
                0 <= r < overlap@.len() && 0 <= q < lp.len() ==> (#[trigger] overlap@[r]@[q]) == cap(
                    base[r]@[q] + d * label_active_count(reference@.take(i as int), lr[r], start, end)
                        * label_active_count(prediction@, lp[q], start, end),
                ),
        decreases reference@.len() - i,
    {
        let ghost before = overlap@;
        proof {
            assert(reference@.take(i + 1).drop_last() =~= reference@.take(i as int));
            assert(reference@.take(i + 1).last() == reference@[i as int]);
        }
        if reference[i].start_ms < end && reference[i].end_ms > start {
            let ri = reference_positions[i];
            proof {
                assert forall|q: int| 0 <= q < lp.len() implies (#[trigger] overlap@[ri as int]@[q]) == cap(
                    before[ri as int]@[q] + d * label_active_count(prediction@.take(0), lp[q], start, end),
                ) by {
                    assert(label_active_count(prediction@.take(0), lp[q], start, end) == 0);
                }
            }
            let mut j: usize = 0;
            while j < prediction.len()
                invariant
                    j <= prediction@.len(),
                    ri < lr.len(),
                    lr == reference_labels.view_seq(),
                    lp == predicted_labels.view_seq(),
                    strictly_sorted(lp),
                    predicted_positions@.len() == prediction@.len(),
                    forall|t: int|
                        0 <= t < prediction@.len() ==> predicted_positions@[t] < lp.len()
                            && lp[#[trigger] predicted_positions@[t] as int] == prediction@[t].label@,
                    overlap@.len() == before.len(),
                    before.len() == lr.len(),
                    forall|r: int| 0 <= r < overlap@.len() ==> (#[trigger] overlap@[r])@.len() == lp.len(),
                    forall|r: int| 0 <= r < before.len() ==> (#[trigger] before[r])@.len() == lp.len(),
                    forall|r: int| 0 <= r < overlap@.len() && r != ri ==> #[trigger] overlap@[r] == before[r],
                    forall|q: int|
                        0 <= q < lp.len() ==> (#[trigger] overlap@[ri as int]@[q]) == cap(
                            before[ri as int]@[q] + d * label_active_count(prediction@.take(j as int), lp[q], start, end),
                        ),
                decreases prediction@.len() - j,
            {
                proof {
                    assert(prediction@.take(j + 1).drop_last() =~= prediction@.take(j as int));
                    assert(prediction@.take(j + 1).last() == prediction@[j as int]);
                }
                let ghost inner = overlap@;
                if prediction[j].start_ms < end && prediction[j].end_ms > start {
                    let pj = predicted_positions[j];
                    let value = overlap[ri][pj].saturating_add(d);
                    overlap[ri].set(pj, value);
                    proof {
                        assert forall|q: int| 0 <= q < lp.len() implies (#[trigger] overlap@[ri as int]@[q]) == cap(
                            before[ri as int]@[q] + d * label_active_count(prediction@.take(j + 1), lp[q], start, end),
                        ) by {
                            let c0 = label_active_count(prediction@.take(j as int), lp[q], start, end);
                            lemma_cap_add(before[ri as int]@[q] + d * c0, d as int);
                            if q == pj {
                                assert(d * (c0 + 1) == d * c0 + d) by (nonlinear_arith);
                            } else {
                                if lp[q] == prediction@[j as int].label@ {
                                    assert(lp[pj as int] == lp[q]);
                                    if q < pj {
                                        assert(crate::ordered::text_lt(lp[q], lp[pj as int]));
                                    } else {
                                        assert(crate::ordered::text_lt(lp[pj as int], lp[q]));
                                    }
                                    lemma_text_lt_trichotomy(lp[q], lp[q]);
                                }
                                assert(overlap@[ri as int]@[q] == inner[ri as int]@[q]);
                            }
                        }
                        assert forall|r: int| 0 <= r < overlap@.len() && r != ri implies #[trigger] overlap@[r] == before[r] by {
                            assert(overlap@[r] == inner[r]);
                        }
                    }
                } else {
                    proof {
                        assert forall|q: int| 0 <= q < lp.len() implies (#[trigger] overlap@[ri as int]@[q]) == cap(
                            before[ri as int]@[q] + d * label_active_count(prediction@.take(j + 1), lp[q], start, end),
                        ) by {
                            assert(label_active_count(prediction@.take(j + 1), lp[q], start, end) == label_active_count(
                                prediction@.take(j as int),
                                lp[q],
                                start,
                                end,
                            ));
                        }
                    }
                }
                j = j + 1;
            }
            proof {
                assert(prediction@.take(prediction@.len() as int) =~= prediction@);
                assert forall|r: int, q: int|
                    0 <= r < overlap@.len() && 0 <= q < lp.len() implies (#[trigger] overlap@[r]@[q]) == cap(
                    base[r]@[q] + d * label_active_count(reference@.take(i + 1), lr[r], start, end)
                        * label_active_count(prediction@, lp[q], start, end),
                ) by {
                    let a = label_active_count(reference@.take(i as int), lr[r], start, end);
                    let c = label_active_count(prediction@, lp[q], start, end);
                    if r == ri {
                        assert(before[r]@[q] == cap(base[r]@[q] + d * a * c));
                        assert(d * a * c >= 0) by (nonlinear_arith);
                        assert(d * c >= 0) by (nonlinear_arith);
                        lemma_cap_add(base[r]@[q] + d * a * c, d * c);
                        assert(d * (a + 1) * c == d * a * c + d * c) by (nonlinear_arith);
                    } else {
                        assert(overlap@[r] == before[r]);
                        if lr[r] == reference@[i as int].label@ {
                            if (r as int) < (ri as int) {
                                assert(crate::ordered::text_lt(lr[r], lr[ri as int]));
                            } else {
                                assert(crate::ordered::text_lt(lr[ri as int], lr[r]));
                            }
                            lemma_text_lt_trichotomy(lr[r], lr[r]);
                        }
                    }
                }
            }
        } else {
            proof {
                assert forall|r: int, q: int|
                    0 <= r < overlap@.len() && 0 <= q < lp.len() implies (#[trigger] overlap@[r]@[q]) == cap(
                    base[r]@[q] + d * label_active_count(reference@.take(i + 1), lr[r], start, end)
                        * label_active_count(prediction@, lp[q], start, end),
                ) by {
                    assert(label_active_count(reference@.take(i + 1), lr[r], start, end) == label_active_count(
                        reference@.take(i as int),
                        lr[r],
                        start,
                        end,
                    ));
                }
            }
        }
        i = i + 1;
    }
    assert(reference@.take(reference@.len() as int) =~= reference@);
}

/// A `rows × columns` matrix of zeros.
fn zero_matrix(rows: usize, columns: usize) -> (m: Vec<Vec<u64>>)
    ensures
        m@.len() == rows,
        forall|r: int| 0 <= r < rows ==> (#[trigger] m@[r])@.len() == columns,
        forall|r: int, q: int| 0 <= r < rows && 0 <= q < columns ==> (#[trigger] m@[r]@[q]) == 0,
{
    let mut m: Vec<Vec<u64>> = Vec::new();
    let mut r: usize = 0;
    while r < rows
        invariant
            r <= rows,
            m@.len() == r,
            forall|a: int| 0 <= a < r ==> (#[trigger] m@[a])@.len() == columns,
            forall|a: int, q: int| 0 <= a < r && 0 <= q < columns ==> (#[trigger] m@[a]@[q]) == 0,
        decreases rows - r,
    {
        let mut row: Vec<u64> = Vec::new();
        let mut q: usize = 0;
        while q < columns
            invariant
                q <= columns,
                row@.len() == q,
                forall|k: int| 0 <= k < q ==> row@[k] == 0,
            decreases columns - q,
        {
            row.push(0);
            q = q + 1;
        }
        m.push(row);
        r = r + 1;
    }
    m
}

/// `x - y`, or 0 when `y` exceeds `x`.
pub open spec fn sat_sub(x: u64, y: u64) -> u64 {
    if x > y { (x - y) as u64 } else { 0 }
}

/// Index pairs of the overlap matrix named by the speakers they stand for.
pub open spec fn name_pairs(pairs: Seq<(int, int)>, lr: Seq<Seq<char>>, lp: Seq<Seq<char>>) -> Seq<(Seq<char>, Seq<char>)> {
    pairs.map_values(|p: (int, int)| (lr[p.0], lp[p.1]))
}

/// Every term of an empty window is zero.
proof fn lemma_empty_window_terms(reference: Seq<SpeakerSpan>, prediction: Seq<SpeakerSpan>, s: u64, e: u64)
    requires
        duration(s, e) == 0,
    ensures
        speech_term(reference)(s, e) == 0,
        speech_term(prediction)(s, e) == 0,
        missed_term(reference, prediction)(s, e) == 0,
        missed_term(prediction, reference)(s, e) == 0,
        paired_term(reference, prediction)(s, e) == 0,
{
}

/// The overlap of two speakers over an empty window is zero.
proof fn lemma_empty_window_overlap(
    reference: Seq<SpeakerSpan>,
    prediction: Seq<SpeakerSpan>,
    reference_label: Seq<char>,
    predicted_label: Seq<char>,
    s: u64,
    e: u64,
)
    requires
        duration(s, e) == 0,
    ensures
        overlap_term(reference, prediction, reference_label, predicted_label)(s, e) == 0,
{
    let a = label_active_count(reference, reference_label, s, e);
    let c = label_active_count(prediction, predicted_label, s, e);
    assert(0 * a * c == 0) by (nonlinear_arith);
}

/// One window added to a running total: the capped running total plus the
/// capped window term is the capped new total.
proof fn lemma_window_total(w0: Seq<u64>, w1: Seq<u64>, term: spec_fn(u64, u64) -> int, x: int, acc: u64, part: u64)
    requires
        w0.len() >= 1,
        w1.len() == w0.len() + 1,
        w1.drop_last() == w0,
        term(w1[w1.len() - 2], w1[w1.len() - 1]) == x,
        x >= 0,
        windows_sum(w0, term) >= 0,
        acc == cap(windows_sum(w0, term)),
        part == cap(x),
    ensures
        cap(acc + part) == cap(windows_sum(w1, term)),
        windows_sum(w1, term) >= 0,
{
    assert(windows_sum(w1, term) == windows_sum(w0, term) + x);
}

/// Index pairs of an assignment on the overlap matrix, named, pair each
/// speaker at most once and weigh the same.
proof fn lemma_named_pairing(
    reference: Seq<SpeakerSpan>,
    prediction: Seq<SpeakerSpan>,
    lr: Seq<Seq<char>>,
    lp: Seq<Seq<char>>,
    overlap: Seq<Vec<u64>>,
    pairs: Seq<(int, int)>,
)
    requires
        strictly_sorted(lr),
        strictly_sorted(lp),
        forall|r: int| 0 <= r < lr.len() ==> has_label(reference, #[trigger] lr[r]),
        forall|q: int| 0 <= q < lp.len() ==> has_label(prediction, #[trigger] lp[q]),
        overlap.len() == lr.len(),
        forall|r: int| 0 <= r < overlap.len() ==> (#[trigger] overlap[r])@.len() == lp.len(),
        forall|r: int, q: int|
            0 <= r < overlap.len() && 0 <= q < lp.len() ==> (#[trigger] overlap[r]@[q]) == speaker_overlap(
                reference,
                prediction,
                lr[r],
                lp[q],
            ),
        is_assignment(pairs, overlap.len() as int, column_count(overlap)),
    ensures
        is_speaker_pairing(name_pairs(pairs, lr, lp), reference, prediction),
        pairing_overlap(name_pairs(pairs, lr, lp), reference, prediction) == assignment_weight(overlap, pairs),
    decreases pairs.len(),
{
    let named = name_pairs(pairs, lr, lp);
    if pairs.len() > 0 {
        let p0 = pairs[0];
        assert(0 <= p0.0 < overlap.len());
        assert(column_count(overlap) == lp.len());
        let prior = pairs.drop_last();
        assert(is_assignment(prior, overlap.len() as int, column_count(overlap))) by {
            assert forall|k: int, l: int| 0 <= k < l < prior.len() implies (#[trigger] prior[k]).0 != (
            #[trigger] prior[l]).0 && prior[k].1 != prior[l].1 by {
                assert(prior[k] == pairs[k] && prior[l] == pairs[l]);
            }
            assert forall|k: int| 0 <= k < prior.len() implies 0 <= (#[trigger] prior[k]).0 < overlap.len() && 0
                <= prior[k].1 < column_count(overlap) by {
                assert(prior[k] == pairs[k]);
            }
        }
        lemma_named_pairing(reference, prediction, lr, lp, overlap, prior);
        assert(name_pairs(prior, lr, lp) =~= named.drop_last());
        let last = pairs.last();
        assert(pairs[pairs.len() - 1] == last);
        assert(0 <= last.0 < lr.len() && 0 <= last.1 < lp.len());
        assert(named.last() == (lr[last.0], lp[last.1]));
    } else {
        assert(named.len() == 0);
    }
    assert forall|k: int|
        0 <= k < named.len() implies has_label(reference, (#[trigger] named[k]).0) && has_label(prediction, named[k].1) by {
        let pk = pairs[k];
        assert(0 <= pk.0 < overlap.len());
        assert(0 <= pk.0 < lr.len());
        assert(column_count(overlap) == lp.len());
        assert(0 <= pk.1 < lp.len());
    }
    assert forall|k: int, l: int|
        0 <= k < l < named.len() implies (#[trigger] named[k]).0 != (#[trigger] named[l]).0 && named[k].1 != named[l].1 by {
        let pk = pairs[k];
        let pl = pairs[l];
        assert(pk.0 != pl.0 && pk.1 != pl.1);
        assert(0 <= pk.0 < lr.len() && 0 <= pl.0 < lr.len());
        assert(column_count(overlap) == lp.len());
        assert(0 <= pk.1 < lp.len() && 0 <= pl.1 < lp.len());
        if pk.0 < pl.0 {
            assert(crate::ordered::text_lt(lr[pk.0], lr[pl.0]));
        } else {
            assert(crate::ordered::text_lt(lr[pl.0], lr[pk.0]));
        }
        if pk.1 < pl.1 {
            assert(crate::ordered::text_lt(lp[pk.1], lp[pl.1]));
        } else {
            assert(crate::ordered::text_lt(lp[pl.1], lp[pk.1]));
        }
        lemma_text_lt_trichotomy(lr[pk.0], lr[pk.0]);
        lemma_text_lt_trichotomy(lp[pk.1], lp[pk.1]);
    }
}

/// A pairing of speakers that all appear in the label lists, read as index
/// pairs, is an assignment on the overlap matrix of the same weight.
proof fn lemma_pairing_indices(
    reference: Seq<SpeakerSpan>,
    prediction: Seq<SpeakerSpan>,
    lr: Seq<Seq<char>>,
    lp: Seq<Seq<char>>,
    overlap: Seq<Vec<u64>>,
    other: Seq<(Seq<char>, Seq<char>)>,
) -> (idx: Seq<(int, int)>)
    requires
        overlap.len() == lr.len(),
        forall|r: int| 0 <= r < overlap.len() ==> (#[trigger] overlap[r])@.len() == lp.len(),
        forall|r: int, q: int|
            0 <= r < overlap.len() && 0 <= q < lp.len() ==> (#[trigger] overlap[r]@[q]) == speaker_overlap(
                reference,
                prediction,
                lr[r],
                lp[q],
            ),
        forall|x: Seq<char>| #[trigger] has_label(reference, x) ==> exists|r: int| 0 <= r < lr.len() && lr[r] == x,
        forall|x: Seq<char>| #[trigger] has_label(prediction, x) ==> exists|q: int| 0 <= q < lp.len() && lp[q] == x,
        is_speaker_pairing(other, reference, prediction),
    ensures
        idx.len() == other.len(),
        forall|k: int| 0 <= k < idx.len() ==> lr[(#[trigger] idx[k]).0] == other[k].0 && lp[idx[k].1] == other[k].1,
        is_assignment(idx, overlap.len() as int, column_count(overlap)),
        assignment_weight(overlap, idx) == pairing_overlap(other, reference, prediction),
    decreases other.len(),
{
    if other.len() == 0 {
        Seq::empty()
    } else {
        let prior = other.drop_last();
        assert(is_speaker_pairing(prior, reference, prediction)) by {
            assert forall|k: int| 0 <= k < prior.len() implies has_label(reference, (#[trigger] prior[k]).0)
                && has_label(prediction, prior[k].1) by {
                assert(prior[k] == other[k]);
            }
            assert forall|k: int, l: int| 0 <= k < l < prior.len() implies (#[trigger] prior[k]).0 != (
            #[trigger] prior[l]).0 && prior[k].1 != prior[l].1 by {
                assert(prior[k] == other[k] && prior[l] == other[l]);
            }
        }
        let rest = lemma_pairing_indices(reference, prediction, lr, lp, overlap, prior);
        let last = other.last();
        assert(other[other.len() - 1] == last);
        assert(has_label(reference, last.0) && has_label(prediction, last.1));
        let r = choose|r: int| 0 <= r < lr.len() && lr[r] == last.0;
        let q = choose|q: int| 0 <= q < lp.len() && lp[q] == last.1;
        let idx = rest.push((r, q));
        assert(idx.drop_last() =~= rest);
        assert(idx[idx.len() - 1] == (r, q));
        assert(overlap[0]@.len() == lp.len());
        assert(column_count(overlap) == lp.len());
        assert forall|k: int| 0 <= k < idx.len() implies lr[(#[trigger] idx[k]).0] == other[k].0 && lp[idx[k].1]
            == other[k].1 by {
            if k < rest.len() {
                assert(idx[k] == rest[k]);
                assert(prior[k] == other[k]);
            }
        }
        assert forall|k: int| 0 <= k < idx.len() implies 0 <= (#[trigger] idx[k]).0 < overlap.len() && 0 <= idx[k].1
            < column_count(overlap) by {
            if k < rest.len() {
                assert(idx[k] == rest[k]);
            }
        }
        assert forall|k: int, l: int| 0 <= k < l < idx.len() implies (#[trigger] idx[k]).0 != (#[trigger] idx[l]).0
            && idx[k].1 != idx[l].1 by {
            assert(idx[k] == rest[k]);
            assert(prior[k] == other[k]);
            if l < rest.len() {
                assert(idx[l] == rest[l]);
            } else {
                assert(other[k].0 != other[l].0 && other[k].1 != other[l].1);
            }
        }
        assert(overlap[r]@[q] == speaker_overlap(reference, prediction, lr[r], lp[q]));
        idx
    }
}

/// The assignment of largest weight on the overlap matrix, named, is a
/// pairing of speakers that no other pairing outweighs.
proof fn lemma_best_named_pairing(
    reference: Seq<SpeakerSpan>,
    prediction: Seq<SpeakerSpan>,
    lr: Seq<Seq<char>>,
    lp: Seq<Seq<char>>,
    reference_positions: Seq<usize>,
    predicted_positions: Seq<usize>,
    overlap: Seq<Vec<u64>>,
)
    requires
        strictly_sorted(lr),
        strictly_sorted(lp),
        forall|r: int| 0 <= r < lr.len() ==> has_label(reference, #[trigger] lr[r]),
        forall|q: int| 0 <= q < lp.len() ==> has_label(prediction, #[trigger] lp[q]),
        reference_positions.len() == reference.len(),
        forall|i: int|
            0 <= i < reference.len() ==> reference_positions[i] < lr.len() && lr[#[trigger] reference_positions[i] as int]
                == reference[i].label@,
        predicted_positions.len() == prediction.len(),
        forall|i: int|
            0 <= i < prediction.len() ==> predicted_positions[i] < lp.len() && lp[#[trigger] predicted_positions[i] as int]
                == prediction[i].label@,
        overlap.len() == lr.len(),
        forall|r: int| 0 <= r < overlap.len() ==> (#[trigger] overlap[r])@.len() == lp.len(),
        forall|r: int, q: int|
            0 <= r < overlap.len() && 0 <= q < lp.len() ==> (#[trigger] overlap[r]@[q]) == speaker_overlap(
                reference,
                prediction,
                lr[r],
                lp[q],
            ),
        rectangular(overlap),
    ensures
        exists|pairs: Seq<(Seq<char>, Seq<char>)>|
            #[trigger] is_best_speaker_pairing(pairs, reference, prediction) && pairing_overlap(
                pairs,
                reference,
                prediction,
            ) == largest_assignment_weight(overlap),
{
    lemma_largest_assignment_weight(overlap);
    let pairs = choose|pairs: Seq<(int, int)>|
        #[trigger] is_assignment(pairs, overlap.len() as int, column_count(overlap)) && assignment_weight(overlap, pairs)
            == largest_assignment_weight(overlap);
    lemma_named_pairing(reference, prediction, lr, lp, overlap, pairs);
    let named = name_pairs(pairs, lr, lp);
    assert forall|x: Seq<char>| #[trigger] has_label(reference, x) implies exists|r: int|
        0 <= r < lr.len() && lr[r] == x by {
        let i = choose|i: int| 0 <= i < reference.len() && reference[i].label@ == x;
        let r = reference_positions[i] as int;
        assert(lr[r] == x);
    }
    assert forall|x: Seq<char>| #[trigger] has_label(prediction, x) implies exists|q: int|
        0 <= q < lp.len() && lp[q] == x by {
        let i = choose|i: int| 0 <= i < prediction.len() && prediction[i].label@ == x;
        let q = predicted_positions[i] as int;
        assert(lp[q] == x);
    }
    assert forall|other: Seq<(Seq<char>, Seq<char>)>|
        #[trigger] is_speaker_pairing(other, reference, prediction) implies pairing_overlap(other, reference, prediction)
        <= pairing_overlap(named, reference, prediction) by {
        let idx = lemma_pairing_indices(reference, prediction, lr, lp, overlap, other);
    }
    assert(is_best_speaker_pairing(named, reference, prediction));
}

/// Scores the predicted speaker turns of one source against the reference
/// turns: windows between consecutive boundaries count speaker time,
/// missed and false-alarm time, and the reference and predicted speakers
/// are paired by the assignment of largest overlap; confusion is the paired
/// time not explained by that assignment. Totals saturate at `u64::MAX`.
#[verifier::spinoff_prover]
pub fn evaluate_speakers(reference: &[SpeakerSpan], prediction: &[SpeakerSpan]) -> (stats: SpeakerStats)
    ensures
        stats.reference_speaker_ms == cap(windows_sum(boundaries(reference@, prediction@), speech_term(reference@))),
        stats.predicted_speaker_ms == cap(windows_sum(boundaries(reference@, prediction@), speech_term(prediction@))),
        stats.missed_speaker_ms == cap(
            windows_sum(boundaries(reference@, prediction@), missed_term(reference@, prediction@)),
        ),
        stats.false_alarm_ms == cap(windows_sum(boundaries(reference@, prediction@), missed_term(prediction@, reference@))),
        exists|pairs: Seq<(Seq<char>, Seq<char>)>|
            #[trigger] is_best_speaker_pairing(pairs, reference@, prediction@) && stats.correct_speaker_ms == cap(
                pairing_overlap(pairs, reference@, prediction@),
            ),
        stats.speaker_confusion_ms == sat_sub(
            cap(windows_sum(boundaries(reference@, prediction@), paired_term(reference@, prediction@))),
            stats.correct_speaker_ms,
        ),
        no_self_overlap(reference@) && no_self_overlap(prediction@) && windows_sum(
            boundaries(reference@, prediction@),
            speech_term(reference@),
        ) <= u64::MAX ==> stats.reference_speaker_ms == stats.missed_speaker_ms + stats.correct_speaker_ms
            + stats.speaker_confusion_ms,
        no_self_overlap(reference@) && no_self_overlap(prediction@) && windows_sum(
            boundaries(reference@, prediction@),
            speech_term(prediction@),
        ) <= u64::MAX ==> stats.predicted_speaker_ms == stats.false_alarm_ms + stats.correct_speaker_ms
            + stats.speaker_confusion_ms,
{
    let (reference_labels, reference_positions) = label_positions(reference);
    let (predicted_labels, predicted_positions) = label_positions(prediction);
    let b = sorted_boundaries(reference, prediction);
    let ghost lr = reference_labels.view_seq();
    let ghost lp = predicted_labels.view_seq();
    proof {
        reference_labels.lemma_sorted();
        predicted_labels.lemma_sorted();
    }
    let mut overlap = zero_matrix(reference_labels.len(), predicted_labels.len());
    let mut reference_ms: u64 = 0;
    let mut predicted_ms: u64 = 0;
    let mut missed_ms: u64 = 0;
    let mut false_alarm_ms: u64 = 0;
    let mut paired_ms: u64 = 0;
    let mut k: usize = 0;
    let ghost empty = b@.len() == 0;
    let ghost start_prefix = if empty { b@ } else { b@.take(1) };
    proof {
        assert(windows_sum(start_prefix, speech_term(reference@)) == 0);
    }
    while k + 1 < b.len()
        invariant
            empty == (b@.len() == 0),
            empty ==> k == 0,
            !empty ==> k + 1 <= b@.len(),
            k < usize::MAX,
            b@ == boundaries(reference@, prediction@),
            reference_labels.wf(),
            predicted_labels.wf(),
            lr == reference_labels.view_seq(),
            lp == predicted_labels.view_seq(),
            reference_positions@.len() == reference@.len(),
            predicted_positions@.len() == prediction@.len(),
            forall|t: int|
                0 <= t < reference@.len() ==> reference_positions@[t] < lr.len() && lr[#[trigger] reference_positions@[t] as int]
                    == reference@[t].label@,
            forall|t: int|
                0 <= t < prediction@.len() ==> predicted_positions@[t] < lp.len() && lp[#[trigger] predicted_positions@[t] as int]
                    == prediction@[t].label@,
            overlap@.len() == lr.len(),
            forall|r: int| 0 <= r < overlap@.len() ==> (#[trigger] overlap@[r])@.len() == lp.len(),
            forall|r: int, q: int|
                0 <= r < overlap@.len() && 0 <= q < lp.len() ==> (#[trigger] overlap@[r]@[q]) == cap(
                    windows_sum(
                        if empty { b@ } else { b@.take(k + 1) },
                        overlap_term(reference@, prediction@, lr[r], lp[q]),
                    ),
                ),
            forall|r: int, q: int|
                0 <= r < overlap@.len() && 0 <= q < lp.len() ==> windows_sum(
                    if empty { b@ } else { b@.take(k + 1) },
                    #[trigger] overlap_term(reference@, prediction@, lr[r], lp[q]),
                ) >= 0,
            reference_ms == cap(windows_sum(if empty { b@ } else { b@.take(k + 1) }, speech_term(reference@))),
            predicted_ms == cap(windows_sum(if empty { b@ } else { b@.take(k + 1) }, speech_term(prediction@))),
            missed_ms == cap(windows_sum(if empty { b@ } else { b@.take(k + 1) }, missed_term(reference@, prediction@))),
            false_alarm_ms == cap(
                windows_sum(if empty { b@ } else { b@.take(k + 1) }, missed_term(prediction@, reference@)),
            ),
            paired_ms == cap(windows_sum(if empty { b@ } else { b@.take(k + 1) }, paired_term(reference@, prediction@))),
            windows_sum(if empty { b@ } else { b@.take(k + 1) }, speech_term(reference@)) >= 0,
            windows_sum(if empty { b@ } else { b@.take(k + 1) }, speech_term(prediction@)) >= 0,
            windows_sum(if empty { b@ } else { b@.take(k + 1) }, missed_term(reference@, prediction@)) >= 0,
            windows_sum(if empty { b@ } else { b@.take(k + 1) }, missed_term(prediction@, reference@)) >= 0,
            windows_sum(if empty { b@ } else { b@.take(k + 1) }, paired_term(reference@, prediction@)) >= 0,
        decreases b@.len() - k,
    {
        let start = b[k];
        let end = b[k + 1];
        let d = end.saturating_sub(start);
        let ghost w0 = b@.take(k + 1);
        let ghost w1 = b@.take(k + 2);
        proof {
            assert(w1.drop_last() =~= w0);
            assert(w1[w1.len() - 2] == start && w1[w1.len() - 1] == end);
            assert(d == duration(start, end));
        }
        if d > 0 {
            let rc = count_active(reference, start, end);
            let pc = count_active(prediction, start, end);
            let ghost gr = rc as int;
            let ghost gp = pc as int;
            let xm_exec = rc.saturating_sub(pc);
            let xf_exec = pc.saturating_sub(rc);
            let smaller = if rc < pc { rc } else { pc };
            let part_r = saturating_mul_u64(d, rc);
            let part_p = saturating_mul_u64(d, pc);
            let part_m = saturating_mul_u64(d, xm_exec);
            let part_f = saturating_mul_u64(d, xf_exec);
            let part_s = saturating_mul_u64(d, smaller);
            proof {
                assert(d * gr >= 0) by (nonlinear_arith)
                    requires
                        d > 0,
                        gr >= 0,
                ;
                assert(d * gp >= 0) by (nonlinear_arith)
                    requires
                        d > 0,
                        gp >= 0,
                ;
                assert(d * xm_exec >= 0) by (nonlinear_arith)
                    requires
                        d > 0,
                        xm_exec >= 0,
                ;
                assert(d * xf_exec >= 0) by (nonlinear_arith)
                    requires
                        d > 0,
                        xf_exec >= 0,
                ;
                assert(d * smaller >= 0) by (nonlinear_arith)
                    requires
                        d > 0,
                        smaller >= 0,
                ;
                assert(speech_term(reference@)(start, end) == d * gr);
                assert(speech_term(prediction@)(start, end) == d * gp);
                assert(missed_term(reference@, prediction@)(start, end) == d * xm_exec);
                assert(missed_term(prediction@, reference@)(start, end) == d * xf_exec);
                assert(paired_term(reference@, prediction@)(start, end) == d * smaller);
                lemma_window_total(w0, w1, speech_term(reference@), d * gr, reference_ms, part_r);
                lemma_window_total(w0, w1, speech_term(prediction@), d * gp, predicted_ms, part_p);
                lemma_window_total(w0, w1, missed_term(reference@, prediction@), d * xm_exec, missed_ms, part_m);
                lemma_window_total(w0, w1, missed_term(prediction@, reference@), d * xf_exec, false_alarm_ms, part_f);
                lemma_window_total(w0, w1, paired_term(reference@, prediction@), d * smaller, paired_ms, part_s);
            }
            reference_ms = reference_ms.saturating_add(part_r);
            predicted_ms = predicted_ms.saturating_add(part_p);
            missed_ms = missed_ms.saturating_add(part_m);
            false_alarm_ms = false_alarm_ms.saturating_add(part_f);
            paired_ms = paired_ms.saturating_add(part_s);
            let ghost before = overlap@;
            add_window_overlap(
                &mut overlap,
                reference,
                prediction,
                &reference_labels,
                &predicted_labels,
                reference_positions.as_slice(),
                predicted_positions.as_slice(),
                start,
                end,
                d,
            );
            proof {
                assert forall|r: int, q: int| 0 <= r < overlap@.len() && 0 <= q < lp.len() implies (#[trigger] overlap@[r]@[q])
                    == cap(windows_sum(w1, overlap_term(reference@, prediction@, lr[r], lp[q]))) && windows_sum(
                    w1,
                    overlap_term(reference@, prediction@, lr[r], lp[q]),
                ) >= 0 by {
                    let a = label_active_count(reference@, lr[r], start, end);
                    let c = label_active_count(prediction@, lp[q], start, end);
                    assert(d * a * c >= 0) by (nonlinear_arith)
                        requires
                            d > 0,
                            a >= 0,
                            c >= 0,
                    ;
                    let term = overlap_term(reference@, prediction@, lr[r], lp[q]);
                    assert(term(start, end) == d * a * c);
                    assert(windows_sum(w1, term) == windows_sum(w0, term) + d * a * c);
                    assert(before[r]@[q] == cap(windows_sum(w0, term)));
                    assert(windows_sum(w0, term) >= 0);
                    lemma_cap_add(windows_sum(w0, term), d * a * c);
                }
            }
        } else {
            proof {
                assert forall|r: int, q: int| 0 <= r < overlap@.len() && 0 <= q < lp.len() implies (#[trigger] overlap@[r]@[q])
                    == cap(windows_sum(w1, overlap_term(reference@, prediction@, lr[r], lp[q]))) && windows_sum(
                    w1,
                    overlap_term(reference@, prediction@, lr[r], lp[q]),
                ) >= 0 by {
                    let term = overlap_term(reference@, prediction@, lr[r], lp[q]);
                    lemma_empty_window_overlap(reference@, prediction@, lr[r], lp[q], start, end);
                    assert(windows_sum(w1, term) == windows_sum(w0, term) + term(start, end));
                }
                assert(duration(start, end) == 0);
                assert(w1[w1.len() - 2] == start && w1[w1.len() - 1] == end);
                lemma_empty_window_terms(reference@, prediction@, start, end);
                lemma_window_total(w0, w1, speech_term(reference@), 0, reference_ms, 0);
                lemma_window_total(w0, w1, speech_term(prediction@), 0, predicted_ms, 0);
                lemma_window_total(w0, w1, missed_term(reference@, prediction@), 0, missed_ms, 0);
                lemma_window_total(w0, w1, missed_term(prediction@, reference@), 0, false_alarm_ms, 0);
                lemma_window_total(w0, w1, paired_term(reference@, prediction@), 0, paired_ms, 0);
            }
        }
        k = k + 1;
    }
    proof {
        if !empty {
            assert(b@.take(k + 1) =~= b@);
        }
    }
    let correct = maximum_weight_assignment(overlap.as_slice());
    proof {
        assert forall|r: int| 0 <= r < lr.len() implies has_label(reference@, #[trigger] lr[r]) by {}
        lemma_best_named_pairing(reference@, prediction@, lr, lp, reference_positions@, predicted_positions@, overlap@);
    }
    let stats = SpeakerStats {
        reference_speaker_ms: reference_ms,
        predicted_speaker_ms: predicted_ms,
        correct_speaker_ms: correct,
        missed_speaker_ms: missed_ms,
        false_alarm_ms,
        speaker_confusion_ms: paired_ms.saturating_sub(correct),
    };
    proof {
        if no_self_overlap(reference@) && no_self_overlap(prediction@) {
            let pairs = choose|pairs: Seq<(Seq<char>, Seq<char>)>|
                #[trigger] is_best_speaker_pairing(pairs, reference@, prediction@) && stats.correct_speaker_ms == cap(
                    pairing_overlap(pairs, reference@, prediction@),
                );
            lemma_speaker_identities(reference@, prediction@, stats, pairs);
        }
    }
    stats
}

} // verus!
