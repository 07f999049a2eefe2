//! Identities between the speaker scores: when no speaker has two turns at
//! once, reference time is missed plus correct plus confused time, and
//! predicted time is false-alarm plus correct plus confused time.

use vstd::prelude::*;

use crate::assignment::cap;
use crate::speaker::{
    active_count, boundaries, duration, increasing, is_active, is_endpoint, is_speaker_pairing, label_active_count, missed_term,
    overlap_term, paired_term, pairing_overlap, sat_sub, speaker_overlap, speech_term, windows_sum, SpeakerSpan,
    SpeakerStats,
};

verus! {

/// No two turns of one speaker overlap in time.
pub open spec fn no_self_overlap(spans: Seq<SpeakerSpan>) -> bool {
    forall|i: int, j: int|
        0 <= i < j < spans.len() && (#[trigger] spans[i]).label@ == (#[trigger] spans[j]).label@ ==> spans[i].end_ms
            <= spans[j].start_ms || spans[j].end_ms <= spans[i].start_ms
}

/// Every start and end of the turns is one of the boundaries `b`.
pub open spec fn endpoints_in(spans: Seq<SpeakerSpan>, b: Seq<u64>) -> bool {
    forall|i: int| 0 <= i < spans.len() ==> b.contains((#[trigger] spans[i]).start_ms) && b.contains(spans[i].end_ms)
}

/// The active turns of the speakers `labels` in the window, summed.
pub open spec fn labels_active(spans: Seq<SpeakerSpan>, labels: Seq<Seq<char>>, s: u64, e: u64) -> nat
    decreases labels.len(),
{
    if labels.len() == 0 {
        0
    } else {
        labels_active(spans, labels.drop_last(), s, e) + label_active_count(spans, labels.last(), s, e)
    }
}

/// How often `x` occurs in `labels`.
spec fn hits(labels: Seq<Seq<char>>, x: Seq<char>) -> nat
    decreases labels.len(),
{
    if labels.len() == 0 {
        0
    } else {
        hits(labels.drop_last(), x) + if labels.last() == x {
            1nat
        } else {
            0nat
        }
    }
}

/// No label occurs twice.
spec fn distinct(labels: Seq<Seq<char>>) -> bool {
    forall|i: int, j: int| 0 <= i < j < labels.len() ==> #[trigger] labels[i] != #[trigger] labels[j]
}

/// The reference speakers of a pairing.
spec fn firsts(pairs: Seq<(Seq<char>, Seq<char>)>) -> Seq<Seq<char>> {
    pairs.map_values(|p: (Seq<char>, Seq<char>)| p.0)
}

/// The predicted speakers of a pairing.
spec fn seconds(pairs: Seq<(Seq<char>, Seq<char>)>) -> Seq<Seq<char>> {
    pairs.map_values(|p: (Seq<char>, Seq<char>)| p.1)
}

/// Over the pairs, the products of the active turns of both speakers.
pub open spec fn pair_product(
    reference: Seq<SpeakerSpan>,
    prediction: Seq<SpeakerSpan>,
    pairs: Seq<(Seq<char>, Seq<char>)>,
    s: u64,
    e: u64,
) -> nat
    decreases pairs.len(),
{
    if pairs.len() == 0 {
        0
    } else {
        pair_product(reference, prediction, pairs.drop_last(), s, e) + label_active_count(
            reference,
            pairs.last().0,
            s,
            e,
        ) * label_active_count(prediction, pairs.last().1, s, e)
    }
}

/// The overlap of all pairs in a window.
pub open spec fn pairs_term(
    reference: Seq<SpeakerSpan>,
    prediction: Seq<SpeakerSpan>,
    pairs: Seq<(Seq<char>, Seq<char>)>,
) -> spec_fn(u64, u64) -> int {
    |s: u64, e: u64| duration(s, e) * pair_product(reference, prediction, pairs, s, e)
}

proof fn lemma_windows_add(b: Seq<u64>, f: spec_fn(u64, u64) -> int, g: spec_fn(u64, u64) -> int, h: spec_fn(u64, u64) -> int)
    requires
        forall|s: u64, e: u64| #[trigger] h(s, e) == f(s, e) + g(s, e),
    ensures
        windows_sum(b, h) == windows_sum(b, f) + windows_sum(b, g),
    decreases b.len(),
{
    if b.len() >= 2 {
        lemma_windows_add(b.drop_last(), f, g, h);
        assert(h(b[b.len() - 2], b[b.len() - 1]) == f(b[b.len() - 2], b[b.len() - 1]) + g(b[b.len() - 2], b[b.len() - 1]));
    }
}

proof fn lemma_windows_nonneg(b: Seq<u64>, f: spec_fn(u64, u64) -> int)
    requires
        forall|s: u64, e: u64| #[trigger] f(s, e) >= 0,
    ensures
        windows_sum(b, f) >= 0,
    decreases b.len(),
{
    if b.len() >= 2 {
        lemma_windows_nonneg(b.drop_last(), f);
        assert(f(b[b.len() - 2], b[b.len() - 1]) >= 0);
    }
}

proof fn lemma_windows_le(b: Seq<u64>, f: spec_fn(u64, u64) -> int, g: spec_fn(u64, u64) -> int)
    requires
        forall|k: int| 0 <= k && k + 1 < b.len() ==> f(#[trigger] b[k], b[k + 1]) <= g(b[k], b[k + 1]),
    ensures
        windows_sum(b, f) <= windows_sum(b, g),
    decreases b.len(),
{
    if b.len() >= 2 {
        let p = b.drop_last();
        assert forall|k: int| 0 <= k && k + 1 < p.len() implies f(#[trigger] p[k], p[k + 1]) <= g(p[k], p[k + 1]) by {
            assert(p[k] == b[k] && p[k + 1] == b[k + 1]);
        }
        lemma_windows_le(p, f, g);
        let k = b.len() - 2;
        assert(f(b[k], b[k + 1]) <= g(b[k], b[k + 1]));
    }
}

/// A turn active in a window between consecutive boundaries covers it.
proof fn lemma_active_covers(span: SpeakerSpan, b: Seq<u64>, k: int)
    requires
        increasing(b),
        0 <= k,
        k + 1 < b.len(),
        b.contains(span.start_ms),
        b.contains(span.end_ms),
        is_active(span, b[k], b[k + 1]),
    ensures
        span.start_ms <= b[k],
        b[k + 1] <= span.end_ms,
{
    let m = choose|m: int| 0 <= m < b.len() && b[m] == span.start_ms;
    if m > k + 1 {
        assert(b[k + 1] < b[m]);
    }
    if m < k {
        assert(b[m] < b[k]);
    }
    let n = choose|n: int| 0 <= n < b.len() && b[n] == span.end_ms;
    if n < k {
        assert(b[n] < b[k]);
    }
    if n > k + 1 {
        assert(b[k + 1] < b[n]);
    }
}

proof fn lemma_single_active(spans: Seq<SpeakerSpan>, label: Seq<char>, b: Seq<u64>, k: int)
    requires
        increasing(b),
        0 <= k,
        k + 1 < b.len(),
        endpoints_in(spans, b),
        no_self_overlap(spans),
    ensures
        label_active_count(spans, label, b[k], b[k + 1]) <= 1,
        label_active_count(spans, label, b[k], b[k + 1]) == 1 ==> exists|i: int|
            0 <= i < spans.len() && is_active(#[trigger] spans[i], b[k], b[k + 1]) && spans[i].label@ == label,
    decreases spans.len(),
{
    if spans.len() > 0 {
        let prior = spans.drop_last();
        assert forall|i: int| 0 <= i < prior.len() implies b.contains((#[trigger] prior[i]).start_ms) && b.contains(
            prior[i].end_ms,
        ) by {
            assert(prior[i] == spans[i]);
        }
        assert forall|i: int, j: int|
            0 <= i < j < prior.len() && (#[trigger] prior[i]).label@ == (#[trigger] prior[j]).label@ implies prior[i].end_ms
            <= prior[j].start_ms || prior[j].end_ms <= prior[i].start_ms by {
            assert(prior[i] == spans[i] && prior[j] == spans[j]);
        }
        lemma_single_active(prior, label, b, k);
        let last = spans.last();
        let j = spans.len() - 1;
        assert(spans[j] == last);
        if is_active(last, b[k], b[k + 1]) && last.label@ == label && label_active_count(prior, label, b[k], b[k + 1])
            == 1 {
            let i = choose|i: int|
                0 <= i < prior.len() && is_active(#[trigger] prior[i], b[k], b[k + 1]) && prior[i].label@ == label;
            assert(prior[i] == spans[i]);
            assert(b.contains(spans[i].start_ms) && b.contains(spans[i].end_ms));
            assert(b.contains(spans[j].start_ms) && b.contains(spans[j].end_ms));
            lemma_active_covers(spans[i], b, k);
            lemma_active_covers(last, b, k);
            assert(b[k] < b[k + 1]);
            assert(spans[i].label@ == spans[j].label@);
            assert(false);
        }
        if label_active_count(spans, label, b[k], b[k + 1]) == 1 {
            if !(is_active(last, b[k], b[k + 1]) && last.label@ == label) {
                let i = choose|i: int|
                    0 <= i < prior.len() && is_active(#[trigger] prior[i], b[k], b[k + 1]) && prior[i].label@ == label;
                assert(prior[i] == spans[i]);
            }
        }
    }
}

proof fn lemma_hits_absent(labels: Seq<Seq<char>>, x: Seq<char>)
    requires
        forall|i: int| 0 <= i < labels.len() ==> labels[i] != x,
    ensures
        hits(labels, x) == 0,
    decreases labels.len(),
{
    if labels.len() > 0 {
        let p = labels.drop_last();
        assert forall|i: int| 0 <= i < p.len() implies p[i] != x by {
            assert(p[i] == labels[i]);
        }
        lemma_hits_absent(p, x);
        assert(labels.last() == labels[labels.len() - 1]);
    }
}

proof fn lemma_hits_at_most_one(labels: Seq<Seq<char>>, x: Seq<char>)
    requires
        distinct(labels),
    ensures
        hits(labels, x) <= 1,
    decreases labels.len(),
{
    if labels.len() > 0 {
        let p = labels.drop_last();
        assert forall|i: int, j: int| 0 <= i < j < p.len() implies #[trigger] p[i] != #[trigger] p[j] by {
            assert(p[i] == labels[i] && p[j] == labels[j]);
        }
        lemma_hits_at_most_one(p, x);
        if labels.last() == x {
            assert forall|i: int| 0 <= i < p.len() implies p[i] != x by {
                assert(p[i] == labels[i]);
                assert(labels[i] != labels[labels.len() - 1]);
            }
            lemma_hits_absent(p, x);
        }
    }
}

proof fn lemma_labels_active_none(spans: Seq<SpeakerSpan>, labels: Seq<Seq<char>>, s: u64, e: u64)
    requires
        spans.len() == 0,
    ensures
        labels_active(spans, labels, s, e) == 0,
    decreases labels.len(),
{
    if labels.len() > 0 {
        lemma_labels_active_none(spans, labels.drop_last(), s, e);
    }
}

proof fn lemma_labels_active_split(spans: Seq<SpeakerSpan>, labels: Seq<Seq<char>>, s: u64, e: u64)
    requires
        spans.len() > 0,
    ensures
        labels_active(spans, labels, s, e) == labels_active(spans.drop_last(), labels, s, e) + if is_active(
            spans.last(),
            s,
            e,
        ) {
            hits(labels, spans.last().label@)
        } else {
            0
        },
    decreases labels.len(),
{
    if labels.len() > 0 {
        lemma_labels_active_split(spans, labels.drop_last(), s, e);
    }
}

proof fn lemma_labels_active_bound(spans: Seq<SpeakerSpan>, labels: Seq<Seq<char>>, s: u64, e: u64)
    requires
        distinct(labels),
    ensures
        labels_active(spans, labels, s, e) <= active_count(spans, s, e),
    decreases spans.len(),
{
    if spans.len() == 0 {
        lemma_labels_active_none(spans, labels, s, e);
    } else {
        lemma_labels_active_bound(spans.drop_last(), labels, s, e);
        lemma_labels_active_split(spans, labels, s, e);
        lemma_hits_at_most_one(labels, spans.last().label@);
    }
}

proof fn lemma_pair_product_bounds(
    reference: Seq<SpeakerSpan>,
    prediction: Seq<SpeakerSpan>,
    pairs: Seq<(Seq<char>, Seq<char>)>,
    s: u64,
    e: u64,
)
    requires
        forall|l: Seq<char>| #[trigger] label_active_count(reference, l, s, e) <= 1,
        forall|l: Seq<char>| #[trigger] label_active_count(prediction, l, s, e) <= 1,
    ensures
        pair_product(reference, prediction, pairs, s, e) <= labels_active(reference, firsts(pairs), s, e),
        pair_product(reference, prediction, pairs, s, e) <= labels_active(prediction, seconds(pairs), s, e),
    decreases pairs.len(),
{
    if pairs.len() > 0 {
        let p = pairs.drop_last();
        lemma_pair_product_bounds(reference, prediction, p, s, e);
        assert(firsts(pairs).drop_last() =~= firsts(p));
        assert(seconds(pairs).drop_last() =~= seconds(p));
        assert(firsts(pairs).last() == pairs.last().0);
        assert(seconds(pairs).last() == pairs.last().1);
        let a = label_active_count(reference, pairs.last().0, s, e);
        let c = label_active_count(prediction, pairs.last().1, s, e);
        assert(a * c <= a && a * c <= c) by (nonlinear_arith)
            requires
                a <= 1,
                c <= 1,
        ;
    }
}

proof fn lemma_pairing_below_windows(
    reference: Seq<SpeakerSpan>,
    prediction: Seq<SpeakerSpan>,
    pairs: Seq<(Seq<char>, Seq<char>)>,
)
    ensures
        pairing_overlap(pairs, reference, prediction) <= windows_sum(
            boundaries(reference, prediction),
            pairs_term(reference, prediction, pairs),
        ),
    decreases pairs.len(),
{
    let b = boundaries(reference, prediction);
    if pairs.len() == 0 {
        assert forall|s: u64, e: u64| #[trigger] pairs_term(reference, prediction, pairs)(s, e) >= 0 by {}
        lemma_windows_nonneg(b, pairs_term(reference, prediction, pairs));
    } else {
        let prior = pairs.drop_last();
        lemma_pairing_below_windows(reference, prediction, prior);
        let last = pairs.last();
        let ot = overlap_term(reference, prediction, last.0, last.1);
        assert forall|s: u64, e: u64| #[trigger] pairs_term(reference, prediction, pairs)(s, e) == pairs_term(
            reference,
            prediction,
            prior,
        )(s, e) + ot(s, e) by {
            let d = duration(s, e);
            let pp = pair_product(reference, prediction, prior, s, e);
            let a = label_active_count(reference, last.0, s, e);
            let c = label_active_count(prediction, last.1, s, e);
            assert(d * (pp + a * c) == d * pp + d * a * c) by (nonlinear_arith);
        }
        lemma_windows_add(b, pairs_term(reference, prediction, prior), ot, pairs_term(reference, prediction, pairs));
        assert forall|s: u64, e: u64| #[trigger] ot(s, e) >= 0 by {
            let d = duration(s, e);
            let a = label_active_count(reference, last.0, s, e);
            let c = label_active_count(prediction, last.1, s, e);
            assert(d * a * c >= 0) by (nonlinear_arith)
                requires
                    d >= 0,
            ;
        }
        lemma_windows_nonneg(b, ot);
        assert(speaker_overlap(reference, prediction, last.0, last.1) == cap(windows_sum(b, ot)));
    }
}

/// In a window between consecutive boundaries, paired speakers overlap no
/// longer than the smaller of the reference and predicted speaker counts.
proof fn lemma_pairs_within_paired(
    reference: Seq<SpeakerSpan>,
    prediction: Seq<SpeakerSpan>,
    pairs: Seq<(Seq<char>, Seq<char>)>,
    b: Seq<u64>,
    k: int,
)
    requires
        increasing(b),
        0 <= k,
        k + 1 < b.len(),
        endpoints_in(reference, b),
        endpoints_in(prediction, b),
        no_self_overlap(reference),
        no_self_overlap(prediction),
        is_speaker_pairing(pairs, reference, prediction),
    ensures
        pairs_term(reference, prediction, pairs)(b[k], b[k + 1]) <= paired_term(reference, prediction)(b[k], b[k + 1]),
{
    let s = b[k];
    let e = b[k + 1];
    assert forall|l: Seq<char>| #[trigger] label_active_count(reference, l, s, e) <= 1 by {
        lemma_single_active(reference, l, b, k);
    }
    assert forall|l: Seq<char>| #[trigger] label_active_count(prediction, l, s, e) <= 1 by {
        lemma_single_active(prediction, l, b, k);
    }
    lemma_pair_product_bounds(reference, prediction, pairs, s, e);
    assert forall|i: int, j: int| 0 <= i < j < firsts(pairs).len() implies #[trigger] firsts(pairs)[i] != #[trigger] firsts(
        pairs,
    )[j] by {
        assert(pairs[i].0 != pairs[j].0);
    }
    assert forall|i: int, j: int|
        0 <= i < j < seconds(pairs).len() implies #[trigger] seconds(pairs)[i] != #[trigger] seconds(pairs)[j] by {
        assert(pairs[i].1 != pairs[j].1);
    }
    lemma_labels_active_bound(reference, firsts(pairs), s, e);
    lemma_labels_active_bound(prediction, seconds(pairs), s, e);
    let d = duration(s, e);
    let pp = pair_product(reference, prediction, pairs, s, e);
    let ar = active_count(reference, s, e);
    let ap = active_count(prediction, s, e);
    let m: int = if ar < ap { ar as int } else { ap as int };
    assert(d * pp <= d * m) by (nonlinear_arith)
        requires
            d >= 0,
            pp <= m,
    ;
}

/// The speaker scores add up: with no speaker talking twice at once and no
/// total beyond `u64::MAX`, reference time is missed plus correct plus
/// confused time, and predicted time is false-alarm plus correct plus
/// confused time.
pub(crate) proof fn lemma_speaker_identities(
    reference: Seq<SpeakerSpan>,
    prediction: Seq<SpeakerSpan>,
    stats: SpeakerStats,
    pairs: Seq<(Seq<char>, Seq<char>)>,
)
    requires
        increasing(boundaries(reference, prediction)),
        forall|x: u64|
            #[trigger] boundaries(reference, prediction).contains(x) <==> (is_endpoint(reference, x) || is_endpoint(
                prediction,
                x,
            )),
        no_self_overlap(reference),
        no_self_overlap(prediction),
        is_speaker_pairing(pairs, reference, prediction),
        stats.correct_speaker_ms == cap(pairing_overlap(pairs, reference, prediction)),
        stats.reference_speaker_ms == cap(windows_sum(boundaries(reference, prediction), speech_term(reference))),
        stats.predicted_speaker_ms == cap(windows_sum(boundaries(reference, prediction), speech_term(prediction))),
        stats.missed_speaker_ms == cap(windows_sum(boundaries(reference, prediction), missed_term(reference, prediction))),
        stats.false_alarm_ms == cap(windows_sum(boundaries(reference, prediction), missed_term(prediction, reference))),
        stats.speaker_confusion_ms == sat_sub(
            cap(windows_sum(boundaries(reference, prediction), paired_term(reference, prediction))),
            stats.correct_speaker_ms,
        ),
    ensures
        windows_sum(boundaries(reference, prediction), speech_term(reference)) <= u64::MAX ==> stats.reference_speaker_ms
            == stats.missed_speaker_ms + stats.correct_speaker_ms + stats.speaker_confusion_ms,
        windows_sum(boundaries(reference, prediction), speech_term(prediction)) <= u64::MAX
            ==> stats.predicted_speaker_ms == stats.false_alarm_ms + stats.correct_speaker_ms
            + stats.speaker_confusion_ms,
{
    let b = boundaries(reference, prediction);
    assert forall|i: int| 0 <= i < reference.len() implies b.contains((#[trigger] reference[i]).start_ms) && b.contains(
        reference[i].end_ms,
    ) by {
        assert(is_endpoint(reference, reference[i].start_ms));
        assert(is_endpoint(reference, reference[i].end_ms));
    }
    assert forall|i: int| 0 <= i < prediction.len() implies b.contains((#[trigger] prediction[i]).start_ms) && b.contains(
        prediction[i].end_ms,
    ) by {
        assert(is_endpoint(prediction, prediction[i].start_ms));
        assert(is_endpoint(prediction, prediction[i].end_ms));
    }
    let paired = paired_term(reference, prediction);
    let missed = missed_term(reference, prediction);
    let false_alarm = missed_term(prediction, reference);
    assert forall|s: u64, e: u64| #[trigger] speech_term(reference)(s, e) == missed(s, e) + paired(s, e) by {
        let d = duration(s, e);
        let ar = active_count(reference, s, e) as int;
        let ap = active_count(prediction, s, e) as int;
        assert(d * ar == d * (ar - ap) + d * ap) by (nonlinear_arith);
    }
    assert forall|s: u64, e: u64| #[trigger] speech_term(prediction)(s, e) == false_alarm(s, e) + paired(s, e) by {
        let d = duration(s, e);
        let ar = active_count(reference, s, e) as int;
        let ap = active_count(prediction, s, e) as int;
        assert(d * ap == d * (ap - ar) + d * ar) by (nonlinear_arith);
    }
    lemma_windows_add(b, missed, paired, speech_term(reference));
    lemma_windows_add(b, false_alarm, paired, speech_term(prediction));
    assert forall|s: u64, e: u64| #[trigger] missed(s, e) >= 0 by {
        let d = duration(s, e);
        let ar = active_count(reference, s, e) as int;
        let ap = active_count(prediction, s, e) as int;
        if ar > ap {
            assert(d * (ar - ap) >= 0) by (nonlinear_arith)
                requires
                    d >= 0,
                    ar > ap,
            ;
        }
    }
    assert forall|s: u64, e: u64| #[trigger] false_alarm(s, e) >= 0 by {
        let d = duration(s, e);
        let ar = active_count(reference, s, e) as int;
        let ap = active_count(prediction, s, e) as int;
        if ap > ar {
            assert(d * (ap - ar) >= 0) by (nonlinear_arith)
                requires
                    d >= 0,
                    ap > ar,
            ;
        }
    }
    assert forall|s: u64, e: u64| #[trigger] paired(s, e) >= 0 by {
        let d = duration(s, e);
        let ar = active_count(reference, s, e) as int;
        let ap = active_count(prediction, s, e) as int;
        assert(d * ar >= 0 && d * ap >= 0) by (nonlinear_arith)
            requires
                d >= 0,
                ar >= 0,
                ap >= 0,
        ;
    }
    lemma_windows_nonneg(b, missed);
    lemma_windows_nonneg(b, false_alarm);
    lemma_windows_nonneg(b, paired);
    lemma_pairing_below_windows(reference, prediction, pairs);
    assert forall|k: int| 0 <= k && k + 1 < b.len() implies pairs_term(reference, prediction, pairs)(
        #[trigger] b[k],
        b[k + 1],
    ) <= paired(b[k], b[k + 1]) by {
        lemma_pairs_within_paired(reference, prediction, pairs, b, k);
    }
    lemma_windows_le(b, pairs_term(reference, prediction, pairs), paired);
}

} // verus!
