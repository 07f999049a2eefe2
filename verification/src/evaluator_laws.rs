//! What every transcription state of a dataset evaluator keeps: each source
//! has seen only eligible timelines, and with a non-empty selection the
//! sources are exactly the selected ones.

use vstd::prelude::*;

use crate::evaluation::{
    first_unevaluated, transcription_timeline_counts, DatasetEvalError, DatasetEvaluation, EvaluationKind,
    TimelineEvalConfig, missing_ids, transcription_summary, DatasetTranscriptionEvaluation, TranscriptionAccumulator,
    TranscriptionEvaluation, TranscriptionNormalization,
};
use crate::evaluator::{
    entry_views, activity_folded, activity_step, effective_selection, finish_result, selection_set, selection_view,
    transcription_missing, ActivityState, transcription_finished, transcription_totals, DatasetEvaluator, empty_transcription_totals, keep_source, sources_added, timeline_key_spec, transcription_folded,
    transcription_step, TimelineOutcome, TranscriptionState, TranscriptionTotals,
};
use crate::ordered::{
    key_slot, lemma_insert_at_slot, lemma_key_slot_exists, lemma_text_lt_trichotomy, strictly_sorted, texts, TextSet,
};

verus! {

/// The sources are strictly ascending with one total each, and every source
/// has seen only eligible timelines.
pub open spec fn transcription_state_ok(st: TranscriptionState) -> bool {
    &&& strictly_sorted(st.2)
    &&& st.2.len() == st.3.len()
    &&& forall|t: int| 0 <= t < st.3.len() ==> (#[trigger] st.3[t]).1.subset_of(st.0)
}

/// Sources keep their order and count, have seen only timelines of `e`, and,
/// with a non-empty selection matching them, stay the selected ones.
spec fn sources_ok(
    keys: Seq<Seq<char>>,
    r: (Seq<Seq<char>>, Seq<TranscriptionTotals>),
    sel: Seq<Seq<char>>,
    e: Set<Seq<char>>,
) -> bool {
    &&& strictly_sorted(r.0)
    &&& r.0.len() == r.1.len()
    &&& forall|t: int| 0 <= t < r.1.len() ==> (#[trigger] r.1[t]).1.subset_of(e)
    &&& (sel.len() > 0 && keys.to_set() == sel.to_set() ==> r.0.to_set() == sel.to_set())
}

proof fn lemma_sources_added(
    keys: Seq<Seq<char>>,
    views: Seq<TranscriptionTotals>,
    entries: Seq<(Seq<char>, TranscriptionEvaluation)>,
    sel: Seq<Seq<char>>,
    step: spec_fn(TranscriptionTotals, TranscriptionEvaluation) -> TranscriptionTotals,
    e: Set<Seq<char>>,
    key: Seq<char>,
)
    requires
        strictly_sorted(keys),
        keys.len() == views.len(),
        forall|t: int| 0 <= t < views.len() ==> (#[trigger] views[t]).1.subset_of(e),
        e.contains(key),
        forall|t: TranscriptionTotals, r: TranscriptionEvaluation| #[trigger] step(t, r).1 == t.1.insert(key),
    ensures
        sources_ok(keys, sources_added(keys, views, entries, sel, empty_transcription_totals(), step), sel, e),
    decreases entries.len(),
{
    if entries.len() > 0 {
        let prior = sources_added(keys, views, entries.drop_last(), sel, empty_transcription_totals(), step);
        lemma_sources_added(keys, views, entries.drop_last(), sel, step, e, key);
        let name = entries.last().0;
        let r = entries.last().1;
        if keep_source(sel, name) {
            lemma_key_slot_exists(prior.0, name);
            let found = key_slot(prior.0, name).0;
            let pos = key_slot(prior.0, name).1;
            if found {
                let nv = prior.1.update(pos, step(prior.1[pos], r));
                assert forall|t: int| 0 <= t < nv.len() implies (#[trigger] nv[t]).1.subset_of(e) by {
                    if t != pos {
                        assert(nv[t] == prior.1[t]);
                    }
                }
            } else {
                lemma_insert_at_slot(prior.0, name, pos);
                let nv = prior.1.insert(pos, step(empty_transcription_totals(), r));
                assert forall|t: int| 0 <= t < nv.len() implies (#[trigger] nv[t]).1.subset_of(e) by {
                    if t < pos {
                        assert(nv[t] == prior.1[t]);
                    } else if t > pos {
                        assert(nv[t] == prior.1[t - 1]);
                    }
                }
                if sel.len() > 0 && keys.to_set() == sel.to_set() {
                    assert(sel.to_set().contains(name));
                    assert(prior.0.to_set().insert(name) =~= sel.to_set());
                }
            }
        }
    }
}

/// Folding one timeline keeps the state sound, and keeps a non-empty
/// selection's sources exactly the selected ones.
pub proof fn lemma_transcription_step_ok(
    st: TranscriptionState,
    selection: Option<Seq<Seq<char>>>,
    audio_id: Seq<char>,
    outcome: TimelineOutcome,
)
    requires
        transcription_state_ok(st),
    ensures
        transcription_state_ok(transcription_step(st, selection, audio_id, outcome)),
        selection matches Some(sel) ==> (sel.len() > 0 && st.2.to_set() == sel.to_set() ==> transcription_step(
            st,
            selection,
            audio_id,
            outcome,
        ).2.to_set() == sel.to_set()),
{
    let key = timeline_key_spec(audio_id, outcome.channel);
    match selection {
        None => {},
        Some(sel) => {
            if outcome.has_text_reference {
                let e = st.0.insert(key);
                assert forall|t: int| 0 <= t < st.3.len() implies (#[trigger] st.3[t]).1.subset_of(e) by {}
                let step = |t: TranscriptionTotals, r: TranscriptionEvaluation|
                    crate::evaluator::transcription_totals_added(t, audio_id, key, r);
                lemma_sources_added(
                    st.2,
                    st.3,
                    crate::evaluator::entry_views(outcome.transcription@),
                    sel,
                    step,
                    e,
                    key,
                );
            } else {
                let nt = transcription_step(st, selection, audio_id, outcome);
                assert forall|t: int| 0 <= t < nt.3.len() implies (#[trigger] nt.3[t]).1.subset_of(nt.0) by {
                    assert(st.3[t].1.subset_of(st.0));
                }
            }
        },
    }
}

/// Folding any timelines in order keeps the transcription state sound:
/// every source has seen only eligible timelines, and a non-empty selection's
/// sources stay exactly the selected ones.
pub proof fn lemma_transcription_folded_ok(
    st: TranscriptionState,
    selection: Option<Seq<Seq<char>>>,
    audio_id: Seq<char>,
    outcomes: Seq<TimelineOutcome>,
)
    requires
        transcription_state_ok(st),
    ensures
        transcription_state_ok(transcription_folded(st, selection, audio_id, outcomes)),
        selection matches Some(sel) ==> (sel.len() > 0 && st.2.to_set() == sel.to_set() ==> transcription_folded(
            st,
            selection,
            audio_id,
            outcomes,
        ).2.to_set() == sel.to_set()),
    decreases outcomes.len(),
{
    if outcomes.len() > 0 {
        lemma_transcription_folded_ok(st, selection, audio_id, outcomes.drop_last());
        lemma_transcription_step_ok(
            transcription_folded(st, selection, audio_id, outcomes.drop_last()),
            selection,
            audio_id,
            outcomes.last(),
        );
    }
}

proof fn lemma_filter_split(s: Seq<Seq<char>>, q1: spec_fn(Seq<char>) -> bool, q2: spec_fn(Seq<char>) -> bool)
    requires
        forall|x: Seq<char>| #[trigger] q2(x) == !q1(x),
    ensures
        s.len() == s.filter(q1).len() + s.filter(q2).len(),
    decreases s.len(),
{
    reveal(Seq::filter);
    if s.len() > 0 {
        lemma_filter_split(s.drop_last(), q1, q2);
        assert(q2(s.last()) == !q1(s.last()));
    }
}

proof fn lemma_filter_sorted(s: Seq<Seq<char>>, q: spec_fn(Seq<char>) -> bool)
    requires
        strictly_sorted(s),
    ensures
        strictly_sorted(s.filter(q)),
        forall|i: int| 0 <= i < s.filter(q).len() ==> s.contains(#[trigger] s.filter(q)[i]),
    decreases s.len(),
{
    reveal(Seq::filter);
    if s.len() > 0 {
        let p = s.drop_last();
        assert forall|i: int, j: int| 0 <= i < j < p.len() implies crate::ordered::text_lt(p[i], p[j]) by {
            assert(p[i] == s[i] && p[j] == s[j]);
        }
        lemma_filter_sorted(p, q);
        let f = p.filter(q);
        assert forall|i: int| 0 <= i < f.len() implies s.contains(#[trigger] f[i]) by {
            let k = choose|k: int| 0 <= k < p.len() && p[k] == f[i];
            assert(s[k] == f[i]);
        }
        if q(s.last()) {
            let g = f.push(s.last());
            assert forall|i: int, j: int| 0 <= i < j < g.len() implies crate::ordered::text_lt(g[i], g[j]) by {
                if j == g.len() - 1 {
                    let k = choose|k: int| 0 <= k < p.len() && p[k] == f[i];
                    assert(g[i] == f[i]);
                    assert(s[k] == f[i]);
                    assert(g[j] == s[s.len() - 1]);
                } else {
                    assert(g[i] == f[i] && g[j] == f[j]);
                }
            }
            assert forall|i: int| 0 <= i < g.len() implies s.contains(#[trigger] g[i]) by {
                if i < f.len() {
                    assert(g[i] == f[i]);
                } else {
                    assert(s[s.len() - 1] == g[i]);
                }
            }
        }
    }
}

proof fn lemma_sorted_no_duplicates(s: Seq<Seq<char>>)
    requires
        strictly_sorted(s),
    ensures
        s.no_duplicates(),
{
    assert forall|i: int, j: int| 0 <= i < s.len() && 0 <= j < s.len() && i != j implies s[i] != s[j] by {
        lemma_text_lt_trichotomy(s[i], s[i]);
    }
}

/// Each source's summary accounts for every eligible timeline once: the
/// timelines it saw and those it missed add up to the eligible ones, and
/// the missing ids are eligible, strictly ascending and counted.
pub proof fn lemma_transcription_summary_counts(
    source: Seq<char>,
    acc: TranscriptionAccumulator,
    eligible: &TextSet,
    unannotated: &TextSet,
    normalization: TranscriptionNormalization,
    out: DatasetTranscriptionEvaluation,
)
    requires
        eligible.wf(),
        acc.wf(),
        acc.evaluated_timelines.members().subset_of(eligible.members()),
        transcription_summary(source, acc, eligible, unannotated, normalization, out),
    ensures
        out.evaluated_timelines + out.missing_predictions == eligible.view_seq().len(),
        out.missing_prediction_ids@.len() == out.missing_predictions,
        strictly_sorted(texts(out.missing_prediction_ids@)),
        forall|i: int|
            0 <= i < out.missing_prediction_ids@.len() ==> eligible.members().contains(
                #[trigger] texts(out.missing_prediction_ids@)[i],
            ),
{
    let e = eligible.view_seq();
    let seen = acc.evaluated_timelines.view_seq();
    eligible.lemma_sorted();
    acc.evaluated_timelines.lemma_sorted();
    let q1 = |x: Seq<char>| seen.contains(x);
    let q2 = |x: Seq<char>| !acc.evaluated_timelines.view_seq().contains(x);
    assert(missing_ids(eligible, &acc.evaluated_timelines) == e.filter(q2));
    lemma_filter_split(e, q1, q2);
    lemma_filter_sorted(e, q1);
    lemma_filter_sorted(e, q2);
    let kept = e.filter(q1);
    #[allow(deprecated)]
    e.filter_lemma(q1);
    assert forall|x: Seq<char>| kept.to_set().contains(x) <==> seen.to_set().contains(x) by {
        if kept.contains(x) {
            let i = choose|i: int| 0 <= i < kept.len() && kept[i] == x;
            assert(q1(kept[i]));
        }
        if seen.contains(x) {
            assert(acc.evaluated_timelines.members().contains(x));
            assert(eligible.members().contains(x));
            let i = choose|i: int| 0 <= i < e.len() && e[i] == x;
            assert(q1(e[i]));
        }
    }
    assert(kept.to_set() =~= seen.to_set());
    lemma_sorted_no_duplicates(kept);
    lemma_sorted_no_duplicates(seen);
    kept.unique_seq_to_set();
    seen.unique_seq_to_set();
    assert(texts(out.missing_prediction_ids@).len() == out.missing_prediction_ids@.len());
}

/// After any pushes into a fresh evaluator, every transcription summary of a
/// finished evaluation accounts for each eligible timeline once: seen plus
/// missing timelines are the eligible ones, and the missing ids are eligible,
/// strictly ascending and counted.
pub proof fn lemma_finished_transcription_counts(
    ev: DatasetEvaluator,
    v: Seq<(String, DatasetTranscriptionEvaluation)>,
)
    requires
        ev.wf(),
        transcription_state_ok(ev.transcription_state()),
        transcription_finished(
            &ev.transcription,
            &ev.transcription_eligible,
            &ev.transcription_unannotated,
            ev.config.transcription_normalization,
            v,
        ),
    ensures
        forall|i: int|
            0 <= i < v.len() ==> (#[trigger] v[i]).1.evaluated_timelines + v[i].1.missing_predictions
                == ev.transcription_eligible.view_seq().len() && v[i].1.missing_prediction_ids@.len()
                == v[i].1.missing_predictions && strictly_sorted(texts(v[i].1.missing_prediction_ids@)) && forall|
                j: int,
            |
                0 <= j < v[i].1.missing_prediction_ids@.len() ==> ev.transcription_eligible.members().contains(
                    #[trigger] texts(v[i].1.missing_prediction_ids@)[j],
                ),
{
    assert forall|i: int| 0 <= i < v.len() implies (#[trigger] v[i]).1.evaluated_timelines + v[i].1.missing_predictions
        == ev.transcription_eligible.view_seq().len() && v[i].1.missing_prediction_ids@.len()
        == v[i].1.missing_predictions && strictly_sorted(texts(v[i].1.missing_prediction_ids@)) && forall|j: int|
        0 <= j < v[i].1.missing_prediction_ids@.len() ==> ev.transcription_eligible.members().contains(
            #[trigger] texts(v[i].1.missing_prediction_ids@)[j],
        ) by {
        let st = ev.transcription_state();
        let acc = ev.transcription.value_seq()[i];
        assert(st.3[i] == transcription_totals(acc));
        assert(st.3[i].1.subset_of(st.0));
        lemma_transcription_summary_counts(
            ev.transcription.key_seq()[i],
            acc,
            &ev.transcription_eligible,
            &ev.transcription_unannotated,
            ev.config.transcription_normalization,
            v[i].1,
        );
    }
}

/// `b` is `a` after pushing the timelines `outcomes` of document `audio_id`.
pub open spec fn pushed_into(
    a: DatasetEvaluator,
    b: DatasetEvaluator,
    audio_id: Seq<char>,
    outcomes: Seq<TimelineOutcome>,
) -> bool {
    &&& b.wf()
    &&& b.same_settings(&a)
    &&& b.documents == a.documents + 1
    &&& b.timelines == a.timelines + outcomes.len()
    &&& b.transcription_state() == transcription_folded(
        a.transcription_state(),
        selection_view(a.transcription_selection),
        audio_id,
        outcomes,
    )
    &&& b.activity_state() == activity_folded(
        a.activity_state(),
        selection_view(a.activity_selection),
        audio_id,
        outcomes,
    )
}

/// The number of timelines of the documents.
pub open spec fn total_timelines(docs: Seq<(Seq<char>, Seq<TimelineOutcome>)>) -> int
    decreases docs.len(),
{
    if docs.len() == 0 {
        0
    } else {
        total_timelines(docs.drop_last()) + docs.last().1.len()
    }
}

/// The keys of a document's timelines that carry a text reference.
pub open spec fn outcome_keys(audio_id: Seq<char>, outcomes: Seq<TimelineOutcome>) -> Set<Seq<char>>
    decreases outcomes.len(),
{
    if outcomes.len() == 0 {
        Set::empty()
    } else {
        let rest = outcome_keys(audio_id, outcomes.drop_last());
        if outcomes.last().has_text_reference {
            rest.insert(timeline_key_spec(audio_id, outcomes.last().channel))
        } else {
            rest
        }
    }
}

/// The keys of all timelines of the documents that carry a text reference.
pub open spec fn reference_keys(docs: Seq<(Seq<char>, Seq<TimelineOutcome>)>) -> Set<Seq<char>>
    decreases docs.len(),
{
    if docs.len() == 0 {
        Set::empty()
    } else {
        reference_keys(docs.drop_last()).union(outcome_keys(docs.last().0, docs.last().1))
    }
}

proof fn lemma_folded_eligible(
    st: TranscriptionState,
    selection: Option<Seq<Seq<char>>>,
    audio_id: Seq<char>,
    outcomes: Seq<TimelineOutcome>,
)
    requires
        selection is Some,
    ensures
        transcription_folded(st, selection, audio_id, outcomes).0 == st.0.union(outcome_keys(audio_id, outcomes)),
    decreases outcomes.len(),
{
    if outcomes.len() == 0 {
        assert(st.0.union(Set::empty()) =~= st.0);
    } else {
        lemma_folded_eligible(st, selection, audio_id, outcomes.drop_last());
        let prior = outcome_keys(audio_id, outcomes.drop_last());
        let key = timeline_key_spec(audio_id, outcomes.last().channel);
        if outcomes.last().has_text_reference {
            assert(st.0.union(prior).insert(key) =~= st.0.union(prior.insert(key)));
        }
    }
}

proof fn lemma_folded_keys_unselected(
    st: TranscriptionState,
    audio_id: Seq<char>,
    outcomes: Seq<TimelineOutcome>,
)
    ensures
        transcription_folded(st, None, audio_id, outcomes) == st,
    decreases outcomes.len(),
{
    if outcomes.len() > 0 {
        lemma_folded_keys_unselected(st, audio_id, outcomes.drop_last());
    }
}

/// Over any pushes in order, starting from a sound state: the documents and
/// timelines are counted, the state stays sound, the eligible timelines
/// grow by exactly those with a text reference, and a non-empty selection's
/// sources stay exactly the selected ones.
pub proof fn lemma_after_pushes(evs: Seq<DatasetEvaluator>, docs: Seq<(Seq<char>, Seq<TimelineOutcome>)>)
    requires
        evs.len() == docs.len() + 1,
        forall|i: int| 0 <= i < docs.len() ==> pushed_into(evs[i], #[trigger] evs[i + 1], docs[i].0, docs[i].1),
        transcription_state_ok(evs[0].transcription_state()),
    ensures
        evs.last().documents == evs[0].documents + docs.len(),
        evs.last().timelines == evs[0].timelines + total_timelines(docs),
        evs.last().same_settings(&evs[0]),
        transcription_state_ok(evs.last().transcription_state()),
        selection_view(evs[0].transcription_selection) is Some ==> evs.last().transcription_state().0
            == evs[0].transcription_state().0.union(reference_keys(docs)),
        selection_view(evs[0].transcription_selection) is None ==> evs.last().transcription_state()
            == evs[0].transcription_state(),
        selection_view(evs[0].transcription_selection) matches Some(sel) ==> (sel.len() > 0
            && evs[0].transcription_state().2.to_set() == sel.to_set() ==> evs.last().transcription_state().2.to_set()
            == sel.to_set()),
    decreases docs.len(),
{
    if docs.len() == 0 {
        assert(evs.last() == evs[0]);
        assert(evs[0].transcription_state().0.union(Set::empty()) =~= evs[0].transcription_state().0);
    } else {
        let n = docs.len() - 1;
        let pe = evs.drop_last();
        let pd = docs.drop_last();
        assert forall|i: int| 0 <= i < pd.len() implies pushed_into(pe[i], #[trigger] pe[i + 1], pd[i].0, pd[i].1) by {
            assert(pe[i] == evs[i] && pe[i + 1] == evs[i + 1] && pd[i] == docs[i]);
        }
        lemma_after_pushes(pe, pd);
        assert(pe.last() == evs[n]);
        assert(pushed_into(evs[n], evs[n + 1], docs[n].0, docs[n].1));
        assert(evs.last() == evs[n + 1]);
        assert(docs.last() == docs[n]);
        let a = evs[n];
        let sel = selection_view(a.transcription_selection);
        assert(sel == selection_view(evs[0].transcription_selection));
        lemma_transcription_folded_ok(a.transcription_state(), sel, docs[n].0, docs[n].1);
        if sel is Some {
            lemma_folded_eligible(a.transcription_state(), sel, docs[n].0, docs[n].1);
            assert(evs[0].transcription_state().0.union(reference_keys(pd)).union(outcome_keys(docs[n].0, docs[n].1))
                =~= evs[0].transcription_state().0.union(reference_keys(docs)));
        } else {
            lemma_folded_keys_unselected(a.transcription_state(), docs[n].0, docs[n].1);
        }
    }
}

/// What a fresh evaluator for `config` holds.
pub open spec fn fresh_evaluator(e: DatasetEvaluator, config: TimelineEvalConfig) -> bool {
    &&& e.wf()
    &&& e.config == config
    &&& selection_view(e.transcription_selection) == effective_selection(
        config.transcription_sources,
        config.activity_sources,
    )
    &&& selection_view(e.activity_selection) == effective_selection(config.activity_sources, config.transcription_sources)
    &&& e.documents == 0
    &&& e.timelines == 0
    &&& e.transcription_state().0 == Set::<Seq<char>>::empty()
    &&& transcription_state_ok(e.transcription_state())
    &&& e.transcription_state().2.to_set() == selection_set(selection_view(e.transcription_selection))
    &&& e.activity_state().2.to_set() == selection_set(selection_view(e.activity_selection))
}

/// The source names of per-source summaries.
pub open spec fn summary_names<E>(v: Seq<(String, E)>) -> Seq<Seq<char>> {
    v.map_values(|x: (String, E)| x.0@)
}

proof fn lemma_activity_folded_unselected(st: ActivityState, audio_id: Seq<char>, outcomes: Seq<TimelineOutcome>)
    ensures
        activity_folded(st, None, audio_id, outcomes) == st,
    decreases outcomes.len(),
{
    if outcomes.len() > 0 {
        lemma_activity_folded_unselected(st, audio_id, outcomes.drop_last());
    }
}

proof fn lemma_activity_unselected_after_pushes(
    evs: Seq<DatasetEvaluator>,
    docs: Seq<(Seq<char>, Seq<TimelineOutcome>)>,
)
    requires
        evs.len() == docs.len() + 1,
        forall|i: int| 0 <= i < docs.len() ==> pushed_into(evs[i], #[trigger] evs[i + 1], docs[i].0, docs[i].1),
        selection_view(evs[0].activity_selection) is None,
    ensures
        evs.last().activity_state() == evs[0].activity_state(),
        selection_view(evs.last().activity_selection) is None,
    decreases docs.len(),
{
    if docs.len() > 0 {
        let n = docs.len() - 1;
        let pe = evs.drop_last();
        let pd = docs.drop_last();
        assert forall|i: int| 0 <= i < pd.len() implies pushed_into(pe[i], #[trigger] pe[i + 1], pd[i].0, pd[i].1) by {
            assert(pe[i] == evs[i] && pe[i + 1] == evs[i + 1] && pd[i] == docs[i]);
        }
        lemma_activity_unselected_after_pushes(pe, pd);
        assert(pe.last() == evs[n]);
        assert(pushed_into(evs[n], evs[n + 1], docs[n].0, docs[n].1));
        assert(evs.last() == evs[n + 1]);
        lemma_activity_folded_unselected(evs[n].activity_state(), docs[n].0, docs[n].1);
    }
}

/// A fresh evaluator, documents pushed in order, then finished: the result
/// counts every document and timeline; each transcription summary has seen
/// at least one timeline, and its seen and missing timelines are exactly
/// the timelines with a text reference, the missing ones listed ascending,
/// once each. With a non-empty transcription selection and no activity
/// selection, a successful result has no activity summaries and summarises
/// exactly the selected sources, and a selected source that saw no timeline
/// while some timeline had a text reference fails the evaluation.
pub proof fn lemma_evaluation_after_pushes(
    config: TimelineEvalConfig,
    evs: Seq<DatasetEvaluator>,
    docs: Seq<(Seq<char>, Seq<TimelineOutcome>)>,
    result: Result<DatasetEvaluation, DatasetEvalError>,
)
    requires
        evs.len() == docs.len() + 1,
        fresh_evaluator(evs[0], config),
        forall|i: int| 0 <= i < docs.len() ==> pushed_into(evs[i], #[trigger] evs[i + 1], docs[i].0, docs[i].1),
        finish_result(evs.last(), result),
    ensures
        result matches Ok(r) ==> (r.documents == docs.len() && r.timelines == total_timelines(docs)),
        result matches Ok(r) ==> forall|i: int|
            0 <= i < r.transcription@.len() ==> (#[trigger] r.transcription@[i]).1.evaluated_timelines >= 1
                && r.transcription@[i].1.evaluated_timelines + r.transcription@[i].1.missing_predictions
                == reference_keys(docs).len() && r.transcription@[i].1.missing_prediction_ids@.len()
                == r.transcription@[i].1.missing_predictions && strictly_sorted(
                texts(r.transcription@[i].1.missing_prediction_ids@),
            ) && forall|j: int|
                0 <= j < r.transcription@[i].1.missing_prediction_ids@.len() ==> reference_keys(docs).contains(
                    #[trigger] texts(r.transcription@[i].1.missing_prediction_ids@)[j],
                ),
        config.transcription_sources matches Some(v) ==> (v@.len() > 0 && config.activity_sources is None ==> (
        result matches Ok(r) ==> (r.activity@.len() == 0 && summary_names(r.transcription@).to_set() == texts(
            v@,
        ).to_set()))),
        config.transcription_sources matches Some(v) ==> (v@.len() > 0 && config.activity_sources is None && reference_keys(
            docs,
        ).len() > 0 && (exists|t: int|
            0 <= t < evs.last().transcription.value_seq().len()
                && (#[trigger] evs.last().transcription.value_seq()[t]).evaluated_timelines.view_seq().len() == 0)
            ==> (result matches Err(DatasetEvalError::MissingPrediction { kind, prediction_source }) && kind
            == EvaluationKind::Transcription)),
{
    lemma_after_pushes(evs, docs);
    let ev = evs.last();
    if docs.len() == 0 {
        assert(ev == evs[0]);
    } else {
        let n = docs.len() - 1;
        assert(pushed_into(evs[n], evs[n + 1], docs[n].0, docs[n].1));
        assert(ev == evs[n + 1]);
    }
    assert(ev.wf());
    let st = ev.transcription_state();
    let sel = selection_view(evs[0].transcription_selection);
    assert(selection_view(ev.transcription_selection) == sel);
    // The eligible timelines are those with a text reference.
    let e = ev.transcription_eligible.view_seq();
    ev.transcription_eligible.lemma_sorted();
    lemma_sorted_no_duplicates(e);
    e.unique_seq_to_set();
    if sel is Some {
        assert(Set::<Seq<char>>::empty().union(reference_keys(docs)) =~= reference_keys(docs));
        assert(e.to_set() == reference_keys(docs));
    } else {
        assert(selection_set(sel) == Set::<Seq<char>>::empty());
        assert(st.2.to_set() =~= Set::<Seq<char>>::empty());
        if st.2.len() > 0 {
            assert(st.2.to_set().contains(st.2[0]));
        }
    }
    match result {
        Ok(r) => {
            lemma_finished_transcription_counts(ev, r.transcription@);
            assert(transcription_missing(&ev.transcription, &ev.transcription_eligible) is None);
            assert forall|i: int| 0 <= i < r.transcription@.len() implies (#[trigger] r.transcription@[i]).1.evaluated_timelines
                >= 1 by {
                let counts = transcription_timeline_counts(ev.transcription.value_seq());
                if counts[i] == 0 {
                    assert(first_unevaluated(counts) is Some);
                }
            }
        },
        Err(_) => {},
    }
    if config.transcription_sources is Some && config.activity_sources is None {
        let v = config.transcription_sources->0;
        if v@.len() > 0 {
            assert(sel == Some(texts(v@)));
            assert(selection_view(evs[0].activity_selection) is None);
            lemma_activity_unselected_after_pushes(evs, docs);
            let ast = ev.activity_state();
            assert(ast.2.to_set() =~= Set::<Seq<char>>::empty());
            if ast.2.len() > 0 {
                assert(ast.2.to_set().contains(ast.2[0]));
            }
            match result {
                Ok(r) => {
                    if e.len() > 0 {
                        assert(summary_names(r.transcription@) =~= st.2);
                    } else {
                        assert(false);
                    }
                },
                Err(_) => {},
            }
            if reference_keys(docs).len() > 0 {
                if exists|t: int|
                    0 <= t < ev.transcription.value_seq().len()
                        && (#[trigger] ev.transcription.value_seq()[t]).evaluated_timelines.view_seq().len() == 0 {
                    let t = choose|t: int|
                        0 <= t < ev.transcription.value_seq().len()
                            && (#[trigger] ev.transcription.value_seq()[t]).evaluated_timelines.view_seq().len() == 0;
                    let counts = transcription_timeline_counts(ev.transcription.value_seq());
                    assert(counts[t] == 0);
                    assert(first_unevaluated(counts) is Some);
                }
            }
        }
    }
}

/// Source `name` has an accumulator that saw the timeline `key`.
pub open spec fn source_saw(keys: Seq<Seq<char>>, views: Seq<TranscriptionTotals>, name: Seq<char>, key: Seq<char>) -> bool {
    exists|t: int| 0 <= t < keys.len() && t < views.len() && keys[t] == name && (#[trigger] views[t]).1.contains(key)
}

proof fn lemma_sources_added_saw(
    keys: Seq<Seq<char>>,
    views: Seq<TranscriptionTotals>,
    entries: Seq<(Seq<char>, TranscriptionEvaluation)>,
    sel: Seq<Seq<char>>,
    step: spec_fn(TranscriptionTotals, TranscriptionEvaluation) -> TranscriptionTotals,
    key: Seq<char>,
)
    requires
        strictly_sorted(keys),
        keys.len() == views.len(),
        forall|t: TranscriptionTotals, r: TranscriptionEvaluation| #[trigger] step(t, r).1 == t.1.insert(key),
    ensures
        forall|n: Seq<char>, k: Seq<char>|
            source_saw(keys, views, n, k) ==> #[trigger] source_saw(
                sources_added(keys, views, entries, sel, empty_transcription_totals(), step).0,
                sources_added(keys, views, entries, sel, empty_transcription_totals(), step).1,
                n,
                k,
            ),
        forall|j: int|
            0 <= j < entries.len() && keep_source(sel, entries[j].0) ==> source_saw(
                sources_added(keys, views, entries, sel, empty_transcription_totals(), step).0,
                sources_added(keys, views, entries, sel, empty_transcription_totals(), step).1,
                #[trigger] entries[j].0,
                key,
            ),
    decreases entries.len(),
{
    if entries.len() > 0 {
        let pe = entries.drop_last();
        let prior = sources_added(keys, views, pe, sel, empty_transcription_totals(), step);
        let res = sources_added(keys, views, entries, sel, empty_transcription_totals(), step);
        lemma_sources_added_saw(keys, views, pe, sel, step, key);
        lemma_sources_added(keys, views, pe, sel, step, Set::full(), key);
        let name = entries.last().0;
        let r = entries.last().1;
        // Everything `prior` saw, `res` sees too.
        assert forall|n: Seq<char>, k: Seq<char>| source_saw(prior.0, prior.1, n, k) implies source_saw(
            res.0,
            res.1,
            n,
            k,
        ) by {
            let t = choose|t: int|
                0 <= t < prior.0.len() && t < prior.1.len() && prior.0[t] == n && (#[trigger] prior.1[t]).1.contains(k);
            if keep_source(sel, name) {
                lemma_key_slot_exists(prior.0, name);
                let found = key_slot(prior.0, name).0;
                let pos = key_slot(prior.0, name).1;
                if found {
                    if t == pos {
                        assert(res.1[t].1 == prior.1[t].1.insert(key));
                    } else {
                        assert(res.1[t] == prior.1[t]);
                    }
                    assert(res.0[t] == n);
                } else {
                    if t < pos {
                        assert(res.0[t] == n && res.1[t] == prior.1[t]);
                    } else {
                        assert(res.0[t + 1] == n && res.1[t + 1] == prior.1[t]);
                    }
                }
            }
        }
        assert forall|n: Seq<char>, k: Seq<char>| source_saw(keys, views, n, k) implies #[trigger] source_saw(
            res.0,
            res.1,
            n,
            k,
        ) by {
            assert(source_saw(prior.0, prior.1, n, k));
        }
        assert forall|j: int| 0 <= j < entries.len() && keep_source(sel, entries[j].0) implies source_saw(
            res.0,
            res.1,
            #[trigger] entries[j].0,
            key,
        ) by {
            if j < pe.len() {
                assert(pe[j] == entries[j]);
                assert(source_saw(prior.0, prior.1, pe[j].0, key));
            } else {
                assert(entries[j] == entries.last());
                lemma_key_slot_exists(prior.0, name);
                let found = key_slot(prior.0, name).0;
                let pos = key_slot(prior.0, name).1;
                if found {
                    assert(res.0[pos] == name && res.1[pos].1 == prior.1[pos].1.insert(key));
                    assert(res.1[pos].1.contains(key));
                } else {
                    assert(res.0[pos] == name && res.1[pos] == step(empty_transcription_totals(), r));
                    assert(res.1[pos].1.contains(key));
                }
            }
        }
    }
}

proof fn lemma_step_saw(
    st: TranscriptionState,
    selection: Option<Seq<Seq<char>>>,
    audio_id: Seq<char>,
    outcome: TimelineOutcome,
)
    requires
        transcription_state_ok(st),
    ensures
        forall|n: Seq<char>, k: Seq<char>|
            source_saw(st.2, st.3, n, k) ==> #[trigger] source_saw(
                transcription_step(st, selection, audio_id, outcome).2,
                transcription_step(st, selection, audio_id, outcome).3,
                n,
                k,
            ),
        selection matches Some(sel) ==> (outcome.has_text_reference ==> forall|j: int|
            0 <= j < outcome.transcription@.len() && keep_source(sel, outcome.transcription@[j].0@) ==> source_saw(
                transcription_step(st, selection, audio_id, outcome).2,
                transcription_step(st, selection, audio_id, outcome).3,
                (#[trigger] outcome.transcription@[j]).0@,
                timeline_key_spec(audio_id, outcome.channel),
            )),
{
    let key = timeline_key_spec(audio_id, outcome.channel);
    match selection {
        None => {},
        Some(sel) => {
            if outcome.has_text_reference {
                let step = |t: TranscriptionTotals, r: TranscriptionEvaluation|
                    crate::evaluator::transcription_totals_added(t, audio_id, key, r);
                let ev = entry_views(outcome.transcription@);
                lemma_sources_added_saw(st.2, st.3, ev, sel, step, key);
                assert forall|j: int|
                    0 <= j < outcome.transcription@.len() && keep_source(sel, outcome.transcription@[j].0@) implies source_saw(
                    transcription_step(st, selection, audio_id, outcome).2,
                    transcription_step(st, selection, audio_id, outcome).3,
                    (#[trigger] outcome.transcription@[j]).0@,
                    key,
                ) by {
                    assert(ev[j].0 == outcome.transcription@[j].0@);
                }
            }
        },
    }
}

proof fn lemma_folded_saw(
    st: TranscriptionState,
    selection: Option<Seq<Seq<char>>>,
    audio_id: Seq<char>,
    outcomes: Seq<TimelineOutcome>,
)
    requires
        transcription_state_ok(st),
    ensures
        forall|n: Seq<char>, k: Seq<char>|
            source_saw(st.2, st.3, n, k) ==> #[trigger] source_saw(
                transcription_folded(st, selection, audio_id, outcomes).2,
                transcription_folded(st, selection, audio_id, outcomes).3,
                n,
                k,
            ),
        selection matches Some(sel) ==> forall|i: int, j: int|
            0 <= i < outcomes.len() && outcomes[i].has_text_reference && 0 <= j < outcomes[i].transcription@.len()
                && keep_source(sel, outcomes[i].transcription@[j].0@) ==> source_saw(
                transcription_folded(st, selection, audio_id, outcomes).2,
                transcription_folded(st, selection, audio_id, outcomes).3,
                (#[trigger] outcomes[i].transcription@[j]).0@,
                timeline_key_spec(audio_id, outcomes[i].channel),
            ),
    decreases outcomes.len(),
{
    if outcomes.len() > 0 {
        let po = outcomes.drop_last();
        lemma_folded_saw(st, selection, audio_id, po);
        let mid = transcription_folded(st, selection, audio_id, po);
        lemma_transcription_folded_ok(st, selection, audio_id, po);
        lemma_step_saw(mid, selection, audio_id, outcomes.last());
        let fin = transcription_folded(st, selection, audio_id, outcomes);
        assert forall|n: Seq<char>, k: Seq<char>| source_saw(st.2, st.3, n, k) implies #[trigger] source_saw(
            fin.2,
            fin.3,
            n,
            k,
        ) by {
            assert(source_saw(mid.2, mid.3, n, k));
        }
        if selection is Some {
            let sel = selection->0;
            assert forall|i: int, j: int|
                0 <= i < outcomes.len() && outcomes[i].has_text_reference && 0 <= j < outcomes[i].transcription@.len()
                    && keep_source(sel, outcomes[i].transcription@[j].0@) implies source_saw(
                fin.2,
                fin.3,
                (#[trigger] outcomes[i].transcription@[j]).0@,
                timeline_key_spec(audio_id, outcomes[i].channel),
            ) by {
                if i < po.len() {
                    assert(po[i] == outcomes[i]);
                    assert(source_saw(mid.2, mid.3, po[i].transcription@[j].0@, timeline_key_spec(audio_id, po[i].channel)));
                } else {
                    assert(outcomes[i] == outcomes.last());
                }
            }
        }
    }
}

/// Over pushes in order, with every source scored (a selection that keeps
/// every source): each prediction source of each timeline with a text
/// reference has an accumulator that saw that timeline.
pub proof fn lemma_every_source_scored(evs: Seq<DatasetEvaluator>, docs: Seq<(Seq<char>, Seq<TimelineOutcome>)>)
    requires
        evs.len() == docs.len() + 1,
        forall|i: int| 0 <= i < docs.len() ==> pushed_into(evs[i], #[trigger] evs[i + 1], docs[i].0, docs[i].1),
        transcription_state_ok(evs[0].transcription_state()),
        selection_view(evs[0].transcription_selection) == Some(Seq::<Seq<char>>::empty()),
    ensures
        forall|d: int, i: int, j: int|
            0 <= d < docs.len() && 0 <= i < docs[d].1.len() && docs[d].1[i].has_text_reference && 0 <= j
                < docs[d].1[i].transcription@.len() ==> source_saw(
                evs.last().transcription_state().2,
                evs.last().transcription_state().3,
                (#[trigger] docs[d].1[i].transcription@[j]).0@,
                timeline_key_spec(docs[d].0, docs[d].1[i].channel),
            ),
    decreases docs.len(),
{
    if docs.len() > 0 {
        let n = docs.len() - 1;
        let pe = evs.drop_last();
        let pd = docs.drop_last();
        assert forall|i: int| 0 <= i < pd.len() implies pushed_into(pe[i], #[trigger] pe[i + 1], pd[i].0, pd[i].1) by {
            assert(pe[i] == evs[i] && pe[i + 1] == evs[i + 1] && pd[i] == docs[i]);
        }
        lemma_every_source_scored(pe, pd);
        lemma_after_pushes(pe, pd);
        assert(pe.last() == evs[n]);
        assert(pushed_into(evs[n], evs[n + 1], docs[n].0, docs[n].1));
        assert(evs.last() == evs[n + 1]);
        let a = evs[n];
        let sel = selection_view(a.transcription_selection);
        assert(sel == Some(Seq::<Seq<char>>::empty()));
        lemma_folded_saw(a.transcription_state(), sel, docs[n].0, docs[n].1);
        let fin = evs.last().transcription_state();
        let mid = a.transcription_state();
        assert forall|d: int, i: int, j: int|
            0 <= d < docs.len() && 0 <= i < docs[d].1.len() && docs[d].1[i].has_text_reference && 0 <= j
                < docs[d].1[i].transcription@.len() implies source_saw(
            fin.2,
            fin.3,
            (#[trigger] docs[d].1[i].transcription@[j]).0@,
            timeline_key_spec(docs[d].0, docs[d].1[i].channel),
        ) by {
            assert(keep_source(Seq::<Seq<char>>::empty(), docs[d].1[i].transcription@[j].0@));
            if d < n {
                assert(pd[d] == docs[d]);
                assert(source_saw(
                    mid.2,
                    mid.3,
                    pd[d].1[i].transcription@[j].0@,
                    timeline_key_spec(pd[d].0, pd[d].1[i].channel),
                ));
            }
        }
    }
}

} // verus!
