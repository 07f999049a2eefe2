//! Speaker diarization scores accumulated over a dataset, per prediction
//! source.

use vstd::prelude::*;

use crate::assignment::cap;
use crate::audio::AudioChannel;
use crate::evaluation::{
    first_unevaluated, missing_ids, sat_add, selected_sources, sources_for_timeline, DatasetEvalError,
    DatasetSpeakerEvaluation, EvaluationKind,
};
use crate::evaluator::{keep_source, timeline_key, timeline_key_spec};
use crate::ordered::{key_slot, lemma_key_slot_unique, strictly_sorted, texts, TextMap, TextSet};
use crate::speaker::{
    boundaries, evaluate_speakers, is_best_speaker_pairing, missed_term, paired_term, pairing_overlap, sat_sub,
    speech_term, windows_sum, SpeakerSpan, SpeakerStats,
};

verus! {

/// What `evaluate_speakers` guarantees of the scores of `prediction`
/// against `reference`.
pub open spec fn speaker_stats_valid(reference: Seq<SpeakerSpan>, prediction: Seq<SpeakerSpan>, stats: SpeakerStats) -> bool {
    &&& stats.reference_speaker_ms == cap(windows_sum(boundaries(reference, prediction), speech_term(reference)))
    &&& stats.predicted_speaker_ms == cap(windows_sum(boundaries(reference, prediction), speech_term(prediction)))
    &&& stats.missed_speaker_ms == cap(windows_sum(boundaries(reference, prediction), missed_term(reference, prediction)))
    &&& stats.false_alarm_ms == cap(windows_sum(boundaries(reference, prediction), missed_term(prediction, reference)))
    &&& exists|pairs: Seq<(Seq<char>, Seq<char>)>|
        #[trigger] is_best_speaker_pairing(pairs, reference, prediction) && stats.correct_speaker_ms == cap(
            pairing_overlap(pairs, reference, prediction),
        )
    &&& stats.speaker_confusion_ms == sat_sub(
        cap(windows_sum(boundaries(reference, prediction), paired_term(reference, prediction))),
        stats.correct_speaker_ms,
    )
}

/// A predicted speaker turn and the source that produced it, if named.
#[derive(Debug, Clone)]
pub struct SourcedSpeakerSpan {
    pub source: Option<String>,
    pub span: SpeakerSpan,
}

/// The speaker turns of one timeline of a document.
#[derive(Debug, Clone)]
pub struct SpeakerTimeline {
    pub channel: AudioChannel,
    pub reference: Vec<SpeakerSpan>,
    pub prediction: Vec<SourcedSpeakerSpan>,
}

/// The predicted turns of `source`, in order.
pub open spec fn turns_of(prediction: Seq<SourcedSpeakerSpan>, source: Seq<char>) -> Seq<SpeakerSpan>
    decreases prediction.len(),
{
    if prediction.len() == 0 {
        Seq::empty()
    } else {
        let prior = turns_of(prediction.drop_last(), source);
        let last = prediction.last();
        if from_source(last, source) {
            prior.push(last.span)
        } else {
            prior
        }
    }
}

/// Whether a predicted turn was produced by `source`.
pub open spec fn from_source(span: SourcedSpeakerSpan, source: Seq<char>) -> bool {
    span.source matches Some(s) && s@ == source
}

/// Whether some predicted turn names `source`.
pub open spec fn names_source(prediction: Seq<SourcedSpeakerSpan>, source: Seq<char>) -> bool {
    exists|i: int| 0 <= i < prediction.len() && from_source(#[trigger] prediction[i], source)
}

/// The predicted turns of `source`, in order.
fn select_turns(prediction: &[SourcedSpeakerSpan], source: &str) -> (turns: Vec<SpeakerSpan>)
    ensures
        turns@ == turns_of(prediction@, source@),
{
    let target = source.to_owned();
    let mut turns: Vec<SpeakerSpan> = Vec::new();
    let mut i: usize = 0;
    while i < prediction.len()
        invariant
            i <= prediction@.len(),
            target@ == source@,
            turns@ == turns_of(prediction@.take(i as int), source@),
        decreases prediction@.len() - i,
    {
        proof {
            assert(prediction@.take(i + 1).drop_last() =~= prediction@.take(i as int));
            assert(prediction@.take(i + 1).last() == prediction@[i as int]);
        }
        match &prediction[i].source {
            Some(s) => {
                if *s == target {
                    let span = &prediction[i].span;
                    turns.push(SpeakerSpan { label: span.label.clone(), start_ms: span.start_ms, end_ms: span.end_ms });
                }
            },
            None => {},
        }
        i = i + 1;
    }
    assert(prediction@.take(prediction@.len() as int) =~= prediction@);
    turns
}

/// The sources named by predicted turns.
fn prediction_sources(prediction: &[SourcedSpeakerSpan]) -> (sources: TextSet)
    ensures
        sources.wf(),
        forall|x: Seq<char>| #[trigger] sources.members().contains(x) <==> names_source(prediction@, x),
{
    let mut sources = TextSet::new();
    let mut i: usize = 0;
    while i < prediction.len()
        invariant
            i <= prediction@.len(),
            sources.wf(),
            forall|x: Seq<char>| #[trigger] sources.members().contains(x) <==> names_source(prediction@.take(i as int), x),
        decreases prediction@.len() - i,
    {
        let ghost s0 = prediction@.take(i as int);
        let ghost s1 = prediction@.take(i + 1);
        match &prediction[i].source {
            Some(s) => {
                sources.insert(s.clone());
            },
            None => {},
        }
        proof {
            assert forall|x: Seq<char>| #[trigger] sources.members().contains(x) <==> names_source(s1, x) by {
                if names_source(s1, x) {
                    let k = choose|k: int| 0 <= k < s1.len() && from_source(#[trigger] s1[k], x);
                    if k < i {
                        assert(s0[k] == s1[k]);
                    } else {
                        assert(s1[k] == prediction@[i as int]);
                    }
                }
                if names_source(s0, x) {
                    let k = choose|k: int| 0 <= k < s0.len() && from_source(#[trigger] s0[k], x);
                    assert(s1[k] == s0[k]);
                }
                if from_source(prediction@[i as int], x) {
                    assert(s1[i as int] == prediction@[i as int]);
                }
            }
        }
        i = i + 1;
    }
    assert(prediction@.take(prediction@.len() as int) =~= prediction@);
    sources
}

/// Speaker time and coverage accumulated for one source.
#[derive(Debug)]
pub struct SpeakerAccumulator {
    pub evaluated_documents: TextSet,
    pub evaluated_timelines: TextSet,
    pub stats: SpeakerStats,
}

/// Stats added field by field, each saturating at `u64::MAX`.
pub open spec fn stats_added(a: SpeakerStats, b: SpeakerStats) -> SpeakerStats {
    SpeakerStats {
        reference_speaker_ms: sat_add(a.reference_speaker_ms, b.reference_speaker_ms),
        predicted_speaker_ms: sat_add(a.predicted_speaker_ms, b.predicted_speaker_ms),
        correct_speaker_ms: sat_add(a.correct_speaker_ms, b.correct_speaker_ms),
        missed_speaker_ms: sat_add(a.missed_speaker_ms, b.missed_speaker_ms),
        false_alarm_ms: sat_add(a.false_alarm_ms, b.false_alarm_ms),
        speaker_confusion_ms: sat_add(a.speaker_confusion_ms, b.speaker_confusion_ms),
    }
}

/// Zero speaker time.
pub open spec fn zero_stats() -> SpeakerStats {
    SpeakerStats {
        reference_speaker_ms: 0,
        predicted_speaker_ms: 0,
        correct_speaker_ms: 0,
        missed_speaker_ms: 0,
        false_alarm_ms: 0,
        speaker_confusion_ms: 0,
    }
}

impl SpeakerAccumulator {
    pub open spec fn wf(&self) -> bool {
        self.evaluated_documents.wf() && self.evaluated_timelines.wf()
    }

    /// Nothing accumulated yet.
    pub fn empty() -> (acc: Self)
        ensures
            acc.wf(),
            acc.evaluated_documents.view_seq().len() == 0,
            acc.evaluated_timelines.view_seq().len() == 0,
            acc.stats == zero_stats(),
    {
        SpeakerAccumulator {
            evaluated_documents: TextSet::new(),
            evaluated_timelines: TextSet::new(),
            stats: SpeakerStats {
                reference_speaker_ms: 0,
                predicted_speaker_ms: 0,
                correct_speaker_ms: 0,
                missed_speaker_ms: 0,
                false_alarm_ms: 0,
                speaker_confusion_ms: 0,
            },
        }
    }

    /// Adds one timeline's speaker time for document `audio_id`.
    pub fn add(&mut self, audio_id: &str, timeline_id: &str, stats: SpeakerStats)
        requires
            old(self).wf(),
        ensures
            final(self).wf(),
            final(self).evaluated_documents.members() == old(self).evaluated_documents.members().insert(audio_id@),
            final(self).evaluated_timelines.members() == old(self).evaluated_timelines.members().insert(timeline_id@),
            final(self).stats == stats_added(old(self).stats, stats),
    {
        self.evaluated_documents.insert(audio_id.to_owned());
        self.evaluated_timelines.insert(timeline_id.to_owned());
        self.stats = SpeakerStats {
            reference_speaker_ms: self.stats.reference_speaker_ms.saturating_add(stats.reference_speaker_ms),
            predicted_speaker_ms: self.stats.predicted_speaker_ms.saturating_add(stats.predicted_speaker_ms),
            correct_speaker_ms: self.stats.correct_speaker_ms.saturating_add(stats.correct_speaker_ms),
            missed_speaker_ms: self.stats.missed_speaker_ms.saturating_add(stats.missed_speaker_ms),
            false_alarm_ms: self.stats.false_alarm_ms.saturating_add(stats.false_alarm_ms),
            speaker_confusion_ms: self.stats.speaker_confusion_ms.saturating_add(stats.speaker_confusion_ms),
        };
    }
}

/// The observable totals of a speaker accumulator.
pub type SpeakerTotals = (Set<Seq<char>>, Set<Seq<char>>, SpeakerStats);

pub open spec fn speaker_totals(acc: SpeakerAccumulator) -> SpeakerTotals {
    (acc.evaluated_documents.members(), acc.evaluated_timelines.members(), acc.stats)
}

pub open spec fn all_speaker_totals(accs: Seq<SpeakerAccumulator>) -> Seq<SpeakerTotals> {
    accs.map_values(|a: SpeakerAccumulator| speaker_totals(a))
}

/// No timeline seen yet.
pub open spec fn empty_speaker_totals() -> SpeakerTotals {
    (Set::empty(), Set::empty(), zero_stats())
}

/// One timeline's scores added to speaker totals.
pub open spec fn speaker_totals_added(t: SpeakerTotals, audio_id: Seq<char>, timeline_id: Seq<char>, s: SpeakerStats) -> SpeakerTotals {
    (t.0.insert(audio_id), t.1.insert(timeline_id), stats_added(t.2, s))
}

/// The per-source totals after adding `scores` (source name, stats) in
/// order: a present source is updated in place, a new one inserted at its
/// slot.
pub open spec fn speaker_scores_added(
    keys: Seq<Seq<char>>,
    totals: Seq<SpeakerTotals>,
    scores: Seq<(Seq<char>, SpeakerStats)>,
    audio_id: Seq<char>,
    timeline_id: Seq<char>,
) -> (Seq<Seq<char>>, Seq<SpeakerTotals>)
    decreases scores.len(),
{
    if scores.len() == 0 {
        (keys, totals)
    } else {
        let prior = speaker_scores_added(keys, totals, scores.drop_last(), audio_id, timeline_id);
        let (name, s) = scores.last();
        let (found, pos) = key_slot(prior.0, name);
        if found {
            (prior.0, prior.1.update(pos, speaker_totals_added(prior.1[pos], audio_id, timeline_id, s)))
        } else {
            (
                prior.0.insert(pos, name),
                prior.1.insert(pos, speaker_totals_added(empty_speaker_totals(), audio_id, timeline_id, s)),
            )
        }
    }
}

/// Eligible and unannotated timelines, source names and their totals.
pub type SpeakerState = (Set<Seq<char>>, Set<Seq<char>>, Seq<Seq<char>>, Seq<SpeakerTotals>);

/// One timeline folded into the speaker state, given the sources scored on
/// it (ascending) and their scores.
pub open spec fn speaker_step(
    st: SpeakerState,
    audio_id: Seq<char>,
    timeline: SpeakerTimeline,
    scores: Seq<(Seq<char>, SpeakerStats)>,
) -> SpeakerState {
    let key = timeline_key_spec(audio_id, timeline.channel);
    if timeline.reference@.len() == 0 {
        (st.0, st.1.insert(key), st.2, st.3)
    } else {
        let r = speaker_scores_added(st.2, st.3, scores, audio_id, key);
        (st.0.insert(key), st.1, r.0, r.1)
    }
}

/// The sources scored on a timeline: the selected ones that its predicted
/// turns name, or all of those when nothing is selected; and each one's
/// scores are what `evaluate_speakers` guarantees.
pub open spec fn scores_valid(
    selection: Seq<Seq<char>>,
    timeline: SpeakerTimeline,
    scores: Seq<(Seq<char>, SpeakerStats)>,
) -> bool {
    &&& timeline.reference@.len() == 0 ==> scores.len() == 0
    &&& timeline.reference@.len() > 0 ==> {
        &&& strictly_sorted(scores.map_values(|e: (Seq<char>, SpeakerStats)| e.0))
        &&& forall|x: Seq<char>|
            scores.map_values(|e: (Seq<char>, SpeakerStats)| e.0).contains(x) <==> (keep_source(selection, x)
                && names_source(timeline.prediction@, x))
        &&& forall|k: int|
            0 <= k < scores.len() ==> speaker_stats_valid(
                timeline.reference@,
                turns_of(timeline.prediction@, (#[trigger] scores[k]).0),
                scores[k].1,
            )
    }
}

/// The speaker state after folding timelines in order, each with its scores.
pub open spec fn speaker_folded(
    st: SpeakerState,
    audio_id: Seq<char>,
    timelines: Seq<SpeakerTimeline>,
    scores: Seq<Seq<(Seq<char>, SpeakerStats)>>,
) -> SpeakerState
    decreases timelines.len(),
{
    if timelines.len() == 0 {
        st
    } else {
        speaker_step(
            speaker_folded(st, audio_id, timelines.drop_last(), scores.drop_last()),
            audio_id,
            timelines.last(),
            scores.last(),
        )
    }
}

/// Fresh accumulators for each of `sources`, in ascending order.
fn speaker_accumulators(sources: &TextSet) -> (map: TextMap<SpeakerAccumulator>)
    requires
        sources.wf(),
    ensures
        map.wf(),
        map.key_seq() == sources.view_seq(),
        forall|t: int| 0 <= t < map.value_seq().len() ==> (#[trigger] map.value_seq()[t]).wf(),
        all_speaker_totals(map.value_seq()) == Seq::new(sources.view_seq().len(), |t: int| empty_speaker_totals()),
{
    let mut map: TextMap<SpeakerAccumulator> = TextMap::new();
    let n = sources.len();
    proof {
        sources.lemma_sorted();
    }
    let mut i: usize = 0;
    while i < n
        invariant
            sources.wf(),
            strictly_sorted(sources.view_seq()),
            n == sources.view_seq().len(),
            i <= n,
            map.wf(),
            map.key_seq() == sources.view_seq().take(i as int),
            forall|t: int| 0 <= t < map.value_seq().len() ==> (#[trigger] map.value_seq()[t]).wf(),
            all_speaker_totals(map.value_seq()) == Seq::new(i as nat, |t: int| empty_speaker_totals()),
        decreases n - i,
    {
        let name = sources.item_at(i);
        let acc = SpeakerAccumulator::empty();
        let ghost prior_vals = map.value_seq();
        proof {
            map.lemma_keys_sorted();
            assert(acc.evaluated_documents.members() =~= Set::<Seq<char>>::empty());
            assert(acc.evaluated_timelines.members() =~= Set::<Seq<char>>::empty());
            let ks = map.key_seq();
            assert forall|t: int| 0 <= t < i implies crate::ordered::text_lt(ks[t], name@) by {
                assert(ks[t] == sources.view_seq()[t]);
            }
            if ks.contains(name@) {
                let t = choose|t: int| 0 <= t < ks.len() && ks[t] == name@;
                crate::ordered::lemma_text_lt_trichotomy(name@, name@);
            }
        }
        let len = map.len();
        map.insert_new(len, name.clone(), acc);
        proof {
            assert(map.key_seq() =~= sources.view_seq().take(i + 1));
            assert(map.value_seq() =~= prior_vals.push(acc));
            assert(speaker_totals(acc) == empty_speaker_totals());
            assert forall|t: int| 0 <= t < i + 1 implies all_speaker_totals(map.value_seq())[t] == empty_speaker_totals() by {
                if t < i {
                    assert(map.value_seq()[t] == prior_vals[t]);
                    assert(all_speaker_totals(prior_vals)[t] == empty_speaker_totals());
                }
            }
            assert(all_speaker_totals(map.value_seq()) =~= Seq::new((i + 1) as nat, |t: int| empty_speaker_totals()));
            assert forall|t: int| 0 <= t < map.value_seq().len() implies (#[trigger] map.value_seq()[t]).wf() by {
                if t < i {
                    assert(map.value_seq()[t] == prior_vals[t]);
                }
            }
        }
        i = i + 1;
    }
    assert(sources.view_seq().take(n as int) =~= sources.view_seq());
    map
}

/// Accumulates speaker scores over a dataset, per prediction source.
pub struct SpeakerDatasetEvaluator {
    pub selection: Vec<String>,
    pub eligible: TextSet,
    pub unannotated: TextSet,
    pub accumulators: TextMap<SpeakerAccumulator>,
}

impl SpeakerDatasetEvaluator {
    pub open spec fn wf(&self) -> bool {
        &&& self.eligible.wf()
        &&& self.unannotated.wf()
        &&& self.accumulators.wf()
        &&& forall|t: int|
            0 <= t < self.accumulators.value_seq().len() ==> (#[trigger] self.accumulators.value_seq()[t]).wf()
    }

    pub open spec fn state(&self) -> SpeakerState {
        (
            self.eligible.members(),
            self.unannotated.members(),
            self.accumulators.key_seq(),
            all_speaker_totals(self.accumulators.value_seq()),
        )
    }

    /// An evaluator for `sources` (every source met when empty), with an
    /// accumulator for each named source up front.
    pub fn new(sources: &[String]) -> (e: Self)
        ensures
            e.wf(),
            e.selection@ == sources@,
            e.state().0 == Set::<Seq<char>>::empty(),
            e.state().1 == Set::<Seq<char>>::empty(),
            e.state().2.to_set() == texts(sources@).to_set(),
            strictly_sorted(e.state().2),
            e.state().3 == Seq::new(e.state().2.len(), |t: int| empty_speaker_totals()),
    {
        let names = selected_sources(Some(sources));
        let accumulators = speaker_accumulators(&names);
        let mut selection: Vec<String> = Vec::new();
        let mut i: usize = 0;
        while i < sources.len()
            invariant
                i <= sources@.len(),
                selection@ == sources@.take(i as int),
            decreases sources@.len() - i,
        {
            selection.push(sources[i].clone());
            assert(selection@ =~= sources@.take(i + 1));
            i = i + 1;
        }
        assert(sources@.take(sources@.len() as int) =~= sources@);
        let e = SpeakerDatasetEvaluator { selection, eligible: TextSet::new(), unannotated: TextSet::new(), accumulators };
        proof {
            names.lemma_sorted();
            assert(e.eligible.members() =~= Set::<Seq<char>>::empty());
            assert(e.unannotated.members() =~= Set::<Seq<char>>::empty());
        }
        e
    }

    /// Scores every selected source named on `timeline` and folds the scores
    /// into the accumulators.
    pub fn push_timeline(&mut self, audio_id: &str, timeline: &SpeakerTimeline)
        requires
            old(self).wf(),
        ensures
            final(self).wf(),
            final(self).selection == old(self).selection,
            exists|scores: Seq<(Seq<char>, SpeakerStats)>|
                #[trigger] scores_valid(texts(old(self).selection@), *timeline, scores) && final(self).state()
                    == speaker_step(old(self).state(), audio_id@, *timeline, scores),
    {
        let key = timeline_key(audio_id, timeline.channel);
        if timeline.reference.len() == 0 {
            self.unannotated.insert(key);
            proof {
                let scores = Seq::<(Seq<char>, SpeakerStats)>::empty();
                assert(scores.map_values(|e: (Seq<char>, SpeakerStats)| e.0) =~= Seq::<Seq<char>>::empty());
                assert(scores_valid(texts(self.selection@), *timeline, scores));
            }
            return;
        }
        self.eligible.insert(key.clone());
        let available = prediction_sources(timeline.prediction.as_slice());
        let sources = sources_for_timeline(self.selection.as_slice(), &available);
        proof {
            sources.lemma_sorted();
        }
        let ghost keys0 = self.accumulators.key_seq();
        let ghost totals0 = all_speaker_totals(self.accumulators.value_seq());
        let ghost eligible_now = self.eligible;
        let ghost unannotated_now = self.unannotated;
        let ghost selection_now = self.selection;
        let ghost mut scores: Seq<(Seq<char>, SpeakerStats)> = Seq::empty();
        let n = sources.len();
        let mut i: usize = 0;
        while i < n
            invariant
                i <= n,
                n == sources.view_seq().len(),
                sources.wf(),
                self.eligible == eligible_now,
                self.unannotated == unannotated_now,
                self.selection == selection_now,
                self.eligible.wf(),
                self.unannotated.wf(),
                self.accumulators.wf(),
                forall|t: int|
                    0 <= t < self.accumulators.value_seq().len() ==> (#[trigger] self.accumulators.value_seq()[t]).wf(),
                scores.len() == i,
                scores.map_values(|e: (Seq<char>, SpeakerStats)| e.0) == sources.view_seq().take(i as int),
                forall|k: int|
                    0 <= k < scores.len() ==> speaker_stats_valid(
                        timeline.reference@,
                        turns_of(timeline.prediction@, (#[trigger] scores[k]).0),
                        scores[k].1,
                    ),
                (self.accumulators.key_seq(), all_speaker_totals(self.accumulators.value_seq())) == speaker_scores_added(
                    keys0,
                    totals0,
                    scores,
                    audio_id@,
                    key@,
                ),
            decreases n - i,
        {
            let name = sources.item_at(i);
            let turns = select_turns(timeline.prediction.as_slice(), name.as_str());
            let stats = evaluate_speakers(timeline.reference.as_slice(), turns.as_slice());
            let ghost prior_keys = self.accumulators.key_seq();
            let ghost prior_vals = self.accumulators.value_seq();
            let ghost prior_scores = scores;
            proof {
                scores = scores.push((name@, stats));
                assert(scores.drop_last() =~= prior_scores);
                assert(scores.map_values(|e: (Seq<char>, SpeakerStats)| e.0) =~= sources.view_seq().take(i + 1));
                assert forall|k: int|
                    0 <= k < scores.len() implies speaker_stats_valid(
                    timeline.reference@,
                    turns_of(timeline.prediction@, (#[trigger] scores[k]).0),
                    scores[k].1,
                ) by {
                    if k < i {
                        assert(scores[k] == prior_scores[k]);
                    }
                }
            }
            let (found, pos) = self.accumulators.find(name.as_str());
            proof {
                self.accumulators.lemma_keys_sorted();
                let ks = key_slot(prior_keys, name@);
                lemma_key_slot_unique(prior_keys, name@, found, pos as int, ks.0, ks.1);
            }
            if found {
                let mut acc = self.accumulators.take_value(pos);
                acc.add(audio_id, key.as_str(), stats);
                self.accumulators.put_value(pos, acc);
                proof {
                    assert(self.accumulators.value_seq() =~= prior_vals.update(pos as int, acc));
                    assert(all_speaker_totals(self.accumulators.value_seq()) =~= all_speaker_totals(prior_vals).update(
                        pos as int,
                        speaker_totals(acc),
                    ));
                    assert forall|t: int|
                        0 <= t < self.accumulators.value_seq().len() implies (#[trigger] self.accumulators.value_seq()[t]).wf() by {
                        if t != pos {
                            assert(self.accumulators.value_seq()[t] == prior_vals[t]);
                        }
                    }
                }
            } else {
                let mut acc = SpeakerAccumulator::empty();
                proof {
                    assert(acc.evaluated_documents.members() =~= Set::<Seq<char>>::empty());
                    assert(acc.evaluated_timelines.members() =~= Set::<Seq<char>>::empty());
                }
                acc.add(audio_id, key.as_str(), stats);
                self.accumulators.insert_new(pos, name.clone(), acc);
                proof {
                    assert(self.accumulators.value_seq() == prior_vals.insert(pos as int, acc));
                    assert forall|t: int|
                        0 <= t < self.accumulators.value_seq().len() implies all_speaker_totals(
                        self.accumulators.value_seq(),
                    )[t] == all_speaker_totals(prior_vals).insert(pos as int, speaker_totals(acc))[t] by {
                        if t < pos {
                            assert(self.accumulators.value_seq()[t] == prior_vals[t]);
                        } else if t > pos {
                            assert(self.accumulators.value_seq()[t] == prior_vals[t - 1]);
                        }
                    }
                    assert(all_speaker_totals(self.accumulators.value_seq()) =~= all_speaker_totals(prior_vals).insert(
                        pos as int,
                        speaker_totals(acc),
                    ));
                    assert forall|t: int|
                        0 <= t < self.accumulators.value_seq().len() implies (#[trigger] self.accumulators.value_seq()[t]).wf() by {
                        if t < pos {
                            assert(self.accumulators.value_seq()[t] == prior_vals[t]);
                        } else if t > pos {
                            assert(self.accumulators.value_seq()[t] == prior_vals[t - 1]);
                        }
                    }
                }
            }
            i = i + 1;
        }
        proof {
            assert(sources.view_seq().take(n as int) =~= sources.view_seq());
            let sel = texts(self.selection@);
            let names = scores.map_values(|e: (Seq<char>, SpeakerStats)| e.0);
            assert(names == sources.view_seq());
            assert(sel.len() == self.selection@.len());
            assert forall|x: Seq<char>| names.contains(x) <==> (keep_source(sel, x) && names_source(timeline.prediction@, x)) by {
                assert(sources.members().contains(x) <==> sources.view_seq().contains(x));
                assert(available.members().contains(x) <==> names_source(timeline.prediction@, x));
                assert(sel.to_set().contains(x) <==> sel.contains(x));
            }
            assert(scores_valid(sel, *timeline, scores));
        }
    }
}

/// The number of timelines each speaker accumulator has seen.
pub open spec fn speaker_timeline_counts(accs: Seq<SpeakerAccumulator>) -> Seq<nat> {
    accs.map_values(|a: SpeakerAccumulator| a.evaluated_timelines.view_seq().len())
}

/// The summary of one speaker source.
pub open spec fn speaker_summary(
    source: Seq<char>,
    acc: SpeakerAccumulator,
    eligible: &TextSet,
    unannotated: &TextSet,
    out: DatasetSpeakerEvaluation,
) -> bool {
    &&& out.source@ == source
    &&& out.evaluated_documents == acc.evaluated_documents.view_seq().len()
    &&& out.evaluated_timelines == acc.evaluated_timelines.view_seq().len()
    &&& out.unannotated_timelines == unannotated.view_seq().len()
    &&& texts(out.unannotated_ids@) == unannotated.view_seq()
    &&& texts(out.missing_prediction_ids@) == missing_ids(eligible, &acc.evaluated_timelines)
    &&& out.missing_predictions == missing_ids(eligible, &acc.evaluated_timelines).len()
    &&& out.reference_speaker_ms == acc.stats.reference_speaker_ms
    &&& out.predicted_speaker_ms == acc.stats.predicted_speaker_ms
    &&& out.correct_speaker_ms == acc.stats.correct_speaker_ms
    &&& out.missed_speaker_ms == acc.stats.missed_speaker_ms
    &&& out.false_alarm_ms == acc.stats.false_alarm_ms
    &&& out.speaker_confusion_ms == acc.stats.speaker_confusion_ms
}

proof fn lemma_first_unseen(counts: Seq<nat>, i: int)
    requires
        0 <= i < counts.len(),
        counts[i] == 0,
        forall|j: int| 0 <= j < i ==> counts[j] > 0,
    ensures
        first_unevaluated(counts) == Some(i),
{
    let k = choose|k: int| 0 <= k < counts.len() && counts[k] == 0 && forall|j: int| 0 <= j < k ==> counts[j] > 0;
    assert(0 <= k < counts.len() && counts[k] == 0 && forall|j: int| 0 <= j < k ==> counts[j] > 0);
    if k < i {
        assert(counts[k] > 0);
    }
    if i < k {
        assert(counts[i] > 0);
    }
}

impl SpeakerDatasetEvaluator {
    /// Folds every timeline of document `audio_id` into the accumulators.
    pub fn push(&mut self, audio_id: &str, timelines: &[SpeakerTimeline])
        requires
            old(self).wf(),
        ensures
            final(self).wf(),
            final(self).selection == old(self).selection,
            exists|scores: Seq<Seq<(Seq<char>, SpeakerStats)>>|
                scores.len() == timelines@.len() && (forall|k: int|
                    0 <= k < timelines@.len() ==> #[trigger] scores_valid(
                        texts(old(self).selection@),
                        timelines@[k],
                        scores[k],
                    )) && final(self).state() == speaker_folded(old(self).state(), audio_id@, timelines@, scores),
    {
        let ghost st0 = self.state();
        let ghost sel = texts(self.selection@);
        let ghost selection0 = self.selection;
        let ghost mut all: Seq<Seq<(Seq<char>, SpeakerStats)>> = Seq::empty();
        let mut i: usize = 0;
        while i < timelines.len()
            invariant
                i <= timelines@.len(),
                self.wf(),
                self.selection == selection0,
                sel == texts(self.selection@),
                all.len() == i,
                forall|k: int| 0 <= k < i ==> #[trigger] scores_valid(sel, timelines@[k], all[k]),
                self.state() == speaker_folded(st0, audio_id@, timelines@.take(i as int), all),
            decreases timelines@.len() - i,
        {
            let ghost before = self.state();
            self.push_timeline(audio_id, &timelines[i]);
            proof {
                let sc = choose|sc: Seq<(Seq<char>, SpeakerStats)>|
                    #[trigger] scores_valid(sel, timelines@[i as int], sc) && self.state() == speaker_step(
                        before,
                        audio_id@,
                        timelines@[i as int],
                        sc,
                    );
                let prior = all;
                all = all.push(sc);
                assert(all.drop_last() =~= prior);
                assert(timelines@.take(i + 1).drop_last() =~= timelines@.take(i as int));
                assert(timelines@.take(i + 1).last() == timelines@[i as int]);
                assert forall|k: int| 0 <= k < i + 1 implies #[trigger] scores_valid(sel, timelines@[k], all[k]) by {
                    if k < i {
                        assert(all[k] == prior[k]);
                    }
                }
            }
            i = i + 1;
        }
        assert(timelines@.take(timelines@.len() as int) =~= timelines@);
    }

    /// Reduces the accumulators to per-source summaries, ascending: no
    /// eligible timeline or no source is an error, and so is a source that
    /// never met an eligible timeline (the first such, ascending).
    pub fn finish(&self) -> (result: Result<Vec<(String, DatasetSpeakerEvaluation)>, DatasetEvalError>)
        requires
            self.wf(),
        ensures
            (self.eligible.view_seq().len() == 0 || self.accumulators.key_seq().len() == 0) ==> (result matches Err(
                DatasetEvalError::NoEvaluableAnnotations,
            )),
            (self.eligible.view_seq().len() > 0 && self.accumulators.key_seq().len() > 0) ==> match first_unevaluated(
                speaker_timeline_counts(self.accumulators.value_seq()),
            ) {
                Some(i) => (result matches Err(DatasetEvalError::MissingPrediction { kind, prediction_source })
                    && kind == EvaluationKind::Speaker && prediction_source@ == self.accumulators.key_seq()[i]),
                None => (result matches Ok(v) && v@.len() == self.accumulators.key_seq().len() && forall|i: int|
                    #![trigger v@[i]]
                    0 <= i < v@.len() ==> v@[i].0@ == self.accumulators.key_seq()[i] && speaker_summary(
                        self.accumulators.key_seq()[i],
                        self.accumulators.value_seq()[i],
                        &self.eligible,
                        &self.unannotated,
                        v@[i].1,
                    )),
            },
    {
        if self.eligible.is_empty() || self.accumulators.len() == 0 {
            return Err(DatasetEvalError::NoEvaluableAnnotations);
        }
        let ghost counts = speaker_timeline_counts(self.accumulators.value_seq());
        let n = self.accumulators.len();
        let mut out: Vec<(String, DatasetSpeakerEvaluation)> = Vec::new();
        let mut i: usize = 0;
        while i < n
            invariant
                self.wf(),
                n == self.accumulators.key_seq().len(),
                n == self.accumulators.value_seq().len(),
                counts == speaker_timeline_counts(self.accumulators.value_seq()),
                self.eligible.view_seq().len() > 0,
                n > 0,
                i <= n,
                out@.len() == i,
                forall|j: int| 0 <= j < i ==> counts[j] > 0,
                forall|j: int|
                    #![trigger out@[j]]
                    0 <= j < i ==> out@[j].0@ == self.accumulators.key_seq()[j] && speaker_summary(
                        self.accumulators.key_seq()[j],
                        self.accumulators.value_seq()[j],
                        &self.eligible,
                        &self.unannotated,
                        out@[j].1,
                    ),
            decreases n - i,
        {
            let source = self.accumulators.key_at(i);
            let acc = self.accumulators.value_at(i);
            if acc.evaluated_timelines.is_empty() {
                proof {
                    lemma_first_unseen(counts, i as int);
                }
                return Err(DatasetEvalError::MissingPrediction { kind: EvaluationKind::Speaker, prediction_source: source.clone() });
            }
            let missing = self.eligible.difference(&acc.evaluated_timelines);
            let summary = DatasetSpeakerEvaluation {
                source: source.clone(),
                evaluated_documents: acc.evaluated_documents.len(),
                evaluated_timelines: acc.evaluated_timelines.len(),
                unannotated_timelines: self.unannotated.len(),
                missing_predictions: missing.len(),
                unannotated_ids: self.unannotated.to_vec(),
                missing_prediction_ids: missing,
                reference_speaker_ms: acc.stats.reference_speaker_ms,
                predicted_speaker_ms: acc.stats.predicted_speaker_ms,
                correct_speaker_ms: acc.stats.correct_speaker_ms,
                missed_speaker_ms: acc.stats.missed_speaker_ms,
                false_alarm_ms: acc.stats.false_alarm_ms,
                speaker_confusion_ms: acc.stats.speaker_confusion_ms,
            };
            out.push((source.clone(), summary));
            i = i + 1;
        }
        proof {
            if exists|j: int| 0 <= j < counts.len() && counts[j] == 0 {
                let j = choose|j: int| 0 <= j < counts.len() && counts[j] == 0;
                assert(counts[j] > 0);
            }
        }
        Ok(out)
    }
}

} // verus!
