//! Dataset-level evaluation: accumulating per-timeline transcription,
//! activity and speaker results across documents and reducing them to
//! per-source summaries.

use vstd::prelude::*;

use crate::cer::CerStats;
use crate::ordered::{is_key_slot, key_slot, lemma_key_slot_unique, strictly_sorted, texts, TextMap, TextSet};

verus! {

/// Text normalization applied before transcription scoring.
#[derive(Debug, Clone, Copy, PartialEq, Eq, Structural)]
pub enum TranscriptionNormalization {
    /// Texts are compared as stored.
    Disabled,
    ChineseTn,
}

/// Which sources to evaluate and how to normalize transcriptions.
#[derive(Debug, Clone)]
pub struct TimelineEvalConfig {
    /// Transcription sources to score; `None` skips transcription unless
    /// activity is also `None`, in which case every source is scored.
    pub transcription_sources: Option<Vec<String>>,
    /// Activity sources to score, with the same convention.
    pub activity_sources: Option<Vec<String>>,
    pub transcription_normalization: TranscriptionNormalization,
    pub traditional_to_simple: bool,
    pub full_to_half: bool,
    pub remove_erhua: bool,
    pub remove_interjections: bool,
    pub remove_puncts: bool,
}

/// The kind of evaluation a source was selected for.
#[derive(Debug, Clone, Copy, PartialEq, Eq, Structural)]
pub enum EvaluationKind {
    Transcription,
    Activity,
    Speaker,
}

/// Why a dataset evaluation produced no result.
#[derive(Debug, Clone, PartialEq, Eq)]
pub enum DatasetEvalError {
    /// A selected prediction source was never found on an evaluable timeline.
    MissingPrediction { kind: EvaluationKind, prediction_source: String },
    /// No timeline had reference annotations with a matching prediction source.
    NoEvaluableAnnotations,
}

/// Transcription scores of one prediction source on one timeline.
#[derive(Debug, Clone, Copy, PartialEq, Eq, Structural)]
pub struct TranscriptionEvaluation {
    pub stats: CerStats,
    pub hypothesis_chars: usize,
    /// Whether the normalized hypothesis equals the normalized reference.
    pub exact_match: bool,
}

/// Interval counts of one activity event on one timeline.
#[derive(Debug, Clone, Copy, PartialEq, Eq, Structural, Default)]
pub struct ActivityEventEvaluation {
    pub reference_ms: u64,
    pub predicted_ms: u64,
    pub true_positive_ms: u64,
    pub true_negative_ms: u64,
    pub false_positive_ms: u64,
    pub false_negative_ms: u64,
}

/// Merged interval counts of one activity source on one timeline, with the
/// per-event counts in ascending event order.
#[derive(Debug, Clone, PartialEq, Eq)]
pub struct ActivityEvaluation {
    pub reference_ms: u64,
    pub predicted_ms: u64,
    pub true_positive_ms: u64,
    pub true_negative_ms: u64,
    pub false_positive_ms: u64,
    pub false_negative_ms: u64,
    pub events: Vec<(String, ActivityEventEvaluation)>,
}

/// CER and coverage of one transcription source over a dataset.
#[derive(Debug, Clone, PartialEq, Eq)]
pub struct DatasetTranscriptionEvaluation {
    pub source: String,
    pub evaluated_documents: usize,
    pub evaluated_timelines: usize,
    pub unannotated_timelines: usize,
    pub missing_predictions: usize,
    pub unannotated_ids: Vec<String>,
    pub missing_prediction_ids: Vec<String>,
    pub normalization: TranscriptionNormalization,
    pub stats: CerStats,
    pub hypothesis_chars: usize,
    pub exact_matches: usize,
}

impl DatasetTranscriptionEvaluation {
    /// Correctly recognised characters, `N - S - D`, floored at zero.
    pub fn matches(&self) -> (m: usize)
        requires
            self.stats.substitutions + self.stats.deletions <= usize::MAX,
        ensures
            m == if self.stats.reference_chars >= self.stats.substitutions + self.stats.deletions {
                self.stats.reference_chars - self.stats.substitutions - self.stats.deletions
            } else {
                0
            },
    {
        self.stats.reference_chars.saturating_sub(self.stats.substitutions + self.stats.deletions)
    }
}

/// Interval counts of one activity event over a dataset.
#[derive(Debug, Clone, PartialEq, Eq)]
pub struct DatasetActivityEventEvaluation {
    pub event: String,
    pub evaluated_documents: usize,
    pub evaluated_timelines: usize,
    pub reference_ms: u64,
    pub predicted_ms: u64,
    pub true_positive_ms: u64,
    pub true_negative_ms: u64,
    pub false_positive_ms: u64,
    pub false_negative_ms: u64,
}

/// Merged interval counts of one activity source over a dataset, with the
/// per-event results in ascending event order.
#[derive(Debug, Clone, PartialEq, Eq)]
pub struct DatasetActivityEvaluation {
    pub source: String,
    pub evaluated_documents: usize,
    pub evaluated_timelines: usize,
    pub unannotated_timelines: usize,
    pub missing_predictions: usize,
    pub unannotated_ids: Vec<String>,
    pub missing_prediction_ids: Vec<String>,
    pub reference_ms: u64,
    pub predicted_ms: u64,
    pub true_positive_ms: u64,
    pub true_negative_ms: u64,
    pub false_positive_ms: u64,
    pub false_negative_ms: u64,
    pub events: Vec<(String, DatasetActivityEventEvaluation)>,
}

/// Speaker diarization milliseconds of one source over a dataset.
#[derive(Debug, Clone, PartialEq, Eq)]
pub struct DatasetSpeakerEvaluation {
    pub source: String,
    pub evaluated_documents: usize,
    pub evaluated_timelines: usize,
    pub unannotated_timelines: usize,
    pub missing_predictions: usize,
    pub unannotated_ids: Vec<String>,
    pub missing_prediction_ids: Vec<String>,
    pub reference_speaker_ms: u64,
    pub predicted_speaker_ms: u64,
    pub correct_speaker_ms: u64,
    pub missed_speaker_ms: u64,
    pub false_alarm_ms: u64,
    pub speaker_confusion_ms: u64,
}

/// Transcription and activity summaries of a whole dataset, by source in
/// ascending order.
#[derive(Debug, Clone, PartialEq, Eq)]
pub struct DatasetEvaluation {
    pub documents: usize,
    pub timelines: usize,
    pub transcription: Vec<(String, DatasetTranscriptionEvaluation)>,
    pub activity: Vec<(String, DatasetActivityEvaluation)>,
}

/// `x + y`, or `u64::MAX` when it does not fit.
pub open spec fn sat_add(x: u64, y: u64) -> u64 {
    if x + y > u64::MAX { u64::MAX } else { (x + y) as u64 }
}

/// Running CER totals of one transcription source.
#[derive(Debug)]
pub struct TranscriptionAccumulator {
    pub evaluated_documents: TextSet,
    pub evaluated_timelines: TextSet,
    pub stats: CerStats,
    pub hypothesis_chars: usize,
    pub exact_matches: usize,
}

impl TranscriptionAccumulator {
    pub open spec fn wf(&self) -> bool {
        self.evaluated_documents.wf() && self.evaluated_timelines.wf()
    }

    /// Whether adding `result` keeps every running total within `usize`.
    pub open spec fn can_add(&self, result: TranscriptionEvaluation) -> bool {
        &&& self.stats.substitutions + result.stats.substitutions <= usize::MAX
        &&& self.stats.deletions + result.stats.deletions <= usize::MAX
        &&& self.stats.insertions + result.stats.insertions <= usize::MAX
        &&& self.stats.reference_chars + result.stats.reference_chars <= usize::MAX
        &&& self.hypothesis_chars + result.hypothesis_chars <= usize::MAX
        &&& self.exact_matches + 1 <= usize::MAX
    }

    /// Nothing accumulated yet.
    pub fn empty() -> (acc: Self)
        ensures
            acc.wf(),
            acc.evaluated_documents.view_seq().len() == 0,
            acc.evaluated_timelines.view_seq().len() == 0,
            acc.stats == (CerStats { substitutions: 0, deletions: 0, insertions: 0, reference_chars: 0 }),
            acc.hypothesis_chars == 0,
            acc.exact_matches == 0,
    {
        TranscriptionAccumulator {
            evaluated_documents: TextSet::new(),
            evaluated_timelines: TextSet::new(),
            stats: CerStats { substitutions: 0, deletions: 0, insertions: 0, reference_chars: 0 },
            hypothesis_chars: 0,
            exact_matches: 0,
        }
    }

    /// Adds one timeline's scores for document `audio_id`.
    pub fn add(&mut self, audio_id: &str, timeline_id: &str, result: &TranscriptionEvaluation)
        requires
            old(self).wf(),
            old(self).can_add(*result),
        ensures
            final(self).wf(),
            final(self).evaluated_documents.members() == old(self).evaluated_documents.members().insert(audio_id@),
            final(self).evaluated_timelines.members() == old(self).evaluated_timelines.members().insert(timeline_id@),
            final(self).stats.substitutions == old(self).stats.substitutions + result.stats.substitutions,
            final(self).stats.deletions == old(self).stats.deletions + result.stats.deletions,
            final(self).stats.insertions == old(self).stats.insertions + result.stats.insertions,
            final(self).stats.reference_chars == old(self).stats.reference_chars + result.stats.reference_chars,
            final(self).hypothesis_chars == old(self).hypothesis_chars + result.hypothesis_chars,
            final(self).exact_matches == old(self).exact_matches + if result.exact_match { 1int } else { 0int },
    {
        self.evaluated_documents.insert(audio_id.to_owned());
        self.evaluated_timelines.insert(timeline_id.to_owned());
        self.stats.substitutions = self.stats.substitutions + result.stats.substitutions;
        self.stats.deletions = self.stats.deletions + result.stats.deletions;
        self.stats.insertions = self.stats.insertions + result.stats.insertions;
        self.stats.reference_chars = self.stats.reference_chars + result.stats.reference_chars;
        self.hypothesis_chars = self.hypothesis_chars + result.hypothesis_chars;
        if result.exact_match {
            self.exact_matches = self.exact_matches + 1;
        }
    }
}

/// Running interval counts of one activity event.
#[derive(Debug)]
pub struct ActivityEventAccumulator {
    pub evaluated_documents: TextSet,
    pub evaluated_timelines: TextSet,
    pub counts: ActivityEventEvaluation,
}

/// Counts added field by field, each saturating at `u64::MAX`.
pub open spec fn counts_added(a: ActivityEventEvaluation, b: ActivityEventEvaluation) -> ActivityEventEvaluation {
    ActivityEventEvaluation {
        reference_ms: sat_add(a.reference_ms, b.reference_ms),
        predicted_ms: sat_add(a.predicted_ms, b.predicted_ms),
        true_positive_ms: sat_add(a.true_positive_ms, b.true_positive_ms),
        true_negative_ms: sat_add(a.true_negative_ms, b.true_negative_ms),
        false_positive_ms: sat_add(a.false_positive_ms, b.false_positive_ms),
        false_negative_ms: sat_add(a.false_negative_ms, b.false_negative_ms),
    }
}

/// Adds interval counts field by field, saturating.
pub fn add_counts(a: ActivityEventEvaluation, b: ActivityEventEvaluation) -> (c: ActivityEventEvaluation)
    ensures
        c == counts_added(a, b),
{
    ActivityEventEvaluation {
        reference_ms: a.reference_ms.saturating_add(b.reference_ms),
        predicted_ms: a.predicted_ms.saturating_add(b.predicted_ms),
        true_positive_ms: a.true_positive_ms.saturating_add(b.true_positive_ms),
        true_negative_ms: a.true_negative_ms.saturating_add(b.true_negative_ms),
        false_positive_ms: a.false_positive_ms.saturating_add(b.false_positive_ms),
        false_negative_ms: a.false_negative_ms.saturating_add(b.false_negative_ms),
    }
}

/// Zero interval counts.
pub open spec fn zero_counts() -> ActivityEventEvaluation {
    ActivityEventEvaluation {
        reference_ms: 0,
        predicted_ms: 0,
        true_positive_ms: 0,
        true_negative_ms: 0,
        false_positive_ms: 0,
        false_negative_ms: 0,
    }
}

impl ActivityEventAccumulator {
    pub open spec fn wf(&self) -> bool {
        self.evaluated_documents.wf() && self.evaluated_timelines.wf()
    }

    /// Nothing accumulated yet.
    pub fn empty() -> (acc: Self)
        ensures
            acc.wf(),
            acc.evaluated_documents.view_seq().len() == 0,
            acc.evaluated_timelines.view_seq().len() == 0,
            acc.counts == zero_counts(),
    {
        ActivityEventAccumulator {
            evaluated_documents: TextSet::new(),
            evaluated_timelines: TextSet::new(),
            counts: ActivityEventEvaluation {
                reference_ms: 0,
                predicted_ms: 0,
                true_positive_ms: 0,
                true_negative_ms: 0,
                false_positive_ms: 0,
                false_negative_ms: 0,
            },
        }
    }

    /// Adds one timeline's counts for document `audio_id`.
    pub fn add(&mut self, audio_id: &str, timeline_id: &str, result: &ActivityEventEvaluation)
        requires
            old(self).wf(),
        ensures
            final(self).wf(),
            final(self).evaluated_documents.members() == old(self).evaluated_documents.members().insert(audio_id@),
            final(self).evaluated_timelines.members() == old(self).evaluated_timelines.members().insert(timeline_id@),
            final(self).counts == counts_added(old(self).counts, *result),
    {
        self.evaluated_documents.insert(audio_id.to_owned());
        self.evaluated_timelines.insert(timeline_id.to_owned());
        self.counts = add_counts(self.counts, *result);
    }
}

/// The observable state of an event accumulator: the documents and
/// timelines seen and the summed counts.
pub open spec fn event_view(acc: ActivityEventAccumulator) -> (Set<Seq<char>>, Set<Seq<char>>, ActivityEventEvaluation) {
    (acc.evaluated_documents.members(), acc.evaluated_timelines.members(), acc.counts)
}

/// One event's counts added to an event accumulator state.
pub open spec fn event_view_added(
    view: (Set<Seq<char>>, Set<Seq<char>>, ActivityEventEvaluation),
    audio_id: Seq<char>,
    timeline_id: Seq<char>,
    counts: ActivityEventEvaluation,
) -> (Set<Seq<char>>, Set<Seq<char>>, ActivityEventEvaluation) {
    (view.0.insert(audio_id), view.1.insert(timeline_id), counts_added(view.2, counts))
}

/// The per-event states after adding `events` one after another: an event
/// already present is updated in place, a new one is inserted at its slot.
pub open spec fn events_added(
    keys: Seq<Seq<char>>,
    views: Seq<(Set<Seq<char>>, Set<Seq<char>>, ActivityEventEvaluation)>,
    events: Seq<(Seq<char>, ActivityEventEvaluation)>,
    audio_id: Seq<char>,
    timeline_id: Seq<char>,
) -> (Seq<Seq<char>>, Seq<(Set<Seq<char>>, Set<Seq<char>>, ActivityEventEvaluation)>)
    decreases events.len(),
{
    if events.len() == 0 {
        (keys, views)
    } else {
        let prior = events_added(keys, views, events.drop_last(), audio_id, timeline_id);
        let (name, counts) = events.last();
        let (found, pos) = key_slot(prior.0, name);
        if found {
            (prior.0, prior.1.update(pos, event_view_added(prior.1[pos], audio_id, timeline_id, counts)))
        } else {
            (
                prior.0.insert(pos, name),
                prior.1.insert(pos, event_view_added((Set::empty(), Set::empty(), zero_counts()), audio_id, timeline_id, counts)),
            )
        }
    }
}

/// The views of a sequence of event accumulators.
pub open spec fn event_views(accs: Seq<ActivityEventAccumulator>) -> Seq<(Set<Seq<char>>, Set<Seq<char>>, ActivityEventEvaluation)> {
    accs.map_values(|a: ActivityEventAccumulator| event_view(a))
}

/// The event names and counts of an activity result.
pub open spec fn event_entries(events: Seq<(String, ActivityEventEvaluation)>) -> Seq<(Seq<char>, ActivityEventEvaluation)> {
    events.map_values(|e: (String, ActivityEventEvaluation)| (e.0@, e.1))
}

/// Running merged counts and per-event counts of one activity source.
pub struct ActivityAccumulator {
    pub evaluated_documents: TextSet,
    pub evaluated_timelines: TextSet,
    pub counts: ActivityEventEvaluation,
    pub events: TextMap<ActivityEventAccumulator>,
}

impl ActivityAccumulator {
    pub open spec fn wf(&self) -> bool {
        &&& self.evaluated_documents.wf()
        &&& self.evaluated_timelines.wf()
        &&& self.events.wf()
        &&& forall|i: int| 0 <= i < self.events.value_seq().len() ==> (#[trigger] self.events.value_seq()[i]).wf()
    }

    /// Nothing accumulated yet.
    pub fn empty() -> (acc: Self)
        ensures
            acc.wf(),
            acc.evaluated_documents.view_seq().len() == 0,
            acc.evaluated_timelines.view_seq().len() == 0,
            acc.counts == zero_counts(),
            acc.events.key_seq().len() == 0,
    {
        ActivityAccumulator {
            evaluated_documents: TextSet::new(),
            evaluated_timelines: TextSet::new(),
            counts: ActivityEventEvaluation {
                reference_ms: 0,
                predicted_ms: 0,
                true_positive_ms: 0,
                true_negative_ms: 0,
                false_positive_ms: 0,
                false_negative_ms: 0,
            },
            events: TextMap::new(),
        }
    }

    /// Adds one timeline's merged and per-event counts for document `audio_id`.
    pub fn add(&mut self, audio_id: &str, timeline_id: &str, result: &ActivityEvaluation)
        requires
            old(self).wf(),
        ensures
            final(self).wf(),
            final(self).evaluated_documents.members() == old(self).evaluated_documents.members().insert(audio_id@),
            final(self).evaluated_timelines.members() == old(self).evaluated_timelines.members().insert(timeline_id@),
            final(self).counts == counts_added(
                old(self).counts,
                ActivityEventEvaluation {
                    reference_ms: result.reference_ms,
                    predicted_ms: result.predicted_ms,
                    true_positive_ms: result.true_positive_ms,
                    true_negative_ms: result.true_negative_ms,
                    false_positive_ms: result.false_positive_ms,
                    false_negative_ms: result.false_negative_ms,
                },
            ),
            (final(self).events.key_seq(), event_views(final(self).events.value_seq())) == events_added(
                old(self).events.key_seq(),
                event_views(old(self).events.value_seq()),
                event_entries(result.events@),
                audio_id@,
                timeline_id@,
            ),
    {
        self.evaluated_documents.insert(audio_id.to_owned());
        self.evaluated_timelines.insert(timeline_id.to_owned());
        let merged = ActivityEventEvaluation {
            reference_ms: result.reference_ms,
            predicted_ms: result.predicted_ms,
            true_positive_ms: result.true_positive_ms,
            true_negative_ms: result.true_negative_ms,
            false_positive_ms: result.false_positive_ms,
            false_negative_ms: result.false_negative_ms,
        };
        self.counts = add_counts(self.counts, merged);
        let ghost keys0 = self.events.key_seq();
        let ghost views0 = event_views(self.events.value_seq());
        let ghost entries = event_entries(result.events@);
        let ghost docs = self.evaluated_documents;
        let ghost timelines = self.evaluated_timelines;
        let ghost counts_now = self.counts;
        let mut i: usize = 0;
        while i < result.events.len()
            invariant
                self.evaluated_documents == docs,
                self.evaluated_timelines == timelines,
                self.counts == counts_now,
                i <= result.events@.len(),
                entries == event_entries(result.events@),
                self.events.wf(),
                forall|t: int| 0 <= t < self.events.value_seq().len() ==> (#[trigger] self.events.value_seq()[t]).wf(),
                (self.events.key_seq(), event_views(self.events.value_seq())) == events_added(
                    keys0,
                    views0,
                    entries.take(i as int),
                    audio_id@,
                    timeline_id@,
                ),
            decreases result.events@.len() - i,
        {
            let name = &result.events[i].0;
            let counts = &result.events[i].1;
            let ghost prior_keys = self.events.key_seq();
            let ghost prior_vals = self.events.value_seq();
            proof {
                assert(entries.take(i + 1).drop_last() =~= entries.take(i as int));
                assert(entries.take(i + 1).last() == (name@, *counts));
            }
            let (found, pos) = self.events.find(name.as_str());
            proof {
                self.events.lemma_keys_sorted();
                let ks = key_slot(prior_keys, name@);
                lemma_key_slot_unique(prior_keys, name@, found, pos as int, ks.0, ks.1);
            }
            if found {
                let mut acc = self.events.take_value(pos);
                acc.add(audio_id, timeline_id, counts);
                self.events.put_value(pos, acc);
                proof {
                    assert(self.events.value_seq() =~= prior_vals.update(pos as int, acc));
                    assert(event_views(self.events.value_seq()) =~= event_views(prior_vals).update(
                        pos as int,
                        event_view(acc),
                    ));
                    assert forall|t: int| 0 <= t < self.events.value_seq().len() implies (#[trigger] self.events.value_seq()[t]).wf() by {
                        if t != pos {
                            assert(self.events.value_seq()[t] == prior_vals[t]);
                        }
                    }
                }
            } else {
                let mut acc = ActivityEventAccumulator::empty();
                proof {
                    assert(acc.evaluated_documents.members() =~= Set::<Seq<char>>::empty());
                    assert(acc.evaluated_timelines.members() =~= Set::<Seq<char>>::empty());
                }
                acc.add(audio_id, timeline_id, counts);
                self.events.insert_new(pos, name.clone(), acc);
                proof {
                    assert(self.events.value_seq() == prior_vals.insert(pos as int, acc));
                    assert forall|t: int| 0 <= t < self.events.value_seq().len() implies event_views(self.events.value_seq())[t]
                        == event_views(prior_vals).insert(pos as int, event_view(acc))[t] by {
                        if t < pos {
                            assert(self.events.value_seq()[t] == prior_vals[t]);
                        } else if t > pos {
                            assert(self.events.value_seq()[t] == prior_vals[t - 1]);
                        }
                    }
                    assert(event_views(self.events.value_seq()) =~= event_views(prior_vals).insert(
                        pos as int,
                        event_view(acc),
                    ));
                    assert forall|t: int| 0 <= t < self.events.value_seq().len() implies (#[trigger] self.events.value_seq()[t]).wf() by {
                        if t < pos {
                            assert(self.events.value_seq()[t] == prior_vals[t]);
                        } else if t > pos {
                            assert(self.events.value_seq()[t] == prior_vals[t - 1]);
                        }
                    }
                }
            }
            i = i + 1;
        }
        assert(entries.take(result.events@.len() as int) =~= entries);
    }
}

/// Whether some accumulator before index `i` has seen no timeline.
pub open spec fn first_unevaluated(timeline_counts: Seq<nat>) -> Option<int> {
    if exists|i: int| 0 <= i < timeline_counts.len() && timeline_counts[i] == 0 {
        Some(choose|i: int| 0 <= i < timeline_counts.len() && timeline_counts[i] == 0 && forall|j: int| 0 <= j < i ==> timeline_counts[j] > 0)
    } else {
        None
    }
}

proof fn lemma_first_unevaluated(counts: Seq<nat>, i: int)
    requires
        0 <= i < counts.len(),
        counts[i] == 0,
        forall|j: int| 0 <= j < i ==> counts[j] > 0,
    ensures
        first_unevaluated(counts) == Some(i),
{
    let k = choose|k: int| 0 <= k < counts.len() && counts[k] == 0 && forall|j: int| 0 <= j < k ==> counts[j] > 0;
    assert(0 <= k < counts.len() && counts[k] == 0 && forall|j: int| 0 <= j < k ==> counts[j] > 0);
    if k < i {
        assert(counts[k] > 0);
    }
    if i < k {
        assert(counts[i] > 0);
    }
}

/// The number of timelines each transcription accumulator has seen.
pub open spec fn transcription_timeline_counts(accs: Seq<TranscriptionAccumulator>) -> Seq<nat> {
    accs.map_values(|a: TranscriptionAccumulator| a.evaluated_timelines.view_seq().len())
}

/// The number of timelines each activity accumulator has seen.
pub open spec fn activity_timeline_counts(accs: Seq<ActivityAccumulator>) -> Seq<nat> {
    accs.map_values(|a: ActivityAccumulator| a.evaluated_timelines.view_seq().len())
}

/// The eligible timelines an accumulator has not seen, ascending.
pub open spec fn missing_ids(eligible: &TextSet, seen: &TextSet) -> Seq<Seq<char>> {
    eligible.view_seq().filter(|x: Seq<char>| !seen.view_seq().contains(x))
}

/// The summary of one transcription source.
pub open spec fn transcription_summary(
    source: Seq<char>,
    acc: TranscriptionAccumulator,
    eligible: &TextSet,
    unannotated: &TextSet,
    normalization: TranscriptionNormalization,
    out: DatasetTranscriptionEvaluation,
) -> bool {
    &&& out.source@ == source
    &&& out.evaluated_documents == acc.evaluated_documents.view_seq().len()
    &&& out.evaluated_timelines == acc.evaluated_timelines.view_seq().len()
    &&& out.unannotated_timelines == unannotated.view_seq().len()
    &&& texts(out.unannotated_ids@) == unannotated.view_seq()
    &&& texts(out.missing_prediction_ids@) == missing_ids(eligible, &acc.evaluated_timelines)
    &&& out.missing_predictions == missing_ids(eligible, &acc.evaluated_timelines).len()
    &&& out.normalization == normalization
    &&& out.stats == acc.stats
    &&& out.hypothesis_chars == acc.hypothesis_chars
    &&& out.exact_matches == acc.exact_matches
}

/// Reduces transcription accumulators to per-source summaries: nothing when
/// no timeline was eligible; an error naming the first source (ascending)
/// that never matched a timeline; otherwise one summary per source.
pub fn finish_transcription(
    accumulators: &TextMap<TranscriptionAccumulator>,
    eligible: &TextSet,
    unannotated: &TextSet,
    normalization: TranscriptionNormalization,
) -> (result: Result<Vec<(String, DatasetTranscriptionEvaluation)>, DatasetEvalError>)
    requires
        accumulators.wf(),
    ensures
        eligible.view_seq().len() == 0 ==> (result matches Ok(v) && v@.len() == 0),
        eligible.view_seq().len() > 0 ==> match first_unevaluated(transcription_timeline_counts(accumulators.value_seq())) {
            Some(i) => (result matches Err(DatasetEvalError::MissingPrediction { kind, prediction_source })
                && kind == EvaluationKind::Transcription && prediction_source@ == accumulators.key_seq()[i]),
            None => (result matches Ok(v) && v@.len() == accumulators.key_seq().len() && forall|i: int| #![trigger v@[i]]
                0 <= i < v@.len() ==> v@[i].0@ == accumulators.key_seq()[i] && transcription_summary(
                    accumulators.key_seq()[i],
                    accumulators.value_seq()[i],
                    eligible,
                    unannotated,
                    normalization,
                    v@[i].1,
                )),
        },
{
    let mut out: Vec<(String, DatasetTranscriptionEvaluation)> = Vec::new();
    if eligible.is_empty() {
        return Ok(out);
    }
    let ghost counts = transcription_timeline_counts(accumulators.value_seq());
    proof {
        accumulators.lemma_keys_sorted();
    }
    let n = accumulators.len();
    let mut i: usize = 0;
    while i < n
        invariant
            accumulators.wf(),
            n == accumulators.key_seq().len(),
            n == accumulators.value_seq().len(),
            counts == transcription_timeline_counts(accumulators.value_seq()),
            eligible.view_seq().len() > 0,
            i <= n,
            out@.len() == i,
            forall|j: int| 0 <= j < i ==> counts[j] > 0,
            forall|j: int| #![trigger out@[j]]
                0 <= j < i ==> out@[j].0@ == accumulators.key_seq()[j] && transcription_summary(
                    accumulators.key_seq()[j],
                    accumulators.value_seq()[j],
                    eligible,
                    unannotated,
                    normalization,
                    out@[j].1,
                ),
        decreases n - i,
    {
        let source = accumulators.key_at(i);
        let acc = accumulators.value_at(i);
        if acc.evaluated_timelines.is_empty() {
            proof {
                lemma_first_unevaluated(counts, i as int);
            }
            return Err(DatasetEvalError::MissingPrediction { kind: EvaluationKind::Transcription, prediction_source: source.clone() });
        }
        let missing = eligible.difference(&acc.evaluated_timelines);
        let summary = DatasetTranscriptionEvaluation {
            source: source.clone(),
            evaluated_documents: acc.evaluated_documents.len(),
            evaluated_timelines: acc.evaluated_timelines.len(),
            unannotated_timelines: unannotated.len(),
            missing_predictions: missing.len(),
            unannotated_ids: unannotated.to_vec(),
            missing_prediction_ids: missing,
            normalization,
            stats: acc.stats,
            hypothesis_chars: acc.hypothesis_chars,
            exact_matches: acc.exact_matches,
        };
        out.push((source.clone(), summary));
        i = i + 1;
    }
    proof {
        if exists|j: int| 0 <= j < counts.len() && counts[j] == 0 {
            let j = choose|j: int| 0 <= j < counts.len() && counts[j] == 0;
            assert(counts[j] > 0);
        }
    }
    Ok(out)
}

/// The summary of one activity event.
pub open spec fn event_summary(event: Seq<char>, acc: ActivityEventAccumulator, out: DatasetActivityEventEvaluation) -> bool {
    &&& out.event@ == event
    &&& out.evaluated_documents == acc.evaluated_documents.view_seq().len()
    &&& out.evaluated_timelines == acc.evaluated_timelines.view_seq().len()
    &&& out.reference_ms == acc.counts.reference_ms
    &&& out.predicted_ms == acc.counts.predicted_ms
    &&& out.true_positive_ms == acc.counts.true_positive_ms
    &&& out.true_negative_ms == acc.counts.true_negative_ms
    &&& out.false_positive_ms == acc.counts.false_positive_ms
    &&& out.false_negative_ms == acc.counts.false_negative_ms
}

/// The summary of one activity source.
pub open spec fn activity_summary(
    source: Seq<char>,
    acc: ActivityAccumulator,
    eligible: &TextSet,
    unannotated: &TextSet,
    out: DatasetActivityEvaluation,
) -> bool {
    &&& out.source@ == source
    &&& out.evaluated_documents == acc.evaluated_documents.view_seq().len()
    &&& out.evaluated_timelines == acc.evaluated_timelines.view_seq().len()
    &&& out.unannotated_timelines == unannotated.view_seq().len()
    &&& texts(out.unannotated_ids@) == unannotated.view_seq()
    &&& texts(out.missing_prediction_ids@) == missing_ids(eligible, &acc.evaluated_timelines)
    &&& out.missing_predictions == missing_ids(eligible, &acc.evaluated_timelines).len()
    &&& out.reference_ms == acc.counts.reference_ms
    &&& out.predicted_ms == acc.counts.predicted_ms
    &&& out.true_positive_ms == acc.counts.true_positive_ms
    &&& out.true_negative_ms == acc.counts.true_negative_ms
    &&& out.false_positive_ms == acc.counts.false_positive_ms
    &&& out.false_negative_ms == acc.counts.false_negative_ms
    &&& out.events@.len() == acc.events.key_seq().len()
    &&& forall|i: int| #![trigger out.events@[i]]
        0 <= i < out.events@.len() ==> out.events@[i].0@ == acc.events.key_seq()[i] && event_summary(
            acc.events.key_seq()[i],
            acc.events.value_seq()[i],
            out.events@[i].1,
        )
}

/// The per-event summaries of an activity accumulator.
fn finish_events(events: &TextMap<ActivityEventAccumulator>) -> (out: Vec<(String, DatasetActivityEventEvaluation)>)
    requires
        events.wf(),
    ensures
        out@.len() == events.key_seq().len(),
        forall|i: int| #![trigger out@[i]]
            0 <= i < out@.len() ==> out@[i].0@ == events.key_seq()[i] && event_summary(
                events.key_seq()[i],
                events.value_seq()[i],
                out@[i].1,
            ),
{
    let mut out: Vec<(String, DatasetActivityEventEvaluation)> = Vec::new();
    let n = events.len();
    let mut i: usize = 0;
    while i < n
        invariant
            events.wf(),
            n == events.key_seq().len(),
            n == events.value_seq().len(),
            i <= n,
            out@.len() == i,
            forall|j: int| #![trigger out@[j]]
                0 <= j < i ==> out@[j].0@ == events.key_seq()[j] && event_summary(
                    events.key_seq()[j],
                    events.value_seq()[j],
                    out@[j].1,
                ),
        decreases n - i,
    {
        let name = events.key_at(i);
        let acc = events.value_at(i);
        let summary = DatasetActivityEventEvaluation {
            event: name.clone(),
            evaluated_documents: acc.evaluated_documents.len(),
            evaluated_timelines: acc.evaluated_timelines.len(),
            reference_ms: acc.counts.reference_ms,
            predicted_ms: acc.counts.predicted_ms,
            true_positive_ms: acc.counts.true_positive_ms,
            true_negative_ms: acc.counts.true_negative_ms,
            false_positive_ms: acc.counts.false_positive_ms,
            false_negative_ms: acc.counts.false_negative_ms,
        };
        out.push((name.clone(), summary));
        i = i + 1;
    }
    out
}

/// Reduces activity accumulators to per-source summaries, with the same
/// empty, error and success cases as [`finish_transcription`].
pub fn finish_activity(
    accumulators: &TextMap<ActivityAccumulator>,
    eligible: &TextSet,
    unannotated: &TextSet,
) -> (result: Result<Vec<(String, DatasetActivityEvaluation)>, DatasetEvalError>)
    requires
        accumulators.wf(),
        forall|i: int| 0 <= i < accumulators.value_seq().len() ==> (#[trigger] accumulators.value_seq()[i]).wf(),
    ensures
        eligible.view_seq().len() == 0 ==> (result matches Ok(v) && v@.len() == 0),
        eligible.view_seq().len() > 0 ==> match first_unevaluated(activity_timeline_counts(accumulators.value_seq())) {
            Some(i) => (result matches Err(DatasetEvalError::MissingPrediction { kind, prediction_source })
                && kind == EvaluationKind::Activity && prediction_source@ == accumulators.key_seq()[i]),
            None => (result matches Ok(v) && v@.len() == accumulators.key_seq().len() && forall|i: int| #![trigger v@[i]]
                0 <= i < v@.len() ==> v@[i].0@ == accumulators.key_seq()[i] && activity_summary(
                    accumulators.key_seq()[i],
                    accumulators.value_seq()[i],
                    eligible,
                    unannotated,
                    v@[i].1,
                )),
        },
{
    let mut out: Vec<(String, DatasetActivityEvaluation)> = Vec::new();
    if eligible.is_empty() {
        return Ok(out);
    }
    let ghost counts = activity_timeline_counts(accumulators.value_seq());
    let n = accumulators.len();
    let mut i: usize = 0;
    while i < n
        invariant
            accumulators.wf(),
            forall|j: int| 0 <= j < accumulators.value_seq().len() ==> (#[trigger] accumulators.value_seq()[j]).wf(),
            n == accumulators.key_seq().len(),
            n == accumulators.value_seq().len(),
            counts == activity_timeline_counts(accumulators.value_seq()),
            eligible.view_seq().len() > 0,
            i <= n,
            out@.len() == i,
            forall|j: int| 0 <= j < i ==> counts[j] > 0,
            forall|j: int| #![trigger out@[j]]
                0 <= j < i ==> out@[j].0@ == accumulators.key_seq()[j] && activity_summary(
                    accumulators.key_seq()[j],
                    accumulators.value_seq()[j],
                    eligible,
                    unannotated,
                    out@[j].1,
                ),
        decreases n - i,
    {
        let source = accumulators.key_at(i);
        let acc = accumulators.value_at(i);
        assert(acc.wf());
        if acc.evaluated_timelines.is_empty() {
            proof {
                lemma_first_unevaluated(counts, i as int);
            }
            return Err(DatasetEvalError::MissingPrediction { kind: EvaluationKind::Activity, prediction_source: source.clone() });
        }
        let missing = eligible.difference(&acc.evaluated_timelines);
        let events = finish_events(&acc.events);
        let summary = DatasetActivityEvaluation {
            source: source.clone(),
            evaluated_documents: acc.evaluated_documents.len(),
            evaluated_timelines: acc.evaluated_timelines.len(),
            unannotated_timelines: unannotated.len(),
            missing_predictions: missing.len(),
            unannotated_ids: unannotated.to_vec(),
            missing_prediction_ids: missing,
            reference_ms: acc.counts.reference_ms,
            predicted_ms: acc.counts.predicted_ms,
            true_positive_ms: acc.counts.true_positive_ms,
            true_negative_ms: acc.counts.true_negative_ms,
            false_positive_ms: acc.counts.false_positive_ms,
            false_negative_ms: acc.counts.false_negative_ms,
            events,
        };
        out.push((source.clone(), summary));
        i = i + 1;
    }
    proof {
        if exists|j: int| 0 <= j < counts.len() && counts[j] == 0 {
            let j = choose|j: int| 0 <= j < counts.len() && counts[j] == 0;
            assert(counts[j] > 0);
        }
    }
    Ok(out)
}

/// The distinct selected sources, ascending; `None` selects nothing.
pub open spec fn selected_sources_spec(selection: Option<Seq<Seq<char>>>) -> Set<Seq<char>> {
    match selection {
        Some(names) => names.to_set(),
        None => Set::empty(),
    }
}

/// The set of names in a selection list.
pub fn selected_sources(selection: Option<&[String]>) -> (sources: TextSet)
    ensures
        sources.wf(),
        sources.members() == match selection {
            Some(names) => texts(names@).to_set(),
            None => Set::<Seq<char>>::empty(),
        },
{
    let mut sources = TextSet::new();
    assert(sources.members() =~= Set::<Seq<char>>::empty());
    match selection {
        None => sources,
        Some(names) => {
            let mut i: usize = 0;
            while i < names.len()
                invariant
                    i <= names@.len(),
                    sources.wf(),
                    sources.members() == texts(names@).take(i as int).to_set(),
                decreases names@.len() - i,
            {
                sources.insert(names[i].clone());
                proof {
                    assert(texts(names@).take(i + 1) =~= texts(names@).take(i as int).push(names@[i as int]@));
                    assert(texts(names@).take(i + 1).to_set() =~= texts(names@).take(i as int).to_set().insert(
                        names@[i as int]@,
                    )) by {
                        assert forall|x: Seq<char>| texts(names@).take(i + 1).to_set().contains(x)
                            <==> texts(names@).take(i as int).to_set().insert(names@[i as int]@).contains(x) by {
                            let s1 = texts(names@).take(i + 1);
                            let s0 = texts(names@).take(i as int);
                            if s1.contains(x) {
                                let t = choose|t: int| 0 <= t < s1.len() && s1[t] == x;
                                if t < i {
                                    assert(s0[t] == x);
                                }
                            }
                            if s0.contains(x) {
                                let t = choose|t: int| 0 <= t < s0.len() && s0[t] == x;
                                assert(s1[t] == x);
                            }
                            if x == names@[i as int]@ {
                                assert(s1[i as int] == x);
                            }
                        }
                    }
                }
                i = i + 1;
            }
            assert(texts(names@).take(names@.len() as int) =~= texts(names@));
            sources
        },
    }
}

/// The sources of a timeline to score: all available ones when the
/// selection is empty, otherwise the selected ones that are available.
pub fn sources_for_timeline(selection: &[String], available: &TextSet) -> (sources: TextSet)
    requires
        available.wf(),
    ensures
        sources.wf(),
        selection@.len() == 0 ==> sources.members() == available.members(),
        selection@.len() > 0 ==> sources.members() == texts(selection@).to_set().intersect(available.members()),
{
    if selection.len() == 0 {
        return available.duplicate();
    }
    let mut sources = TextSet::new();
    assert(sources.members() =~= Set::<Seq<char>>::empty());
    let mut i: usize = 0;
    while i < selection.len()
        invariant
            available.wf(),
            i <= selection@.len(),
            sources.wf(),
            sources.members() == texts(selection@).take(i as int).to_set().intersect(available.members()),
        decreases selection@.len() - i,
    {
        let ghost s0 = texts(selection@).take(i as int);
        let ghost s1 = texts(selection@).take(i + 1);
        proof {
            assert(s1 =~= s0.push(selection@[i as int]@));
        }
        if available.contains(selection[i].as_str()) {
            sources.insert(selection[i].clone());
        }
        proof {
            let name = selection@[i as int]@;
            assert forall|x: Seq<char>| s1.to_set().intersect(available.members()).contains(x)
                <==> sources.members().contains(x) by {
                if s1.contains(x) {
                    let t = choose|t: int| 0 <= t < s1.len() && s1[t] == x;
                    if t < i {
                        assert(s0[t] == x);
                    }
                }
                if s0.contains(x) {
                    let t = choose|t: int| 0 <= t < s0.len() && s0[t] == x;
                    assert(s1[t] == x);
                }
                if x == name {
                    assert(s1[i as int] == x);
                }
            }
            assert(s1.to_set().intersect(available.members()) =~= sources.members());
        }
        i = i + 1;
    }
    assert(texts(selection@).take(selection@.len() as int) =~= texts(selection@));
    sources
}

} // verus!
