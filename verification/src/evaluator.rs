//! The streaming dataset evaluator: per-timeline results are folded into
//! per-source accumulators, then reduced to dataset summaries.

use vstd::prelude::*;

use crate::audio::AudioChannel;
use crate::chars::{chars_of, string_from_chars};
use crate::evaluation::{
    activity_summary, counts_added, event_entries, event_views, events_added, finish_activity,
    finish_transcription, first_unevaluated, selected_sources, sources_for_timeline, transcription_summary,
    activity_timeline_counts, transcription_timeline_counts, ActivityAccumulator, ActivityEvaluation,
    ActivityEventEvaluation, DatasetEvalError, DatasetEvaluation, TimelineEvalConfig, TranscriptionAccumulator,
    TranscriptionEvaluation,
};
use crate::ordered::{
    is_key_slot, key_slot, lemma_key_slot_unique, lemma_text_lt_trichotomy, strictly_sorted, texts, TextMap, TextSet,
};

verus! {

/// The evaluated results of one timeline of a document: whether it has
/// reference transcripts or activity, and the scores of every prediction
/// source it carries, in ascending source order.
#[derive(Debug, Clone)]
pub struct TimelineOutcome {
    pub channel: AudioChannel,
    pub has_text_reference: bool,
    pub transcription: Vec<(String, TranscriptionEvaluation)>,
    pub has_activity_reference: bool,
    pub activity: Vec<(String, ActivityEvaluation)>,
}

/// The source names of a list of per-source results.
pub open spec fn entry_names<R>(entries: Seq<(String, R)>) -> Seq<Seq<char>> {
    entries.map_values(|e: (String, R)| e.0@)
}

/// The names and results of a list of per-source results.
pub open spec fn entry_views<R>(entries: Seq<(String, R)>) -> Seq<(Seq<char>, R)> {
    entries.map_values(|e: (String, R)| (e.0@, e.1))
}

impl TimelineOutcome {
    /// Sources are listed once each, ascending.
    pub open spec fn wf(&self) -> bool {
        &&& strictly_sorted(entry_names(self.transcription@))
        &&& strictly_sorted(entry_names(self.activity@))
    }
}

/// The identifier of a timeline: `audio_id:channel`.
pub open spec fn timeline_key_spec(audio_id: Seq<char>, channel: AudioChannel) -> Seq<char> {
    audio_id + seq![':'] + channel.spec_name()
}

/// Builds `audio_id:channel`.
pub fn timeline_key(audio_id: &str, channel: AudioChannel) -> (key: String)
    ensures
        key@ == timeline_key_spec(audio_id@, channel),
{
    let mut v = chars_of(audio_id);
    v.push(':');
    let name = channel.name();
    let tail = chars_of(name.as_str());
    let mut i: usize = 0;
    let ghost head = v@;
    while i < tail.len()
        invariant
            i <= tail@.len(),
            v@ == head + tail@.take(i as int),
        decreases tail@.len() - i,
    {
        v.push(tail[i]);
        assert(tail@.take(i + 1) =~= tail@.take(i as int).push(tail@[i as int]));
        i = i + 1;
    }
    assert(tail@.take(tail@.len() as int) =~= tail@);
    assert(head =~= audio_id@ + seq![':']);
    string_from_chars(v.as_slice())
}

/// Names listed strictly ascending are distinct.
proof fn lemma_sorted_names_distinct<R>(entries: Seq<(String, R)>, i: int, j: int)
    requires
        strictly_sorted(entry_names(entries)),
        0 <= i < j < entries.len(),
    ensures
        entries[i].0@ != entries[j].0@,
{
    let names = entry_names(entries);
    assert(names[i] == entries[i].0@);
    assert(names[j] == entries[j].0@);
    lemma_text_lt_trichotomy(names[i], names[i]);
}

/// Whether `name` is one of `names`.
pub fn contains_name(names: &[String], name: &str) -> (found: bool)
    ensures
        found == texts(names@).contains(name@),
{
    let target = name.to_owned();
    let mut i: usize = 0;
    while i < names.len()
        invariant
            i <= names@.len(),
            target@ == name@,
            forall|t: int| 0 <= t < i ==> texts(names@)[t] != name@,
        decreases names@.len() - i,
    {
        if names[i] == target {
            assert(texts(names@)[i as int] == name@);
            return true;
        }
        i = i + 1;
    }
    proof {
        if texts(names@).contains(name@) {
            let t = choose|t: int| 0 <= t < texts(names@).len() && texts(names@)[t] == name@;
            assert(texts(names@)[t] != name@);
        }
    }
    false
}

/// Whether a source is scored under a selection: an empty selection scores
/// every available source.
pub open spec fn keep_source(selection: Seq<Seq<char>>, name: Seq<char>) -> bool {
    selection.len() == 0 || selection.contains(name)
}

/// The per-source states after folding `entries` in order: entries outside
/// the selection are skipped, a present source is updated in place, a new
/// one is inserted at its slot starting from `fresh`.
pub open spec fn sources_added<A, R>(
    keys: Seq<Seq<char>>,
    views: Seq<A>,
    entries: Seq<(Seq<char>, R)>,
    selection: Seq<Seq<char>>,
    fresh: A,
    step: spec_fn(A, R) -> A,
) -> (Seq<Seq<char>>, Seq<A>)
    decreases entries.len(),
{
    if entries.len() == 0 {
        (keys, views)
    } else {
        let prior = sources_added(keys, views, entries.drop_last(), selection, fresh, step);
        let (name, r) = entries.last();
        if !keep_source(selection, name) {
            prior
        } else {
            let (found, pos) = key_slot(prior.0, name);
            if found {
                (prior.0, prior.1.update(pos, step(prior.1[pos], r)))
            } else {
                (prior.0.insert(pos, name), prior.1.insert(pos, step(fresh, r)))
            }
        }
    }
}

/// The observable totals of a transcription accumulator.
pub type TranscriptionTotals = (Set<Seq<char>>, Set<Seq<char>>, (int, int, int, int), int, int);

pub open spec fn transcription_totals(acc: TranscriptionAccumulator) -> TranscriptionTotals {
    (
        acc.evaluated_documents.members(),
        acc.evaluated_timelines.members(),
        (
            acc.stats.substitutions as int,
            acc.stats.deletions as int,
            acc.stats.insertions as int,
            acc.stats.reference_chars as int,
        ),
        acc.hypothesis_chars as int,
        acc.exact_matches as int,
    )
}

pub open spec fn all_transcription_totals(accs: Seq<TranscriptionAccumulator>) -> Seq<TranscriptionTotals> {
    accs.map_values(|a: TranscriptionAccumulator| transcription_totals(a))
}

/// No timeline seen yet.
pub open spec fn empty_transcription_totals() -> TranscriptionTotals {
    (Set::empty(), Set::empty(), (0, 0, 0, 0), 0, 0)
}

/// One timeline's scores added to transcription totals.
pub open spec fn transcription_totals_added(
    t: TranscriptionTotals,
    audio_id: Seq<char>,
    timeline_id: Seq<char>,
    r: TranscriptionEvaluation,
) -> TranscriptionTotals {
    (
        t.0.insert(audio_id),
        t.1.insert(timeline_id),
        (
            t.2.0 + r.stats.substitutions,
            t.2.1 + r.stats.deletions,
            t.2.2 + r.stats.insertions,
            t.2.3 + r.stats.reference_chars,
        ),
        t.3 + r.hypothesis_chars,
        t.4 + if r.exact_match { 1int } else { 0int },
    )
}

/// Adding to any accumulator under the key of a result keeps its totals
/// within `usize`.
pub open spec fn transcription_room(
    keys: Seq<Seq<char>>,
    accs: Seq<TranscriptionAccumulator>,
    entries: Seq<(Seq<char>, TranscriptionEvaluation)>,
    from: int,
) -> bool {
    forall|t: int, j: int|
        0 <= t < keys.len() && from <= j < entries.len() && keys[t] == entries[j].0 ==> (#[trigger] accs[t]).can_add(
            #[trigger] entries[j].1,
        )
}

/// Folds one timeline's transcription results into per-source accumulators.
fn add_transcriptions(
    accs: &mut TextMap<TranscriptionAccumulator>,
    selection: &[String],
    audio_id: &str,
    timeline_id: &str,
    entries: &[(String, TranscriptionEvaluation)],
)
    requires
        old(accs).wf(),
        forall|t: int| 0 <= t < old(accs).value_seq().len() ==> (#[trigger] old(accs).value_seq()[t]).wf(),
        strictly_sorted(entry_names(entries@)),
        transcription_room(old(accs).key_seq(), old(accs).value_seq(), entry_views(entries@), 0),
    ensures
        final(accs).wf(),
        forall|t: int| 0 <= t < final(accs).value_seq().len() ==> (#[trigger] final(accs).value_seq()[t]).wf(),
        (final(accs).key_seq(), all_transcription_totals(final(accs).value_seq())) == sources_added(
            old(accs).key_seq(),
            all_transcription_totals(old(accs).value_seq()),
            entry_views(entries@),
            texts(selection@),
            empty_transcription_totals(),
            |t: TranscriptionTotals, r: TranscriptionEvaluation|
                transcription_totals_added(t, audio_id@, timeline_id@, r),
        ),
{
    let ghost keys0 = accs.key_seq();
    let ghost totals0 = all_transcription_totals(accs.value_seq());
    let ghost ev = entry_views(entries@);
    let ghost sel = texts(selection@);
    let ghost step = |t: TranscriptionTotals, r: TranscriptionEvaluation|
        transcription_totals_added(t, audio_id@, timeline_id@, r);
    let mut i: usize = 0;
    while i < entries.len()
        invariant
            i <= entries@.len(),
            ev == entry_views(entries@),
            sel == texts(selection@),
            step == (|t: TranscriptionTotals, r: TranscriptionEvaluation|
                transcription_totals_added(t, audio_id@, timeline_id@, r)),
            strictly_sorted(entry_names(entries@)),
            accs.wf(),
            forall|t: int| 0 <= t < accs.value_seq().len() ==> (#[trigger] accs.value_seq()[t]).wf(),
            transcription_room(accs.key_seq(), accs.value_seq(), ev, i as int),
            (accs.key_seq(), all_transcription_totals(accs.value_seq())) == sources_added(
                keys0,
                totals0,
                ev.take(i as int),
                sel,
                empty_transcription_totals(),
                step,
            ),
        decreases entries@.len() - i,
    {
        let name = &entries[i].0;
        let result = &entries[i].1;
        let ghost prior_keys = accs.key_seq();
        let ghost prior_vals = accs.value_seq();
        proof {
            assert(ev.take(i + 1).drop_last() =~= ev.take(i as int));
            assert(ev.take(i + 1).last() == (name@, *result));
            assert(ev[i as int] == (name@, *result));
        }
        let keep = selection.len() == 0 || contains_name(selection, name.as_str());
        if keep {
            let (found, pos) = accs.find(name.as_str());
            proof {
                accs.lemma_keys_sorted();
                let ks = key_slot(prior_keys, name@);
                lemma_key_slot_unique(prior_keys, name@, found, pos as int, ks.0, ks.1);
            }
            if found {
                let mut acc = accs.take_value(pos);
                proof {
                    assert(prior_keys[pos as int] == ev[i as int].0);
                    assert(prior_vals[pos as int].can_add(ev[i as int].1));
                }
                acc.add(audio_id, timeline_id, result);
                accs.put_value(pos, acc);
                proof {
                    assert(accs.value_seq() =~= prior_vals.update(pos as int, acc));
                    assert(all_transcription_totals(accs.value_seq()) =~= all_transcription_totals(prior_vals).update(
                        pos as int,
                        transcription_totals(acc),
                    ));
                    assert(transcription_totals(acc) == step(all_transcription_totals(prior_vals)[pos as int], *result));
                    assert forall|t: int| 0 <= t < accs.value_seq().len() implies (#[trigger] accs.value_seq()[t]).wf() by {
                        if t != pos {
                            assert(accs.value_seq()[t] == prior_vals[t]);
                        }
                    }
                    assert forall|t: int, j: int|
                        0 <= t < accs.key_seq().len() && i + 1 <= j < ev.len() && accs.key_seq()[t] == ev[j].0
                        implies (#[trigger] accs.value_seq()[t]).can_add(#[trigger] ev[j].1) by {
                        if t == pos {
                            lemma_sorted_names_distinct(entries@, i as int, j);
                        } else {
                            assert(accs.value_seq()[t] == prior_vals[t]);
                        }
                    }
                }
            } else {
                let mut acc = TranscriptionAccumulator::empty();
                proof {
                    assert(acc.evaluated_documents.members() =~= Set::<Seq<char>>::empty());
                    assert(acc.evaluated_timelines.members() =~= Set::<Seq<char>>::empty());
                }
                acc.add(audio_id, timeline_id, result);
                accs.insert_new(pos, name.clone(), acc);
                proof {
                    assert(accs.value_seq() == prior_vals.insert(pos as int, acc));
                    assert(transcription_totals(acc) == step(empty_transcription_totals(), *result));
                    assert forall|t: int| 0 <= t < accs.value_seq().len() implies all_transcription_totals(accs.value_seq())[t]
                        == all_transcription_totals(prior_vals).insert(pos as int, transcription_totals(acc))[t] by {
                        if t < pos {
                            assert(accs.value_seq()[t] == prior_vals[t]);
                        } else if t > pos {
                            assert(accs.value_seq()[t] == prior_vals[t - 1]);
                        }
                    }
                    assert(all_transcription_totals(accs.value_seq()) =~= all_transcription_totals(prior_vals).insert(
                        pos as int,
                        transcription_totals(acc),
                    ));
                    assert forall|t: int| 0 <= t < accs.value_seq().len() implies (#[trigger] accs.value_seq()[t]).wf() by {
                        if t < pos {
                            assert(accs.value_seq()[t] == prior_vals[t]);
                        } else if t > pos {
                            assert(accs.value_seq()[t] == prior_vals[t - 1]);
                        }
                    }
                    assert forall|t: int, j: int|
                        0 <= t < accs.key_seq().len() && i + 1 <= j < ev.len() && accs.key_seq()[t] == ev[j].0
                        implies (#[trigger] accs.value_seq()[t]).can_add(#[trigger] ev[j].1) by {
                        if t < pos {
                            assert(accs.value_seq()[t] == prior_vals[t]);
                            assert(accs.key_seq()[t] == prior_keys[t]);
                        } else if t > pos {
                            assert(accs.value_seq()[t] == prior_vals[t - 1]);
                            assert(accs.key_seq()[t] == prior_keys[t - 1]);
                        } else {
                            lemma_sorted_names_distinct(entries@, i as int, j);
                        }
                    }
                }
            }
        } else {
            proof {
                assert(!keep_source(sel, name@));
            }
        }
        i = i + 1;
    }
    assert(ev.take(entries@.len() as int) =~= ev);
}

/// The observable totals of an activity accumulator: documents, timelines,
/// merged counts, event names and per-event totals.
pub type ActivityTotals = (
    Set<Seq<char>>,
    Set<Seq<char>>,
    ActivityEventEvaluation,
    Seq<Seq<char>>,
    Seq<(Set<Seq<char>>, Set<Seq<char>>, ActivityEventEvaluation)>,
);

pub open spec fn activity_totals(acc: ActivityAccumulator) -> ActivityTotals {
    (
        acc.evaluated_documents.members(),
        acc.evaluated_timelines.members(),
        acc.counts,
        acc.events.key_seq(),
        event_views(acc.events.value_seq()),
    )
}

pub open spec fn all_activity_totals(accs: Seq<ActivityAccumulator>) -> Seq<ActivityTotals> {
    accs.map_values(|a: ActivityAccumulator| activity_totals(a))
}

/// No timeline seen yet.
pub open spec fn empty_activity_totals() -> ActivityTotals {
    (Set::empty(), Set::empty(), crate::evaluation::zero_counts(), Seq::empty(), Seq::empty())
}

/// The merged counts of an activity result.
pub open spec fn merged_counts(r: ActivityEvaluation) -> ActivityEventEvaluation {
    ActivityEventEvaluation {
        reference_ms: r.reference_ms,
        predicted_ms: r.predicted_ms,
        true_positive_ms: r.true_positive_ms,
        true_negative_ms: r.true_negative_ms,
        false_positive_ms: r.false_positive_ms,
        false_negative_ms: r.false_negative_ms,
    }
}

/// One timeline's activity result added to activity totals.
pub open spec fn activity_totals_added(
    t: ActivityTotals,
    audio_id: Seq<char>,
    timeline_id: Seq<char>,
    r: ActivityEvaluation,
) -> ActivityTotals {
    let ev = events_added(t.3, t.4, event_entries(r.events@), audio_id, timeline_id);
    (t.0.insert(audio_id), t.1.insert(timeline_id), counts_added(t.2, merged_counts(r)), ev.0, ev.1)
}

/// Folds one timeline's activity results into per-source accumulators.
fn add_activities(
    accs: &mut TextMap<ActivityAccumulator>,
    selection: &[String],
    audio_id: &str,
    timeline_id: &str,
    entries: &[(String, ActivityEvaluation)],
)
    requires
        old(accs).wf(),
        forall|t: int| 0 <= t < old(accs).value_seq().len() ==> (#[trigger] old(accs).value_seq()[t]).wf(),
    ensures
        final(accs).wf(),
        forall|t: int| 0 <= t < final(accs).value_seq().len() ==> (#[trigger] final(accs).value_seq()[t]).wf(),
        (final(accs).key_seq(), all_activity_totals(final(accs).value_seq())) == sources_added(
            old(accs).key_seq(),
            all_activity_totals(old(accs).value_seq()),
            entry_views(entries@),
            texts(selection@),
            empty_activity_totals(),
            |t: ActivityTotals, r: ActivityEvaluation| activity_totals_added(t, audio_id@, timeline_id@, r),
        ),
{
    let ghost keys0 = accs.key_seq();
    let ghost totals0 = all_activity_totals(accs.value_seq());
    let ghost ev = entry_views(entries@);
    let ghost sel = texts(selection@);
    let ghost step = |t: ActivityTotals, r: ActivityEvaluation| activity_totals_added(t, audio_id@, timeline_id@, r);
    let mut i: usize = 0;
    while i < entries.len()
        invariant
            i <= entries@.len(),
            ev == entry_views(entries@),
            sel == texts(selection@),
            step == (|t: ActivityTotals, r: ActivityEvaluation| activity_totals_added(t, audio_id@, timeline_id@, r)),
            accs.wf(),
            forall|t: int| 0 <= t < accs.value_seq().len() ==> (#[trigger] accs.value_seq()[t]).wf(),
            (accs.key_seq(), all_activity_totals(accs.value_seq())) == sources_added(
                keys0,
                totals0,
                ev.take(i as int),
                sel,
                empty_activity_totals(),
                step,
            ),
        decreases entries@.len() - i,
    {
        let name = &entries[i].0;
        let result = &entries[i].1;
        let ghost prior_keys = accs.key_seq();
        let ghost prior_vals = accs.value_seq();
        proof {
            assert(ev.take(i + 1).drop_last() =~= ev.take(i as int));
            assert(ev.take(i + 1).last() == (name@, *result));
        }
        let keep = selection.len() == 0 || contains_name(selection, name.as_str());
        if keep {
            let (found, pos) = accs.find(name.as_str());
            proof {
                accs.lemma_keys_sorted();
                let ks = key_slot(prior_keys, name@);
                lemma_key_slot_unique(prior_keys, name@, found, pos as int, ks.0, ks.1);
            }
            if found {
                let mut acc = accs.take_value(pos);
                acc.add(audio_id, timeline_id, result);
                accs.put_value(pos, acc);
                proof {
                    assert(accs.value_seq() =~= prior_vals.update(pos as int, acc));
                    assert(all_activity_totals(accs.value_seq()) =~= all_activity_totals(prior_vals).update(
                        pos as int,
                        activity_totals(acc),
                    ));
                    assert(activity_totals(acc) == step(all_activity_totals(prior_vals)[pos as int], *result));
                    assert forall|t: int| 0 <= t < accs.value_seq().len() implies (#[trigger] accs.value_seq()[t]).wf() by {
                        if t != pos {
                            assert(accs.value_seq()[t] == prior_vals[t]);
                        }
                    }
                }
            } else {
                let mut acc = ActivityAccumulator::empty();
                proof {
                    assert(acc.evaluated_documents.members() =~= Set::<Seq<char>>::empty());
                    assert(acc.evaluated_timelines.members() =~= Set::<Seq<char>>::empty());
                    assert(acc.events.key_seq() =~= Seq::<Seq<char>>::empty());
                    acc.events.lemma_keys_sorted();
                    assert(event_views(acc.events.value_seq()) =~= Seq::empty());
                    assert(activity_totals(acc) == empty_activity_totals());
                }
                acc.add(audio_id, timeline_id, result);
                accs.insert_new(pos, name.clone(), acc);
                proof {
                    assert(accs.value_seq() == prior_vals.insert(pos as int, acc));
                    assert(activity_totals(acc) == step(empty_activity_totals(), *result));
                    assert forall|t: int| 0 <= t < accs.value_seq().len() implies all_activity_totals(accs.value_seq())[t]
                        == all_activity_totals(prior_vals).insert(pos as int, activity_totals(acc))[t] by {
                        if t < pos {
                            assert(accs.value_seq()[t] == prior_vals[t]);
                        } else if t > pos {
                            assert(accs.value_seq()[t] == prior_vals[t - 1]);
                        }
                    }
                    assert(all_activity_totals(accs.value_seq()) =~= all_activity_totals(prior_vals).insert(
                        pos as int,
                        activity_totals(acc),
                    ));
                    assert forall|t: int| 0 <= t < accs.value_seq().len() implies (#[trigger] accs.value_seq()[t]).wf() by {
                        if t < pos {
                            assert(accs.value_seq()[t] == prior_vals[t]);
                        } else if t > pos {
                            assert(accs.value_seq()[t] == prior_vals[t - 1]);
                        }
                    }
                }
            }
        }
        i = i + 1;
    }
    assert(ev.take(entries@.len() as int) =~= ev);
}

/// Fresh accumulators for each of `sources`, in ascending order.
fn transcription_accumulators(sources: &TextSet) -> (map: TextMap<TranscriptionAccumulator>)
    requires
        sources.wf(),
    ensures
        map.wf(),
        map.key_seq() == sources.view_seq(),
        forall|t: int| 0 <= t < map.value_seq().len() ==> (#[trigger] map.value_seq()[t]).wf(),
        all_transcription_totals(map.value_seq()) == Seq::new(
            sources.view_seq().len(),
            |t: int| empty_transcription_totals(),
        ),
{
    let mut map: TextMap<TranscriptionAccumulator> = TextMap::new();
    let n = sources.len();
    proof {
        sources.lemma_sorted();
    }
    let mut i: usize = 0;
    while i < n
        invariant
            sources.wf(),
            strictly_sorted(sources.view_seq()),
            n == sources.view_seq().len(),
            i <= n,
            map.wf(),
            map.key_seq() == sources.view_seq().take(i as int),
            forall|t: int| 0 <= t < map.value_seq().len() ==> (#[trigger] map.value_seq()[t]).wf(),
            all_transcription_totals(map.value_seq()) == Seq::new(i as nat, |t: int| empty_transcription_totals()),
        decreases n - i,
    {
        let name = sources.item_at(i);
        let acc = TranscriptionAccumulator::empty();
        let ghost prior_vals = map.value_seq();
        proof {
            map.lemma_keys_sorted();
            assert(acc.evaluated_documents.members() =~= Set::<Seq<char>>::empty());
            assert(acc.evaluated_timelines.members() =~= Set::<Seq<char>>::empty());
            let ks = map.key_seq();
            assert forall|t: int| 0 <= t < i implies crate::ordered::text_lt(ks[t], name@) by {
                assert(ks[t] == sources.view_seq()[t]);
            }
            if ks.contains(name@) {
                let t = choose|t: int| 0 <= t < ks.len() && ks[t] == name@;
                crate::ordered::lemma_text_lt_trichotomy(name@, name@);
            }
        }
        let len = map.len();
        map.insert_new(len, name.clone(), acc);
        proof {
            assert(map.key_seq() =~= sources.view_seq().take(i + 1));
            assert(map.value_seq() =~= prior_vals.push(acc));
            assert(transcription_totals(acc) == empty_transcription_totals());
            assert forall|t: int| 0 <= t < i + 1 implies all_transcription_totals(map.value_seq())[t] == empty_transcription_totals() by {
                if t < i {
                    assert(map.value_seq()[t] == prior_vals[t]);
                    assert(all_transcription_totals(prior_vals)[t] == empty_transcription_totals());
                }
            }
            assert(all_transcription_totals(map.value_seq()) =~= Seq::new(
                (i + 1) as nat,
                |t: int| empty_transcription_totals(),
            ));
            assert forall|t: int| 0 <= t < map.value_seq().len() implies (#[trigger] map.value_seq()[t]).wf() by {
                if t < i {
                    assert(map.value_seq()[t] == prior_vals[t]);
                }
            }
        }
        i = i + 1;
    }
    assert(sources.view_seq().take(n as int) =~= sources.view_seq());
    map
}

/// Fresh accumulators for each of `sources`, in ascending order.
fn activity_accumulators(sources: &TextSet) -> (map: TextMap<ActivityAccumulator>)
    requires
        sources.wf(),
    ensures
        map.wf(),
        map.key_seq() == sources.view_seq(),
        forall|t: int| 0 <= t < map.value_seq().len() ==> (#[trigger] map.value_seq()[t]).wf(),
        all_activity_totals(map.value_seq()) == Seq::new(sources.view_seq().len(), |t: int| empty_activity_totals()),
{
    let mut map: TextMap<ActivityAccumulator> = TextMap::new();
    let n = sources.len();
    proof {
        sources.lemma_sorted();
    }
    let mut i: usize = 0;
    while i < n
        invariant
            sources.wf(),
            strictly_sorted(sources.view_seq()),
            n == sources.view_seq().len(),
            i <= n,
            map.wf(),
            map.key_seq() == sources.view_seq().take(i as int),
            forall|t: int| 0 <= t < map.value_seq().len() ==> (#[trigger] map.value_seq()[t]).wf(),
            all_activity_totals(map.value_seq()) == Seq::new(i as nat, |t: int| empty_activity_totals()),
        decreases n - i,
    {
        let name = sources.item_at(i);
        let acc = ActivityAccumulator::empty();
        let ghost prior_vals = map.value_seq();
        proof {
            map.lemma_keys_sorted();
            acc.events.lemma_keys_sorted();
            assert(acc.evaluated_documents.members() =~= Set::<Seq<char>>::empty());
            assert(acc.evaluated_timelines.members() =~= Set::<Seq<char>>::empty());
            assert(acc.events.key_seq() =~= Seq::<Seq<char>>::empty());
            assert(event_views(acc.events.value_seq()) =~= Seq::empty());
            let ks = map.key_seq();
            assert forall|t: int| 0 <= t < i implies crate::ordered::text_lt(ks[t], name@) by {
                assert(ks[t] == sources.view_seq()[t]);
            }
            if ks.contains(name@) {
                let t = choose|t: int| 0 <= t < ks.len() && ks[t] == name@;
                crate::ordered::lemma_text_lt_trichotomy(name@, name@);
            }
        }
        let len = map.len();
        map.insert_new(len, name.clone(), acc);
        proof {
            assert(map.key_seq() =~= sources.view_seq().take(i + 1));
            assert(map.value_seq() =~= prior_vals.push(acc));
            assert(activity_totals(acc) == empty_activity_totals());
            assert forall|t: int| 0 <= t < i + 1 implies all_activity_totals(map.value_seq())[t] == empty_activity_totals() by {
                if t < i {
                    assert(map.value_seq()[t] == prior_vals[t]);
                    assert(all_activity_totals(prior_vals)[t] == empty_activity_totals());
                }
            }
            assert(all_activity_totals(map.value_seq()) =~= Seq::new((i + 1) as nat, |t: int| empty_activity_totals()));
            assert forall|t: int| 0 <= t < map.value_seq().len() implies (#[trigger] map.value_seq()[t]).wf() by {
                if t < i {
                    assert(map.value_seq()[t] == prior_vals[t]);
                }
            }
        }
        i = i + 1;
    }
    assert(sources.view_seq().take(n as int) =~= sources.view_seq());
    map
}

/// A copy of a list of strings.
fn copy_strings(v: &[String]) -> (c: Vec<String>)
    ensures
        c@ == v@,
{
    let mut c: Vec<String> = Vec::new();
    let mut i: usize = 0;
    while i < v.len()
        invariant
            i <= v@.len(),
            c@ == v@.take(i as int),
        decreases v@.len() - i,
    {
        c.push(v[i].clone());
        assert(c@ =~= v@.take(i + 1));
        i = i + 1;
    }
    assert(v@.take(v@.len() as int) =~= v@);
    c
}

/// The names of an optional selection.
pub open spec fn selection_view(selection: Option<Vec<String>>) -> Option<Seq<Seq<char>>> {
    match selection {
        Some(names) => Some(texts(names@)),
        None => None,
    }
}

/// The selection in effect for one kind of evaluation: when neither kind is
/// selected every available source of both kinds is scored.
pub open spec fn effective_selection(own: Option<Vec<String>>, other: Option<Vec<String>>) -> Option<Seq<Seq<char>>> {
    if own is None && other is None {
        Some(Seq::empty())
    } else {
        selection_view(own)
    }
}

/// The names a selection pre-creates accumulators for.
pub open spec fn selection_set(selection: Option<Seq<Seq<char>>>) -> Set<Seq<char>> {
    match selection {
        Some(names) => names.to_set(),
        None => Set::empty(),
    }
}

/// Eligible and unannotated timelines, source names and their totals.
pub type TranscriptionState = (Set<Seq<char>>, Set<Seq<char>>, Seq<Seq<char>>, Seq<TranscriptionTotals>);

/// Eligible and unannotated timelines, source names and their totals.
pub type ActivityState = (Set<Seq<char>>, Set<Seq<char>>, Seq<Seq<char>>, Seq<ActivityTotals>);

/// One timeline folded into the transcription state.
pub open spec fn transcription_step(
    st: TranscriptionState,
    selection: Option<Seq<Seq<char>>>,
    audio_id: Seq<char>,
    outcome: TimelineOutcome,
) -> TranscriptionState {
    let key = timeline_key_spec(audio_id, outcome.channel);
    match selection {
        None => st,
        Some(sel) => if !outcome.has_text_reference {
            (st.0, st.1.insert(key), st.2, st.3)
        } else {
            let r = sources_added(
                st.2,
                st.3,
                entry_views(outcome.transcription@),
                sel,
                empty_transcription_totals(),
                |t: TranscriptionTotals, r: TranscriptionEvaluation| transcription_totals_added(t, audio_id, key, r),
            );
            (st.0.insert(key), st.1, r.0, r.1)
        },
    }
}

/// One timeline folded into the activity state.
pub open spec fn activity_step(
    st: ActivityState,
    selection: Option<Seq<Seq<char>>>,
    audio_id: Seq<char>,
    outcome: TimelineOutcome,
) -> ActivityState {
    let key = timeline_key_spec(audio_id, outcome.channel);
    match selection {
        None => st,
        Some(sel) => if !outcome.has_activity_reference {
            (st.0, st.1.insert(key), st.2, st.3)
        } else {
            let r = sources_added(
                st.2,
                st.3,
                entry_views(outcome.activity@),
                sel,
                empty_activity_totals(),
                |t: ActivityTotals, r: ActivityEvaluation| activity_totals_added(t, audio_id, key, r),
            );
            (st.0.insert(key), st.1, r.0, r.1)
        },
    }
}

/// The transcription state after folding timelines in order.
pub open spec fn transcription_folded(
    st: TranscriptionState,
    selection: Option<Seq<Seq<char>>>,
    audio_id: Seq<char>,
    outcomes: Seq<TimelineOutcome>,
) -> TranscriptionState
    decreases outcomes.len(),
{
    if outcomes.len() == 0 {
        st
    } else {
        transcription_step(
            transcription_folded(st, selection, audio_id, outcomes.drop_last()),
            selection,
            audio_id,
            outcomes.last(),
        )
    }
}

/// The activity state after folding timelines in order.
pub open spec fn activity_folded(
    st: ActivityState,
    selection: Option<Seq<Seq<char>>>,
    audio_id: Seq<char>,
    outcomes: Seq<TimelineOutcome>,
) -> ActivityState
    decreases outcomes.len(),
{
    if outcomes.len() == 0 {
        st
    } else {
        activity_step(activity_folded(st, selection, audio_id, outcomes.drop_last()), selection, audio_id, outcomes.last())
    }
}

/// Adding `r` to totals `t` keeps every running total within `usize`.
pub open spec fn totals_fit(t: TranscriptionTotals, r: TranscriptionEvaluation) -> bool {
    &&& t.2.0 + r.stats.substitutions <= usize::MAX
    &&& t.2.1 + r.stats.deletions <= usize::MAX
    &&& t.2.2 + r.stats.insertions <= usize::MAX
    &&& t.2.3 + r.stats.reference_chars <= usize::MAX
    &&& t.3 + r.hypothesis_chars <= usize::MAX
    &&& t.4 + 1 <= usize::MAX
}

/// Folding one timeline into the transcription state keeps every total
/// within `usize`.
pub open spec fn step_room(st: TranscriptionState, selection: Option<Seq<Seq<char>>>, outcome: TimelineOutcome) -> bool {
    selection is Some && outcome.has_text_reference ==> forall|t: int, j: int|
        0 <= t < st.2.len() && 0 <= j < outcome.transcription@.len() && st.2[t] == outcome.transcription@[j].0@
            ==> totals_fit(#[trigger] st.3[t], #[trigger] outcome.transcription@[j].1)
}

/// Folding every timeline in order keeps every total within `usize`.
pub open spec fn room_folded(
    st: TranscriptionState,
    selection: Option<Seq<Seq<char>>>,
    audio_id: Seq<char>,
    outcomes: Seq<TimelineOutcome>,
) -> bool
    decreases outcomes.len(),
{
    outcomes.len() == 0 || (room_folded(st, selection, audio_id, outcomes.drop_last()) && step_room(
        transcription_folded(st, selection, audio_id, outcomes.drop_last()),
        selection,
        outcomes.last(),
    ))
}

proof fn lemma_room_prefix(
    st: TranscriptionState,
    selection: Option<Seq<Seq<char>>>,
    audio_id: Seq<char>,
    outcomes: Seq<TimelineOutcome>,
    k: int,
)
    requires
        room_folded(st, selection, audio_id, outcomes),
        0 <= k <= outcomes.len(),
    ensures
        room_folded(st, selection, audio_id, outcomes.take(k)),
    decreases outcomes.len(),
{
    if k == outcomes.len() {
        assert(outcomes.take(k) =~= outcomes);
    } else {
        assert(outcomes.drop_last().take(k) =~= outcomes.take(k));
        lemma_room_prefix(st, selection, audio_id, outcomes.drop_last(), k);
    }
}

/// Accumulates per-timeline results over a dataset, one document at a time.
pub struct DatasetEvaluator {
    pub config: TimelineEvalConfig,
    pub transcription_selection: Option<Vec<String>>,
    pub activity_selection: Option<Vec<String>>,
    pub documents: usize,
    pub timelines: usize,
    pub transcription_eligible: TextSet,
    pub activity_eligible: TextSet,
    pub transcription_unannotated: TextSet,
    pub activity_unannotated: TextSet,
    pub transcription: TextMap<TranscriptionAccumulator>,
    pub activity: TextMap<ActivityAccumulator>,
}

impl DatasetEvaluator {
    pub open spec fn wf(&self) -> bool {
        &&& self.transcription_eligible.wf()
        &&& self.activity_eligible.wf()
        &&& self.transcription_unannotated.wf()
        &&& self.activity_unannotated.wf()
        &&& self.transcription.wf()
        &&& self.activity.wf()
        &&& forall|t: int|
            0 <= t < self.transcription.value_seq().len() ==> (#[trigger] self.transcription.value_seq()[t]).wf()
        &&& forall|t: int| 0 <= t < self.activity.value_seq().len() ==> (#[trigger] self.activity.value_seq()[t]).wf()
    }

    pub open spec fn transcription_state(&self) -> TranscriptionState {
        (
            self.transcription_eligible.members(),
            self.transcription_unannotated.members(),
            self.transcription.key_seq(),
            all_transcription_totals(self.transcription.value_seq()),
        )
    }

    pub open spec fn activity_state(&self) -> ActivityState {
        (
            self.activity_eligible.members(),
            self.activity_unannotated.members(),
            self.activity.key_seq(),
            all_activity_totals(self.activity.value_seq()),
        )
    }

    /// The configuration and selections are those of `other`.
    pub open spec fn same_settings(&self, other: &DatasetEvaluator) -> bool {
        &&& self.config == other.config
        &&& self.transcription_selection == other.transcription_selection
        &&& self.activity_selection == other.activity_selection
    }

    /// An evaluator with nothing accumulated. Sources named in a selection
    /// get an accumulator up front; when neither kind is selected, every
    /// source met is scored for both kinds.
    pub fn new(config: TimelineEvalConfig) -> (e: Self)
        ensures
            e.wf(),
            e.config == config,
            selection_view(e.transcription_selection) == effective_selection(
                config.transcription_sources,
                config.activity_sources,
            ),
            selection_view(e.activity_selection) == effective_selection(
                config.activity_sources,
                config.transcription_sources,
            ),
            e.documents == 0,
            e.timelines == 0,
            e.transcription_state().0 == Set::<Seq<char>>::empty(),
            e.transcription_state().1 == Set::<Seq<char>>::empty(),
            e.transcription_state().2.to_set() == selection_set(selection_view(e.transcription_selection)),
            strictly_sorted(e.transcription_state().2),
            e.transcription_state().3 == Seq::new(e.transcription_state().2.len(), |t: int| empty_transcription_totals()),
            e.activity_state().0 == Set::<Seq<char>>::empty(),
            e.activity_state().1 == Set::<Seq<char>>::empty(),
            e.activity_state().2.to_set() == selection_set(selection_view(e.activity_selection)),
            strictly_sorted(e.activity_state().2),
            e.activity_state().3 == Seq::new(e.activity_state().2.len(), |t: int| empty_activity_totals()),
            crate::evaluator_laws::transcription_state_ok(e.transcription_state()),
            crate::evaluator_laws::fresh_evaluator(e, config),
    {
        let auto_all = config.transcription_sources.is_none() && config.activity_sources.is_none();
        let transcription_selection = if auto_all {
            Some(Vec::new())
        } else {
            match &config.transcription_sources {
                Some(names) => Some(copy_strings(names.as_slice())),
                None => None,
            }
        };
        let activity_selection = if auto_all {
            Some(Vec::new())
        } else {
            match &config.activity_sources {
                Some(names) => Some(copy_strings(names.as_slice())),
                None => None,
            }
        };
        let transcription_names = match &transcription_selection {
            Some(names) => selected_sources(Some(names.as_slice())),
            None => selected_sources(None),
        };
        let activity_names = match &activity_selection {
            Some(names) => selected_sources(Some(names.as_slice())),
            None => selected_sources(None),
        };
        let transcription = transcription_accumulators(&transcription_names);
        let activity = activity_accumulators(&activity_names);
        let e = DatasetEvaluator {
            config,
            transcription_selection,
            activity_selection,
            documents: 0,
            timelines: 0,
            transcription_eligible: TextSet::new(),
            activity_eligible: TextSet::new(),
            transcription_unannotated: TextSet::new(),
            activity_unannotated: TextSet::new(),
            transcription,
            activity,
        };
        proof {
            transcription_names.lemma_sorted();
            activity_names.lemma_sorted();
            assert(e.transcription_eligible.members() =~= Set::<Seq<char>>::empty());
            assert(e.transcription_unannotated.members() =~= Set::<Seq<char>>::empty());
            assert(e.activity_eligible.members() =~= Set::<Seq<char>>::empty());
            assert(e.activity_unannotated.members() =~= Set::<Seq<char>>::empty());
            if auto_all {
                assert(texts(Seq::<String>::empty()) =~= Seq::<Seq<char>>::empty());
            }
            let st = e.transcription_state();
            assert forall|t: int| 0 <= t < st.3.len() implies (#[trigger] st.3[t]).1.subset_of(st.0) by {
                assert(st.3[t] == empty_transcription_totals());
            }
        }
        e
    }
}

impl DatasetEvaluator {
    /// Whether folding `outcome` into the transcription totals keeps every
    /// total within `usize`.
    pub fn has_room(&self, outcome: &TimelineOutcome) -> (room: bool)
        requires
            self.wf(),
        ensures
            room == step_room(self.transcription_state(), selection_view(self.transcription_selection), *outcome),
    {
        if self.transcription_selection.is_none() || !outcome.has_text_reference {
            return true;
        }
        let ghost st = self.transcription_state();
        let mut j: usize = 0;
        while j < outcome.transcription.len()
            invariant
                self.wf(),
                st == self.transcription_state(),
                self.transcription_selection is Some,
                outcome.has_text_reference,
                j <= outcome.transcription@.len(),
                forall|t: int, k: int|
                    0 <= t < st.2.len() && 0 <= k < j && st.2[t] == outcome.transcription@[k].0@ ==> totals_fit(
                        #[trigger] st.3[t],
                        #[trigger] outcome.transcription@[k].1,
                    ),
            decreases outcome.transcription@.len() - j,
        {
            let name = &outcome.transcription[j].0;
            let r = &outcome.transcription[j].1;
            let (found, pos) = self.transcription.find(name.as_str());
            proof {
                self.transcription.lemma_keys_sorted();
            }
            if found {
                let acc = self.transcription.value_at(pos);
                let fits = acc.stats.substitutions <= usize::MAX - r.stats.substitutions
                    && acc.stats.deletions <= usize::MAX - r.stats.deletions
                    && acc.stats.insertions <= usize::MAX - r.stats.insertions
                    && acc.stats.reference_chars <= usize::MAX - r.stats.reference_chars
                    && acc.hypothesis_chars <= usize::MAX - r.hypothesis_chars
                    && acc.exact_matches < usize::MAX;
                assert(st.3[pos as int] == transcription_totals(*acc));
                if !fits {
                    proof {
                        assert(st.2[pos as int] == outcome.transcription@[j as int].0@);
                        assert(!totals_fit(st.3[pos as int], outcome.transcription@[j as int].1));
                        assert(selection_view(self.transcription_selection) is Some);
                        assert(outcome.has_text_reference);
                        assert(0 <= pos < st.2.len());
                        assert(!step_room(st, selection_view(self.transcription_selection), *outcome));
                    }
                    return false;
                }
                proof {
                    self.transcription.lemma_keys_sorted();
                    assert forall|t: int| 0 <= t < st.2.len() && st.2[t] == name@ implies t == pos by {
                        if t != pos {
                            lemma_key_slot_unique(st.2, name@, true, t, true, pos as int);
                        }
                    }
                }
            }
            j = j + 1;
        }
        true
    }

    /// Folds one timeline of document `audio_id` into the accumulators.
    pub fn push_timeline(&mut self, audio_id: &str, outcome: &TimelineOutcome)
        requires
            old(self).wf(),
            outcome.wf(),
            old(self).timelines < usize::MAX,
            step_room(old(self).transcription_state(), selection_view(old(self).transcription_selection), *outcome),
        ensures
            final(self).wf(),
            final(self).same_settings(&*old(self)),
            final(self).documents == old(self).documents,
            final(self).timelines == old(self).timelines + 1,
            final(self).transcription_state() == transcription_step(
                old(self).transcription_state(),
                selection_view(old(self).transcription_selection),
                audio_id@,
                *outcome,
            ),
            final(self).activity_state() == activity_step(
                old(self).activity_state(),
                selection_view(old(self).activity_selection),
                audio_id@,
                *outcome,
            ),
    {
        self.timelines = self.timelines + 1;
        let key = timeline_key(audio_id, outcome.channel);
        match &self.transcription_selection {
            None => {},
            Some(selection) => {
                if !outcome.has_text_reference {
                    self.transcription_unannotated.insert(key.clone());
                } else {
                    self.transcription_eligible.insert(key.clone());
                    proof {
                        self.transcription.lemma_keys_sorted();
                        let st = old(self).transcription_state();
                        let ev = entry_views(outcome.transcription@);
                        assert forall|t: int, j: int|
                            0 <= t < st.2.len() && 0 <= j < ev.len() && st.2[t] == ev[j].0
                            implies (#[trigger] self.transcription.value_seq()[t]).can_add(#[trigger] ev[j].1) by {
                            assert(ev[j] == (outcome.transcription@[j].0@, outcome.transcription@[j].1));
                            assert(st.3[t] == transcription_totals(self.transcription.value_seq()[t]));
                        }
                    }
                    add_transcriptions(
                        &mut self.transcription,
                        selection.as_slice(),
                        audio_id,
                        key.as_str(),
                        outcome.transcription.as_slice(),
                    );
                }
            },
        }
        match &self.activity_selection {
            None => {},
            Some(selection) => {
                if !outcome.has_activity_reference {
                    self.activity_unannotated.insert(key.clone());
                } else {
                    self.activity_eligible.insert(key.clone());
                    add_activities(
                        &mut self.activity,
                        selection.as_slice(),
                        audio_id,
                        key.as_str(),
                        outcome.activity.as_slice(),
                    );
                }
            },
        }
    }

    /// Folds every timeline of document `audio_id` into the accumulators and
    /// counts the document.
    pub fn push(&mut self, audio_id: &str, timelines: &[TimelineOutcome])
        requires
            old(self).wf(),
            forall|i: int| 0 <= i < timelines@.len() ==> (#[trigger] timelines@[i]).wf(),
            old(self).documents < usize::MAX,
            old(self).timelines + timelines@.len() <= usize::MAX,
            room_folded(
                old(self).transcription_state(),
                selection_view(old(self).transcription_selection),
                audio_id@,
                timelines@,
            ),
        ensures
            final(self).wf(),
            final(self).same_settings(&*old(self)),
            final(self).documents == old(self).documents + 1,
            final(self).timelines == old(self).timelines + timelines@.len(),
            final(self).transcription_state() == transcription_folded(
                old(self).transcription_state(),
                selection_view(old(self).transcription_selection),
                audio_id@,
                timelines@,
            ),
            final(self).activity_state() == activity_folded(
                old(self).activity_state(),
                selection_view(old(self).activity_selection),
                audio_id@,
                timelines@,
            ),
            crate::evaluator_laws::pushed_into(*old(self), *final(self), audio_id@, timelines@),
            crate::evaluator_laws::transcription_state_ok(old(self).transcription_state())
                ==> crate::evaluator_laws::transcription_state_ok(final(self).transcription_state()),
            crate::evaluator_laws::transcription_state_ok(old(self).transcription_state()) ==> (selection_view(
                old(self).transcription_selection,
            ) matches Some(sel) ==> (sel.len() > 0 && old(self).transcription_state().2.to_set() == sel.to_set()
                ==> final(self).transcription_state().2.to_set() == sel.to_set())),
    {
        self.documents = self.documents + 1;
        let ghost t0 = self.transcription_state();
        let ghost a0 = self.activity_state();
        let ghost tsel = selection_view(self.transcription_selection);
        let ghost asel = selection_view(self.activity_selection);
        let ghost start = *self;
        let mut i: usize = 0;
        while i < timelines.len()
            invariant
                self.wf(),
                self.same_settings(&start),
                tsel == selection_view(self.transcription_selection),
                asel == selection_view(self.activity_selection),
                forall|k: int| 0 <= k < timelines@.len() ==> (#[trigger] timelines@[k]).wf(),
                i <= timelines@.len(),
                self.documents == start.documents,
                self.timelines == start.timelines + i,
                start.timelines + timelines@.len() <= usize::MAX,
                room_folded(t0, tsel, audio_id@, timelines@),
                self.transcription_state() == transcription_folded(t0, tsel, audio_id@, timelines@.take(i as int)),
                self.activity_state() == activity_folded(a0, asel, audio_id@, timelines@.take(i as int)),
            decreases timelines@.len() - i,
        {
            proof {
                lemma_room_prefix(t0, tsel, audio_id@, timelines@, i + 1);
                assert(timelines@.take(i + 1).drop_last() =~= timelines@.take(i as int));
                assert(timelines@.take(i + 1).last() == timelines@[i as int]);
            }
            self.push_timeline(audio_id, &timelines[i]);
            i = i + 1;
        }
        assert(timelines@.take(timelines@.len() as int) =~= timelines@);
        proof {
            if crate::evaluator_laws::transcription_state_ok(t0) {
                crate::evaluator_laws::lemma_transcription_folded_ok(t0, tsel, audio_id@, timelines@);
            }
        }
    }
}

/// The first transcription source that never matched an eligible timeline.
pub open spec fn transcription_missing(accs: &TextMap<TranscriptionAccumulator>, eligible: &TextSet) -> Option<int> {
    if eligible.view_seq().len() > 0 {
        first_unevaluated(transcription_timeline_counts(accs.value_seq()))
    } else {
        None
    }
}

/// The first activity source that never matched an eligible timeline.
pub open spec fn activity_missing(accs: &TextMap<ActivityAccumulator>, eligible: &TextSet) -> Option<int> {
    if eligible.view_seq().len() > 0 {
        first_unevaluated(activity_timeline_counts(accs.value_seq()))
    } else {
        None
    }
}

/// The per-source transcription summaries of a finished evaluation.
pub open spec fn transcription_finished(
    accs: &TextMap<TranscriptionAccumulator>,
    eligible: &TextSet,
    unannotated: &TextSet,
    normalization: crate::evaluation::TranscriptionNormalization,
    v: Seq<(String, crate::evaluation::DatasetTranscriptionEvaluation)>,
) -> bool {
    &&& eligible.view_seq().len() == 0 ==> v.len() == 0
    &&& eligible.view_seq().len() > 0 ==> v.len() == accs.key_seq().len() && forall|i: int| #![trigger v[i]]
        0 <= i < v.len() ==> v[i].0@ == accs.key_seq()[i] && transcription_summary(
            accs.key_seq()[i],
            accs.value_seq()[i],
            eligible,
            unannotated,
            normalization,
            v[i].1,
        )
}

/// The per-source activity summaries of a finished evaluation.
pub open spec fn activity_finished(
    accs: &TextMap<ActivityAccumulator>,
    eligible: &TextSet,
    unannotated: &TextSet,
    v: Seq<(String, crate::evaluation::DatasetActivityEvaluation)>,
) -> bool {
    &&& eligible.view_seq().len() == 0 ==> v.len() == 0
    &&& eligible.view_seq().len() > 0 ==> v.len() == accs.key_seq().len() && forall|i: int| #![trigger v[i]]
        0 <= i < v.len() ==> v[i].0@ == accs.key_seq()[i] && activity_summary(
            accs.key_seq()[i],
            accs.value_seq()[i],
            eligible,
            unannotated,
            v[i].1,
        )
}

/// What finishing evaluator `ev` gives: the first transcription, then
/// activity, source that never met an eligible timeline as an error; no
/// summary of either kind as an error; otherwise the counts and summaries.
pub open spec fn finish_result(ev: DatasetEvaluator, result: Result<DatasetEvaluation, DatasetEvalError>) -> bool {
    match transcription_missing(&ev.transcription, &ev.transcription_eligible) {
        Some(i) => (result matches Err(DatasetEvalError::MissingPrediction { kind, prediction_source })
            && kind == crate::evaluation::EvaluationKind::Transcription
            && prediction_source@ == ev.transcription.key_seq()[i]),
        None => match activity_missing(&ev.activity, &ev.activity_eligible) {
            Some(i) => (result matches Err(DatasetEvalError::MissingPrediction { kind, prediction_source })
                && kind == crate::evaluation::EvaluationKind::Activity
                && prediction_source@ == ev.activity.key_seq()[i]),
            None => if (ev.transcription_eligible.view_seq().len() == 0 || ev.transcription.key_seq().len()
                == 0) && (ev.activity_eligible.view_seq().len() == 0 || ev.activity.key_seq().len() == 0) {
                result matches Err(DatasetEvalError::NoEvaluableAnnotations)
            } else {
                (result matches Ok(e) && e.documents == ev.documents && e.timelines == ev.timelines
                    && transcription_finished(
                    &ev.transcription,
                    &ev.transcription_eligible,
                    &ev.transcription_unannotated,
                    ev.config.transcription_normalization,
                    e.transcription@,
                ) && activity_finished(
                    &ev.activity,
                    &ev.activity_eligible,
                    &ev.activity_unannotated,
                    e.activity@,
                ))
            },
        },
    }
}

impl DatasetEvaluator {
    /// Reduces the accumulators to per-source summaries. A selected source
    /// that never met an eligible timeline is an error (transcription checked
    /// first); so is a dataset with no summary of either kind.
    pub fn finish(self) -> (result: Result<DatasetEvaluation, DatasetEvalError>)
        requires
            self.wf(),
        ensures
            finish_result(self, result),

    {
        let transcription = match finish_transcription(
            &self.transcription,
            &self.transcription_eligible,
            &self.transcription_unannotated,
            self.config.transcription_normalization,
        ) {
            Ok(v) => v,
            Err(e) => {
                return Err(e);
            },
        };
        let activity = match finish_activity(&self.activity, &self.activity_eligible, &self.activity_unannotated) {
            Ok(v) => v,
            Err(e) => {
                return Err(e);
            },
        };
        if transcription.len() == 0 && activity.len() == 0 {
            return Err(DatasetEvalError::NoEvaluableAnnotations);
        }
        Ok(DatasetEvaluation { documents: self.documents, timelines: self.timelines, transcription, activity })
    }
}

} // verus!
