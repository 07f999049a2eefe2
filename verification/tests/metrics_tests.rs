use asr_data::assignment::maximum_weight_assignment;
use asr_data::optimum::dual_certifies;
use asr_data::speaker::{evaluate_speakers, SpeakerSpan};

fn turn(label: &str, start_ms: u64, end_ms: u64) -> SpeakerSpan {
    SpeakerSpan { label: label.to_string(), start_ms, end_ms }
}

#[test]
fn assignment_takes_the_heaviest_pairing() {
    assert_eq!(maximum_weight_assignment(&[vec![1, 5], vec![4, 2]]), 9);
    assert_eq!(maximum_weight_assignment(&[vec![3, 1, 7]]), 7);
    assert_eq!(maximum_weight_assignment(&[]), 0);
}

#[test]
fn speaker_stats_count_missed_and_matched_time() {
    let reference = [turn("A", 0, 1000), turn("B", 1000, 2000)];
    let prediction = [turn("X", 0, 1000), turn("Y", 1000, 1500)];
    let stats = evaluate_speakers(&reference, &prediction);
    assert_eq!(stats.reference_speaker_ms, 2000);
    assert_eq!(stats.predicted_speaker_ms, 1500);
    assert_eq!(stats.missed_speaker_ms, 500);
    assert_eq!(stats.false_alarm_ms, 0);
    assert_eq!(stats.correct_speaker_ms, 1500);
    assert_eq!(stats.speaker_confusion_ms, 0);
}

#[test]
fn swapped_labels_are_confusion_free_but_a_wrong_speaker_is_not() {
    let reference = [turn("A", 0, 1000), turn("A", 1000, 2000)];
    let prediction = [turn("X", 0, 1000), turn("Y", 1000, 2000)];
    let stats = evaluate_speakers(&reference, &prediction);
    assert_eq!(stats.correct_speaker_ms, 1000);
    assert_eq!(stats.speaker_confusion_ms, 1000);
}

#[test]
fn assignment_beats_the_greedy_choice() {
    // Taking the largest entry first (3) would leave only 0.
    assert_eq!(maximum_weight_assignment(&[vec![3, 2], vec![3, 0]]), 5);
    assert_eq!(maximum_weight_assignment(&[vec![4, 1], vec![3, 0], vec![5, 4]]), 8);
    assert_eq!(maximum_weight_assignment(&[vec![], vec![]]), 0);
    assert_eq!(maximum_weight_assignment(&[vec![u64::MAX], vec![u64::MAX]]), u64::MAX);
}

#[test]
fn speakers_pair_by_largest_total_overlap() {
    let reference = [turn("A", 0, 3000), turn("B", 3000, 5000)];
    let prediction = [turn("X", 0, 2000), turn("Y", 2000, 5000)];
    let stats = evaluate_speakers(&reference, &prediction);
    // A-X (2000) with B-Y (2000) beats A-Y (1000) alone.
    assert_eq!(stats.correct_speaker_ms, 4000);
    assert_eq!(stats.speaker_confusion_ms, 1000);
}

#[test]
fn assignment_of_a_wide_matrix_finds_the_hidden_permutation() {
    let size: usize = 14;
    let weights: Vec<Vec<u64>> = (0..size)
        .map(|i| {
            (0..size)
                .map(|j| if j == (i * 5) % size { 100 } else { ((i + j) % 7) as u64 })
                .collect()
        })
        .collect();
    assert_eq!(maximum_weight_assignment(&weights), 1400);
}

#[test]
fn dual_check_accepts_only_bounding_potentials() {
    let weights = [vec![1, 5], vec![4, 2]];
    // Row values 5 - u[i] = (5, 4), column values -v[j] = (0, 0): they bound
    // every entry and total 9, the weight of the best assignment.
    assert!(dual_certifies(&weights, &vec![0, 0, 1], &vec![0, 0, 0], 5, 2, 9));
    assert!(dual_certifies(&weights, &vec![0, 0, 1], &vec![0, 0, 0], 5, 2, 10));
    assert!(!dual_certifies(&weights, &vec![0, 0, 1], &vec![0, 0, 0], 5, 2, 8));
    // A row value of 3 no longer bounds the entry 4.
    assert!(!dual_certifies(&weights, &vec![0, 0, 2], &vec![0, 0, 0], 5, 2, 9));
    // A column value that does not fit an i128 fails the check.
    assert!(!dual_certifies(&weights, &vec![0, 0, 1], &vec![0, i128::MIN, 0], 5, 2, 9));
}

#[test]
fn speaker_times_add_up() {
    let reference = [turn("A", 0, 3000), turn("B", 3000, 5000), turn("C", 5000, 6000)];
    let prediction = [turn("X", 0, 2000), turn("Y", 2000, 5000), turn("Z", 7000, 8000)];
    let s = evaluate_speakers(&reference, &prediction);
    assert_eq!(s.reference_speaker_ms, s.missed_speaker_ms + s.correct_speaker_ms + s.speaker_confusion_ms);
    assert_eq!(s.predicted_speaker_ms, s.false_alarm_ms + s.correct_speaker_ms + s.speaker_confusion_ms);
    assert_eq!((s.missed_speaker_ms, s.false_alarm_ms), (1000, 1000));
}
