use asr_data::cer::{compute_cer, normalize_for_cer, CerStats};

#[test]
fn cer_formula_matches_edit_counts() {
    let stats = compute_cer("kitten", "sitting");
    assert_eq!(
        stats,
        CerStats {
            substitutions: 2,
            deletions: 0,
            insertions: 1,
            reference_chars: 6,
        }
    );
    let cer = stats.edits() as f64 / stats.reference_chars as f64;
    assert!((cer - 0.5).abs() < f64::EPSILON);
}

#[test]
fn cer_handles_chinese_characters() {
    let stats = compute_cer("你好世界", "你好世");
    assert_eq!(
        stats,
        CerStats {
            substitutions: 0,
            deletions: 1,
            insertions: 0,
            reference_chars: 4,
        }
    );
    let cer = stats.edits() as f64 / stats.reference_chars as f64;
    assert!((cer - 0.25).abs() < f64::EPSILON);
}

#[test]
fn normalize_for_cer_strips_whitespace_by_default() {
    let normalized = normalize_for_cer("你 好\n世界", true);
    assert_eq!(normalized, "你好世界");
}

#[test]
fn normalize_for_cer_strips_punctuation() {
    let normalized = normalize_for_cer("你好，世界！How are you?", true);
    assert_eq!(normalized, "你好世界Howareyou");
}

#[test]
fn normalizing_keeps_spaces_when_asked() {
    assert_eq!(normalize_for_cer("a b, c", false), "a b c");
}

#[test]
fn normalizing_twice_changes_nothing() {
    let once = normalize_for_cer("Hi, there!  你好。", true);
    assert_eq!(normalize_for_cer(&once, true), once);
}

#[test]
fn edit_distance_is_symmetric_and_zero_on_equal_texts() {
    assert_eq!(compute_cer("abc", "abd").edits(), compute_cer("abd", "abc").edits());
    assert_eq!(compute_cer("same", "same").edits(), 0);
    assert_eq!(compute_cer("", "abc"), CerStats { substitutions: 0, deletions: 0, insertions: 3, reference_chars: 0 });
    assert_eq!(compute_cer("abc", ""), CerStats { substitutions: 0, deletions: 3, insertions: 0, reference_chars: 3 });
}
