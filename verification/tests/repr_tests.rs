use asr_data::repr::{summarize_url, truncate};

#[test]
fn url_summary_keeps_both_ends_and_hides_query_values() {
    let value = "https://audio.example.com/a/very/long/path/session_123456789.wav?token=secret";
    let summary = summarize_url(value, 48);

    assert_eq!(summary.chars().count(), 48);
    assert!(summary.starts_with("https://audio.example"));
    assert!(summary.ends_with("session_123456789.wav?…"));
    assert!(!summary.contains("secret"));
}

#[test]
fn short_url_is_left_unchanged() {
    assert_eq!(
        summarize_url("https://example.com/audio.wav", 72),
        "https://example.com/audio.wav"
    );
}

#[test]
fn truncation_keeps_short_text() {
    assert_eq!(truncate("abc", 5), "abc");
    assert_eq!(truncate("abcdef", 4).chars().count(), 4);
}
