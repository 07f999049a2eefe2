use asr_data::tn::{fst_output, parse_tagged_tokens, remove_en, reorder_zh_tn_tokens, TextNormalizationError};

#[test]
fn reorders_chinese_tn_token_fields() {
    let tagged = r#"date { day: "15" year: "2024" month: "1" }"#;
    assert_eq!(
        reorder_zh_tn_tokens(tagged).unwrap(),
        r#"date { year: "2024" month: "1" day: "15" }"#
    );
}

#[test]
fn leaves_plain_text_unchanged() {
    assert_eq!(reorder_zh_tn_tokens("普通文本").unwrap(), "普通文本");
}

#[test]
fn unterminated_token_is_a_parse_error() {
    assert!(matches!(
        parse_tagged_tokens(r#"date { day: "15" "#),
        Err(TextNormalizationError::TokenParse(_))
    ));
}

#[test]
fn fst_labels_become_characters() {
    assert_eq!(fst_output(&[0x4f60, 0x597d]).unwrap(), "你好");
}

#[test]
fn filler_en_is_removed() {
    assert_eq!(remove_en("嗯你嗯好"), "你好");
}
