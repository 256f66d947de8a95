use native_core::pattern::{parse_pattern, scan_all, scan_first, PatToken};

#[test]
fn parses_plain_pattern() {
    let toks = parse_pattern("AA BB ? CC").unwrap();
    assert_eq!(
        toks,
        vec![
            PatToken::Byte(0xAA),
            PatToken::Byte(0xBB),
            PatToken::Wild,
            PatToken::Byte(0xCC)
        ]
    );
}

#[test]
fn parses_lowercase_and_mixed_hex() {
    let toks = parse_pattern("aa 0f E7").unwrap();
    assert_eq!(
        toks,
        vec![PatToken::Byte(0xAA), PatToken::Byte(0x0F), PatToken::Byte(0xE7)]
    );
}

#[test]
fn parses_single_tokens() {
    assert_eq!(parse_pattern("?").unwrap(), vec![PatToken::Wild]);
    assert_eq!(parse_pattern("7f").unwrap(), vec![PatToken::Byte(0x7F)]);
}

#[test]
fn rejects_double_question_mark() {
    // the wildcard token must be exactly `?`, not `??`
    assert!(parse_pattern("AA BB ?? CC").is_err());
}

#[test]
fn rejects_malformed_patterns() {
    assert!(parse_pattern("").is_err());
    assert!(parse_pattern("A").is_err());
    assert!(parse_pattern("AAB").is_err());
    assert!(parse_pattern("AA ").is_err());
    assert!(parse_pattern(" AA").is_err());
    assert!(parse_pattern("AA  BB").is_err());
    assert!(parse_pattern("GG").is_err());
    assert!(parse_pattern("AA B? CC").is_err());
}

#[test]
fn finds_single_occurrence_at_correct_offset() {
    let toks = parse_pattern("DE AD BE EF").unwrap();
    let data = vec![0u8, 1, 2, 0xDE, 0xAD, 0xBE, 0xEF, 9, 9];
    assert_eq!(scan_first(&data, &toks), Some(3));
    assert_eq!(scan_all(&data, &toks), vec![3]);
}

#[test]
fn finds_nothing_when_absent() {
    let toks = parse_pattern("DE AD").unwrap();
    let data = vec![0u8, 1, 2, 3, 4, 5];
    assert_eq!(scan_first(&data, &toks), None);
    assert_eq!(scan_all(&data, &toks), Vec::<usize>::new());
}

#[test]
fn wildcards_match_any_byte_value() {
    let toks = parse_pattern("10 ? 30").unwrap();
    let a = vec![0x10u8, 0x00, 0x30];
    let b = vec![0x10u8, 0xFF, 0x30];
    assert_eq!(scan_first(&a, &toks), Some(0));
    assert_eq!(scan_first(&b, &toks), Some(0));
}

#[test]
fn finds_all_matches_in_order() {
    let toks = parse_pattern("01 ?").unwrap();
    let data = vec![0x01u8, 0x02, 0x01, 0x03, 0x00, 0x01, 0x04];
    assert_eq!(scan_all(&data, &toks), vec![0, 2, 5]);
}

#[test]
fn match_must_fit_inside_buffer() {
    let toks = parse_pattern("01 02").unwrap();
    let data = vec![0x00u8, 0x01];
    assert_eq!(scan_first(&data, &toks), None);
}
