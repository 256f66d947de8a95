use native_core::codec::{CodecError, ComposerModule, ModuleTag};

fn empty_module() -> ComposerModule {
    // magic plus a zero section length parses to a module with no pairs
    let bytes = vec![0x33, 0xC6, 0x00, 0x01, 0, 0, 0, 0];
    ComposerModule::parse(bytes).unwrap()
}

fn module_from(pairs: Vec<(ModuleTag, ModuleTag)>) -> ComposerModule {
    let mut m = empty_module();
    m.set_tags(pairs);
    m
}

#[test]
fn round_trip_every_padding_remainder() {
    // payload sizes 0, 1, 3, 4 and 5 cover every alignment remainder
    let payloads: Vec<Vec<u8>> = vec![
        vec![],
        vec![1],
        vec![1, 2, 3],
        vec![1, 2, 3, 4],
        vec![1, 2, 3, 4, 5],
    ];
    let mut pairs = Vec::new();
    for (i, p) in payloads.iter().enumerate() {
        pairs.push((
            ModuleTag::new(i as u8, p.clone()),
            ModuleTag::new(0x80, vec![0xEE; i]),
        ));
    }
    let m = module_from(pairs);
    let bytes = m.to_bytes();
    let back = ComposerModule::parse(bytes).unwrap();
    let orig = m.get_tags();
    let reread = back.get_tags();
    assert_eq!(orig.len(), reread.len());
    for ((a1, a2), (b1, b2)) in orig.iter().zip(reread.iter()) {
        assert_eq!(a1.get_tag_type(), b1.get_tag_type());
        assert_eq!(a1.get_buffer(), b1.get_buffer());
        assert_eq!(a2.get_tag_type(), b2.get_tag_type());
        assert_eq!(a2.get_buffer(), b2.get_buffer());
    }
}

#[test]
fn exact_serialized_layout() {
    let pairs = vec![(
        ModuleTag::new(0x01, vec![0xAB]),
        ModuleTag::new(0x02, vec![]),
    )];
    let m = module_from(pairs);
    let bytes = m.to_bytes();
    assert_eq!(
        bytes,
        vec![
            0x33, 0xC6, 0x00, 0x01, // magic
            0x0C, 0x00, 0x00, 0x00, // section length 12, little endian
            0x01, 0x00, 0x00, // tag 1 length 1, little endian, 24 bits
            0x01, // tag 1 type
            0xAB, // payload
            0x00, 0x00, 0x00, // padding to 4 bytes
            0x00, 0x00, 0x00, // tag 2 length 0
            0x02, // tag 2 type
        ]
    );
}

#[test]
fn wrong_version_magic_is_rejected_with_no_tags() {
    let bytes = vec![0x33, 0xC6, 0x00, 0x02, 0, 0, 0, 0];
    match ComposerModule::parse(bytes) {
        Err(CodecError::InvalidMagic) => {}
        other => panic!("expected an invalid magic error, got {:?}", other),
    }
}

#[test]
fn short_stream_is_rejected() {
    assert!(matches!(
        ComposerModule::parse(vec![0x33, 0xC6]),
        Err(CodecError::InvalidMagic)
    ));
}

#[test]
fn magic_only_stream_parses_empty() {
    // the declared length is read but never cross-checked; a stream that
    // ends right after it holds no tags
    let m = ComposerModule::parse(vec![0x33, 0xC6, 0x00, 0x01, 0xFF, 0xFF, 0xFF, 0xFF]).unwrap();
    assert_eq!(m.get_tags().len(), 0);
}

#[test]
fn truncated_tag_is_rejected() {
    // header declares 5 payload bytes but only 2 follow
    let bytes = vec![
        0x33, 0xC6, 0x00, 0x01, 0, 0, 0, 0, 0x05, 0x00, 0x00, 0x01, 0xAA, 0xBB,
    ];
    assert!(matches!(
        ComposerModule::parse(bytes),
        Err(CodecError::TruncatedTag)
    ));
}

#[test]
fn truncated_header_is_rejected() {
    let bytes = vec![0x33, 0xC6, 0x00, 0x01, 0, 0, 0, 0, 0x05, 0x00];
    assert!(matches!(
        ComposerModule::parse(bytes),
        Err(CodecError::TruncatedTag)
    ));
}

#[test]
fn odd_tag_count_is_rejected() {
    // a single zero-length tag cannot be paired
    let bytes = vec![0x33, 0xC6, 0x00, 0x01, 0, 0, 0, 0, 0x00, 0x00, 0x00, 0x07];
    assert!(matches!(
        ComposerModule::parse(bytes),
        Err(CodecError::OddTagCount)
    ));
}

#[test]
fn final_padding_may_be_cut_short() {
    // two zero-padding bytes of the last tag are missing; the stream still
    // parses, as padding is skipped, not read
    let bytes = vec![
        0x33, 0xC6, 0x00, 0x01, 0, 0, 0, 0, // header
        0x00, 0x00, 0x00, 0x01, // first tag, empty
        0x01, 0x00, 0x00, 0x02, 0xAA, 0x00, // second tag, one byte, one pad byte
    ];
    let m = ComposerModule::parse(bytes).unwrap();
    let tags = m.get_tags();
    assert_eq!(tags.len(), 1);
    assert_eq!(tags[0].1.get_buffer(), &vec![0xAA]);
}

#[test]
fn tag_text_decoding() {
    let tag = ModuleTag::new(0x80, b"hello".to_vec());
    assert_eq!(tag.to_string().unwrap(), "hello");
    let bad = ModuleTag::new(0x80, vec![0xFF, 0xFE]);
    assert!(bad.to_string().is_none());
}

#[test]
fn tag_accessors() {
    let mut tag = ModuleTag::new(0x42, vec![1, 2, 3]);
    assert_eq!(tag.get_tag_type(), 0x42);
    assert_eq!(tag.get_size(), 3);
    assert_eq!(tag.get_buffer(), &vec![1, 2, 3]);
    tag.set_buffer(vec![9]);
    assert_eq!(tag.get_size(), 1);
    assert_eq!(tag.get_buffer(), &vec![9]);
    assert_eq!(tag.get_tag_type(), 0x42);
}

#[test]
fn largest_declared_payload_round_trips() {
    // the 24-bit length field's largest value
    let big = vec![0x5A_u8; 0xFF_FFFF];
    let pairs = vec![(
        ModuleTag::new(0x01, big.clone()),
        ModuleTag::new(0x02, vec![7]),
    )];
    let m = module_from(pairs);
    let bytes = m.to_bytes();
    let back = ComposerModule::parse(bytes).unwrap();
    let tags = back.get_tags();
    assert_eq!(tags.len(), 1);
    assert_eq!(tags[0].0.get_size(), 0xFF_FFFF);
    assert_eq!(tags[0].0.get_buffer(), &big);
    assert_eq!(tags[0].1.get_buffer(), &vec![7]);
}
