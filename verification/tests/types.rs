use cursor_chat_cleanup::progress::{Cancelled, Progress};
use cursor_chat_cleanup::types::{
    hex_decode, hex_decode_into, hex_encode, BlobHex, ComposerId, IdError, LiveSet,
};

#[test]
fn composer_id_contract() {
    assert!(ComposerId::parse("").is_err());
    assert!(ComposerId::parse("has:colon").is_err());
    assert!(ComposerId::parse("中文").is_err());
    let id = ComposerId::parse("task-abc-123").unwrap();
    assert_eq!(id.short(), "task-abc");
}

#[test]
fn blob_hex_normalizes_once() {
    assert_eq!(BlobHex::parse(" AABB ").unwrap().as_str(), "aabb");
    assert!(BlobHex::parse("  ").is_none());
    assert_eq!(BlobHex::from_bytes(&[0xAB, 0x01]).as_str(), "ab01");

    let mut buf = [0u8; 128];
    assert_eq!(BlobHex::encode_view(&[0xAB, 0x01], &mut buf), Some("ab01"));
    assert_eq!(BlobHex::encode_view(&[0u8; 65], &mut buf), None);
}

#[test]
fn id_errors_name_their_reason() {
    let e = ComposerId::parse("").unwrap_err();
    assert!(matches!(e, IdError::Empty));
    assert_eq!(e.message(), "id 为空");
    let e = ComposerId::parse("a:b").unwrap_err();
    assert!(matches!(&e, IdError::InvalidChars { raw } if raw == "a:b"));
    assert_eq!(e.message(), "id 含非法字符(需 ASCII 且不含 ':'): a:b");
    let e = IdError::TooShort { raw: "abc".to_owned(), min: 6 };
    assert_eq!(e.message(), "id 太短(至少 6 位): abc");
}

#[test]
fn short_ids_are_shown_whole() {
    assert_eq!(ComposerId::parse("abc").unwrap().short(), "abc");
    assert_eq!(ComposerId::parse("abc").unwrap().as_str(), "abc");
}

#[test]
fn live_set_holds_each_id_once() {
    let ids = vec![
        ComposerId::parse("a1").unwrap(),
        ComposerId::parse("b2").unwrap(),
        ComposerId::parse("a1").unwrap(),
    ];
    let live = LiveSet::from_ids(ids);
    assert!(live.contains("a1"));
    assert!(live.contains("b2"));
    assert!(!live.contains("c3"));
    assert!(!live.is_empty());
    assert_eq!(live.iter().len(), 2);
    assert!(LiveSet::default().is_empty());
}

#[test]
fn hex_goes_both_ways() {
    assert_eq!(hex_encode(&[0x00, 0xfe, 0x7f]), "00fe7f");
    assert_eq!(hex_decode("00fe7f"), Some(vec![0x00, 0xfe, 0x7f]));
    assert_eq!(hex_decode(" 00FE7F\n"), Some(vec![0x00, 0xfe, 0x7f]));
    assert_eq!(hex_decode("abc"), None);
    assert_eq!(hex_decode("zz"), None);
    assert_eq!(hex_decode(hex_encode(&[1, 2, 3, 255]).as_str()), Some(vec![1, 2, 3, 255]));
    let mut out = vec![9];
    assert!(hex_decode_into("0a0b", &mut out));
    assert_eq!(out, vec![10, 11]);
    assert!(!hex_decode_into("0a0", &mut out));
    assert_eq!(out, vec![10, 11]);
}

#[test]
fn progress_counts_and_stops() {
    let mut p = Progress::new();
    assert_eq!(p.render("0"), None);
    p.stage("扫描 key", 200);
    p.add(50);
    assert_eq!(p.fraction(), (50, 200));
    assert_eq!(
        p.render("25").unwrap(),
        "扫描 key [█████░░░░░░░░░░░░░░░] 25% 50/200"
    );
    p.set_done(300);
    assert_eq!(p.fraction(), (200, 200));
    assert!(p.check().is_ok());
    p.cancel();
    assert!(p.is_cancelled());
    assert_eq!(p.check(), Err(Cancelled));
    assert_eq!(Cancelled.message(), "操作已取消");
    p.finish();
    assert!(!p.is_cancelled());
    assert_eq!(p.render("0"), None);
}

#[test]
fn hex_is_read_in_either_case_and_without_blanks() {
    let bytes = vec![0xab, 0xcd, 0xef, 0x09];
    let text = hex_encode(&bytes);
    assert_eq!(text, "abcdef09");
    assert_eq!(hex_decode(&text.to_uppercase()), Some(bytes.clone()));
    assert_eq!(hex_decode("aBCdEf09"), Some(bytes.clone()));
    assert_eq!(hex_decode("\t abcdef09 \r\n"), Some(bytes));
    assert_eq!(hex_decode("ab cd"), None);
    assert_eq!(hex_decode("ag"), None);
    assert_eq!(hex_decode("AG"), None);
    assert_eq!(hex_decode("@0"), None);
    assert_eq!(hex_decode("/0"), None);
    assert_eq!(hex_decode("é"), None);
}
