use tagger::tag::Tag;

#[test]
fn tag_bytes_layout() {
    let t = Tag { name: String::from("cat"), idx: 1, refs: 258 };
    assert_eq!(t.as_bytes(), vec![1, 0, 0, 0, 2, 1, 0, 0, b'c', b'a', b't']);
}

#[test]
fn tag_bytes_roundtrip() {
    let t = Tag { name: String::from("holiday_2024"), idx: 70000, refs: 3 };
    let back = Tag::from_bytes(&t.as_bytes());
    assert_eq!(back.name, "holiday_2024");
    assert_eq!(back.idx, 70000);
    assert_eq!(back.refs, 3);
}

#[test]
fn tag_from_short_bytes_fails() {
    assert!(Tag::try_from_bytes(&[1, 2, 3]).is_none());
    assert!(Tag::try_from_bytes(&[]).is_none());
}

#[test]
fn tag_with_bad_name_fails() {
    assert!(Tag::try_from_bytes(&[0, 0, 0, 0, 0, 0, 0, 0, 0xff]).is_none());
}

#[test]
fn tag_with_empty_name() {
    let t = Tag::try_from_bytes(&[5, 0, 0, 0, 0, 0, 0, 1]).unwrap();
    assert_eq!(t.name, "");
    assert_eq!(t.idx, 5);
    assert_eq!(t.refs, 1 << 24);
}
