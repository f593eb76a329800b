use tagger::entry::Img;
use tagger::metadata::{apply_file_tags, apply_metadata, encode_metadata, FileTags, MetadataError};
use tagger::tag::Tag;

fn img(idx: usize, name: &str, tags: Option<Vec<u32>>) -> Img {
    Img {
        idx,
        path: format!("/d/{}", name),
        name: String::from(name),
        extension: String::from("png"),
        tags,
    }
}

fn tag(name: &str, idx: u32, refs: u32) -> Tag {
    Tag { name: String::from(name), idx, refs }
}

fn sample_bytes() -> Vec<u8> {
    vec![
        0, 0, 0, 0, 1, 0, 0, 0, b'a', 0, b'\n', b'x', b'.', b'p', b'n', b'g', 0, 0, 0, 0, 0,
        b'\n', b'y', b'.', b'p', b'n', b'g', 0, b'\n',
    ]
}

#[test]
fn tag_file_layout() {
    let tags = vec![tag("a", 0, 1)];
    let images = vec![img(0, "x.png", Some(vec![0])), img(1, "y.png", None)];
    assert_eq!(encode_metadata(&tags, &images), sample_bytes());
}

#[test]
fn empty_tag_file() {
    let tags: Vec<Tag> = Vec::new();
    let images: Vec<Img> = Vec::new();
    assert_eq!(encode_metadata(&tags, &images), vec![b'\n']);
}

#[test]
fn tag_file_is_read() {
    let mut images = vec![img(0, "y.png", Some(vec![7])), img(1, "x.png", None)];
    let tags = match apply_metadata(&sample_bytes(), &mut images) {
        Ok(t) => t,
        Err(_) => panic!("the tag file should be read"),
    };
    assert_eq!(tags.len(), 1);
    assert_eq!(tags[0].name, "a");
    assert_eq!(tags[0].idx, 0);
    assert_eq!(tags[0].refs, 1);
    assert_eq!(images[0].tags, None);
    assert_eq!(images[1].tags, Some(vec![0]));
}

#[test]
fn write_then_read_gives_tags_back() {
    let tags = vec![tag("sea", 0, 2), tag("sky", 1, 1), tag("Casey", 2, 1)];
    let images = vec![
        img(0, "a.png", Some(vec![0, 1])),
        img(1, "b.jpg", None),
        img(2, "c.png", Some(vec![2, 0])),
    ];
    let bytes = encode_metadata(&tags, &images);
    let mut fresh = vec![img(0, "a.png", None), img(1, "b.jpg", None), img(2, "c.png", None)];
    let back = match apply_metadata(&bytes, &mut fresh) {
        Ok(t) => t,
        Err(_) => panic!("the tag file should be read"),
    };
    assert_eq!(back.len(), 3);
    for i in 0..3 {
        assert_eq!(back[i].name, tags[i].name);
        assert_eq!(back[i].idx, tags[i].idx);
        assert_eq!(back[i].refs, tags[i].refs);
    }
    assert_eq!(fresh[0].tags, Some(vec![0, 1]));
    assert_eq!(fresh[1].tags, None);
    assert_eq!(fresh[2].tags, Some(vec![2, 0]));
}

#[test]
fn empty_file_is_malformed() {
    let mut images = vec![img(0, "a.png", Some(vec![1]))];
    assert!(matches!(apply_metadata(&[], &mut images), Err(MetadataError::Malformed)));
    assert_eq!(images[0].tags, Some(vec![1]));
}

#[test]
fn cut_line_is_malformed() {
    let mut images = vec![img(0, "x.png", None)];
    assert!(matches!(
        apply_metadata(b"\nx.png", &mut images),
        Err(MetadataError::Malformed)
    ));
    assert!(matches!(
        apply_metadata(&[b'\n', b'x', 0, 1, 2], &mut images),
        Err(MetadataError::Malformed)
    ));
}

#[test]
fn unreadable_tag_is_malformed() {
    let mut images: Vec<Img> = Vec::new();
    // a tag record whose name is not UTF-8
    let bytes = vec![0, 0, 0, 0, 0, 0, 0, 0, 0xff, 0, b'\n'];
    assert!(matches!(apply_metadata(&bytes, &mut images), Err(MetadataError::Malformed)));
}

#[test]
fn only_newline_gives_no_tags() {
    let mut images = vec![img(0, "x.png", None)];
    match apply_metadata(b"\n", &mut images) {
        Ok(t) => assert_eq!(t.len(), 0),
        Err(_) => panic!("an empty tag section should be read"),
    }
}

#[test]
fn bad_image_name_stops_reading() {
    let mut images = vec![img(0, "x.png", None)];
    // first line gives x.png tag 3, then a name that is not UTF-8
    let bytes = vec![b'\n', b'x', b'.', b'p', b'n', b'g', 0, 3, 0, 0, 0, b'\n', 0xff, 0, b'\n'];
    assert!(matches!(
        apply_metadata(&bytes, &mut images),
        Err(MetadataError::InvalidFileName)
    ));
    assert_eq!(images[0].tags, Some(vec![3]));
}

#[test]
fn lines_naming_no_image_are_skipped() {
    let mut images = vec![img(0, "x.png", None), img(1, "x.png", None)];
    let lines = vec![
        FileTags { name: String::from("z.png"), tags: vec![1] },
        FileTags { name: String::from("x.png"), tags: vec![4, 5] },
    ];
    apply_file_tags(&mut images, &lines);
    assert_eq!(images[0].tags, Some(vec![4, 5]));
    assert_eq!(images[1].tags, None);
}

#[test]
fn line_without_tags_clears_tags() {
    let mut images = vec![img(0, "x.png", Some(vec![2]))];
    let lines = vec![FileTags { name: String::from("x.png"), tags: vec![] }];
    apply_file_tags(&mut images, &lines);
    assert_eq!(images[0].tags, None);
}

#[test]
fn read_back_into_another_listing() {
    let tags = vec![tag("sea", 0, 2)];
    let images = vec![img(0, "a.png", Some(vec![0])), img(1, "b.png", Some(vec![])), img(2, "c.png", Some(vec![0]))];
    let bytes = encode_metadata(&tags, &images);
    let mut listing = vec![
        img(0, "new.png", Some(vec![9])),
        img(1, "c.png", None),
        img(2, "b.png", Some(vec![5])),
    ];
    match apply_metadata(&bytes, &mut listing) {
        Ok(t) => assert_eq!(t.len(), 1),
        Err(_) => panic!("the tag file should be read"),
    }
    assert_eq!(listing[0].tags, Some(vec![9]));
    assert_eq!(listing[1].tags, Some(vec![0]));
    assert_eq!(listing[2].tags, None);
    assert_eq!(listing[1].name, "c.png");
}
