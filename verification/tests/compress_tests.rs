use tagger::compress::{compress_tags, new_mappings, tags_compressible};
use tagger::entry::Img;
use tagger::tag::Tag;

fn img(idx: usize, tags: Option<Vec<u32>>) -> Img {
    Img {
        idx,
        path: format!("/d/{}.png", idx),
        name: format!("{}.png", idx),
        extension: String::from("png"),
        tags,
    }
}

fn tag(name: &str, idx: u32, refs: u32) -> Tag {
    Tag { name: String::from(name), idx, refs }
}

#[test]
fn mappings_skip_unused_tags() {
    let tags = vec![tag("a", 0, 2), tag("b", 1, 0), tag("c", 2, 1), tag("d", 3, 0)];
    assert_eq!(new_mappings(&tags), vec![Some(0), None, Some(1), None]);
}

#[test]
fn mappings_of_no_tags() {
    let tags: Vec<Tag> = Vec::new();
    assert_eq!(new_mappings(&tags), Vec::<Option<u32>>::new());
}

#[test]
fn compress_drops_unused_tags() {
    let mut tags = vec![tag("a", 0, 1), tag("b", 1, 0), tag("c", 2, 2)];
    let mut images = vec![img(0, Some(vec![2, 0])), img(1, None), img(2, Some(vec![2]))];
    assert!(tags_compressible(&tags, &images));
    compress_tags(&mut tags, &mut images);
    assert_eq!(tags.len(), 2);
    assert_eq!(tags[0].name, "a");
    assert_eq!(tags[0].idx, 0);
    assert_eq!(tags[0].refs, 1);
    assert_eq!(tags[1].name, "c");
    assert_eq!(tags[1].idx, 1);
    assert_eq!(tags[1].refs, 2);
    assert_eq!(images[0].tags, Some(vec![1, 0]));
    assert_eq!(images[1].tags, None);
    assert_eq!(images[2].tags, Some(vec![1]));
    assert_eq!(images[2].name, "2.png");
}

#[test]
fn compress_keeps_dense_tags() {
    let mut tags = vec![tag("a", 0, 1), tag("b", 1, 1)];
    let mut images = vec![img(0, Some(vec![1])), img(1, Some(vec![0]))];
    compress_tags(&mut tags, &mut images);
    assert_eq!(tags[0].idx, 0);
    assert_eq!(tags[1].idx, 1);
    assert_eq!(images[0].tags, Some(vec![1]));
    assert_eq!(images[1].tags, Some(vec![0]));
}

#[test]
fn unused_or_missing_tags_cannot_be_compressed() {
    let tags = vec![tag("a", 0, 1), tag("b", 1, 0)];
    assert!(!tags_compressible(&tags, &vec![img(0, Some(vec![1]))]));
    assert!(!tags_compressible(&tags, &vec![img(0, Some(vec![5]))]));
    assert!(tags_compressible(&tags, &vec![img(0, Some(vec![0]))]));
    let wrong_idx = vec![tag("a", 3, 1)];
    assert!(!tags_compressible(&wrong_idx, &vec![img(0, None)]));
}
