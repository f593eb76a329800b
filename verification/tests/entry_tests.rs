use tagger::entry::{
    collect_directories, collect_images, find_img_idx_by_name, is_image_extension,
    metadata_entry_index, DirEntryInfo, Img, METADATA_NAME,
};

fn file(path: &str, name: Option<&str>, ext: Option<&str>) -> DirEntryInfo {
    DirEntryInfo {
        path: String::from(path),
        is_file: true,
        is_dir: false,
        file_name: name.map(String::from),
        extension: ext.map(String::from),
    }
}

fn folder(path: &str, name: Option<&str>) -> DirEntryInfo {
    DirEntryInfo {
        path: String::from(path),
        is_file: false,
        is_dir: true,
        file_name: name.map(String::from),
        extension: None,
    }
}

fn img(name: &str) -> Img {
    Img {
        idx: 0,
        path: format!("/p/{}", name),
        name: String::from(name),
        extension: String::from("png"),
        tags: None,
    }
}

#[test]
fn image_extensions() {
    assert!(is_image_extension("png"));
    assert!(is_image_extension("jpg"));
    assert!(!is_image_extension("jpeg"));
    assert!(!is_image_extension("PNG"));
    assert!(!is_image_extension(""));
}

#[test]
fn images_are_listed_in_order() {
    let entries = vec![
        file("/d/a.png", Some("a.png"), Some("png")),
        file("/d/notes.txt", Some("notes.txt"), Some("txt")),
        folder("/d/sub", Some("sub")),
        file("/d/noext", Some("noext"), None),
        file("/d/b.jpg", Some("b.jpg"), Some("jpg")),
        file("/d/bad.png", None, Some("png")),
    ];
    let imgs = collect_images(&entries);
    assert_eq!(imgs.len(), 2);
    assert_eq!(imgs[0].idx, 0);
    assert_eq!(imgs[0].name, "a.png");
    assert_eq!(imgs[0].path, "/d/a.png");
    assert_eq!(imgs[0].extension, "png");
    assert!(imgs[0].tags.is_none());
    assert_eq!(imgs[1].idx, 1);
    assert_eq!(imgs[1].name, "b.jpg");
    assert_eq!(imgs[1].extension, "jpg");
}

#[test]
fn folders_start_with_parent() {
    let entries = vec![
        file("/d/a.png", Some("a.png"), Some("png")),
        folder("/d/x", Some("x")),
        folder("/d/y", None),
        folder("/d/z", Some("z")),
    ];
    let dirs = collect_directories(String::from("/"), &entries);
    assert_eq!(dirs.len(), 3);
    assert_eq!(dirs[0].name, "..");
    assert_eq!(dirs[0].path, "/");
    assert_eq!(dirs[1].name, "x");
    assert_eq!(dirs[1].path, "/d/x");
    assert_eq!(dirs[2].name, "z");
}

#[test]
fn tag_file_is_found() {
    let entries = vec![
        folder("/d/tag.yff", Some(METADATA_NAME)),
        file("/d/a.png", Some("a.png"), Some("png")),
        file("/d/tag.yff", Some("tag.yff"), Some("yff")),
    ];
    assert_eq!(metadata_entry_index(&entries), Some(2));
    let none = vec![file("/d/a.png", Some("a.png"), Some("png"))];
    assert_eq!(metadata_entry_index(&none), None);
}

#[test]
fn image_found_by_name() {
    let mut imgs = vec![img("a.png"), img("b.png"), img("b.png")];
    imgs[1].idx = 1;
    imgs[2].idx = 2;
    match find_img_idx_by_name("b.png", &mut imgs) {
        Some(found) => {
            assert_eq!(found.idx, 1);
            found.tags = Some(vec![3]);
        }
        None => panic!("b.png is in the list"),
    }
    assert_eq!(imgs[1].tags, Some(vec![3]));
    assert_eq!(imgs[2].tags, None);
    assert_eq!(find_img_idx_by_name("a.png", &mut imgs).map(|i| i.idx), Some(0));
    assert!(find_img_idx_by_name("c.png", &mut imgs).is_none());
}
