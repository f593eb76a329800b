use tagger::entry::{Dir, Img};
use tagger::metadata::encode_metadata;
use tagger::state::{Action, BodyPanel, BottomBar, Collection, CollectionElement, Counter, Key, Message, Panel};
use tagger::tag::Tag;

type State = Counter<u32, u64>;
type Msg = Message<u32, u64>;

fn img(idx: usize, name: &str) -> Img {
    Img {
        idx,
        path: format!("/d/{}", name),
        name: String::from(name),
        extension: String::from("png"),
        tags: None,
    }
}

fn dirs() -> Vec<Dir> {
    vec![
        Dir { path: String::from("/"), name: String::from("..") },
        Dir { path: String::from("/d/sub"), name: String::from("sub") },
    ]
}

fn loaded(metadata: Option<Vec<u8>>) -> State {
    let mut s: State = Counter::new(String::from("/d"), Some(dirs()));
    let images = vec![img(0, "a.png"), img(1, "b.png"), img(2, "c.png")];
    match s.load_values_of_current_dir(Some(dirs()), Some(images), metadata) {
        Action::LoadThumbnails(l) => assert_eq!(l.len(), 3),
        _ => panic!("the folder should load"),
    }
    s
}

fn step(s: &mut State, m: Msg) -> Action {
    assert!(s.accepts_message(&m));
    s.update(m)
}

fn tagged() -> State {
    let tags = vec![
        Tag { name: String::from("sea"), idx: 0, refs: 2 },
        Tag { name: String::from("sky"), idx: 1, refs: 1 },
    ];
    let mut images = vec![img(0, "a.png"), img(1, "b.png"), img(2, "c.png")];
    images[0].tags = Some(vec![0, 1]);
    images[2].tags = Some(vec![0]);
    loaded(Some(encode_metadata(&tags, &images)))
}

#[test]
fn starting_state() {
    let s: State = Counter::new(String::from("/d"), None);
    assert!(matches!(s.panel, Panel::Hidden));
    assert!(matches!(s.body_panel, BodyPanel::Explore));
    assert_eq!(s.directory, "/d");
    assert!(s.file_list.is_none());
    assert!(s.tags_list.is_none());
    assert!(s.collection.is_none());
    assert_eq!(s.search_content, "");
    assert!(s.error_message.is_none());
}

#[test]
fn panels_toggle() {
    let mut s: State = Counter::new(String::from("/d"), None);
    step(&mut s, Message::File);
    assert!(matches!(s.panel, Panel::File));
    step(&mut s, Message::Search);
    assert!(matches!(s.panel, Panel::Search));
    step(&mut s, Message::Search);
    assert!(matches!(s.panel, Panel::Hidden));
    step(&mut s, Message::Tag);
    assert!(matches!(s.panel, Panel::Tag));
}

#[test]
fn loading_a_folder() {
    let s = tagged();
    let files = s.file_list.as_ref().unwrap();
    assert_eq!(files[0].tags, Some(vec![0, 1]));
    assert_eq!(files[1].tags, None);
    let tags = s.tags_list.as_ref().unwrap();
    assert_eq!(tags.len(), 2);
    assert_eq!(tags[1].name, "sky");
    assert_eq!(s.thumbnails.len(), 3);
    let p = s.thumbnail_progress.as_ref().unwrap();
    assert_eq!((p.current, p.max), (0, 3));
}

#[test]
fn loading_a_broken_tag_file_shows_error() {
    let mut s: State = Counter::new(String::from("/d"), None);
    let mut tagged_img = img(0, "a.png");
    tagged_img.tags = Some(vec![4]);
    let r = s.load_values_of_current_dir(None, Some(vec![tagged_img]), Some(vec![1, 2]));
    assert!(matches!(r, Action::LoadThumbnails(_)));
    assert_eq!(
        s.error_message,
        Some(String::from("Could not read the tag file of this folder."))
    );
    assert!(s.tags_list.is_none());
    assert_eq!(s.file_list.as_ref().unwrap()[0].tags, Some(vec![4]));
    assert_eq!(s.thumbnails.len(), 1);
}

#[test]
fn loading_a_folder_without_images() {
    let mut s: State = Counter::new(String::from("/d"), None);
    let r = s.load_values_of_current_dir(None, None, None);
    assert!(matches!(r, Action::Nothing));
    assert!(s.file_list.is_none());
    assert_eq!(s.thumbnails.len(), 0);
}

#[test]
fn thumbnails_are_kept() {
    let mut s = loaded(None);
    step(&mut s, Message::ImageLoaded(1, 77));
    step(&mut s, Message::ImageLoaded(9, 88));
    assert_eq!(s.thumbnails, vec![None, Some(77), None]);
    assert_eq!(s.thumbnail_progress.as_ref().unwrap().current, 2);
    step(&mut s, Message::AllImagesLoaded);
    assert!(s.thumbnail_progress.is_none());
}

#[test]
fn typed_tag_is_added() {
    let mut s = loaded(None);
    step(&mut s, Message::ImageSelected(1));
    step(&mut s, Message::SearchChanged(String::from("cat")));
    step(&mut s, Message::AddInputTag);
    let tags = s.tags_list.as_ref().unwrap();
    assert_eq!(tags.len(), 1);
    assert_eq!(tags[0].name, "cat");
    assert_eq!(tags[0].idx, 0);
    assert_eq!(tags[0].refs, 1);
    assert_eq!(s.file_list.as_ref().unwrap()[1].tags, Some(vec![0]));
    assert_eq!(s.search_content, "");
}

#[test]
fn typed_existing_tag_is_reused() {
    let mut s = tagged();
    step(&mut s, Message::ImageSelected(1));
    step(&mut s, Message::SearchChanged(String::from("sky")));
    step(&mut s, Message::AddInputTag);
    let tags = s.tags_list.as_ref().unwrap();
    assert_eq!(tags.len(), 2);
    assert_eq!(tags[1].refs, 2);
    assert_eq!(s.file_list.as_ref().unwrap()[1].tags, Some(vec![1]));
    assert_eq!(s.search_content, "sky");
}

#[test]
fn invalid_typed_tag_shows_error() {
    let mut s = loaded(None);
    step(&mut s, Message::ImageSelected(0));
    step(&mut s, Message::SearchChanged(String::from("two words")));
    step(&mut s, Message::AddInputTag);
    assert_eq!(s.error_message, Some(String::from("Invalid tag name.")));
    assert!(s.tags_list.is_none());
    step(&mut s, Message::Explore);
    assert!(s.error_message.is_none());
}

#[test]
fn add_and_remove_existing_tag() {
    let mut s = tagged();
    step(&mut s, Message::ImageSelected(2));
    step(&mut s, Message::AddTag(1));
    assert_eq!(s.file_list.as_ref().unwrap()[2].tags, Some(vec![0, 1]));
    assert_eq!(s.tags_list.as_ref().unwrap()[1].refs, 2);
    step(&mut s, Message::AddTag(1));
    assert_eq!(s.tags_list.as_ref().unwrap()[1].refs, 2);
    step(&mut s, Message::RemoveTag(0));
    assert_eq!(s.file_list.as_ref().unwrap()[2].tags, Some(vec![1]));
    assert_eq!(s.tags_list.as_ref().unwrap()[0].refs, 1);
    step(&mut s, Message::RemoveTag(1));
    assert_eq!(s.file_list.as_ref().unwrap()[2].tags, None);
    assert_eq!(s.tags_list.as_ref().unwrap()[1].refs, 1);
}

#[test]
fn add_then_remove_restores_tags() {
    let mut s = tagged();
    step(&mut s, Message::ImageSelected(0));
    step(&mut s, Message::RemoveTag(0));
    assert_eq!(s.file_list.as_ref().unwrap()[0].tags, Some(vec![1]));
    step(&mut s, Message::AddTag(0));
    assert_eq!(s.file_list.as_ref().unwrap()[0].tags, Some(vec![1, 0]));
    step(&mut s, Message::RemoveTag(0));
    assert_eq!(s.file_list.as_ref().unwrap()[0].tags, Some(vec![1]));
    assert_eq!(s.tags_list.as_ref().unwrap()[0].refs, 1);
}

#[test]
fn removing_tag_with_no_uses_warns() {
    let mut s = tagged();
    s.tags_list.as_mut().unwrap()[1].refs = 0;
    step(&mut s, Message::ImageSelected(0));
    step(&mut s, Message::RemoveTag(1));
    assert_eq!(s.file_list.as_ref().unwrap()[0].tags, Some(vec![0]));
    assert_eq!(
        s.error_message,
        Some(String::from(
            "Warning! We removed a tag that had zero references. Something is off here."
        ))
    );
    assert_eq!(s.tags_list.as_ref().unwrap()[1].refs, 0);
}

#[test]
fn adding_unknown_tag_is_refused() {
    let mut s = tagged();
    s.update(Message::ImageSelected(0));
    assert!(!s.accepts_message(&Message::AddTag(5)));
    assert!(s.accepts_message(&Message::AddTag(1)));
}

#[test]
fn image_selection_toggles() {
    let mut s = loaded(None);
    step(&mut s, Message::ImageSelected(2));
    assert_eq!(s.selected_file_idx, Some(2));
    step(&mut s, Message::ImageSelected(1));
    assert_eq!(s.selected_file_idx, Some(1));
    step(&mut s, Message::ImageSelected(1));
    assert_eq!(s.selected_file_idx, None);
}

#[test]
fn search_filters_and_loads_missing_thumbnails() {
    let mut s = tagged();
    step(&mut s, Message::ImageLoaded(0, 5));
    step(&mut s, Message::SearchChanged(String::from("sea")));
    match step(&mut s, Message::SearchSend) {
        Action::LoadThumbnails(l) => assert_eq!(l, vec![(2, String::from("/d/c.png"))]),
        _ => panic!("a search loads thumbnails"),
    }
    assert_eq!(s.file_filter_indices, Some(vec![0, 2]));
    let p = s.thumbnail_progress.as_ref().unwrap();
    assert_eq!((p.current, p.max), (0, 1));
}

#[test]
fn search_errors() {
    let mut s = loaded(None);
    assert!(matches!(step(&mut s, Message::SearchSend), Action::Nothing));
    assert_eq!(s.error_message, Some(String::from("No tags to search for.")));
    let mut t = tagged();
    step(&mut t, Message::SearchChanged(String::from("dog")));
    step(&mut t, Message::SearchSend);
    assert_eq!(t.error_message, Some(String::from("No tag of name dog exists.")));
    assert!(t.file_filter_indices.is_none());
}

#[test]
fn search_terms_are_appended() {
    let mut s = tagged();
    step(&mut s, Message::AddPositiveSearchTerm(0));
    step(&mut s, Message::AddNegativeSearchTerm(1));
    assert_eq!(s.search_content, " sea -sky");
}

#[test]
fn collection_toggles() {
    let mut s = loaded(None);
    match step(&mut s, Message::ToggleIntoCollection(1)) {
        Action::AllocateImages(l) => assert_eq!(l, vec![(1, String::from("/d/b.png"))]),
        _ => panic!("a new entry is loaded"),
    }
    step(&mut s, Message::ToggleIntoCollection(2));
    {
        let c = s.collection.as_ref().unwrap();
        assert_eq!(c.entries.len(), 2);
        assert_eq!(c.entries[1].name, "c.png");
        assert_eq!(s.collection_progress.as_ref().unwrap().max, 2);
    }
    step(&mut s, Message::CollectionRight);
    assert_eq!(s.collection.as_ref().unwrap().selected, 1);
    step(&mut s, Message::CollectionRight);
    assert_eq!(s.collection.as_ref().unwrap().selected, 1);
    assert!(matches!(step(&mut s, Message::ToggleIntoCollection(2)), Action::Nothing));
    let c = s.collection.as_ref().unwrap();
    assert_eq!(c.entries.len(), 1);
    assert_eq!(c.selected, 0);
    step(&mut s, Message::ToggleIntoCollection(1));
    assert!(s.collection.is_none());
}

#[test]
fn toggle_in_then_out_restores_collection() {
    let mut s = loaded(None);
    step(&mut s, Message::ToggleIntoCollection(0));
    step(&mut s, Message::ToggleIntoCollection(2));
    step(&mut s, Message::CollectionRight);
    step(&mut s, Message::ToggleIntoCollection(1));
    step(&mut s, Message::ToggleIntoCollection(1));
    let c = s.collection.as_ref().unwrap();
    assert_eq!(c.entries.iter().map(|e| e.img_idx).collect::<Vec<_>>(), vec![0, 2]);
    assert_eq!(c.selected, 1);
}

#[test]
fn collection_moves_left() {
    let mut s = loaded(None);
    step(&mut s, Message::AddAllToCollection);
    step(&mut s, Message::CollectionLeft);
    assert_eq!(s.collection.as_ref().unwrap().selected, 0);
    step(&mut s, Message::CollectionRight);
    step(&mut s, Message::CollectionRight);
    step(&mut s, Message::CollectionLeft);
    assert_eq!(s.collection.as_ref().unwrap().selected, 1);
}

#[test]
fn add_all_respects_filter() {
    let mut s = tagged();
    step(&mut s, Message::SearchChanged(String::from("-sky")));
    step(&mut s, Message::SearchSend);
    match step(&mut s, Message::AddAllToCollection) {
        Action::AllocateImages(l) => assert_eq!(
            l,
            vec![(1, String::from("/d/b.png")), (2, String::from("/d/c.png"))]
        ),
        _ => panic!("the new entries are loaded"),
    }
    let c = s.collection.as_ref().unwrap();
    assert_eq!(c.entries.len(), 2);
    assert_eq!(c.entries[0].img_idx, 1);
    let p = s.collection_progress.as_ref().unwrap();
    assert_eq!((p.current, p.max), (0, 2));
}

#[test]
fn loaded_images_fill_the_collection() {
    let mut s = loaded(None);
    step(&mut s, Message::ToggleIntoCollection(0));
    step(&mut s, Message::ToggleIntoCollection(1));
    step(&mut s, Message::CollectionImageAllocated(41, 1));
    assert_eq!(s.collection.as_ref().unwrap().entries[1].alloc, Some(41));
    assert_eq!(s.collection_progress.as_ref().unwrap().current, 1);
    step(&mut s, Message::CollectionImageAllocated(40, 0));
    assert_eq!(s.collection.as_ref().unwrap().entries[0].alloc, Some(40));
    assert!(s.collection_progress.is_none());
    step(&mut s, Message::CollectionImageFailed(0));
    step(&mut s, Message::ClearCollection);
    assert!(s.collection.is_none());
}

#[test]
fn body_panel_and_selection_from_collection() {
    let mut s = loaded(None);
    step(&mut s, Message::ToggleIntoCollection(2));
    step(&mut s, Message::Collection);
    assert!(matches!(s.body_panel, BodyPanel::Collection));
    assert_eq!(s.get_selected_index(), Some(2));
    step(&mut s, Message::Explore);
    assert_eq!(s.get_selected_index(), None);
}

#[test]
fn switching_folder_saves_compressed_tags() {
    let mut s = tagged();
    step(&mut s, Message::ImageSelected(0));
    step(&mut s, Message::RemoveTag(1));
    match step(&mut s, Message::SwitchDirectory(1)) {
        Action::SaveAndSwitch(Some(bytes), Some(dir)) => {
            assert_eq!(dir, "/d/sub");
            let tags = vec![Tag { name: String::from("sea"), idx: 0, refs: 2 }];
            let mut images = vec![img(0, "a.png"), img(1, "b.png"), img(2, "c.png")];
            images[0].tags = Some(vec![0]);
            images[2].tags = Some(vec![0]);
            assert_eq!(bytes, encode_metadata(&tags, &images));
        },
        _ => panic!("switching saves and names the folder"),
    }
    assert_eq!(s.tags_list.as_ref().unwrap().len(), 1);
}

#[test]
fn switching_without_tags_saves_nothing() {
    let mut s = loaded(None);
    match step(&mut s, Message::SwitchDirectory(0)) {
        Action::SaveAndSwitch(None, Some(dir)) => assert_eq!(dir, "/"),
        _ => panic!("nothing to save"),
    }
}

#[test]
fn closing_saves() {
    let mut s = tagged();
    assert!(matches!(step(&mut s, Message::CloseApp), Action::SaveAndClose(Some(_))));
}

#[test]
fn keys_move_through_collection() {
    let mut s = loaded(None);
    assert!(matches!(step(&mut s, Message::KeyPressed(Key::Left)), Action::GoLeft));
    assert!(matches!(step(&mut s, Message::KeyPressed(Key::Right)), Action::GoRight));
}

#[test]
fn space_toggles_selected_image() {
    let mut s = loaded(None);
    assert!(matches!(step(&mut s, Message::KeyPressed(Key::Space)), Action::Nothing));
    step(&mut s, Message::ImageSelected(2));
    match step(&mut s, Message::KeyPressed(Key::Space)) {
        Action::Toggle(k) => assert_eq!(k, 2),
        _ => panic!("space toggles the selected image"),
    }
    step(&mut s, Message::ToggleIntoCollection(2));
    step(&mut s, Message::ToggleIntoCollection(0));
    step(&mut s, Message::Collection);
    step(&mut s, Message::CollectionRight);
    match step(&mut s, Message::KeyPressed(Key::Space)) {
        Action::Toggle(k) => assert_eq!(k, 0),
        _ => panic!("space toggles the shown image"),
    }
}

#[test]
fn entering_a_folder_after_failed_save() {
    let mut s = tagged();
    let r = s.enter_directory(
        String::from("/d/sub"),
        false,
        Some(dirs()),
        Some(vec![img(0, "z.png")]),
        None,
    );
    assert!(matches!(r, Action::LoadThumbnails(_)));
    assert_eq!(s.directory, "/d/sub");
    assert_eq!(s.error_message, Some(String::from("Could not write metadata to file.")));
    assert!(s.tags_list.is_none());
    assert_eq!(s.file_list.as_ref().unwrap().len(), 1);
}

#[test]
fn folder_lookup() {
    let s = loaded(None);
    assert_eq!(s.get_dir_from(Some(1)), Some(String::from("/d/sub")));
    assert_eq!(s.get_dir_from(None), None);
    let t: State = Counter::new(String::from("/d"), None);
    assert_eq!(t.get_dir_from(Some(3)), None);
}

fn entry(img_idx: usize, name: &str) -> CollectionElement<u64> {
    CollectionElement { img_idx, name: String::from(name), alloc: None }
}

#[test]
fn collection_entry_leaves_without_image_list() {
    let mut s: State = Counter::new(String::from("/d"), None);
    s.collection = Some(Collection { selected: 1, entries: vec![entry(0, "a.png"), entry(3, "d.png")] });
    assert!(matches!(step(&mut s, Message::ToggleIntoCollection(3)), Action::Nothing));
    let c = s.collection.as_ref().unwrap();
    assert_eq!(c.entries.len(), 1);
    assert_eq!(c.entries[0].img_idx, 0);
    assert_eq!(c.selected, 0);
    assert!(s.file_list.is_none());
    assert!(s.collection_progress.is_none());
    assert!(matches!(step(&mut s, Message::ToggleIntoCollection(5)), Action::Nothing));
    assert_eq!(s.collection.as_ref().unwrap().entries.len(), 1);
}

fn counts_match(s: &State) -> bool {
    let tags = s.tags_list.as_ref().unwrap();
    let files = s.file_list.as_ref().unwrap();
    tags.iter().enumerate().all(|(k, t)| {
        t.idx as usize == k
            && t.refs as usize
                == files
                    .iter()
                    .filter(|f| f.tags.as_ref().map_or(false, |l| l.contains(&(k as u32))))
                    .count()
    })
}

#[test]
fn tag_counts_follow_the_images() {
    let mut s = tagged();
    assert!(counts_match(&s));
    step(&mut s, Message::ImageSelected(1));
    step(&mut s, Message::AddTag(1));
    assert!(counts_match(&s));
    step(&mut s, Message::SearchChanged(String::from("cloud")));
    step(&mut s, Message::AddInputTag);
    assert!(counts_match(&s));
    step(&mut s, Message::ImageSelected(0));
    step(&mut s, Message::RemoveTag(0));
    assert!(counts_match(&s));
    step(&mut s, Message::RemoveTag(1));
    assert!(counts_match(&s));
    assert_eq!(s.tags_list.as_ref().unwrap()[2].refs, 1);
}

#[test]
fn adding_a_tag_twice_adds_it_once() {
    let mut s = tagged();
    step(&mut s, Message::ImageSelected(1));
    step(&mut s, Message::AddTag(0));
    let once = s.file_list.as_ref().unwrap()[1].tags.clone();
    let refs = s.tags_list.as_ref().unwrap()[0].refs;
    step(&mut s, Message::AddTag(0));
    assert_eq!(s.file_list.as_ref().unwrap()[1].tags, once);
    assert_eq!(s.tags_list.as_ref().unwrap()[0].refs, refs);
    assert_eq!(refs, 3);
}

#[test]
fn bottom_bar_contents() {
    let mut s = loaded(None);
    match s.bottom_bar() {
        BottomBar::Progress(c, m) => assert_eq!((c, m), (0, 3)),
        _ => panic!("thumbnails are loading"),
    }
    step(&mut s, Message::Collection);
    assert!(matches!(s.bottom_bar(), BottomBar::Ready));
    step(&mut s, Message::SearchSend);
    match s.bottom_bar() {
        BottomBar::Warning(m) => assert_eq!(m, "No tags to search for."),
        _ => panic!("the error is shown"),
    }
    step(&mut s, Message::Explore);
    step(&mut s, Message::AllImagesLoaded);
    assert!(matches!(s.bottom_bar(), BottomBar::Ready));
}

#[test]
fn tag_rows_of_selected_image() {
    let mut s = tagged();
    assert!(s.tags_listable());
    assert!(s.tags_on_selected().is_none());
    step(&mut s, Message::ImageSelected(0));
    assert_eq!(
        s.tags_on_selected(),
        Some(vec![(0, String::from("sea")), (1, String::from("sky"))])
    );
    step(&mut s, Message::ImageSelected(1));
    assert!(s.tags_on_selected().is_none());
    s.tags_list.as_mut().unwrap().pop();
    step(&mut s, Message::ImageSelected(0));
    assert!(!s.tags_listable());
}

#[test]
fn tag_counts_survive_saving() {
    let mut s = tagged();
    step(&mut s, Message::ImageSelected(0));
    step(&mut s, Message::RemoveTag(1));
    step(&mut s, Message::SearchChanged(String::from("cloud")));
    step(&mut s, Message::AddInputTag);
    assert!(counts_match(&s));
    step(&mut s, Message::SwitchDirectory(1));
    assert!(counts_match(&s));
    let tags = s.tags_list.as_ref().unwrap();
    assert_eq!(tags.len(), 2);
    assert_eq!(tags[1].name, "cloud");
    assert_eq!(s.file_list.as_ref().unwrap()[0].tags, Some(vec![0, 1]));
    step(&mut s, Message::CloseApp);
    assert!(counts_match(&s));
}
