use vstd::prelude::*;

use crate::entry::{img_views, Dir, Img, ImgView};
use crate::compress::{compress_tags, compressed, compressible, remap_image, tags_compressible};
use crate::metadata::{
    apply_lines, apply_metadata, encode_metadata, metadata_bytes, parse_metadata, tag_list, tag_views,
    MetadataError, MetadataParse,
};
use crate::search::{
    contains_idx, filter_to_string, find_tag_position, is_first_tag_named, lemma_search_in_range, search_result, tag_names,
    tag_position,
};
use crate::tag::{Tag, TagIdx};
use crate::text_util::{is_valid_tag, valid_tag_name};

verus! {

/// Which side panel is open.
pub enum Panel {
    /// No side panel.
    Hidden,
    File,
    Search,
    Tag,
}

/// What the main body shows.
pub enum BodyPanel {
    /// Thumbnails of the images.
    Explore,
    /// The images of the collection, one by one.
    Collection,
}

/// How far a background loading has got.
pub struct Progress {
    pub current: u32,
    pub max: u32,
}

/// An image of the collection; `alloc` holds its full-size image once loaded.
pub struct CollectionElement<A> {
    /// Position of the image in the image list.
    pub img_idx: usize,
    pub name: String,
    pub alloc: Option<A>,
}

/// The images that the user has gathered, and which of them is shown.
pub struct Collection<A> {
    pub selected: usize,
    pub entries: Vec<CollectionElement<A>>,
}

/// Keys that act on the collection: the arrows move through it, space puts
/// the selected image in or takes it out.
pub enum Key {
    Left,
    Right,
    Space,
}

/// What happened in the user interface. `H` is a loaded thumbnail, `A` a
/// loaded full-size image.
pub enum Message<H, A> {
    File,
    Search,
    Tag,
    SwitchDirectory(u16),
    ImageLoaded(usize, H),
    AllImagesLoaded,
    AddTag(TagIdx),
    RemoveTag(TagIdx),
    AddInputTag,
    SearchChanged(String),
    ImageSelected(usize),
    SearchSend,
    AddPositiveSearchTerm(TagIdx),
    AddNegativeSearchTerm(TagIdx),
    Explore,
    Collection,
    ToggleIntoCollection(usize),
    CollectionLeft,
    CollectionRight,
    CollectionImageAllocated(A, usize),
    CollectionImageFailed(usize),
    AddAllToCollection,
    ClearCollection,
    CloseApp,
    KeyPressed(Key),
}

/// The outside work that a step asks for.
pub enum Action {
    Nothing,
    /// Stop loading thumbnails, if that runs, and load those of these images
    /// (position, path).
    LoadThumbnails(Vec<(usize, String)>),
    /// Load the full-size images of these images (position, path).
    AllocateImages(Vec<(usize, String)>),
    /// Write these bytes, if any, to the tag file of the current folder, then
    /// enter the given folder (`None`: the starting folder).
    SaveAndSwitch(Option<Vec<u8>>, Option<String>),
    /// Write these bytes, if any, to the tag file of the current folder, then
    /// close the window.
    SaveAndClose(Option<Vec<u8>>),
    /// Handle `CollectionLeft` next.
    GoLeft,
    /// Handle `CollectionRight` next.
    GoRight,
    /// Handle `ToggleIntoCollection` of this image next.
    Toggle(usize),
}

/// What the bar at the bottom of the window shows.
pub enum BottomBar {
    /// The error message of the last step.
    Warning(String),
    /// How far a loading has got: loaded, and in all.
    Progress(u32, u32),
    /// Nothing to report.
    Ready,
}

/// The state of the application.
pub struct Counter<H, A> {
    pub panel: Panel,
    pub body_panel: BodyPanel,
    pub directory_list: Option<Vec<Dir>>,
    pub directory: String,
    pub file_list: Option<Vec<Img>>,
    /// The thumbnail of each image of `file_list`, once loaded.
    pub thumbnails: Vec<Option<H>>,
    pub file_filter_indices: Option<Vec<usize>>,
    pub search_content: String,
    pub tags_list: Option<Vec<Tag>>,
    pub selected_file_idx: Option<usize>,
    pub error_message: Option<String>,
    pub collection: Option<Collection<A>>,
    pub thumbnail_progress: Option<Progress>,
    pub collection_progress: Option<Progress>,
}

/// The number of images of an optional image list.
pub open spec fn files_len(files: Option<Vec<Img>>) -> int {
    match files {
        Some(l) => l@.len() as int,
        None => 0,
    }
}

impl<H, A> Counter<H, A> {
    /// The state with no error shown.
    pub open spec fn cleared(self) -> Self {
        Counter { error_message: None, ..self }
    }

    /// The position in the image list of the selected image: the one picked
    /// in the explorer, or the one shown in the collection.
    pub open spec fn selected_index(self) -> Option<usize> {
        match self.body_panel {
            BodyPanel::Explore => self.selected_file_idx,
            BodyPanel::Collection => match self.collection {
                Some(c) => Some(c.entries@[c.selected as int].img_idx),
                None => None,
            },
        }
    }

    /// Whether, where there is an image list, every entry of the collection
    /// names an image of it.
    pub open spec fn entries_in_list(self) -> bool {
        self.file_list is Some ==> match self.collection {
            Some(c) => forall|k: int|
                0 <= k < c.entries@.len() ==> (#[trigger] c.entries@[k]).img_idx < files_len(
                    self.file_list,
                ),
            None => true,
        }
    }

    /// Whether every filtered position names an image of the list.
    pub open spec fn filter_in_list(self) -> bool {
        match self.file_filter_indices {
            Some(f) => forall|k: int| 0 <= k < f@.len() ==> #[trigger] f@[k] < files_len(self.file_list),
            None => true,
        }
    }

    /// The invariant of the state: a collection is never empty, shows one of
    /// its entries, and names images of the list where there is one; there is
    /// one thumbnail slot per image; filtered positions name images of the
    /// list.
    pub open spec fn wf(self) -> bool {
        &&& self.collection matches Some(c) ==> {
            &&& c.entries@.len() > 0
            &&& c.selected < c.entries@.len()
        }
        &&& self.entries_in_list()
        &&& self.file_list matches Some(l) ==> self.thumbnails@.len() == l@.len()
        &&& self.file_filter_indices is Some ==> self.file_list is Some
        &&& self.filter_in_list()
    }

    /// The position in the image list of the selected image.
    pub fn get_selected_index(&self) -> (r: Option<usize>)
        requires
            self.wf(),
        ensures
            r == self.selected_index(),
    {
        match self.body_panel {
            BodyPanel::Explore => match self.selected_file_idx {
                None => None,
                Some(idx) => Some(idx),
            },
            BodyPanel::Collection => match &self.collection {
                None => None,
                Some(col) => {
                    let entry = &col.entries[col.selected];
                    Some(entry.img_idx)
                },
            },
        }
    }
}

impl<H, A> Counter<H, A> {
    /// Whether tag `tidx` can be added to the selected image: where there is
    /// a selected image and a tag list, the tag is in the list; where there
    /// is also an image list, the image is in it, and the tag's count can
    /// grow if the image lacks the tag.
    pub open spec fn can_add_tag(self, tidx: TagIdx) -> bool {
        add_tag_ok(
            self.selected_index(),
            match self.tags_list {
                Some(t) => Some(t@),
                None => None,
            },
            self.file_list,
            tidx,
        )
    }

    /// `after` is `before` with tag `tidx` added to the selected image: where
    /// there is a selected image, a tag list and an image list, and the image
    /// lacks the tag, the tag goes at the end of its tag list (which is made
    /// where it has none) and the tag's count grows by one.
    pub open spec fn tag_added(before: Self, after: Self, tidx: TagIdx) -> bool {
        if before.selected_index() is None || before.tags_list is None || before.file_list is None {
            after == before
        } else {
            let i = before.selected_index()->0 as int;
            let tags = before.tags_list->0@;
            let files = before.file_list->0@;
            let img = files[i]@;
            let t = tags[tidx as int];
            if img.tags matches Some(l) && l.contains(tidx) {
                after == before
            } else {
                &&& after == Counter { tags_list: after.tags_list, file_list: after.file_list, ..before }
                &&& after.tags_list matches Some(nt) && nt@ == tags.update(
                    tidx as int,
                    Tag { refs: (t.refs + 1) as u32, ..t },
                )
                &&& after.file_list matches Some(nf) && img_views(nf@) == img_views(files).update(
                    i,
                    ImgView { tags: Some(tag_list(img.tags).push(tidx)), ..img },
                )
            }
        }
    }

    /// Adds the tag with index `tidx` to the selected image, where it lacks
    /// it, and counts the new use of the tag.
    fn add_tag_to_selected(&mut self, tidx: TagIdx)
        requires
            old(self).wf(),
            old(self).can_add_tag(tidx),
        ensures
            final(self).wf(),
            Self::tag_added(*old(self), *final(self), tidx),
    {
        let file_idx = match self.get_selected_index() {
            None => {
                return;
            },
            Some(v) => v,
        };
        if self.tags_list.is_none() || self.file_list.is_none() {
            return;
        }
        let ghost before = *self;
        let mut tags = match self.tags_list.take() {
            Some(t) => t,
            None => {
                return;
            },
        };
        let mut files = match self.file_list.take() {
            Some(f) => f,
            None => {
                return;
            },
        };
        let has = match &files[file_idx].tags {
            None => false,
            Some(tl) => contains_idx(tl, tidx),
        };
        if has {
            self.tags_list = Some(tags);
            self.file_list = Some(files);
            return;
        }
        let mut img = files.remove(file_idx);
        let ghost old_img = img@;
        let new_tags = match img.tags.take() {
            None => {
                let mut v: Vec<TagIdx> = Vec::new();
                v.push(tidx);
                v
            },
            Some(v) => {
                let mut v = v;
                v.push(tidx);
                v
            },
        };
        img.tags = Some(new_tags);
        assert(img@ == ImgView { tags: Some(tag_list(old_img.tags).push(tidx)), ..old_img });
        files.insert(file_idx, img);
        let mut t = tags.remove(tidx as usize);
        t.refs = t.refs + 1;
        tags.insert(tidx as usize, t);
        proof {
            assert(img_views(files@) =~= img_views(before.file_list->0@).update(
                file_idx as int,
                ImgView { tags: Some(tag_list(old_img.tags).push(tidx)), ..old_img },
            ));
            assert(tags@ =~= before.tags_list->0@.update(
                tidx as int,
                Tag { refs: (before.tags_list->0@[tidx as int].refs + 1) as u32, ..before.tags_list->0@[tidx as int] },
            ));
        }
        self.tags_list = Some(tags);
        self.file_list = Some(files);
    }
}

/// Whether tag `tidx` can be added to image `sel` (where there is one) with
/// the tags `tags` and images `files`: where there is a tag list, the tag is
/// in it; where there is also an image list, the image is in it, and the
/// tag's count can grow if the image lacks the tag.
pub open spec fn add_tag_ok(
    sel: Option<usize>,
    tags: Option<Seq<Tag>>,
    files: Option<Vec<Img>>,
    tidx: TagIdx,
) -> bool {
    sel is Some && tags is Some ==> {
        let tags = tags->0;
        &&& tidx < tags.len()
        &&& files is Some ==> {
            let files = files->0@;
            let i = sel->0 as int;
            &&& i < files.len()
            &&& !(files[i]@.tags matches Some(t) && t.contains(tidx)) ==> tags[tidx as int].refs
                < u32::MAX
        }
    }
}

/// The message shown when a tag loses a use it did not have.
pub open spec fn zero_refs_message() -> Seq<char> {
    "Warning! We removed a tag that had zero references. Something is off here."@
}

/// Whether `p` is the first position of `x` in `l`.
pub open spec fn is_first_index(l: Seq<TagIdx>, x: TagIdx, p: int) -> bool {
    &&& 0 <= p < l.len()
    &&& l[p] == x
    &&& forall|j: int| 0 <= j < p ==> l[j] != x
}

/// The first position of `x` in `l`.
pub open spec fn first_index(l: Seq<TagIdx>, x: TagIdx) -> int {
    choose|p: int| is_first_index(l, x, p)
}

/// `l` without its element at `p`, whose place the last element takes.
pub open spec fn swap_removed(l: Seq<TagIdx>, p: int) -> Seq<TagIdx> {
    l.update(p, l.last()).drop_last()
}

impl<H, A> Counter<H, A> {
    /// Whether tag `tidx` can be taken off the selected image: where there is
    /// a selected image and an image list, the image is in it; where the
    /// image has the tag and there is a tag list, the tag is in it.
    pub open spec fn can_remove_tag(self, tidx: TagIdx) -> bool {
        self.selected_index() is Some && self.file_list is Some ==> {
            let files = self.file_list->0@;
            let i = self.selected_index()->0 as int;
            &&& i < files.len()
            &&& (files[i]@.tags matches Some(l) && l.contains(tidx) && self.tags_list is Some)
                ==> tidx < self.tags_list->0@.len()
        }
    }

    /// `after` is `before` with tag `tidx` taken off the selected image:
    /// where the image has it, its first occurrence leaves the image's list
    /// (the last element takes its place; an emptied list becomes none), and
    /// the tag loses one use, or, where it had none, a warning is shown.
    pub open spec fn tag_removed(before: Self, after: Self, tidx: TagIdx) -> bool {
        if before.selected_index() is None || before.file_list is None {
            after == before
        } else {
            let i = before.selected_index()->0 as int;
            let files = before.file_list->0@;
            let img = files[i]@;
            if !(img.tags matches Some(l) && l.contains(tidx)) {
                after == before
            } else {
                let l = img.tags->0;
                let nl = swap_removed(l, first_index(l, tidx));
                let new_img = ImgView {
                    tags: if nl.len() == 0 {
                        None
                    } else {
                        Some(nl)
                    },
                    ..img
                };
                &&& after.file_list matches Some(nf) && img_views(nf@) == img_views(files).update(
                    i,
                    new_img,
                )
                &&& if before.tags_list is None {
                    after == Counter { file_list: after.file_list, ..before }
                } else {
                    let tags = before.tags_list->0@;
                    let t = tags[tidx as int];
                    if t.refs == 0 {
                        &&& after == Counter {
                            file_list: after.file_list,
                            error_message: after.error_message,
                            ..before
                        }
                        &&& after.error_message matches Some(m) && m@ == zero_refs_message()
                    } else {
                        &&& after == Counter {
                            file_list: after.file_list,
                            tags_list: after.tags_list,
                            ..before
                        }
                        &&& after.tags_list matches Some(nt) && nt@ == tags.update(
                            tidx as int,
                            Tag { refs: (t.refs - 1) as u32, ..t },
                        )
                    }
                }
            }
        }
    }

    /// Takes tag `tidx` off the selected image and counts one use less.
    fn remove_tag_from_selected(&mut self, tidx: TagIdx)
        requires
            old(self).wf(),
            old(self).can_remove_tag(tidx),
        ensures
            final(self).wf(),
            Self::tag_removed(*old(self), *final(self), tidx),
    {
        let file_idx = match self.get_selected_index() {
            None => {
                return;
            },
            Some(v) => v,
        };
        let ghost before = *self;
        let mut files = match self.file_list.take() {
            Some(f) => f,
            None => {
                return;
            },
        };
        let pos = match &files[file_idx].tags {
            None => None,
            Some(tl) => {
                let n = tl.len();
                let mut p: usize = 0;
                let mut found: Option<usize> = None;
                while p < n
                    invariant_except_break
                        found is None,
                    invariant
                        n == tl@.len(),
                        p <= n,
                        forall|j: int| 0 <= j < p ==> tl@[j] != tidx,
                    ensures
                        found matches Some(q) ==> is_first_index(tl@, tidx, q as int),
                        found is None ==> !tl@.contains(tidx),
                    decreases n - p,
                {
                    if tl[p] == tidx {
                        found = Some(p);
                        break;
                    }
                    p = p + 1;
                }
                found
            },
        };
        let p = match pos {
            None => {
                self.file_list = Some(files);
                return;
            },
            Some(p) => p,
        };
        let mut img = files.remove(file_idx);
        let ghost old_img = img@;
        let mut tl = match img.tags.take() {
            Some(v) => v,
            None => {
                proof {
                    assert(false);
                }
                Vec::new()
            },
        };
        let ghost ol = tl@;
        proof {
            assert(is_first_index(ol, tidx, first_index(ol, tidx)));
            assert(first_index(ol, tidx) == p);
        }
        tl.swap_remove(p);
        if tl.len() == 0 {
            img.tags = None;
        } else {
            img.tags = Some(tl);
        }
        files.insert(file_idx, img);
        proof {
            assert(img_views(files@) =~= img_views(before.file_list->0@).update(file_idx as int, img@));
        }
        self.file_list = Some(files);
        let mut tags = match self.tags_list.take() {
            None => {
                return;
            },
            Some(t) => t,
        };
        if tags[tidx as usize].refs == 0 {
            self.tags_list = Some(tags);
            self.error_message = Some(
                String::from_str(
                    "Warning! We removed a tag that had zero references. Something is off here.",
                ),
            );
            return;
        }
        let mut t = tags.remove(tidx as usize);
        t.refs = t.refs - 1;
        tags.insert(tidx as usize, t);
        proof {
            assert(tags@ =~= before.tags_list->0@.update(
                tidx as int,
                Tag { refs: (before.tags_list->0@[tidx as int].refs - 1) as u32, ..before.tags_list->0@[tidx as int] },
            ));
        }
        self.tags_list = Some(tags);
    }
}

/// The index a new tag gets: one more than that of the last tag, or 0.
pub open spec fn new_tag_index(tags: Seq<Tag>) -> u32 {
    if tags.len() == 0 {
        0
    } else {
        (tags.last().idx + 1) as u32
    }
}

/// The tags of an optional tag list; none where there is no list.
pub open spec fn tags_or_empty(tags: Option<Vec<Tag>>) -> Seq<Tag> {
    match tags {
        Some(t) => t@,
        None => seq![],
    }
}

impl<H, A> Counter<H, A> {
    /// The tag list once the typed tag name is in it, and the index of the
    /// tag of that name: an existing tag of that name, or a new tag with no
    /// use and the next index, put at the end.
    pub open spec fn tags_with_input(self) -> (Seq<Tag>, TagIdx) {
        let tags = tags_or_empty(self.tags_list);
        let k = tag_position(tag_names(tags), self.search_content@);
        if k < 0 {
            (
                tags.push(Tag { name: self.search_content, idx: new_tag_index(tags), refs: 0 }),
                new_tag_index(tags),
            )
        } else {
            (tags, k as TagIdx)
        }
    }

    /// Whether the typed tag name can be added to the selected image.
    pub open spec fn can_add_input_tag(self) -> bool {
        valid_tag_name(self.search_content@) ==> {
            let tags = tags_or_empty(self.tags_list);
            let k = tag_position(tag_names(tags), self.search_content@);
            &&& k < 0 && tags.len() > 0 ==> tags.last().idx < u32::MAX
            &&& add_tag_ok(
                self.selected_index(),
                Some(self.tags_with_input().0),
                self.file_list,
                self.tags_with_input().1,
            )
        }
    }

    /// `after` is `before` once the typed tag name is added to the selected
    /// image: an invalid name only shows an error; otherwise the name joins
    /// the tag list where it is new (and the typed text is cleared), and the
    /// tag of that name is added to the selected image.
    pub open spec fn input_tag_added(before: Self, after: Self) -> bool {
        if !valid_tag_name(before.search_content@) {
            &&& after == Counter { error_message: after.error_message, ..before }
            &&& after.error_message matches Some(m) && m@ == "Invalid tag name."@
        } else {
            let (tags, t) = before.tags_with_input();
            let is_new = tag_position(tag_names(tags_or_empty(before.tags_list)), before.search_content@) < 0;
            exists|mid: Self|
                #[trigger] Self::tag_added(mid, after, t) && mid == Counter {
                    tags_list: mid.tags_list,
                    search_content: mid.search_content,
                    ..before
                } && (mid.tags_list matches Some(mt) && mt@ == tags) && (if is_new {
                    mid.search_content@ == Seq::<char>::empty()
                } else {
                    mid.search_content == before.search_content
                })
        }
    }

    /// Adds the typed tag name to the selected image.
    fn add_input_tag(&mut self)
        requires
            old(self).wf(),
            old(self).can_add_input_tag(),
        ensures
            final(self).wf(),
            Self::input_tag_added(*old(self), *final(self)),
    {
        if !is_valid_tag(self.search_content.as_str()) {
            self.error_message = Some(String::from_str("Invalid tag name."));
            return;
        }
        let ghost before = *self;
        let mut tags = match self.tags_list.take() {
            None => Vec::new(),
            Some(l) => l,
        };
        assert(tags@ == tags_or_empty(before.tags_list));
        let n = tags.len();
        let mut k: usize = 0;
        let mut found: Option<usize> = None;
        while k < n
            invariant_except_break
                found is None,
            invariant
                n == tags@.len(),
                k <= n,
                forall|j: int| 0 <= j < k ==> tag_names(tags@)[j] != self.search_content@,
            ensures
                found matches Some(q) ==> q < n && tag_names(tags@)[q as int] == self.search_content@
                    && forall|j: int| 0 <= j < q ==> tag_names(tags@)[j] != self.search_content@,
                found is None ==> forall|j: int|
                    0 <= j < n ==> tag_names(tags@)[j] != self.search_content@,
            decreases n - k,
        {
            if tags[k].name == self.search_content {
                assert(tag_names(tags@)[k as int] == tags@[k as int].name@);
                found = Some(k);
                break;
            }
            k = k + 1;
        }
        proof {
            let names = tag_names(tags@);
            match found {
                Some(q) => {
                    assert(is_first_tag_named(names, self.search_content@, q as int));
                    assert(tag_position(names, self.search_content@) == q);
                },
                None => {
                    if exists|j: int| is_first_tag_named(names, self.search_content@, j) {
                        let j = choose|j: int| is_first_tag_named(names, self.search_content@, j);
                        assert(names[j] != self.search_content@);
                    }
                },
            }
        }
        match found {
            None => {
                let next_idx = if n == 0 {
                    0
                } else {
                    tags[n - 1].idx + 1
                };
                tags.push(Tag { name: self.search_content.clone(), idx: next_idx, refs: 0 });
                self.tags_list = Some(tags);
                self.search_content = String::new();
                let ghost mid = *self;
                self.add_tag_to_selected(next_idx);
                assert(Self::tag_added(mid, *self, next_idx));
            },
            Some(i) => {
                self.tags_list = Some(tags);
                let ghost mid = *self;
                self.add_tag_to_selected(i as u32);
                assert(Self::tag_added(mid, *self, i as u32));
            },
        }
    }
}

/// The images among positions `idxs` that have no thumbnail yet, with their
/// paths, in order.
pub open spec fn thumbnails_to_load<H>(
    idxs: Seq<usize>,
    thumbs: Seq<Option<H>>,
    files: Seq<Img>,
) -> Seq<(usize, String)>
    decreases idxs.len(),
{
    if idxs.len() == 0 {
        seq![]
    } else {
        let rest = thumbnails_to_load(idxs.drop_last(), thumbs, files);
        let i = idxs.last();
        if thumbs[i as int] is None {
            rest.push((i, files[i as int].path))
        } else {
            rest
        }
    }
}

impl<H, A> Counter<H, A> {
    /// `after` and `action` are what running the typed search on `before`
    /// gives: without tags or images an error and no filter; with an error
    /// in the search text its message and no filter; otherwise the matching
    /// positions become the filter, and the thumbnails of those images that
    /// have none are loaded.
    pub open spec fn searched(before: Self, after: Self, action: Action) -> bool {
        if before.tags_list is None {
            &&& after == Counter {
                file_filter_indices: None,
                error_message: after.error_message,
                ..before
            }
            &&& after.error_message matches Some(m) && m@ == "No tags to search for."@
            &&& action is Nothing
        } else if before.file_list is None {
            &&& after == Counter {
                file_filter_indices: None,
                error_message: after.error_message,
                ..before
            }
            &&& after.error_message matches Some(m) && m@ == "No files to look at."@
            &&& action is Nothing
        } else {
            let files = before.file_list->0@;
            match search_result(before.search_content@, tag_names(before.tags_list->0@), files) {
                Err(m) => {
                    &&& after == Counter {
                        file_filter_indices: None,
                        error_message: after.error_message,
                        ..before
                    }
                    &&& after.error_message matches Some(x) && x@ == m
                    &&& action is Nothing
                },
                Ok(v) => {
                    let load = thumbnails_to_load(v, before.thumbnails@, files);
                    &&& after == Counter {
                        file_filter_indices: after.file_filter_indices,
                        thumbnail_progress: Some(Progress { current: 0, max: load.len() as u32 }),
                        ..before
                    }
                    &&& after.file_filter_indices matches Some(f) && f@ == v
                    &&& action matches Action::LoadThumbnails(l) && l@ == load
                },
            }
        }
    }

    /// Runs the typed search.
    fn search_send(&mut self) -> (action: Action)
        requires
            old(self).wf(),
        ensures
            final(self).wf(),
            Self::searched(*old(self), *final(self), action),
    {
        if self.tags_list.is_none() {
            self.file_filter_indices = None;
            self.error_message = Some(String::from_str("No tags to search for."));
            return Action::Nothing;
        }
        if self.file_list.is_none() {
            self.file_filter_indices = None;
            self.error_message = Some(String::from_str("No files to look at."));
            return Action::Nothing;
        }
        let ghost before = *self;
        let result = match (&self.tags_list, &self.file_list) {
            (Some(tags), Some(images)) => filter_to_string(
                self.search_content.clone(),
                tags,
                images.as_slice(),
            ),
            _ => {
                proof {
                    assert(false);
                }
                return Action::Nothing;
            },
        };
        let filter_indices = match result {
            Ok(v) => v,
            Err(s) => {
                self.file_filter_indices = None;
                self.error_message = Some(s);
                return Action::Nothing;
            },
        };
        let ghost files = before.file_list->0@;
        let ghost v = filter_indices@;
        let nfiles = match &self.file_list {
            Some(l) => l.len(),
            None => 0,
        };
        proof {
            lemma_search_in_range(
                before.search_content@,
                tag_names(before.tags_list->0@),
                files,
            );
        }
        let mut load: Vec<(usize, String)> = Vec::new();
        let m = filter_indices.len();
        let mut k: usize = 0;
        while k < m
            invariant
                m == filter_indices@.len(),
                v == filter_indices@,
                k <= m,
                forall|j: int| 0 <= j < v.len() ==> v[j] < files.len(),
                *self == before,
                self.file_list matches Some(l) && l@ == files,
                self.thumbnails@.len() == files.len(),
                load@ == thumbnails_to_load(v.take(k as int), self.thumbnails@, files),
            decreases m - k,
        {
            let i = filter_indices[k];
            assert(v.take(k + 1).drop_last() =~= v.take(k as int));
            if self.thumbnails[i].is_none() {
                match &self.file_list {
                    Some(l) => {
                        load.push((i, l[i].path.clone()));
                    },
                    None => {},
                }
            }
            k = k + 1;
        }
        assert(v.take(m as int) =~= v);
        self.file_filter_indices = Some(filter_indices);
        let count = load.len() as u32;
        self.thumbnail_progress = Some(Progress { current: 0, max: count });
        Action::LoadThumbnails(load)
    }
}

/// Whether `k` is the first entry showing image `idx`.
pub open spec fn is_first_entry<A>(entries: Seq<CollectionElement<A>>, idx: usize, k: int) -> bool {
    &&& 0 <= k < entries.len()
    &&& entries[k].img_idx == idx
    &&& forall|j: int| 0 <= j < k ==> (#[trigger] entries[j]).img_idx != idx
}

/// Whether `k` is the last entry showing image `idx`.
pub open spec fn is_last_entry<A>(entries: Seq<CollectionElement<A>>, idx: usize, k: int) -> bool {
    &&& 0 <= k < entries.len()
    &&& entries[k].img_idx == idx
    &&& forall|j: int| k < j < entries.len() ==> (#[trigger] entries[j]).img_idx != idx
}

/// Whether some entry shows image `idx`.
pub open spec fn shows_image<A>(entries: Seq<CollectionElement<A>>, idx: usize) -> bool {
    exists|k: int| 0 <= k < entries.len() && (#[trigger] entries[k]).img_idx == idx
}

/// A new collection entry for image `idx`.
pub open spec fn new_entry<A>(files: Seq<Img>, idx: usize) -> CollectionElement<A> {
    CollectionElement { img_idx: idx, name: files[idx as int].name, alloc: None }
}

/// One more image to load for the collection.
pub open spec fn grown(p: Option<Progress>, n: u32) -> Option<Progress> {
    match p {
        None => Some(Progress { current: 0, max: n }),
        Some(p) => Some(Progress { max: (p.max + n) as u32, ..p }),
    }
}

impl<H, A> Counter<H, A> {
    /// Whether image `idx` can be put in or taken out of the collection:
    /// where it would be put in, it is in the image list and the count of
    /// images to load can grow.
    pub open spec fn can_toggle(self, idx: usize) -> bool {
        match self.collection {
            None => self.file_list is Some ==> idx < files_len(self.file_list),
            Some(c) => !shows_image(c.entries@, idx) && self.file_list is Some ==> {
                &&& idx < files_len(self.file_list)
                &&& self.collection_progress matches Some(p) ==> p.max < u32::MAX
            },
        }
    }

    /// `after` and `action` are what putting image `idx` in the collection,
    /// or taking it out where it is in, gives: a new collection holds just
    /// it; otherwise its first entry leaves (an emptied collection goes, and
    /// the shown entry stays in range), or a new entry comes at the end. A
    /// new entry's full-size image is loaded.
    pub open spec fn toggled(before: Self, after: Self, idx: usize, action: Action) -> bool {
        match before.collection {
            None => if before.file_list is None {
                after == before && action is Nothing
            } else {
                let files = before.file_list->0@;
                &&& after == Counter {
                    collection: after.collection,
                    collection_progress: Some(Progress { current: 0, max: 1 }),
                    ..before
                }
                &&& after.collection matches Some(c) && c.selected == 0 && c.entries@ == seq![
                    new_entry::<A>(files, idx),
                ]
                &&& action matches Action::AllocateImages(l) && l@ == seq![
                    (idx, files[idx as int].path),
                ]
            },
            Some(c) => if shows_image(c.entries@, idx) {
                let k = choose|k: int| is_first_entry(c.entries@, idx, k);
                let rest = c.entries@.remove(k);
                &&& action is Nothing
                &&& if rest.len() == 0 {
                    after == Counter { collection: None, ..before }
                } else {
                    &&& after == Counter { collection: after.collection, ..before }
                    &&& after.collection matches Some(c2) && c2.entries@ == rest && c2.selected == (
                    if c.selected >= rest.len() {
                        (rest.len() - 1) as usize
                    } else {
                        c.selected
                    })
                }
            } else if before.file_list is None {
                after == before && action is Nothing
            } else {
                let files = before.file_list->0@;
                &&& after == Counter {
                    collection: after.collection,
                    collection_progress: grown(before.collection_progress, 1),
                    ..before
                }
                &&& after.collection matches Some(c2) && c2.selected == c.selected && c2.entries@
                    == c.entries@.push(new_entry(files, idx))
                &&& action matches Action::AllocateImages(l) && l@ == seq![
                    (idx, files[idx as int].path),
                ]
            },
        }
    }

    /// Puts image `idx` in the collection, or takes it out.
    fn toggle_into_collection(&mut self, idx: usize) -> (action: Action)
        requires
            old(self).wf(),
            old(self).can_toggle(idx),
        ensures
            final(self).wf(),
            Self::toggled(*old(self), *final(self), idx, action),
    {
        let ghost before = *self;
        match self.collection.take() {
            None => {
                let (name, path) = match &self.file_list {
                    None => {
                        return Action::Nothing;
                    },
                    Some(list) => (list[idx].name.clone(), list[idx].path.clone()),
                };
                let mut entries: Vec<CollectionElement<A>> = Vec::new();
                entries.push(CollectionElement { img_idx: idx, name, alloc: None });
                self.collection = Some(Collection { selected: 0, entries });
                self.collection_progress = Some(Progress { current: 0, max: 1 });
                let mut load: Vec<(usize, String)> = Vec::new();
                load.push((idx, path));
                proof {
                    assert(self.collection->0.entries@ =~= seq![new_entry::<A>(before.file_list->0@, idx)]);
                    assert(load@ =~= seq![(idx, before.file_list->0@[idx as int].path)]);
                }
                Action::AllocateImages(load)
            },
            Some(mut col) => {
                let n = col.entries.len();
                let mut k: usize = 0;
                let mut found: Option<usize> = None;
                while k < n
                    invariant_except_break
                        found is None,
                    invariant
                        n == col.entries@.len(),
                        k <= n,
                        forall|j: int| 0 <= j < k ==> (#[trigger] col.entries@[j]).img_idx != idx,
                    ensures
                        found matches Some(q) ==> is_first_entry(col.entries@, idx, q as int),
                        found is None ==> !shows_image(col.entries@, idx),
                    decreases n - k,
                {
                    if col.entries[k].img_idx == idx {
                        found = Some(k);
                        break;
                    }
                    k = k + 1;
                }
                match found {
                    Some(i) => {
                        proof {
                            assert(shows_image(col.entries@, idx));
                            let k0 = choose|k: int| is_first_entry(col.entries@, idx, k);
                            assert(k0 == i);
                        }
                        col.entries.remove(i);
                        let new_len = col.entries.len();
                        if new_len == 0 {
                            self.collection = None;
                        } else {
                            if col.selected >= new_len {
                                col.selected = new_len - 1;
                            }
                            self.collection = Some(col);
                        }
                        Action::Nothing
                    },
                    None => {
                        let (name, path) = match &self.file_list {
                            None => {
                                self.collection = Some(col);
                                return Action::Nothing;
                            },
                            Some(list) => (list[idx].name.clone(), list[idx].path.clone()),
                        };
                        col.entries.push(CollectionElement { img_idx: idx, name, alloc: None });
                        self.collection = Some(col);
                        match self.collection_progress.take() {
                            None => {
                                self.collection_progress = Some(Progress { current: 0, max: 1 });
                            },
                            Some(p) => {
                                self.collection_progress = Some(
                                    Progress { current: p.current, max: p.max + 1 },
                                );
                            },
                        }
                        let mut load: Vec<(usize, String)> = Vec::new();
                        load.push((idx, path));
                        proof {
                            assert(load@ =~= seq![(idx, before.file_list->0@[idx as int].path)]);
                        }
                        Action::AllocateImages(load)
                    },
                }
            },
        }
    }

    /// The state with the previous image of the collection shown, where
    /// there is one.
    pub open spec fn moved_left(self) -> Self {
        match self.collection {
            Some(c) => if c.selected > 0 {
                Counter {
                    collection: Some(Collection { selected: (c.selected - 1) as usize, ..c }),
                    ..self
                }
            } else {
                self
            },
            None => self,
        }
    }

    /// The state with the next image of the collection shown, where there is
    /// one.
    pub open spec fn moved_right(self) -> Self {
        match self.collection {
            Some(c) => if c.selected < c.entries@.len() - 1 {
                Counter {
                    collection: Some(Collection { selected: (c.selected + 1) as usize, ..c }),
                    ..self
                }
            } else {
                self
            },
            None => self,
        }
    }

    /// Shows the previous image of the collection, where there is one.
    fn collection_left(&mut self)
        requires
            old(self).wf(),
        ensures
            final(self).wf(),
            *final(self) == old(self).moved_left(),
    {
        match self.collection.take() {
            None => {},
            Some(mut c) => {
                if c.selected > 0 {
                    c.selected = c.selected - 1;
                }
                self.collection = Some(c);
            },
        }
    }

    /// Shows the next image of the collection, where there is one.
    fn collection_right(&mut self)
        requires
            old(self).wf(),
        ensures
            final(self).wf(),
            *final(self) == old(self).moved_right(),
    {
        match self.collection.take() {
            None => {},
            Some(mut c) => {
                if c.selected < c.entries.len() - 1 {
                    c.selected = c.selected + 1;
                }
                self.collection = Some(c);
            },
        }
    }
}

/// The positions that "add all" puts in the collection: the filtered ones,
/// or all images where there is no filter.
pub open spec fn positions_to_add(filter: Option<Vec<usize>>, n: nat) -> Seq<usize> {
    match filter {
        Some(f) => f@,
        None => Seq::new(n, |i: int| i as usize),
    }
}

/// New collection entries for the images at `idxs`.
pub open spec fn new_entries<A>(files: Seq<Img>, idxs: Seq<usize>) -> Seq<CollectionElement<A>> {
    Seq::new(idxs.len(), |k: int| new_entry::<A>(files, idxs[k]))
}

/// The images at `idxs` with their paths.
pub open spec fn with_paths(files: Seq<Img>, idxs: Seq<usize>) -> Seq<(usize, String)> {
    Seq::new(idxs.len(), |k: int| (idxs[k], files[idxs[k] as int].path))
}

/// One more loaded image of the collection: the loading is over once all
/// are in.
pub open spec fn advanced(p: Option<Progress>) -> Option<Progress> {
    match p {
        None => None,
        Some(p) => if p.current + 1 >= p.max {
            None
        } else {
            Some(Progress { current: (p.current + 1) as u32, ..p })
        },
    }
}

impl<H, A> Counter<H, A> {
    /// Whether "add all" can count the images it adds.
    pub open spec fn can_add_all(self) -> bool {
        self.file_list is Some ==> {
            let idxs = positions_to_add(self.file_filter_indices, files_len(self.file_list) as nat);
            idxs.len() > 0 && self.collection_progress is Some ==> self.collection_progress->0.max
                + (idxs.len() as u32) <= u32::MAX
        }
    }

    /// `after` and `action` are what adding all (filtered) images to the
    /// collection gives: their entries come at the end of the collection
    /// (made where there is none), and their full-size images are loaded.
    pub open spec fn added_all(before: Self, after: Self, action: Action) -> bool {
        if before.file_list is None {
            after == before && action is Nothing
        } else {
            let files = before.file_list->0@;
            let idxs = positions_to_add(before.file_filter_indices, files.len());
            if idxs.len() == 0 {
                after == before && action is Nothing
            } else {
                let (selected, entries) = match before.collection {
                    Some(c) => (c.selected, c.entries@),
                    None => (0usize, Seq::<CollectionElement<A>>::empty()),
                };
                &&& after == Counter {
                    collection: after.collection,
                    collection_progress: grown(before.collection_progress, idxs.len() as u32),
                    ..before
                }
                &&& after.collection matches Some(c) && c.selected == selected && c.entries@
                    == entries + new_entries::<A>(files, idxs)
                &&& action matches Action::AllocateImages(l) && l@ == with_paths(files, idxs)
            }
        }
    }

    /// Puts all images, or all filtered images, in the collection.
    fn add_all_to_collection(&mut self) -> (action: Action)
        requires
            old(self).wf(),
            old(self).can_add_all(),
        ensures
            final(self).wf(),
            Self::added_all(*old(self), *final(self), action),
    {
        let ghost before = *self;
        let files = match self.file_list.take() {
            None => {
                return Action::Nothing;
            },
            Some(l) => l,
        };
        let idxs: Vec<usize> = match &self.file_filter_indices {
            Some(f) => f.clone(),
            None => {
                let mut all: Vec<usize> = Vec::new();
                let n = files.len();
                let mut i: usize = 0;
                while i < n
                    invariant
                        n == files@.len(),
                        i <= n,
                        all@ == Seq::new(i as nat, |j: int| j as usize),
                    decreases n - i,
                {
                    all.push(i);
                    i = i + 1;
                    assert(all@ =~= Seq::new(i as nat, |j: int| j as usize));
                }
                all
            },
        };
        assert(idxs@ =~= positions_to_add(before.file_filter_indices, files@.len()));
        if idxs.len() == 0 {
            self.file_list = Some(files);
            return Action::Nothing;
        }
        let ghost fv = files@;
        assert(forall|j: int| 0 <= j < idxs@.len() ==> idxs@[j] < fv.len());
        let mut col = match self.collection.take() {
            Some(c) => c,
            None => Collection { selected: 0, entries: Vec::new() },
        };
        let ghost start = col.entries@;
        let mut load: Vec<(usize, String)> = Vec::new();
        let m = idxs.len();
        let mut k: usize = 0;
        while k < m
            invariant
                m == idxs@.len(),
                k <= m,
                fv == files@,
                before.wf(),
                before.file_list == Some(files),
                *self == (Counter { file_list: None, collection: None, ..before }),
                idxs@ == positions_to_add(before.file_filter_indices, fv.len()),
                col.selected == (match before.collection {
                    Some(c) => c.selected,
                    None => 0,
                }),
                forall|j: int| 0 <= j < idxs@.len() ==> idxs@[j] < fv.len(),
                col.entries@ == start + new_entries::<A>(fv, idxs@.take(k as int)),
                load@ == with_paths(fv, idxs@.take(k as int)),
            decreases m - k,
        {
            let i = idxs[k];
            col.entries.push(CollectionElement { img_idx: i, name: files[i].name.clone(), alloc: None });
            load.push((i, files[i].path.clone()));
            k = k + 1;
            assert(col.entries@ =~= start + new_entries::<A>(fv, idxs@.take(k as int)));
            assert(load@ =~= with_paths(fv, idxs@.take(k as int)));
        }
        assert(idxs@.take(m as int) =~= idxs@);
        proof {
            assert(start == (match before.collection {
                Some(c) => c.entries@,
                None => Seq::<CollectionElement<A>>::empty(),
            }));
            assert forall|j: int| 0 <= j < col.entries@.len() implies (
            #[trigger] col.entries@[j]).img_idx < fv.len() by {
                if j >= start.len() {
                    assert(col.entries@[j] == new_entry::<A>(fv, idxs@[j - start.len()]));
                } else {
                    assert(col.entries@[j] == start[j]);
                    assert(before.collection is Some);
                    assert(start[j] == before.collection->0.entries@[j]);
                }
            }
        }
        self.collection = Some(col);
        self.file_list = Some(files);
        let count = m as u32;
        match self.collection_progress.take() {
            None => {
                self.collection_progress = Some(Progress { current: 0, max: count });
            },
            Some(p) => {
                self.collection_progress = Some(Progress { current: p.current, max: p.max + count });
            },
        }
        Action::AllocateImages(load)
    }

    /// Whether a loaded full-size image can be counted.
    pub open spec fn can_count_allocation(self) -> bool {
        self.collection_progress matches Some(p) ==> p.current < u32::MAX
    }

    /// `after` is `before` once the full-size image `alloc` of image `idx`
    /// has loaded: the last collection entry of that image holds it, and it
    /// counts as loaded.
    pub open spec fn allocated(before: Self, after: Self, alloc: A, idx: usize) -> bool {
        match before.collection {
            Some(c) => if shows_image(c.entries@, idx) {
                let k = choose|k: int| is_last_entry(c.entries@, idx, k);
                &&& after == Counter {
                    collection: after.collection,
                    collection_progress: advanced(before.collection_progress),
                    ..before
                }
                &&& after.collection matches Some(c2) && c2.selected == c.selected && c2.entries@
                    == c.entries@.update(k, CollectionElement { alloc: Some(alloc), ..c.entries@[k] })
            } else {
                after == before
            },
            None => after == before,
        }
    }

    /// Keeps the full-size image `alloc` of image `idx` in the collection.
    fn collection_image_allocated(&mut self, alloc: A, idx: usize)
        requires
            old(self).wf(),
            old(self).can_count_allocation(),
        ensures
            final(self).wf(),
            Self::allocated(*old(self), *final(self), alloc, idx),
    {
        let mut col = match self.collection.take() {
            None => {
                return;
            },
            Some(c) => c,
        };
        let n = col.entries.len();
        let mut k: usize = n;
        let mut found: Option<usize> = None;
        while k > 0
            invariant_except_break
                found is None,
            invariant
                n == col.entries@.len(),
                k <= n,
                forall|j: int| k <= j < n ==> (#[trigger] col.entries@[j]).img_idx != idx,
            ensures
                found matches Some(q) ==> is_last_entry(col.entries@, idx, q as int),
                found is None ==> !shows_image(col.entries@, idx),
            decreases k,
        {
            if col.entries[k - 1].img_idx == idx {
                found = Some(k - 1);
                break;
            }
            k = k - 1;
        }
        match found {
            None => {
                self.collection = Some(col);
            },
            Some(i) => {
                proof {
                    assert(shows_image(col.entries@, idx));
                    let k0 = choose|k: int| is_last_entry(col.entries@, idx, k);
                    assert(k0 == i);
                }
                let ghost old_entries = col.entries@;
                let mut entry = col.entries.remove(i);
                entry.alloc = Some(alloc);
                col.entries.insert(i, entry);
                assert(col.entries@ =~= old_entries.update(
                    i as int,
                    CollectionElement { alloc: Some(alloc), ..old_entries[i as int] },
                ));
                self.collection = Some(col);
                match self.collection_progress.take() {
                    None => {},
                    Some(p) => {
                        let current = p.current + 1;
                        if current >= p.max {
                            self.collection_progress = None;
                        } else {
                            self.collection_progress = Some(Progress { current, max: p.max });
                        }
                    },
                }
            },
        }
    }
}

impl<H, A> Counter<H, A> {
    /// Whether the tags can be compressed before they are saved.
    pub open spec fn can_save(self) -> bool {
        self.tags_list is Some && self.file_list is Some ==> compressible(
            tag_views(self.tags_list->0@),
            img_views(self.file_list->0@),
        )
    }

    /// `after` and `bytes` are what preparing to save `before` gives: where
    /// there are tags and images, the tags are compressed, and `bytes` is the
    /// tag file for them; otherwise nothing changes and there is nothing to
    /// write.
    pub open spec fn saved(before: Self, after: Self, bytes: Option<Vec<u8>>) -> bool {
        if before.tags_list is Some && before.file_list is Some {
            let tags = tag_views(before.tags_list->0@);
            let files = img_views(before.file_list->0@);
            let new_tags = compressed(tags, tags.len() as int);
            let new_files = files.map_values(|img: ImgView| remap_image(tags, img));
            &&& after == Counter { tags_list: after.tags_list, file_list: after.file_list, ..before }
            &&& after.tags_list matches Some(t) && tag_views(t@) == new_tags
            &&& after.file_list matches Some(f) && img_views(f@) == new_files
            &&& bytes matches Some(b) && b@ == metadata_bytes(new_tags, new_files)
        } else {
            after == before && bytes is None
        }
    }

    /// Compresses the tags, where there are tags and images, and gives the
    /// bytes of the tag file to write.
    pub fn compress_and_save_to_file(&mut self) -> (bytes: Option<Vec<u8>>)
        requires
            old(self).wf(),
            old(self).can_save(),
        ensures
            final(self).wf(),
            Self::saved(*old(self), *final(self), bytes),
    {
        if self.tags_list.is_none() || self.file_list.is_none() {
            return None;
        }
        let ghost before = *self;
        let mut tags = match self.tags_list.take() {
            Some(t) => t,
            None => {
                return None;
            },
        };
        let mut images = match self.file_list.take() {
            Some(f) => f,
            None => {
                self.tags_list = Some(tags);
                return None;
            },
        };
        compress_tags(&mut tags, &mut images);
        let bytes = encode_metadata(&tags, &images);
        self.tags_list = Some(tags);
        self.file_list = Some(images);
        proof {
            assert(img_views(images@).len() == img_views(before.file_list->0@).len());
        }
        Some(bytes)
    }

    /// The folder that entry `idx` of the folder list names; `None` for the
    /// starting folder, where there is no list or no entry given.
    pub fn get_dir_from(&self, idx: Option<usize>) -> (r: Option<String>)
        requires
            match (self.directory_list, idx) {
                (Some(l), Some(i)) => i < l@.len(),
                _ => true,
            },
        ensures
            r == (match (self.directory_list, idx) {
                (Some(l), Some(i)) => Some(l@[i as int].path),
                _ => None,
            }),
    {
        let list = match &self.directory_list {
            None => {
                return None;
            },
            Some(l) => l,
        };
        match idx {
            None => None,
            Some(i) => Some(list[i].path.clone()),
        }
    }
}

/// The message shown where the tag file of a folder cannot be read.
pub open spec fn unreadable_tags_message() -> Seq<char> {
    "Could not read the tag file of this folder."@
}

/// `n` thumbnail slots, none loaded.
pub open spec fn no_thumbnails<H>(n: nat) -> Seq<Option<H>> {
    Seq::new(n, |i: int| None)
}

impl<H, A> Counter<H, A> {
    /// `after` and `r` are what loading the current folder gives, with its
    /// sub-folders `dirs`, its images `images` and the bytes `metadata` of its
    /// tag file: tags, filter, collection, selection and thumbnail loading are
    /// reset; the tag file gives the images their tags and the tag list (none
    /// where an image name in it is not UTF-8), and all thumbnails are
    /// loaded. A tag file that cannot be read gives no tags and shows
    /// [`unreadable_tags_message`].
    pub open spec fn loaded(
        before: Self,
        after: Self,
        dirs: Option<Vec<Dir>>,
        images: Option<Vec<Img>>,
        metadata: Option<Vec<u8>>,
        r: Action,
    ) -> bool {
        let base = Counter {
            tags_list: None,
            file_filter_indices: None,
            collection: None,
            selected_file_idx: None,
            thumbnail_progress: None,
            directory_list: dirs,
            ..before
        };
        match images {
            None => {
                &&& after == Counter { file_list: None, thumbnails: after.thumbnails, ..base }
                &&& after.thumbnails@.len() == 0
                &&& r is Nothing
            },
            Some(list) => {
                let fresh = img_views(list@);
                let n = list@.len();
                let parsed = match metadata {
                    Some(b) => parse_metadata(b@),
                    None => MetadataParse::BadName(seq![]),
                };
                let (tags, lines) = match parsed {
                    MetadataParse::Complete(t, l) => (Some(t), l),
                    MetadataParse::BadName(l) => (None, l),
                    MetadataParse::Broken => (None, seq![]),
                };
                &&& after == Counter {
                    file_list: after.file_list,
                    thumbnails: after.thumbnails,
                    tags_list: after.tags_list,
                    error_message: after.error_message,
                    thumbnail_progress: Some(Progress { current: 0, max: n as u32 }),
                    ..base
                }
                &&& if parsed is Broken {
                    after.error_message matches Some(m) && m@ == unreadable_tags_message()
                } else {
                    after.error_message == before.error_message
                }
                &&& after.file_list matches Some(f) && img_views(f@) == apply_lines(fresh, lines)
                &&& match tags {
                    Some(t) => after.tags_list matches Some(tl) && tag_views(tl@) == t,
                    None => after.tags_list is None,
                }
                &&& after.thumbnails@ == no_thumbnails::<H>(n)
                &&& r matches Action::LoadThumbnails(l) && l@ == with_paths(
                    list@,
                    Seq::new(n, |i: int| i as usize),
                )
            },
        }
    }

    /// Loads the current folder: its sub-folders `dirs`, its images `images`
    /// and the bytes `metadata` of its tag file, where it has one that could
    /// be read.
    pub fn load_values_of_current_dir(
        &mut self,
        dirs: Option<Vec<Dir>>,
        images: Option<Vec<Img>>,
        metadata: Option<Vec<u8>>,
    ) -> (r: Action)
        requires
            old(self).wf(),
        ensures
            final(self).wf(),
            Self::loaded(*old(self), *final(self), dirs, images, metadata, r),
    {
        self.tags_list = None;
        self.file_filter_indices = None;
        self.collection = None;
        self.selected_file_idx = None;
        self.thumbnail_progress = None;
        self.directory_list = dirs;
        let mut list = match images {
            None => {
                self.file_list = None;
                self.thumbnails = Vec::new();
                return Action::Nothing;
            },
            Some(l) => l,
        };
        let ghost listed = list@;
        let n = list.len();
        let mut load: Vec<(usize, String)> = Vec::new();
        let mut thumbs: Vec<Option<H>> = Vec::new();
        let mut i: usize = 0;
        while i < n
            invariant
                n == list@.len(),
                list@ == listed,
                i <= n,
                load@ == with_paths(listed, Seq::new(i as nat, |j: int| j as usize)),
                thumbs@ == no_thumbnails::<H>(i as nat),
            decreases n - i,
        {
            load.push((i, list[i].path.clone()));
            thumbs.push(None);
            i = i + 1;
            assert(load@ =~= with_paths(listed, Seq::new(i as nat, |j: int| j as usize)));
            assert(thumbs@ =~= no_thumbnails::<H>(i as nat));
        }
        let tags = match &metadata {
            None => None,
            Some(b) => match apply_metadata(b.as_slice(), &mut list) {
                Ok(t) => Some(t),
                Err(MetadataError::InvalidFileName) => None,
                Err(MetadataError::Malformed) => {
                    self.error_message = Some(String::from_str("Could not read the tag file of this folder."));
                    None
                },
            },
        };
        proof {
            if metadata is None {
                assert(apply_lines(img_views(listed), seq![]) == img_views(listed));
            }
            assert(img_views(list@).len() == n);
        }
        self.file_list = Some(list);
        self.tags_list = tags;
        self.thumbnails = thumbs;
        self.thumbnail_progress = Some(Progress { current: 0, max: n as u32 });
        Action::LoadThumbnails(load)
    }

    /// `after` and `r` are what entering `directory` after saving gives: an
    /// error is shown where the tag file could not be written (`save_ok`
    /// false), then the folder is loaded as [`Self::loaded`] says.
    pub open spec fn entered(
        before: Self,
        after: Self,
        directory: String,
        save_ok: bool,
        dirs: Option<Vec<Dir>>,
        images: Option<Vec<Img>>,
        metadata: Option<Vec<u8>>,
        r: Action,
    ) -> bool {
        exists|mid: Self|
            #![trigger Self::loaded(mid, after, dirs, images, metadata, r)]
            Self::loaded(mid, after, dirs, images, metadata, r) && mid == (Counter {
                directory,
                error_message: mid.error_message,
                ..before
            }) && (if save_ok {
                mid.error_message == before.error_message
            } else {
                mid.error_message matches Some(m) && m@ == "Could not write metadata to file."@
            })
    }

    /// Enters `directory` after saving: shows an error where the tag file of
    /// the previous folder could not be written, then loads the folder.
    pub fn enter_directory(
        &mut self,
        directory: String,
        save_ok: bool,
        dirs: Option<Vec<Dir>>,
        images: Option<Vec<Img>>,
        metadata: Option<Vec<u8>>,
    ) -> (r: Action)
        requires
            old(self).wf(),
        ensures
            final(self).wf(),
            Self::entered(*old(self), *final(self), directory, save_ok, dirs, images, metadata, r),
    {
        if !save_ok {
            self.error_message = Some(String::from_str("Could not write metadata to file."));
        }
        self.directory = directory;
        let ghost mid = *self;
        let r = self.load_values_of_current_dir(dirs, images, metadata);
        assert(Self::loaded(mid, *self, dirs, images, metadata, r));
        r
    }
}


impl<H, A> Counter<H, A> {
    /// The starting state in folder `directory`, whose sub-folders are
    /// `directory_list`: no panel, the explorer, nothing loaded.
    pub fn new(directory: String, directory_list: Option<Vec<Dir>>) -> (r: Self)
        ensures
            r.wf(),
            r == (Counter::<H, A> {
                panel: Panel::Hidden,
                body_panel: BodyPanel::Explore,
                directory_list,
                directory,
                file_list: None,
                thumbnails: r.thumbnails,
                file_filter_indices: None,
                search_content: r.search_content,
                tags_list: None,
                selected_file_idx: None,
                error_message: None,
                collection: None,
                thumbnail_progress: None,
                collection_progress: None,
            }),
            r.thumbnails@.len() == 0,
            r.search_content@ == Seq::<char>::empty(),
    {
        Counter {
            panel: Panel::Hidden,
            body_panel: BodyPanel::Explore,
            directory_list,
            directory,
            file_list: None,
            thumbnails: Vec::new(),
            file_filter_indices: None,
            search_content: String::new(),
            tags_list: None,
            selected_file_idx: None,
            error_message: None,
            collection: None,
            thumbnail_progress: None,
            collection_progress: None,
        }
    }

    /// Whether a loaded thumbnail can be counted.
    pub open spec fn can_count_thumbnail(self) -> bool {
        self.thumbnail_progress matches Some(p) ==> p.current < u32::MAX
    }

    /// `after` is `before` once the thumbnail `handle` of image `idx` has
    /// loaded: it counts as loaded, and it is kept where `idx` is a position
    /// of the image list.
    pub open spec fn thumbnail_kept(before: Self, after: Self, idx: usize, handle: H) -> bool {
        &&& after == Counter {
            thumbnails: after.thumbnails,
            thumbnail_progress: match before.thumbnail_progress {
                Some(p) => Some(Progress { current: (p.current + 1) as u32, ..p }),
                None => None,
            },
            ..before
        }
        &&& after.thumbnails@ == if before.file_list is Some && idx < files_len(before.file_list) {
            before.thumbnails@.update(idx as int, Some(handle))
        } else {
            before.thumbnails@
        }
    }

    /// Keeps the thumbnail `handle` of image `idx`.
    fn image_loaded(&mut self, idx: usize, handle: H)
        requires
            old(self).wf(),
            old(self).can_count_thumbnail(),
        ensures
            final(self).wf(),
            Self::thumbnail_kept(*old(self), *final(self), idx, handle),
    {
        match self.thumbnail_progress.take() {
            None => {},
            Some(p) => {
                self.thumbnail_progress = Some(Progress { current: p.current + 1, max: p.max });
            },
        }
        let n = match &self.file_list {
            None => {
                return;
            },
            Some(l) => l.len(),
        };
        if idx < n {
            self.thumbnails.set(idx, Some(handle));
        }
    }

    /// Whether tag `tidx` can be put in the search text.
    pub open spec fn can_add_term(self, tidx: TagIdx) -> bool {
        self.tags_list matches Some(l) ==> tidx < l@.len()
    }

    /// `after` is `before` with the name of tag `tidx` put at the end of the
    /// search text, after a space, or after " -" where `negative`, where
    /// there is a tag list.
    pub open spec fn term_added(before: Self, after: Self, tidx: TagIdx, negative: bool) -> bool {
        match before.tags_list {
            Some(l) => {
                &&& after == Counter { search_content: after.search_content, ..before }
                &&& after.search_content@ == before.search_content@ + (if negative {
                    seq![' ', '-']
                } else {
                    seq![' ']
                }) + l@[tidx as int].name@
            },
            None => after == before,
        }
    }

    /// Puts the name of tag `tidx` in the search text, as a wanted tag or,
    /// where `negative`, as an unwanted one.
    fn add_search_term(&mut self, tidx: TagIdx, negative: bool)
        requires
            old(self).wf(),
            old(self).can_add_term(tidx),
        ensures
            final(self).wf(),
            Self::term_added(*old(self), *final(self), tidx, negative),
    {
        let name = match &self.tags_list {
            None => {
                return;
            },
            Some(l) => l[tidx as usize].name.clone(),
        };
        let ghost start = self.search_content@;
        let sep = if negative {
            " -"
        } else {
            " "
        };
        proof {
            reveal_strlit(" -");
            reveal_strlit(" ");
            assert(sep@ =~= if negative {
                seq![' ', '-']
            } else {
                seq![' ']
            });
        }
        self.search_content.append(sep);
        self.search_content.append(name.as_str());
        assert(self.search_content@ =~= start + sep@ + name@);
    }
}


impl<H, A> Counter<H, A> {
    /// The folder that entry `idx` of the folder list names; `None` (the
    /// starting folder) where there is no list.
    pub open spec fn folder_at(self, idx: u16) -> Option<String> {
        match self.directory_list {
            Some(l) => Some(l@[idx as int].path),
            None => None,
        }
    }

    /// Whether `msg` can be handled in this state.
    pub open spec fn accepts(self, msg: Message<H, A>) -> bool {
        match msg {
            Message::SwitchDirectory(i) => self.can_save() && (self.directory_list matches Some(l)
                ==> i < l@.len()),
            Message::ImageLoaded(_, _) => self.can_count_thumbnail(),
            Message::AddTag(t) => self.can_add_tag(t),
            Message::RemoveTag(t) => self.can_remove_tag(t),
            Message::AddInputTag => self.can_add_input_tag(),
            Message::AddPositiveSearchTerm(t) => self.can_add_term(t),
            Message::AddNegativeSearchTerm(t) => self.can_add_term(t),
            Message::ToggleIntoCollection(i) => self.can_toggle(i),
            Message::CollectionImageAllocated(_, _) => self.can_count_allocation(),
            Message::AddAllToCollection => self.can_add_all(),
            Message::CloseApp => self.can_save(),
            _ => true,
        }
    }

    /// `after` and `action` are what handling `msg` in `before` gives. The
    /// error shown is first cleared; then:
    /// - `File`, `Search`, `Tag` open that panel, or close it where it is open;
    /// - `SwitchDirectory(i)` compresses the tags and asks to save them and to
    ///   enter the folder of entry `i`;
    /// - `ImageLoaded`, `AddTag`, `RemoveTag`, `AddInputTag`, `SearchSend`,
    ///   `ToggleIntoCollection`, `CollectionImageAllocated` and
    ///   `AddAllToCollection` act as their own specifications say;
    /// - `AllImagesLoaded` ends the thumbnail loading;
    /// - `SearchChanged(t)` makes `t` the search text;
    /// - `ImageSelected(i)` selects image `i`, or unselects it where it is
    ///   selected;
    /// - `AddPositiveSearchTerm(t)` and `AddNegativeSearchTerm(t)` put the
    ///   name of tag `t` in the search text;
    /// - `Explore` and `Collection` choose what the body shows;
    /// - `CollectionLeft` and `CollectionRight` move through the collection;
    /// - `CollectionImageFailed` changes nothing;
    /// - `ClearCollection` drops the collection;
    /// - `CloseApp` compresses the tags and asks to save them and to close;
    /// - `KeyPressed` asks to move through the collection, or to put the
    ///   selected image in it or take it out.
    pub open spec fn stepped(before: Self, after: Self, msg: Message<H, A>, action: Action) -> bool {
        let s = before.cleared();
        match msg {
            Message::File => action is Nothing && after == Counter {
                panel: if s.panel is File {
                    Panel::Hidden
                } else {
                    Panel::File
                },
                ..s
            },
            Message::Search => action is Nothing && after == Counter {
                panel: if s.panel is Search {
                    Panel::Hidden
                } else {
                    Panel::Search
                },
                ..s
            },
            Message::Tag => action is Nothing && after == Counter {
                panel: if s.panel is Tag {
                    Panel::Hidden
                } else {
                    Panel::Tag
                },
                ..s
            },
            Message::SwitchDirectory(i) => action matches Action::SaveAndSwitch(bytes, dir)
                && Self::saved(s, after, bytes) && dir == s.folder_at(i),
            Message::ImageLoaded(i, h) => action is Nothing && Self::thumbnail_kept(s, after, i, h),
            Message::AllImagesLoaded => action is Nothing && after == Counter {
                thumbnail_progress: None,
                ..s
            },
            Message::AddTag(t) => action is Nothing && Self::tag_added(s, after, t),
            Message::RemoveTag(t) => action is Nothing && Self::tag_removed(s, after, t),
            Message::AddInputTag => action is Nothing && Self::input_tag_added(s, after),
            Message::SearchChanged(text) => action is Nothing && after == Counter {
                search_content: text,
                ..s
            },
            Message::ImageSelected(i) => action is Nothing && after == Counter {
                selected_file_idx: if s.selected_file_idx == Some(i) {
                    None
                } else {
                    Some(i)
                },
                ..s
            },
            Message::SearchSend => Self::searched(s, after, action),
            Message::AddPositiveSearchTerm(t) => action is Nothing && Self::term_added(
                s,
                after,
                t,
                false,
            ),
            Message::AddNegativeSearchTerm(t) => action is Nothing && Self::term_added(
                s,
                after,
                t,
                true,
            ),
            Message::Explore => action is Nothing && after == Counter {
                body_panel: BodyPanel::Explore,
                ..s
            },
            Message::Collection => action is Nothing && after == Counter {
                body_panel: BodyPanel::Collection,
                ..s
            },
            Message::ToggleIntoCollection(i) => Self::toggled(s, after, i, action),
            Message::CollectionLeft => action is Nothing && after == s.moved_left(),
            Message::CollectionRight => action is Nothing && after == s.moved_right(),
            Message::CollectionImageAllocated(a, i) => action is Nothing && Self::allocated(
                s,
                after,
                a,
                i,
            ),
            Message::CollectionImageFailed(_) => action is Nothing && after == s,
            Message::AddAllToCollection => Self::added_all(s, after, action),
            Message::ClearCollection => action is Nothing && after == Counter {
                collection: None,
                ..s
            },
            Message::CloseApp => action matches Action::SaveAndClose(bytes) && Self::saved(
                s,
                after,
                bytes,
            ),
            Message::KeyPressed(Key::Left) => action is GoLeft && after == s,
            Message::KeyPressed(Key::Right) => action is GoRight && after == s,
            Message::KeyPressed(Key::Space) => after == s && match s.selected_index() {
                Some(k) => action matches Action::Toggle(j) && j == k,
                None => action is Nothing,
            },
        }
    }

    /// Handles `message`, and gives the outside work it asks for.
    pub fn update(&mut self, message: Message<H, A>) -> (action: Action)
        requires
            old(self).wf(),
            old(self).accepts(message),
        ensures
            final(self).wf(),
            Self::stepped(*old(self), *final(self), message, action),
    {
        self.error_message = None;
        match message {
            Message::File => {
                self.panel = match self.panel {
                    Panel::File => Panel::Hidden,
                    _ => Panel::File,
                };
                Action::Nothing
            },
            Message::Search => {
                self.panel = match self.panel {
                    Panel::Search => Panel::Hidden,
                    _ => Panel::Search,
                };
                Action::Nothing
            },
            Message::Tag => {
                self.panel = match self.panel {
                    Panel::Tag => Panel::Hidden,
                    _ => Panel::Tag,
                };
                Action::Nothing
            },
            Message::SwitchDirectory(idx) => {
                let ghost cleared = *self;
                let bytes = self.compress_and_save_to_file();
                assert(self.directory_list == cleared.directory_list);
                let dir = self.get_dir_from(Some(idx as usize));
                Action::SaveAndSwitch(bytes, dir)
            },
            Message::ImageLoaded(idx, handle) => {
                self.image_loaded(idx, handle);
                Action::Nothing
            },
            Message::AllImagesLoaded => {
                self.thumbnail_progress = None;
                Action::Nothing
            },
            Message::AddTag(tidx) => {
                self.add_tag_to_selected(tidx);
                Action::Nothing
            },
            Message::RemoveTag(tidx) => {
                self.remove_tag_from_selected(tidx);
                Action::Nothing
            },
            Message::AddInputTag => {
                self.add_input_tag();
                Action::Nothing
            },
            Message::SearchChanged(text) => {
                self.search_content = text;
                Action::Nothing
            },
            Message::ImageSelected(idx) => {
                self.selected_file_idx = match self.selected_file_idx {
                    Some(i) if i == idx => None,
                    _ => Some(idx),
                };
                Action::Nothing
            },
            Message::SearchSend => self.search_send(),
            Message::AddPositiveSearchTerm(tidx) => {
                self.add_search_term(tidx, false);
                Action::Nothing
            },
            Message::AddNegativeSearchTerm(tidx) => {
                self.add_search_term(tidx, true);
                Action::Nothing
            },
            Message::Explore => {
                self.body_panel = BodyPanel::Explore;
                Action::Nothing
            },
            Message::Collection => {
                self.body_panel = BodyPanel::Collection;
                Action::Nothing
            },
            Message::ToggleIntoCollection(idx) => self.toggle_into_collection(idx),
            Message::CollectionLeft => {
                self.collection_left();
                Action::Nothing
            },
            Message::CollectionRight => {
                self.collection_right();
                Action::Nothing
            },
            Message::CollectionImageAllocated(alloc, idx) => {
                self.collection_image_allocated(alloc, idx);
                Action::Nothing
            },
            Message::CollectionImageFailed(_) => Action::Nothing,
            Message::AddAllToCollection => self.add_all_to_collection(),
            Message::ClearCollection => {
                self.collection = None;
                Action::Nothing
            },
            Message::CloseApp => {
                let bytes = self.compress_and_save_to_file();
                Action::SaveAndClose(bytes)
            },
            Message::KeyPressed(key) => match key {
                Key::Left => Action::GoLeft,
                Key::Right => Action::GoRight,
                Key::Space => match self.get_selected_index() {
                    Some(k) => Action::Toggle(k),
                    None => Action::Nothing,
                },
            },
        }
    }
}


/// Whether tag `tidx` can be added to image `sel` (where there is one) with
/// the tags `tags` and images `files` (see [`add_tag_ok`]).
fn tag_fits(sel: Option<usize>, tags: &Vec<Tag>, files: &Option<Vec<Img>>, tidx: TagIdx) -> (r: bool)
    ensures
        r == add_tag_ok(sel, Some(tags@), *files, tidx),
{
    let i = match sel {
        None => {
            return true;
        },
        Some(i) => i,
    };
    if tidx as usize >= tags.len() {
        return false;
    }
    match files {
        None => true,
        Some(f) => {
            if i >= f.len() {
                return false;
            }
            let has = match &f[i].tags {
                Some(l) => contains_idx(l, tidx),
                None => false,
            };
            has || tags[tidx as usize].refs < u32::MAX
        },
    }
}

/// Whether some entry shows image `idx`.
fn entries_show<A>(entries: &Vec<CollectionElement<A>>, idx: usize) -> (r: bool)
    ensures
        r == shows_image(entries@, idx),
{
    let n = entries.len();
    let mut k: usize = 0;
    while k < n
        invariant
            n == entries@.len(),
            k <= n,
            forall|j: int| 0 <= j < k ==> (#[trigger] entries@[j]).img_idx != idx,
        decreases n - k,
    {
        if entries[k].img_idx == idx {
            assert(entries@[k as int].img_idx == idx);
            return true;
        }
        k = k + 1;
    }
    false
}

impl<H, A> Counter<H, A> {
    /// Whether the tags can be compressed before they are saved.
    fn save_possible(&self) -> (r: bool)
        ensures
            r == self.can_save(),
    {
        match (&self.tags_list, &self.file_list) {
            (Some(t), Some(f)) => tags_compressible(t, f),
            _ => true,
        }
    }

    /// Whether tag `tidx` can be taken off the selected image.
    fn remove_possible(&self, tidx: TagIdx) -> (r: bool)
        requires
            self.wf(),
        ensures
            r == self.can_remove_tag(tidx),
    {
        let i = match self.get_selected_index() {
            None => {
                return true;
            },
            Some(i) => i,
        };
        match &self.file_list {
            None => true,
            Some(f) => {
                if i >= f.len() {
                    return false;
                }
                let has = match &f[i].tags {
                    Some(l) => contains_idx(l, tidx),
                    None => false,
                };
                if has {
                    match &self.tags_list {
                        Some(tl) => (tidx as usize) < tl.len(),
                        None => true,
                    }
                } else {
                    true
                }
            },
        }
    }

    /// Whether the typed tag name can be added to the selected image.
    fn input_tag_possible(&self) -> (r: bool)
        requires
            self.wf(),
        ensures
            r == self.can_add_input_tag(),
    {
        if !is_valid_tag(self.search_content.as_str()) {
            return true;
        }
        let empty: Vec<Tag> = Vec::new();
        let tags: &Vec<Tag> = match &self.tags_list {
            Some(t) => t,
            None => &empty,
        };
        assert(tags@ == tags_or_empty(self.tags_list));
        let sel = self.get_selected_index();
        match find_tag_position(tags, &self.search_content) {
            Some(k) => {
                proof {
                    let names = tag_names(tags@);
                    assert(tag_position(names, self.search_content@) == k);
                }
                tag_fits(sel, tags, &self.file_list, k as u32)
            },
            None => {
                let n = tags.len();
                if n > 0 && tags[n - 1].idx == u32::MAX {
                    return false;
                }
                let t: u32 = if n == 0 {
                    0
                } else {
                    tags[n - 1].idx + 1
                };
                let ghost grown_tags = self.tags_with_input().0;
                assert(grown_tags.len() == n + 1);
                assert(t == self.tags_with_input().1);
                let i = match sel {
                    None => {
                        return true;
                    },
                    Some(i) => i,
                };
                if t as usize > n {
                    return false;
                }
                match &self.file_list {
                    None => true,
                    Some(f) => {
                        if i >= f.len() {
                            return false;
                        }
                        let has = match &f[i].tags {
                            Some(l) => contains_idx(l, t),
                            None => false,
                        };
                        if has || t as usize == n {
                            true
                        } else {
                            assert(grown_tags[t as int] == tags@[t as int]);
                            tags[t as usize].refs < u32::MAX
                        }
                    },
                }
            },
        }
    }

    /// Whether image `idx` can be put in or taken out of the collection.
    fn toggle_possible(&self, idx: usize) -> (r: bool)
        ensures
            r == self.can_toggle(idx),
    {
        match &self.collection {
            None => match &self.file_list {
                Some(f) => idx < f.len(),
                None => true,
            },
            Some(c) => {
                if entries_show(&c.entries, idx) {
                    true
                } else {
                    match &self.file_list {
                        None => true,
                        Some(f) => idx < f.len() && match &self.collection_progress {
                            Some(p) => p.max < u32::MAX,
                            None => true,
                        },
                    }
                }
            },
        }
    }

    /// Whether "add all" can count the images it adds.
    fn add_all_possible(&self) -> (r: bool)
        ensures
            r == self.can_add_all(),
    {
        match &self.file_list {
            None => true,
            Some(f) => {
                let len = match &self.file_filter_indices {
                    Some(x) => x.len(),
                    None => f.len(),
                };
                if len == 0 {
                    return true;
                }
                match &self.collection_progress {
                    None => true,
                    Some(p) => (p.max as u64) + ((len as u32) as u64) <= u32::MAX as u64,
                }
            },
        }
    }

    /// Whether `msg` can be handled in this state (see [`Self::accepts`]).
    pub fn accepts_message(&self, msg: &Message<H, A>) -> (r: bool)
        requires
            self.wf(),
        ensures
            r == self.accepts(*msg),
    {
        match msg {
            Message::SwitchDirectory(i) => self.save_possible() && match &self.directory_list {
                Some(l) => (*i as usize) < l.len(),
                None => true,
            },
            Message::ImageLoaded(_, _) => match &self.thumbnail_progress {
                Some(p) => p.current < u32::MAX,
                None => true,
            },
            Message::AddTag(t) => match &self.tags_list {
                Some(tags) => tag_fits(self.get_selected_index(), tags, &self.file_list, *t),
                None => true,
            },
            Message::RemoveTag(t) => self.remove_possible(*t),
            Message::AddInputTag => self.input_tag_possible(),
            Message::AddPositiveSearchTerm(t) => match &self.tags_list {
                Some(l) => (*t as usize) < l.len(),
                None => true,
            },
            Message::AddNegativeSearchTerm(t) => match &self.tags_list {
                Some(l) => (*t as usize) < l.len(),
                None => true,
            },
            Message::ToggleIntoCollection(i) => self.toggle_possible(*i),
            Message::CollectionImageAllocated(_, _) => match &self.collection_progress {
                Some(p) => p.current < u32::MAX,
                None => true,
            },
            Message::AddAllToCollection => self.add_all_possible(),
            Message::CloseApp => self.save_possible(),
            _ => true,
        }
    }
}


impl<H, A> Counter<H, A> {
    /// What the bottom bar shows: the error message where there is one;
    /// otherwise the loading that the shown body waits for (full-size images
    /// in the collection, thumbnails in the explorer), where more than one
    /// image is being loaded; otherwise that all is ready.
    pub open spec fn bottom_bar_shows(self, b: BottomBar) -> bool {
        match self.error_message {
            Some(m) => b matches BottomBar::Warning(w) && w@ == m@,
            None => {
                let p = match self.body_panel {
                    BodyPanel::Collection => self.collection_progress,
                    BodyPanel::Explore => self.thumbnail_progress,
                };
                match p {
                    Some(p) => if p.max > 1 {
                        b == BottomBar::Progress(p.current, p.max)
                    } else {
                        b is Ready
                    },
                    None => b is Ready,
                }
            },
        }
    }

    /// What the bottom bar shows (see [`Self::bottom_bar_shows`]).
    pub fn bottom_bar(&self) -> (b: BottomBar)
        ensures
            self.bottom_bar_shows(b),
    {
        if let Some(m) = &self.error_message {
            return BottomBar::Warning(m.clone());
        }
        let p = match self.body_panel {
            BodyPanel::Collection => &self.collection_progress,
            BodyPanel::Explore => &self.thumbnail_progress,
        };
        match p {
            Some(p) => if p.max > 1 {
                BottomBar::Progress(p.current, p.max)
            } else {
                BottomBar::Ready
            },
            None => BottomBar::Ready,
        }
    }

    /// Whether the tags of the selected image can be listed: the image is in
    /// the list, and each of its tags is in the tag list.
    pub open spec fn can_list_tags(self) -> bool {
        match (self.selected_index(), self.file_list, self.tags_list) {
            (Some(i), Some(f), Some(t)) => i < f@.len() && forall|j: int|
                0 <= j < tag_list(f@[i as int]@.tags).len() ==> #[trigger] tag_list(
                    f@[i as int]@.tags,
                )[j] < t@.len(),
            _ => true,
        }
    }

    /// The tags of the selected image, each with its name, in the order of
    /// the image's tag list; `None` where there is no selected image, no
    /// image list, no tag list, or the image has no tags.
    pub open spec fn tag_rows(self) -> Option<Seq<(TagIdx, Seq<char>)>> {
        match (self.selected_index(), self.file_list, self.tags_list) {
            (Some(i), Some(f), Some(t)) => match f@[i as int]@.tags {
                Some(l) => Some(
                    Seq::new(l.len(), |j: int| (l[j], t@[l[j] as int].name@)),
                ),
                None => None,
            },
            _ => None,
        }
    }

    /// Whether the tags of the selected image can be listed (see
    /// [`Self::can_list_tags`]).
    pub fn tags_listable(&self) -> (r: bool)
        requires
            self.wf(),
        ensures
            r == self.can_list_tags(),
    {
        match (self.get_selected_index(), &self.file_list, &self.tags_list) {
            (Some(i), Some(f), Some(t)) => {
                assert(self.file_list == Some(*f) && self.tags_list == Some(*t));
                assert(self.selected_index() == Some(i));
                if i >= f.len() {
                    return false;
                }
                match &f[i].tags {
                    None => true,
                    Some(l) => {
                        let n = l.len();
                        let mut j: usize = 0;
                        while j < n
                            invariant
                                n == l@.len(),
                                j <= n,
                                i < f@.len(),
                                f@[i as int]@.tags == Some(l@),
                                self.file_list == Some(*f),
                                self.tags_list == Some(*t),
                                self.selected_index() == Some(i),
                                forall|k: int| 0 <= k < j ==> l@[k] < t@.len(),
                            decreases n - j,
                        {
                            if l[j] as usize >= t.len() {
                                assert(tag_list(f@[i as int]@.tags)[j as int] == l@[j as int]);
                                assert(!(tag_list(f@[i as int]@.tags)[j as int] < t@.len()));
                                return false;
                            }
                            j = j + 1;
                        }
                        true
                    },
                }
            },
            _ => true,
        }
    }

    /// The tags of the selected image with their names (see
    /// [`Self::tag_rows`]).
    pub fn tags_on_selected(&self) -> (r: Option<Vec<(TagIdx, String)>>)
        requires
            self.wf(),
            self.can_list_tags(),
        ensures
            match self.tag_rows() {
                Some(rows) => r matches Some(v) && v@.len() == rows.len() && forall|j: int|
                    0 <= j < rows.len() ==> (#[trigger] v@[j]).0 == rows[j].0 && v@[j].1@
                        == rows[j].1,
                None => r is None,
            },
    {
        let (i, f, t) = match (self.get_selected_index(), &self.file_list, &self.tags_list) {
            (Some(i), Some(f), Some(t)) => (i, f, t),
            _ => {
                return None;
            },
        };
        let l = match &f[i].tags {
            None => {
                return None;
            },
            Some(l) => l,
        };
        let ghost rows = self.tag_rows()->0;
        assert forall|k: int| 0 <= k < l@.len() implies l@[k] < t@.len() by {
            assert(tag_list(f@[i as int]@.tags)[k] == l@[k]);
        }
        let n = l.len();
        let mut v: Vec<(TagIdx, String)> = Vec::new();
        let mut j: usize = 0;
        while j < n
            invariant
                n == l@.len(),
                j <= n,
                rows.len() == n,
                forall|k: int| 0 <= k < n ==> l@[k] < t@.len(),
                forall|k: int| 0 <= k < n ==> #[trigger] rows[k] == (l@[k], t@[l@[k] as int].name@),
                v@.len() == j,
                forall|k: int|
                    0 <= k < j ==> (#[trigger] v@[k]).0 == rows[k].0 && v@[k].1@ == rows[k].1,
            decreases n - j,
        {
            let x = l[j];
            assert(tag_list(Some(l@))[j as int] == x);
            v.push((x, t[x as usize].name.clone()));
            j = j + 1;
        }
        Some(v)
    }
}

} // verus!
