use vstd::prelude::*;

use crate::tag::TagIdx;
use crate::text_util::str_eq;

verus! {

/// Name of the file that stores the tags of a folder.
pub const METADATA_NAME: &'static str = "tag.yff";

/// A sub-folder that can be visited.
pub struct Dir {
    pub path: String,
    pub name: String,
}

/// An image file of the current folder.
pub struct Img {
    /// Position of the image in the list of images it belongs to.
    pub idx: usize,
    pub path: String,
    pub name: String,
    pub extension: String,
    /// Tags on the image, by tag index; `None` when it has none.
    pub tags: Option<Vec<TagIdx>>,
}

/// The mathematical value of an [`Img`].
pub struct ImgView {
    pub idx: usize,
    pub path: Seq<char>,
    pub name: Seq<char>,
    pub extension: Seq<char>,
    pub tags: Option<Seq<TagIdx>>,
}

impl View for Img {
    type V = ImgView;

    open spec fn view(&self) -> ImgView {
        ImgView {
            idx: self.idx,
            path: self.path@,
            name: self.name@,
            extension: self.extension@,
            tags: match &self.tags {
                Some(v) => Some(v@),
                None => None,
            },
        }
    }
}

/// The views of a list of images.
pub open spec fn img_views(images: Seq<Img>) -> Seq<ImgView> {
    images.map_values(|i: Img| i@)
}

/// What is known of one entry of a folder listing.
pub struct DirEntryInfo {
    pub path: String,
    pub is_file: bool,
    pub is_dir: bool,
    /// The entry's file name, where it is valid UTF-8.
    pub file_name: Option<String>,
    /// The extension of the entry's path, where it has one in UTF-8.
    pub extension: Option<String>,
}

/// The mathematical value of a [`DirEntryInfo`].
pub struct DirEntryView {
    pub path: Seq<char>,
    pub is_file: bool,
    pub is_dir: bool,
    pub file_name: Option<Seq<char>>,
    pub extension: Option<Seq<char>>,
}

impl View for DirEntryInfo {
    type V = DirEntryView;

    open spec fn view(&self) -> DirEntryView {
        DirEntryView {
            path: self.path@,
            is_file: self.is_file,
            is_dir: self.is_dir,
            file_name: match &self.file_name {
                Some(s) => Some(s@),
                None => None,
            },
            extension: match &self.extension {
                Some(s) => Some(s@),
                None => None,
            },
        }
    }
}

/// The views of a folder listing.
pub open spec fn entry_views(entries: Seq<DirEntryInfo>) -> Seq<DirEntryView> {
    entries.map_values(|e: DirEntryInfo| e@)
}

/// The file extensions of the images that are listed.
pub open spec fn image_extensions() -> Seq<Seq<char>> {
    seq![seq!['p', 'n', 'g'], seq!['j', 'p', 'g']]
}

/// Whether `ext` is the extension of an image that is listed.
pub open spec fn is_image_ext(ext: Seq<char>) -> bool {
    image_extensions().contains(ext)
}

/// Whether a folder entry is listed as an image.
pub open spec fn lists_as_image(e: DirEntryView) -> bool {
    &&& e.is_file
    &&& e.extension is Some
    &&& is_image_ext(e.extension->0)
    &&& e.file_name is Some
}

/// The entries that are listed as images, in order.
pub open spec fn image_entries(entries: Seq<DirEntryView>) -> Seq<DirEntryView>
    decreases entries.len(),
{
    if entries.len() == 0 {
        seq![]
    } else {
        let rest = image_entries(entries.drop_last());
        if lists_as_image(entries.last()) {
            rest.push(entries.last())
        } else {
            rest
        }
    }
}

/// Whether a folder entry is listed as a sub-folder.
pub open spec fn lists_as_dir(e: DirEntryView) -> bool {
    e.is_dir && e.file_name is Some
}

/// The entries that are listed as sub-folders, in order.
pub open spec fn dir_entries(entries: Seq<DirEntryView>) -> Seq<DirEntryView>
    decreases entries.len(),
{
    if entries.len() == 0 {
        seq![]
    } else {
        let rest = dir_entries(entries.drop_last());
        if lists_as_dir(entries.last()) {
            rest.push(entries.last())
        } else {
            rest
        }
    }
}

/// Whether `ext` is the extension of an image that is listed.
pub fn is_image_extension(ext: &str) -> (r: bool)
    ensures
        r == is_image_ext(ext@),
{
    proof {
        reveal_strlit("png");
        reveal_strlit("jpg");
    }
    let exts: [&str; 2] = ["png", "jpg"];
    let png = str_eq(exts[0], ext);
    let jpg = str_eq(exts[1], ext);
    proof {
        assert("png"@ =~= seq!['p', 'n', 'g']);
        assert("jpg"@ =~= seq!['j', 'p', 'g']);
        if is_image_ext(ext@) {
            let k = choose|k: int| 0 <= k < 2 && image_extensions()[k] == ext@;
            assert(k == 0 || k == 1);
        }
        if png {
            assert(image_extensions()[0] == ext@);
        }
        if jpg {
            assert(image_extensions()[1] == ext@);
        }
    }
    png || jpg
}

/// The images among the entries of a folder: files with a listed extension
/// and a UTF-8 name, numbered in order of listing, with no tags yet.
pub fn collect_images(entries: &Vec<DirEntryInfo>) -> (r: Vec<Img>)
    ensures
        r@.len() == image_entries(entry_views(entries@)).len(),
        forall|i: int|
            0 <= i < r@.len() ==> {
                let e = #[trigger] image_entries(entry_views(entries@))[i];
                &&& r@[i]@.idx == i
                &&& r@[i]@.path == e.path
                &&& r@[i]@.name == e.file_name->0
                &&& r@[i]@.extension == e.extension->0
                &&& r@[i]@.tags is None
            },
{
    let ghost views = entry_views(entries@);
    let mut list: Vec<Img> = Vec::new();
    let n = entries.len();
    let mut k: usize = 0;
    while k < n
        invariant
            n == entries@.len(),
            views == entry_views(entries@),
            k <= n,
            list@.len() == image_entries(views.take(k as int)).len(),
            forall|i: int|
                0 <= i < list@.len() ==> {
                    let e = #[trigger] image_entries(views.take(k as int))[i];
                    &&& list@[i]@.idx == i
                    &&& list@[i]@.path == e.path
                    &&& list@[i]@.name == e.file_name->0
                    &&& list@[i]@.extension == e.extension->0
                    &&& list@[i]@.tags is None
                },
        decreases n - k,
    {
        let entry = &entries[k];
        assert(views.take(k + 1).drop_last() =~= views.take(k as int));
        assert(views.take(k + 1).last() == entry@);
        let ghost before = list@;
        if entry.is_file {
            match &entry.extension {
                Some(ext) => {
                    if is_image_extension(ext.as_str()) {
                        match &entry.file_name {
                            Some(name) => {
                                list.push(
                                    Img {
                                        idx: list.len(),
                                        path: entry.path.clone(),
                                        name: name.clone(),
                                        extension: ext.clone(),
                                        tags: None,
                                    },
                                );
                            },
                            None => {},
                        }
                    }
                },
                None => {},
            }
        }
        k = k + 1;
        assert(forall|i: int| 0 <= i < before.len() ==> list@[i] == before[i]);
    }
    assert(views.take(n as int) =~= views);
    list
}

/// The sub-folders among the entries of a folder, after an entry `..` for
/// the parent folder.
pub fn collect_directories(parent: String, entries: &Vec<DirEntryInfo>) -> (r: Vec<Dir>)
    ensures
        r@.len() == dir_entries(entry_views(entries@)).len() + 1,
        r@[0].path@ == parent@,
        r@[0].name@ == seq!['.', '.'],
        forall|i: int|
            0 < i < r@.len() ==> {
                let e = #[trigger] dir_entries(entry_views(entries@))[i - 1];
                &&& r@[i].path@ == e.path
                &&& r@[i].name@ == e.file_name->0
            },
{
    let ghost views = entry_views(entries@);
    let mut list: Vec<Dir> = Vec::new();
    proof {
        reveal_strlit("..");
    }
    list.push(Dir { path: parent, name: String::from_str("..") });
    let n = entries.len();
    let mut k: usize = 0;
    while k < n
        invariant
            n == entries@.len(),
            views == entry_views(entries@),
            k <= n,
            list@.len() == dir_entries(views.take(k as int)).len() + 1,
            list@[0].path@ == parent@,
            list@[0].name@ == seq!['.', '.'],
            forall|i: int|
                0 < i < list@.len() ==> {
                    let e = #[trigger] dir_entries(views.take(k as int))[i - 1];
                    &&& list@[i].path@ == e.path
                    &&& list@[i].name@ == e.file_name->0
                },
        decreases n - k,
    {
        let entry = &entries[k];
        assert(views.take(k + 1).drop_last() =~= views.take(k as int));
        assert(views.take(k + 1).last() == entry@);
        let ghost before = list@;
        if entry.is_dir {
            match &entry.file_name {
                Some(name) => {
                    list.push(Dir { path: entry.path.clone(), name: name.clone() });
                },
                None => {},
            }
        }
        k = k + 1;
        assert(forall|i: int| 0 <= i < before.len() ==> list@[i] == before[i]);
    }
    assert(views.take(n as int) =~= views);
    list
}

/// Whether a folder entry is the tag file.
pub open spec fn is_metadata_entry(e: DirEntryView) -> bool {
    e.is_file && e.file_name == Some(METADATA_NAME@)
}

/// The position of the first entry that is the tag file, if any.
pub fn metadata_entry_index(entries: &Vec<DirEntryInfo>) -> (r: Option<usize>)
    ensures
        match r {
            Some(i) => i < entries@.len() && is_metadata_entry(entries@[i as int]@) && forall|
                j: int,
            |
                0 <= j < i ==> !is_metadata_entry(#[trigger] entries@[j]@),
            None => forall|j: int|
                0 <= j < entries@.len() ==> !is_metadata_entry(#[trigger] entries@[j]@),
        },
{
    let n = entries.len();
    let mut k: usize = 0;
    while k < n
        invariant
            n == entries@.len(),
            k <= n,
            forall|j: int| 0 <= j < k ==> !is_metadata_entry(#[trigger] entries@[j]@),
        decreases n - k,
    {
        let entry = &entries[k];
        if entry.is_file {
            match &entry.file_name {
                Some(name) => {
                    if str_eq(name.as_str(), METADATA_NAME) {
                        return Some(k);
                    }
                },
                None => {},
            }
        }
        k = k + 1;
    }
    None
}

/// Whether `k` is the position of the first image of `images` named `name`.
pub open spec fn is_first_image_named(images: Seq<Img>, name: Seq<char>, k: int) -> bool {
    &&& 0 <= k < images.len()
    &&& images[k].name@ == name
    &&& forall|j: int| 0 <= j < k ==> (#[trigger] images[j]).name@ != name
}

/// The first image named `compare`, to be changed in place, if any.
pub fn find_img_idx_by_name<'a>(compare: &str, images: &'a mut [Img]) -> (r: Option<&'a mut Img>)
    ensures
        match r {
            Some(x) => exists|k: int|
                #![trigger is_first_image_named(old(images)@, compare@, k)]
                is_first_image_named(old(images)@, compare@, k) && *x == old(images)@[k]
                    && final(images)@ == old(images)@.update(k, *final(x)),
            None => final(images)@ == old(images)@ && forall|j: int|
                0 <= j < old(images)@.len() ==> (#[trigger] old(images)@[j]).name@ != compare@,
        },
{
    let n = images.len();
    let mut k: usize = 0;
    while k < n
        invariant
            n == images@.len(),
            images@ == old(images)@,
            k <= n,
            forall|j: int| 0 <= j < k ==> (#[trigger] images@[j]).name@ != compare@,
        decreases n - k,
    {
        if str_eq(images[k].name.as_str(), compare) {
            assert(is_first_image_named(old(images)@, compare@, k as int));
            return Some(&mut images[k]);
        }
        k = k + 1;
    }
    None
}
} // verus!
