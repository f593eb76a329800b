use vstd::prelude::*;
use vstd::utf8::*;

use crate::entry::{is_first_image_named, find_img_idx_by_name, img_views, Img, ImgView};
use crate::tag::{le_bytes, le_value_at, push_all, push_le_bytes, read_le_u32, tag_bytes, tag_decodable, tag_from_seq, Tag, TagIdx, TagView};

verus! {

// ---------------------------------------------------------------------------
// The tag file.
//
// The first line lists the tags: each tag is its index and its reference
// count (four little-endian bytes each), then its name, then a 0 byte. The
// line ends with a newline byte. Each further line is an image: its name, a 0
// byte, the indices of its tags (four little-endian bytes each) and a newline.
// ---------------------------------------------------------------------------

/// The newline byte.
pub open spec fn newline() -> u8 {
    10u8
}

/// The bytes of the first line's tag records.
pub open spec fn tag_records(tags: Seq<TagView>) -> Seq<u8>
    decreases tags.len(),
{
    if tags.len() == 0 {
        seq![]
    } else {
        tag_records(tags.drop_last()) + tag_bytes(tags.last()) + seq![0u8]
    }
}

/// The bytes of a list of tag indices.
pub open spec fn index_bytes(ix: Seq<TagIdx>) -> Seq<u8>
    decreases ix.len(),
{
    if ix.len() == 0 {
        seq![]
    } else {
        index_bytes(ix.drop_last()) + le_bytes(ix.last())
    }
}

/// The tag indices of an image, none where it has no tag list.
pub open spec fn tag_list(t: Option<Seq<TagIdx>>) -> Seq<TagIdx> {
    match t {
        Some(s) => s,
        None => seq![],
    }
}

/// The line that stores the tags of one image.
pub open spec fn image_line(img: ImgView) -> Seq<u8> {
    encode_utf8(img.name) + seq![0u8] + index_bytes(tag_list(img.tags)) + seq![newline()]
}

/// The lines of a list of images.
pub open spec fn image_lines(imgs: Seq<ImgView>) -> Seq<u8>
    decreases imgs.len(),
{
    if imgs.len() == 0 {
        seq![]
    } else {
        image_lines(imgs.drop_last()) + image_line(imgs.last())
    }
}

/// The whole tag file for a tag list and a list of images.
pub open spec fn metadata_bytes(tags: Seq<TagView>, imgs: Seq<ImgView>) -> Seq<u8> {
    tag_records(tags) + seq![newline()] + image_lines(imgs)
}

/// The views of a tag list.
pub open spec fn tag_views(tags: Seq<Tag>) -> Seq<TagView> {
    tags.map_values(|t: Tag| t@)
}

// ---------------------------------------------------------------------------
// Reading the tag file.
// ---------------------------------------------------------------------------

/// The position of the first 0 byte at or after `from`, or -1 where there is
/// none.
pub open spec fn first_zero(b: Seq<u8>, from: int) -> int
    decreases b.len() - from,
{
    if from < 0 || from >= b.len() {
        -1
    } else if b[from] == 0 {
        from
    } else {
        first_zero(b, from + 1)
    }
}

/// A 0 byte found by [`first_zero`] lies at or after the start and is the
/// first one there.
pub proof fn lemma_first_zero(b: Seq<u8>, from: int)
    ensures
        first_zero(b, from) == -1 || (from <= first_zero(b, from) < b.len() && b[first_zero(
            b,
            from,
        )] == 0),
        first_zero(b, from) >= 0 ==> forall|k: int|
            from <= k < first_zero(b, from) ==> b[k] != 0,
        first_zero(b, from) == -1 && 0 <= from ==> forall|k: int| from <= k < b.len() ==> b[k] != 0,
    decreases b.len() - from,
{
    if from < 0 || from >= b.len() {
    } else if b[from] == 0 {
    } else {
        lemma_first_zero(b, from + 1);
    }
}

/// The tags of the first line that starts at `pos`, with the position after
/// its newline; `None` where reading it fails.
pub open spec fn parse_tag_section(b: Seq<u8>, pos: int) -> Option<(Seq<TagView>, int)>
    decreases b.len() - pos,
{
    if pos < 0 || pos >= b.len() {
        None
    } else if b[pos] == newline() {
        Some((seq![], pos + 1))
    } else {
        let z = first_zero(b, pos + 9);
        if z < 0 || !tag_decodable(b.subrange(pos, z)) {
            None
        } else {
            proof {
                lemma_first_zero(b, pos + 9);
            }
            match parse_tag_section(b, z + 1) {
                Some((ts, next)) => Some((seq![tag_from_seq(b.subrange(pos, z))] + ts, next)),
                None => None,
            }
        }
    }
}

/// The tag indices of an image line from `pos` on, with the position after
/// the newline; `None` where reading them fails.
pub open spec fn parse_indices(b: Seq<u8>, pos: int) -> Option<(Seq<TagIdx>, int)>
    decreases b.len() - pos,
{
    if pos < 0 || pos >= b.len() {
        None
    } else if b[pos] == newline() {
        Some((seq![], pos + 1))
    } else if pos + 4 > b.len() {
        None
    } else {
        match parse_indices(b, pos + 4) {
            Some((xs, next)) => Some((seq![le_value_at(b, pos)] + xs, next)),
            None => None,
        }
    }
}

/// The tags that one line of the file gives an image.
pub struct FileLine {
    pub name: Seq<char>,
    pub tags: Seq<TagIdx>,
}

/// The outcome of reading the image lines.
pub enum LinesParse {
    /// All lines were read.
    Done(Seq<FileLine>),
    /// A name was not UTF-8; the lines before it were read.
    BadName(Seq<FileLine>),
    /// The bytes end in the middle of a line.
    Broken,
}

/// Puts `line` before the lines of `r`.
pub open spec fn lines_cons(line: FileLine, r: LinesParse) -> LinesParse {
    match r {
        LinesParse::Done(ls) => LinesParse::Done(seq![line] + ls),
        LinesParse::BadName(ls) => LinesParse::BadName(seq![line] + ls),
        LinesParse::Broken => LinesParse::Broken,
    }
}

/// Reads the image lines from `pos` to the end.
pub open spec fn parse_lines(b: Seq<u8>, pos: int) -> LinesParse
    decreases b.len() - pos,
{
    if pos < 0 || pos >= b.len() {
        LinesParse::Done(seq![])
    } else {
        let z = first_zero(b, pos + 1);
        if z < 0 {
            LinesParse::Broken
        } else if !valid_utf8(b.subrange(pos, z)) {
            LinesParse::BadName(seq![])
        } else {
            proof {
                lemma_first_zero(b, pos + 1);
                lemma_parse_indices_advances(b, z + 1);
            }
            match parse_indices(b, z + 1) {
                None => LinesParse::Broken,
                Some((xs, next)) => lines_cons(
                    FileLine { name: decode_utf8(b.subrange(pos, z)), tags: xs },
                    parse_lines(b, next),
                ),
            }
        }
    }
}

/// Reading indices moves forward.
pub proof fn lemma_parse_indices_advances(b: Seq<u8>, pos: int)
    ensures
        parse_indices(b, pos) matches Some((xs, next)) ==> pos < next <= b.len(),
    decreases b.len() - pos,
{
    if pos < 0 || pos >= b.len() {
    } else if b[pos] == newline() {
    } else if pos + 4 > b.len() {
    } else {
        lemma_parse_indices_advances(b, pos + 4);
    }
}

/// What reading a whole tag file gives.
pub enum MetadataParse {
    /// The tags and the image lines.
    Complete(Seq<TagView>, Seq<FileLine>),
    /// An image name is not UTF-8; the image lines before it.
    BadName(Seq<FileLine>),
    /// The bytes are not a tag file.
    Broken,
}

/// Reads a whole tag file.
pub open spec fn parse_metadata(b: Seq<u8>) -> MetadataParse {
    match parse_tag_section(b, 0) {
        None => MetadataParse::Broken,
        Some((tags, next)) => match parse_lines(b, next) {
            LinesParse::Done(ls) => MetadataParse::Complete(tags, ls),
            LinesParse::BadName(ls) => MetadataParse::BadName(ls),
            LinesParse::Broken => MetadataParse::Broken,
        },
    }
}

/// Whether `k` is the position of the first image named `name`.
pub open spec fn is_first_named(imgs: Seq<ImgView>, name: Seq<char>, k: int) -> bool {
    &&& 0 <= k < imgs.len()
    &&& imgs[k].name == name
    &&& forall|j: int| 0 <= j < k ==> (#[trigger] imgs[j]).name != name
}

/// The position of the first image named `name`, or -1.
pub open spec fn first_named(imgs: Seq<ImgView>, name: Seq<char>) -> int {
    if exists|k: int| is_first_named(imgs, name, k) {
        choose|k: int| is_first_named(imgs, name, k)
    } else {
        -1
    }
}

/// The tag list that a line of the file gives: none where the line lists no
/// tag.
pub open spec fn line_tags(line: FileLine) -> Option<Seq<TagIdx>> {
    if line.tags.len() == 0 {
        None
    } else {
        Some(line.tags)
    }
}

/// Gives the first image named in `line` the tags of the line.
pub open spec fn apply_line(imgs: Seq<ImgView>, line: FileLine) -> Seq<ImgView> {
    let k = first_named(imgs, line.name);
    if k < 0 {
        imgs
    } else {
        imgs.update(k, ImgView { tags: line_tags(line), ..imgs[k] })
    }
}

/// Applies the lines of the file to the images, in order.
pub open spec fn apply_lines(imgs: Seq<ImgView>, lines: Seq<FileLine>) -> Seq<ImgView>
    decreases lines.len(),
{
    if lines.len() == 0 {
        imgs
    } else {
        apply_line(apply_lines(imgs, lines.drop_last()), lines.last())
    }
}

/// Why a tag file could not be read.
pub enum MetadataError {
    /// An image name in the file is not UTF-8.
    InvalidFileName,
    /// The file is cut short or holds a tag that cannot be read.
    Malformed,
}

// ---------------------------------------------------------------------------
// Executable reading and writing.
// ---------------------------------------------------------------------------

/// The tags that one line of the file gives an image.
pub struct FileTags {
    pub name: String,
    pub tags: Vec<TagIdx>,
}

impl View for FileTags {
    type V = FileLine;

    open spec fn view(&self) -> FileLine {
        FileLine { name: self.name@, tags: self.tags@ }
    }
}

/// The views of a list of file lines.
pub open spec fn line_views(lines: Seq<FileTags>) -> Seq<FileLine> {
    lines.map_values(|l: FileTags| l@)
}

/// Puts the tags `acc` before those of `r`.
pub open spec fn tags_cons(acc: Seq<TagView>, r: Option<(Seq<TagView>, int)>) -> Option<
    (Seq<TagView>, int),
> {
    match r {
        Some((ts, next)) => Some((acc + ts, next)),
        None => None,
    }
}

/// Puts the indices `acc` before those of `r`.
pub open spec fn indices_cons(acc: Seq<TagIdx>, r: Option<(Seq<TagIdx>, int)>) -> Option<
    (Seq<TagIdx>, int),
> {
    match r {
        Some((xs, next)) => Some((acc + xs, next)),
        None => None,
    }
}

/// Puts the lines `acc` before those of `r`.
pub open spec fn lines_prefix(acc: Seq<FileLine>, r: LinesParse) -> LinesParse {
    match r {
        LinesParse::Done(ls) => LinesParse::Done(acc + ls),
        LinesParse::BadName(ls) => LinesParse::BadName(acc + ls),
        LinesParse::Broken => LinesParse::Broken,
    }
}

/// The position of the first 0 byte at or after `from`.
fn find_zero(b: &[u8], from: usize) -> (r: Option<usize>)
    ensures
        match r {
            Some(z) => z == first_zero(b@, from as int),
            None => first_zero(b@, from as int) == -1,
        },
{
    let n = b.len();
    let mut k = from;
    if k >= n {
        return None;
    }
    while k < n
        invariant
            n == b@.len(),
            from <= k <= n,
            first_zero(b@, from as int) == first_zero(b@, k as int),
        decreases n - k,
    {
        if b[k] == 0 {
            return Some(k);
        }
        k = k + 1;
    }
    None
}

/// Reads the first line of the file: the tags, and the position after it.
fn read_tag_section(b: &[u8]) -> (r: Option<(Vec<Tag>, usize)>)
    ensures
        match r {
            Some((tags, next)) => parse_tag_section(b@, 0) == Some(
                (tag_views(tags@), next as int),
            ),
            None => parse_tag_section(b@, 0) is None,
        },
{
    let mut tags: Vec<Tag> = Vec::new();
    let mut pos: usize = 0;
    proof {
        match parse_tag_section(b@, 0) {
            Some((ts, next)) => {
                assert(tag_views(tags@) + ts =~= ts);
            },
            None => {},
        }
    }
    loop
        invariant
            pos <= b@.len(),
            parse_tag_section(b@, 0) == tags_cons(tag_views(tags@), parse_tag_section(b@, pos as int)),
        decreases b@.len() - pos,
    {
        if pos >= b.len() {
            return None;
        }
        if b[pos] == 10 {
            assert(tag_views(tags@) + seq![] =~= tag_views(tags@));
            return Some((tags, pos + 1));
        }
        if b.len() - pos <= 9 {
            return None;
        }
        match find_zero(b, pos + 9) {
            None => {
                return None;
            },
            Some(z) => {
                proof {
                    lemma_first_zero(b@, pos + 9);
                }
                match Tag::try_from_bytes(&b[pos..z]) {
                    None => {
                        return None;
                    },
                    Some(t) => {
                        let ghost old_views = tag_views(tags@);
                        tags.push(t);
                        proof {
                            assert(tag_views(tags@) =~= old_views.push(t@));
                            match parse_tag_section(b@, z + 1) {
                                Some((ts, next)) => {
                                    assert(old_views + (seq![t@] + ts) =~= old_views.push(t@) + ts);
                                },
                                None => {},
                            }
                        }
                        pos = z + 1;
                    },
                }
            },
        }
    }
}

/// Reads the tag indices of an image line from `pos`, and the position after
/// the line.
fn read_indices(b: &[u8], pos: usize) -> (r: Option<(Vec<TagIdx>, usize)>)
    ensures
        match r {
            Some((xs, next)) => parse_indices(b@, pos as int) == Some((xs@, next as int)),
            None => parse_indices(b@, pos as int) is None,
        },
{
    let mut xs: Vec<TagIdx> = Vec::new();
    let mut p = pos;
    proof {
        match parse_indices(b@, pos as int) {
            Some((ys, next)) => {
                assert(xs@ + ys =~= ys);
            },
            None => {},
        }
    }
    loop
        invariant
            pos <= p,
            parse_indices(b@, pos as int) == indices_cons(xs@, parse_indices(b@, p as int)),
        decreases b@.len() - p,
    {
        if p >= b.len() {
            return None;
        }
        if b[p] == 10 {
            assert(xs@ + seq![] =~= xs@);
            return Some((xs, p + 1));
        }
        if b.len() - p < 4 {
            return None;
        }
        let x = read_le_u32(b, p);
        let ghost old_xs = xs@;
        xs.push(x);
        proof {
            match parse_indices(b@, p + 4) {
                Some((ys, next)) => {
                    assert(old_xs + (seq![x] + ys) =~= xs@ + ys);
                },
                None => {},
            }
        }
        p = p + 4;
    }
}

/// How reading the image lines ended.
enum LinesEnd {
    Done,
    BadName,
    Broken,
}

/// Reads the image lines from `pos` to the end of the file.
fn read_lines(b: &[u8], pos: usize) -> (r: (Vec<FileTags>, LinesEnd))
    ensures
        match r.1 {
            LinesEnd::Done => parse_lines(b@, pos as int) == LinesParse::Done(line_views(r.0@)),
            LinesEnd::BadName => parse_lines(b@, pos as int) == LinesParse::BadName(
                line_views(r.0@),
            ),
            LinesEnd::Broken => parse_lines(b@, pos as int) == LinesParse::Broken,
        },
{
    let mut lines: Vec<FileTags> = Vec::new();
    let mut p = pos;
    proof {
        match parse_lines(b@, pos as int) {
            LinesParse::Done(ls) => {
                assert(line_views(lines@) + ls =~= ls);
            },
            LinesParse::BadName(ls) => {
                assert(line_views(lines@) + ls =~= ls);
            },
            LinesParse::Broken => {},
        }
    }
    loop
        invariant
            pos <= p,
            parse_lines(b@, pos as int) == lines_prefix(line_views(lines@), parse_lines(b@, p as int)),
        decreases b@.len() - p,
    {
        if p >= b.len() {
            assert(line_views(lines@) + seq![] =~= line_views(lines@));
            return (lines, LinesEnd::Done);
        }
        let z = match find_zero(b, p + 1) {
            None => {
                return (lines, LinesEnd::Broken);
            },
            Some(z) => z,
        };
        proof {
            lemma_first_zero(b@, p + 1);
        }
        let name = match crate::tag::utf8_to_string(&b[p..z]) {
            None => {
                assert(line_views(lines@) + seq![] =~= line_views(lines@));
                return (lines, LinesEnd::BadName);
            },
            Some(s) => s,
        };
        let (xs, next) = match read_indices(b, z + 1) {
            None => {
                return (lines, LinesEnd::Broken);
            },
            Some(r) => r,
        };
        proof {
            lemma_parse_indices_advances(b@, z + 1);
        }
        let ghost old_lines = line_views(lines@);
        let line = FileTags { name, tags: xs };
        let ghost lv = line@;
        lines.push(line);
        proof {
            assert(line_views(lines@) =~= old_lines.push(lv));
            match parse_lines(b@, next as int) {
                LinesParse::Done(ls) => {
                    assert(old_lines + (seq![lv] + ls) =~= line_views(lines@) + ls);
                },
                LinesParse::BadName(ls) => {
                    assert(old_lines + (seq![lv] + ls) =~= line_views(lines@) + ls);
                },
                LinesParse::Broken => {},
            }
        }
        p = next;
    }
}

/// Gives each image named in `lines` the tags of the line, line by line: the
/// first image with that name gets the line's indices, or no tag list where
/// the line lists none. Lines that name no image are passed over.
pub fn apply_file_tags(images: &mut Vec<Img>, lines: &Vec<FileTags>)
    ensures
        img_views(final(images)@) == apply_lines(img_views(old(images)@), line_views(lines@)),
        final(images)@.len() == old(images)@.len(),
{
    let ghost start = img_views(images@);
    let n = lines.len();
    let mut i: usize = 0;
    while i < n
        invariant
            n == lines@.len(),
            i <= n,
            img_views(images@) == apply_lines(start, line_views(lines@).take(i as int)),
            images@.len() == start.len(),
            start.len() == old(images)@.len(),
        decreases n - i,
    {
        let line = &lines[i];
        proof {
            assert(line_views(lines@).take(i + 1).drop_last() =~= line_views(lines@).take(i as int));
            assert(line_views(lines@).take(i + 1).last() == line@);
        }
        let ghost before = img_views(images@);
        let ghost before_imgs = images@;
        let new_tags: Option<Vec<TagIdx>> = if line.tags.len() == 0 {
            None
        } else {
            Some(line.tags.clone())
        };
        let ghost new_view: Option<Seq<TagIdx>> = match &new_tags {
            Some(v) => Some(v@),
            None => None,
        };
        assert(new_view == line_tags(line@));
        let found = match find_img_idx_by_name(line.name.as_str(), images.as_mut_slice()) {
            None => false,
            Some(img) => {
                img.tags = new_tags;
                true
            },
        };
        proof {
            if found {
                let k = choose|k: int|
                    is_first_image_named(before_imgs, line.name@, k) && images@ == before_imgs.update(
                        k,
                        Img { tags: images@[k].tags, ..before_imgs[k] },
                    );
                assert(is_first_named(before, line@.name, k));
                assert(first_named(before, line@.name) == k);
                assert(img_views(images@) =~= apply_line(before, line@));
            } else {
                assert(!exists|k: int| is_first_named(before, line@.name, k));
                assert(img_views(images@) =~= apply_line(before, line@));
            }
        }
        i = i + 1;
    }
    assert(line_views(lines@).take(n as int) =~= line_views(lines@));
}

/// Reads a tag file: gives the images named in it their tags and returns the
/// tag list. An image name that is not UTF-8 ends the reading with
/// `InvalidFileName`, after the lines before it were applied; bytes that are
/// not a tag file give `Malformed`.
pub fn apply_metadata(contents: &[u8], images: &mut Vec<Img>) -> (r: Result<Vec<Tag>, MetadataError>)
    ensures
        final(images)@.len() == old(images)@.len(),
        match parse_metadata(contents@) {
            MetadataParse::Complete(tags, lines) => {
                &&& r matches Ok(ts) && tag_views(ts@) == tags
                &&& img_views(final(images)@) == apply_lines(img_views(old(images)@), lines)
            },
            MetadataParse::BadName(lines) => {
                &&& r matches Err(MetadataError::InvalidFileName)
                &&& img_views(final(images)@) == apply_lines(img_views(old(images)@), lines)
            },
            MetadataParse::Broken => {
                &&& r matches Err(MetadataError::Malformed)
                &&& final(images)@ == old(images)@
            },
        },
{
    let (tags, next) = match read_tag_section(contents) {
        None => {
            return Err(MetadataError::Malformed);
        },
        Some(r) => r,
    };
    let (lines, end) = read_lines(contents, next);
    match end {
        LinesEnd::Broken => Err(MetadataError::Malformed),
        LinesEnd::BadName => {
            apply_file_tags(images, &lines);
            Err(MetadataError::InvalidFileName)
        },
        LinesEnd::Done => {
            apply_file_tags(images, &lines);
            Ok(tags)
        },
    }
}

/// The bytes of the tag file for `tags` and `images`.
pub fn encode_metadata(tags: &Vec<Tag>, images: &Vec<Img>) -> (r: Vec<u8>)
    ensures
        r@ == metadata_bytes(tag_views(tags@), img_views(images@)),
{
    let ghost tv = tag_views(tags@);
    let ghost iv = img_views(images@);
    let mut contents: Vec<u8> = Vec::new();
    let nt = tags.len();
    let mut i: usize = 0;
    while i < nt
        invariant
            nt == tags@.len(),
            tv == tag_views(tags@),
            i <= nt,
            contents@ == tag_records(tv.take(i as int)),
        decreases nt - i,
    {
        let b = tags[i].as_bytes();
        push_all(&mut contents, b.as_slice());
        contents.push(0);
        proof {
            assert(tv.take(i + 1).drop_last() =~= tv.take(i as int));
            assert(tv.take(i + 1).last() == tags@[i as int]@);
            assert(contents@ =~= tag_records(tv.take(i + 1)));
        }
        i = i + 1;
    }
    assert(tv.take(nt as int) =~= tv);
    contents.push(10);
    let ghost head = contents@;
    let ni = images.len();
    let mut j: usize = 0;
    while j < ni
        invariant
            ni == images@.len(),
            iv == img_views(images@),
            j <= ni,
            head == tag_records(tv) + seq![newline()],
            contents@ == head + image_lines(iv.take(j as int)),
        decreases ni - j,
    {
        let img = &images[j];
        let ghost before = contents@;
        push_all(&mut contents, img.name.as_str().as_bytes());
        contents.push(0);
        let ghost mid = contents@;
        match &img.tags {
            Some(list) => {
                let m = list.len();
                let mut k: usize = 0;
                while k < m
                    invariant
                        m == list@.len(),
                        k <= m,
                        contents@ == mid + index_bytes(list@.take(k as int)),
                    decreases m - k,
                {
                    push_le_bytes(&mut contents, list[k]);
                    proof {
                        assert(list@.take(k + 1).drop_last() =~= list@.take(k as int));
                        assert(contents@ =~= mid + index_bytes(list@.take(k + 1)));
                    }
                    k = k + 1;
                }
                assert(list@.take(m as int) =~= list@);
            },
            None => {
                assert(contents@ =~= mid + index_bytes(seq![]));
            },
        }
        contents.push(10);
        proof {
            assert(iv.take(j + 1).drop_last() =~= iv.take(j as int));
            assert(iv.take(j + 1).last() == img@);
            assert(contents@ =~= before + image_line(img@));
            assert(contents@ =~= head + image_lines(iv.take(j + 1)));
        }
        j = j + 1;
    }
    assert(iv.take(ni as int) =~= iv);
    contents
}

} // verus!
