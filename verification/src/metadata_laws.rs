use vstd::prelude::*;
use vstd::utf8::*;

use crate::entry::ImgView;
use crate::metadata::{
    apply_line, apply_lines, first_named, first_zero, image_line, image_lines, index_bytes,
    is_first_named, line_tags, metadata_bytes, newline, parse_indices, parse_lines, parse_metadata,
    parse_tag_section, tag_list, tag_records, FileLine, LinesParse, MetadataParse,
};
use crate::tag::{le_bytes, lemma_le_roundtrip, lemma_tag_bytes_roundtrip, le_value_at, tag_bytes, TagIdx, TagView};

verus! {

/// Whether a name can be stored in the tag file and read back: its UTF-8
/// bytes are not empty and hold no 0 byte after the first.
pub open spec fn storable_name(name: Seq<char>) -> bool {
    let b = encode_utf8(name);
    &&& b.len() > 0
    &&& forall|i: int| 1 <= i < b.len() ==> b[i] != 0
}

/// Whether a number can be stored where a line could end: its first
/// little-endian byte is not the newline byte.
pub open spec fn storable_number(n: u32) -> bool {
    le_bytes(n)[0] != newline()
}

/// Whether a tag can be stored in the tag file and read back.
pub open spec fn storable_tag(t: TagView) -> bool {
    storable_name(t.name) && storable_number(t.idx)
}

/// Whether an image's tags can be stored in the tag file and read back.
pub open spec fn storable_image(img: ImgView) -> bool {
    &&& storable_name(img.name)
    &&& forall|j: int| 0 <= j < tag_list(img.tags).len() ==> storable_number(
        #[trigger] tag_list(img.tags)[j],
    )
}

/// The lines that the tag file holds for a list of images.
pub open spec fn lines_of(imgs: Seq<ImgView>) -> Seq<FileLine> {
    Seq::new(imgs.len(), |i: int| FileLine { name: imgs[i].name, tags: tag_list(imgs[i].tags) })
}

/// The position of a 0 byte that follows only non-zero bytes.
proof fn lemma_first_zero_at(b: Seq<u8>, from: int, z: int)
    requires
        0 <= from <= z < b.len(),
        b[z] == 0,
        forall|j: int| from <= j < z ==> b[j] != 0,
    ensures
        first_zero(b, from) == z,
    decreases z - from,
{
    if from < z {
        lemma_first_zero_at(b, from + 1, z);
    }
}

proof fn lemma_records_prefix(ts: Seq<TagView>, k: int)
    requires
        0 <= k <= ts.len(),
    ensures
        tag_records(ts.take(k)).len() <= tag_records(ts).len(),
        tag_records(ts).subrange(0, tag_records(ts.take(k)).len() as int) == tag_records(
            ts.take(k),
        ),
    decreases ts.len(),
{
    if k == ts.len() {
        assert(ts.take(k) =~= ts);
    } else {
        let d = ts.drop_last();
        assert(d.take(k) =~= ts.take(k));
        lemma_records_prefix(d, k);
        assert(tag_records(ts).subrange(0, tag_records(ts.take(k)).len() as int) =~= tag_records(
            d,
        ).subrange(0, tag_records(ts.take(k)).len() as int));
    }
}

proof fn lemma_index_bytes_prefix(xs: Seq<TagIdx>, k: int)
    requires
        0 <= k <= xs.len(),
    ensures
        index_bytes(xs.take(k)).len() == 4 * k,
        index_bytes(xs).len() == 4 * xs.len(),
        index_bytes(xs).subrange(0, 4 * k) == index_bytes(xs.take(k)),
    decreases xs.len(),
{
    if xs.len() == 0 {
        assert(xs.take(k) =~= xs);
    } else if k == xs.len() {
        assert(xs.take(k) =~= xs);
        lemma_index_bytes_prefix(xs.drop_last(), 0);
    } else {
        let d = xs.drop_last();
        assert(d.take(k) =~= xs.take(k));
        lemma_index_bytes_prefix(d, k);
        assert(index_bytes(xs).subrange(0, 4 * k) =~= index_bytes(d).subrange(0, 4 * k));
    }
}

proof fn lemma_lines_prefix(imgs: Seq<ImgView>, k: int)
    requires
        0 <= k <= imgs.len(),
    ensures
        image_lines(imgs.take(k)).len() <= image_lines(imgs).len(),
        image_lines(imgs).subrange(0, image_lines(imgs.take(k)).len() as int) == image_lines(
            imgs.take(k),
        ),
    decreases imgs.len(),
{
    if k == imgs.len() {
        assert(imgs.take(k) =~= imgs);
    } else {
        let d = imgs.drop_last();
        assert(d.take(k) =~= imgs.take(k));
        lemma_lines_prefix(d, k);
        assert(image_lines(imgs).subrange(0, image_lines(imgs.take(k)).len() as int)
            =~= image_lines(d).subrange(0, image_lines(imgs.take(k)).len() as int));
    }
}

/// Reading the tag records of `ts`, from the `k`-th on, where they stand at
/// the start of `b` followed by a newline.
proof fn lemma_parse_tags_from(b: Seq<u8>, ts: Seq<TagView>, k: int)
    requires
        0 <= k <= ts.len(),
        tag_records(ts).len() < b.len(),
        b.subrange(0, tag_records(ts).len() as int) == tag_records(ts),
        b[tag_records(ts).len() as int] == newline(),
        forall|i: int| 0 <= i < ts.len() ==> storable_tag(#[trigger] ts[i]),
    ensures
        parse_tag_section(b, tag_records(ts.take(k)).len() as int) == Some(
            (ts.skip(k), tag_records(ts).len() + 1int),
        ),
    decreases ts.len() - k,
{
    let p = tag_records(ts.take(k)).len() as int;
    if k == ts.len() {
        assert(ts.take(k) =~= ts);
        assert(ts.skip(k) =~= Seq::<TagView>::empty());
    } else {
        let t = ts[k];
        let tb = tag_bytes(t);
        let nb = encode_utf8(t.name);
        assert(ts.take(k + 1).drop_last() =~= ts.take(k));
        assert(ts.take(k + 1).last() == t);
        let r1 = tag_records(ts.take(k + 1));
        assert(r1 == tag_records(ts.take(k)) + tb + seq![0u8]);
        lemma_records_prefix(ts, k + 1);
        let q = r1.len() as int;
        assert(storable_tag(t));
        lemma_le_roundtrip(t.idx);
        lemma_le_roundtrip(t.refs);
        assert(tb.len() == 8 + nb.len());
        assert forall|j: int| 0 <= j < tb.len() implies b[p + j] == tb[j] by {
            assert(b[p + j] == tag_records(ts)[p + j]);
            assert(tag_records(ts)[p + j] == r1[p + j]);
        }
        assert(r1[q - 1] == 0);
        assert(tag_records(ts)[q - 1] == r1[q - 1]);
        assert(b[q - 1] == tag_records(ts)[q - 1]);
        assert(b[q - 1] == 0);
        assert(b[p] == tb[0]);
        assert(tb[0] == le_bytes(t.idx)[0]);
        assert forall|j: int| p + 9 <= j < q - 1 implies b[j] != 0 by {
            assert(b[j] == tb[j - p]);
            assert(tb[j - p] == nb[j - p - 8]);
        }
        lemma_first_zero_at(b, p + 9, q - 1);
        assert(b.subrange(p, q - 1) =~= tb);
        lemma_tag_bytes_roundtrip(t);
        lemma_parse_tags_from(b, ts, k + 1);
        assert(seq![t] + ts.skip(k + 1) =~= ts.skip(k));
    }
}

/// Reading the indices `xs`, from the `k`-th on, where their bytes stand at
/// `q` in `b` followed by a newline.
proof fn lemma_parse_indices_from(b: Seq<u8>, q: int, xs: Seq<TagIdx>, k: int)
    requires
        0 <= k <= xs.len(),
        0 <= q,
        q + 4 * xs.len() < b.len(),
        b.subrange(q, q + 4 * xs.len()) == index_bytes(xs),
        b[q + 4 * xs.len()] == newline(),
        forall|i: int| 0 <= i < xs.len() ==> storable_number(#[trigger] xs[i]),
    ensures
        parse_indices(b, q + 4 * k) == Some((xs.skip(k), q + 4 * xs.len() + 1)),
    decreases xs.len() - k,
{
    lemma_index_bytes_prefix(xs, k);
    if k == xs.len() {
        assert(xs.skip(k) =~= Seq::<TagIdx>::empty());
    } else {
        let x = xs[k];
        lemma_index_bytes_prefix(xs, k + 1);
        assert(xs.take(k + 1).drop_last() =~= xs.take(k));
        assert(index_bytes(xs.take(k + 1)) == index_bytes(xs.take(k)) + le_bytes(x));
        lemma_le_roundtrip(x);
        let p = q + 4 * k;
        assert forall|j: int| 0 <= j < 4 implies b[p + j] == le_bytes(x)[j] by {
            assert(b[p + j] == index_bytes(xs)[4 * k + j]);
            assert(index_bytes(xs)[4 * k + j] == index_bytes(xs.take(k + 1))[4 * k + j]);
        }
        assert(storable_number(x));
        assert(b[p] != newline());
        assert(le_value_at(b, p) == le_value_at(le_bytes(x), 0));
        lemma_parse_indices_from(b, q, xs, k + 1);
        assert(seq![x] + xs.skip(k + 1) =~= xs.skip(k));
    }
}

/// Reading the image lines of `imgs`, from the `k`-th on, where they end `b`
/// from position `h`.
proof fn lemma_parse_lines_from(b: Seq<u8>, h: int, imgs: Seq<ImgView>, k: int)
    requires
        0 <= k <= imgs.len(),
        0 <= h,
        b.len() == h + image_lines(imgs).len(),
        b.subrange(h, b.len() as int) == image_lines(imgs),
        forall|i: int| 0 <= i < imgs.len() ==> storable_image(#[trigger] imgs[i]),
    ensures
        parse_lines(b, h + image_lines(imgs.take(k)).len()) == LinesParse::Done(
            lines_of(imgs).skip(k),
        ),
    decreases imgs.len() - k,
{
    let p = h + image_lines(imgs.take(k)).len();
    lemma_lines_prefix(imgs, k);
    if k == imgs.len() {
        assert(imgs.take(k) =~= imgs);
        assert(lines_of(imgs).skip(k) =~= Seq::<FileLine>::empty());
    } else {
        let img = imgs[k];
        let nb = encode_utf8(img.name);
        let xs = tag_list(img.tags);
        let line = image_line(img);
        assert(imgs.take(k + 1).drop_last() =~= imgs.take(k));
        assert(imgs.take(k + 1).last() == img);
        lemma_lines_prefix(imgs, k + 1);
        let r1 = image_lines(imgs.take(k + 1));
        assert(r1 == image_lines(imgs.take(k)) + line);
        let l0 = image_lines(imgs.take(k)).len() as int;
        assert forall|j: int| 0 <= j < line.len() implies b[p + j] == line[j] by {
            assert(b[p + j] == image_lines(imgs)[l0 + j]);
            assert(image_lines(imgs)[l0 + j] == r1[l0 + j]);
        }
        assert(storable_image(img));
        lemma_index_bytes_prefix(xs, 0);
        let z = p + nb.len();
        assert(line[nb.len() as int] == 0);
        assert forall|j: int| p + 1 <= j < z implies b[j] != 0 by {
            assert(b[j] == line[j - p]);
            assert(line[j - p] == nb[j - p]);
        }
        lemma_first_zero_at(b, p + 1, z);
        assert forall|j: int| 0 <= j < nb.len() implies b[p + j] == nb[j] by {
            assert(b[p + j] == line[j]);
        }
        assert(b.subrange(p, z) =~= nb);
        broadcast use vstd::utf8::group_utf8_lib;
        let q = z + 1;
        assert(b.subrange(q, q + 4 * xs.len()) =~= index_bytes(xs)) by {
            assert forall|j: int| 0 <= j < 4 * xs.len() implies b[q + j] == index_bytes(xs)[j] by {
                assert(b[q + j] == line[nb.len() + 1 + j]);
            }
        }
        assert(b[q + 4 * xs.len()] == line[line.len() - 1]);
        lemma_parse_indices_from(b, q, xs, 0);
        assert(xs.skip(0) =~= xs);
        assert(q + 4 * xs.len() + 1 == h + r1.len());
        lemma_parse_lines_from(b, h, imgs, k + 1);
        assert(seq![lines_of(imgs)[k]] + lines_of(imgs).skip(k + 1) =~= lines_of(imgs).skip(k));
    }
}

/// Reading the tag file written for `tags` and `imgs` gives back the tags
/// and, for each image in order, its name and its tag indices, wherever the
/// names and numbers can be stored.
pub proof fn lemma_metadata_roundtrip(tags: Seq<TagView>, imgs: Seq<ImgView>)
    requires
        forall|i: int| 0 <= i < tags.len() ==> storable_tag(#[trigger] tags[i]),
        forall|i: int| 0 <= i < imgs.len() ==> storable_image(#[trigger] imgs[i]),
    ensures
        parse_metadata(metadata_bytes(tags, imgs)) == MetadataParse::Complete(tags, lines_of(imgs)),
{
    let b = metadata_bytes(tags, imgs);
    let head = tag_records(tags) + seq![newline()];
    assert(b.subrange(0, tag_records(tags).len() as int) =~= tag_records(tags));
    assert(tags.take(0) =~= Seq::<TagView>::empty());
    lemma_parse_tags_from(b, tags, 0);
    assert(tags.skip(0) =~= tags);
    assert(b.subrange(head.len() as int, b.len() as int) =~= image_lines(imgs));
    assert(imgs.take(0) =~= Seq::<ImgView>::empty());
    lemma_parse_lines_from(b, head.len() as int, imgs, 0);
    assert(lines_of(imgs).skip(0) =~= lines_of(imgs));
}

/// The tag list an image gets back from the tag file: none where it had
/// none or an empty one.
pub open spec fn stored_tags(t: Option<Seq<TagIdx>>) -> Option<Seq<TagIdx>> {
    if tag_list(t).len() == 0 {
        None
    } else {
        Some(tag_list(t))
    }
}

/// Whether one of the first `k` images of `imgs` is named `name`.
pub open spec fn has_line_before(imgs: Seq<ImgView>, name: Seq<char>, k: int) -> bool {
    exists|j: int| 0 <= j < k && (#[trigger] imgs[j]).name == name
}

/// The position among the first `k` images of `imgs` of one named `name`.
pub open spec fn line_index(imgs: Seq<ImgView>, name: Seq<char>, k: int) -> int {
    choose|j: int| 0 <= j < k && (#[trigger] imgs[j]).name == name
}

/// The images `fresh`, each named like one of the first `k` images of
/// `imgs` given that image's stored tags.
pub open spec fn restored(fresh: Seq<ImgView>, imgs: Seq<ImgView>, k: int) -> Seq<ImgView> {
    Seq::new(
        fresh.len(),
        |i: int|
            if has_line_before(imgs, fresh[i].name, k) {
                ImgView {
                    tags: stored_tags(imgs[line_index(imgs, fresh[i].name, k)].tags),
                    ..fresh[i]
                }
            } else {
                fresh[i]
            },
    )
}

proof fn lemma_apply_prefix(fresh: Seq<ImgView>, imgs: Seq<ImgView>, k: int)
    requires
        0 <= k <= imgs.len(),
        forall|i: int, j: int|
            0 <= i < j < fresh.len() ==> (#[trigger] fresh[i]).name != (#[trigger] fresh[j]).name,
        forall|i: int, j: int|
            0 <= i < j < imgs.len() ==> (#[trigger] imgs[i]).name != (#[trigger] imgs[j]).name,
    ensures
        apply_lines(fresh, lines_of(imgs).take(k)) == restored(fresh, imgs, k),
    decreases k,
{
    if k == 0 {
        assert(restored(fresh, imgs, 0) =~= fresh);
    } else {
        lemma_apply_prefix(fresh, imgs, k - 1);
        let ls = lines_of(imgs).take(k);
        assert(ls.drop_last() =~= lines_of(imgs).take(k - 1));
        let cur = restored(fresh, imgs, k - 1);
        let line = ls.last();
        let name = imgs[k - 1].name;
        assert(line.name == name);
        assert(line_tags(line) == stored_tags(imgs[k - 1].tags));
        let next = restored(fresh, imgs, k);
        // An image named like `imgs[k - 1]` had no line before.
        assert forall|i: int| 0 <= i < fresh.len() && fresh[i].name == name implies !has_line_before(
            imgs,
            fresh[i].name,
            k - 1,
        ) by {
            if has_line_before(imgs, fresh[i].name, k - 1) {
                let j = choose|j: int| 0 <= j < k - 1 && (#[trigger] imgs[j]).name == fresh[i].name;
                assert(imgs[j].name != imgs[k - 1].name);
            }
        }
        // Images named otherwise keep what the earlier lines gave them.
        assert forall|i: int| 0 <= i < fresh.len() && fresh[i].name != name implies #[trigger] next[i]
            == cur[i] by {
            if has_line_before(imgs, fresh[i].name, k) {
                let j = line_index(imgs, fresh[i].name, k);
                assert(j != k - 1);
                assert(has_line_before(imgs, fresh[i].name, k - 1));
                let j2 = line_index(imgs, fresh[i].name, k - 1);
                if j != j2 {
                    if j < j2 {
                        assert(imgs[j].name != imgs[j2].name);
                    } else {
                        assert(imgs[j2].name != imgs[j].name);
                    }
                }
            } else {
                if has_line_before(imgs, fresh[i].name, k - 1) {
                    let j = choose|j: int| 0 <= j < k - 1 && (#[trigger] imgs[j]).name == fresh[i].name;
                    assert(0 <= j < k && imgs[j].name == fresh[i].name);
                }
            }
        }
        if exists|q: int| is_first_named(cur, name, q) {
            let q = first_named(cur, name);
            assert(is_first_named(cur, name, q));
            assert(cur[q].name == fresh[q].name);
            assert(has_line_before(imgs, fresh[q].name, k)) by {
                assert(imgs[k - 1].name == fresh[q].name);
            }
            let j = line_index(imgs, fresh[q].name, k);
            if j != k - 1 {
                assert(imgs[j].name != imgs[k - 1].name);
            }
            assert forall|i: int| 0 <= i < fresh.len() && i != q implies fresh[i].name != name by {
                if i < q {
                    assert(fresh[i].name != fresh[q].name);
                } else {
                    assert(fresh[q].name != fresh[i].name);
                }
            }
            assert(apply_line(cur, line) =~= next);
        } else {
            assert forall|i: int| 0 <= i < fresh.len() implies fresh[i].name != name by {
                if fresh[i].name == name {
                    assert(cur[i].name == fresh[i].name);
                    assert forall|j: int| 0 <= j < i implies (#[trigger] cur[j]).name != name by {
                        assert(cur[j].name == fresh[j].name);
                        assert(fresh[j].name != fresh[i].name);
                    }
                    assert(is_first_named(cur, name, i));
                }
            }
            assert(apply_line(cur, line) =~= next);
        }
    }
}

/// Writing the tag file and reading it back into a listing of images with
/// pairwise different names gives back the tag list, gives each listed
/// image named like a written image that image's tags (an empty tag list
/// comes back as none), and leaves the other listed images as they were,
/// wherever the written names are pairwise different and names and numbers
/// can be stored.
pub proof fn lemma_metadata_read_after_write(
    tags: Seq<TagView>,
    imgs: Seq<ImgView>,
    fresh: Seq<ImgView>,
)
    requires
        forall|i: int| 0 <= i < tags.len() ==> storable_tag(#[trigger] tags[i]),
        forall|i: int| 0 <= i < imgs.len() ==> storable_image(#[trigger] imgs[i]),
        forall|i: int, j: int|
            0 <= i < j < fresh.len() ==> (#[trigger] fresh[i]).name != (#[trigger] fresh[j]).name,
        forall|i: int, j: int|
            0 <= i < j < imgs.len() ==> (#[trigger] imgs[i]).name != (#[trigger] imgs[j]).name,
    ensures
        parse_metadata(metadata_bytes(tags, imgs)) == MetadataParse::Complete(tags, lines_of(imgs)),
        apply_lines(fresh, lines_of(imgs)).len() == fresh.len(),
        forall|i: int, j: int|
            0 <= i < fresh.len() && 0 <= j < imgs.len() && imgs[j].name == fresh[i].name
                ==> #[trigger] apply_lines(fresh, lines_of(imgs))[i] == (ImgView {
                tags: stored_tags(#[trigger] imgs[j].tags),
                ..fresh[i]
            }),
        forall|i: int|
            0 <= i < fresh.len() && (forall|j: int|
                0 <= j < imgs.len() ==> (#[trigger] imgs[j]).name != fresh[i].name)
                ==> #[trigger] apply_lines(fresh, lines_of(imgs))[i] == fresh[i],
{
    lemma_metadata_roundtrip(tags, imgs);
    let n = imgs.len() as int;
    lemma_apply_prefix(fresh, imgs, n);
    assert(lines_of(imgs).take(n) =~= lines_of(imgs));
    let r = apply_lines(fresh, lines_of(imgs));
    assert forall|i: int, j: int|
        0 <= i < fresh.len() && 0 <= j < imgs.len() && imgs[j].name == fresh[i].name
            implies #[trigger] r[i] == (ImgView { tags: stored_tags(#[trigger] imgs[j].tags), ..fresh[i] }) by {
        assert(has_line_before(imgs, fresh[i].name, n));
        let j2 = line_index(imgs, fresh[i].name, n);
        if j != j2 {
            if j < j2 {
                assert(imgs[j].name != imgs[j2].name);
            } else {
                assert(imgs[j2].name != imgs[j].name);
            }
        }
    }
}
} // verus!
