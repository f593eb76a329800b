use vstd::prelude::*;

use crate::entry::{img_views, Img, ImgView};
use crate::metadata::{tag_list, tag_views};
use crate::tag::{Tag, TagIdx, TagView};

verus! {

/// Whether a tag is carried by some image.
pub open spec fn is_live(t: TagView) -> bool {
    t.refs > 0
}

/// How many tags of `ts` are live.
pub open spec fn live_count(ts: Seq<TagView>) -> nat
    decreases ts.len(),
{
    if ts.len() == 0 {
        0
    } else {
        live_count(ts.drop_last()) + if is_live(ts.last()) {
            1nat
        } else {
            0nat
        }
    }
}

/// The index that the tag at position `i` of `ts` gets once the tags that no
/// image carries are dropped: the number of live tags before it.
pub open spec fn new_index(ts: Seq<TagView>, i: int) -> nat {
    live_count(ts.take(i))
}

/// The mapping from old to new tag indices: `None` for a tag that no image
/// carries.
pub open spec fn mapping_of(ts: Seq<TagView>) -> Seq<Option<TagIdx>> {
    Seq::new(
        ts.len(),
        |i: int|
            if is_live(ts[i]) {
                Some(new_index(ts, i) as TagIdx)
            } else {
                None
            },
    )
}

/// The live tags of `all.take(k)`, in order, each with its index replaced by
/// the new index of the tag its old index names.
pub open spec fn compressed(all: Seq<TagView>, k: int) -> Seq<TagView>
    decreases k,
{
    if k <= 0 {
        seq![]
    } else {
        let rest = compressed(all, k - 1);
        let t = all[k - 1];
        if is_live(t) {
            rest.push(TagView { idx: new_index(all, t.idx as int) as TagIdx, ..t })
        } else {
            rest
        }
    }
}

/// A tag index list with each index replaced by its new index.
pub open spec fn remap(all: Seq<TagView>, xs: Seq<TagIdx>) -> Seq<TagIdx> {
    xs.map_values(|x: TagIdx| new_index(all, x as int) as TagIdx)
}

/// An image with its tag indices replaced by their new indices.
pub open spec fn remap_image(all: Seq<TagView>, img: ImgView) -> ImgView {
    ImgView {
        tags: match img.tags {
            Some(xs) => Some(remap(all, xs)),
            None => None,
        },
        ..img
    }
}

/// Whether `x` names a tag of `all` that some image carries.
pub open spec fn names_live_tag(all: Seq<TagView>, x: TagIdx) -> bool {
    x < all.len() && is_live(all[x as int])
}

/// Whether compressing can map every index it meets: each live tag's own
/// index, and each index on an image, names a live tag.
pub open spec fn compressible(all: Seq<TagView>, imgs: Seq<ImgView>) -> bool {
    &&& live_count(all) <= u32::MAX
    &&& forall|i: int|
        0 <= i < all.len() && is_live(#[trigger] all[i]) ==> names_live_tag(all, all[i].idx)
    &&& forall|i: int, j: int|
        0 <= i < imgs.len() && 0 <= j < tag_list(imgs[i].tags).len() ==> names_live_tag(
            all,
            #[trigger] tag_list(#[trigger] imgs[i].tags)[j],
        )
}

/// Whether compressing `tags` and `images` can map every index it meets
/// (see [`compressible`]).
pub fn tags_compressible(tags: &Vec<Tag>, images: &Vec<Img>) -> (r: bool)
    ensures
        r == compressible(tag_views(tags@), img_views(images@)),
{
    let ghost all = tag_views(tags@);
    let ghost iv = img_views(images@);
    let n = tags.len();
    let mut live: u64 = 0;
    let mut i: usize = 0;
    while i < n
        invariant
            n == tags@.len(),
            all == tag_views(tags@),
            i <= n,
            live == live_count(all.take(i as int)),
            forall|k: int|
                0 <= k < i && is_live(#[trigger] all[k]) ==> names_live_tag(all, all[k].idx),
        decreases n - i,
    {
        let t = &tags[i];
        assert(all[i as int] == t@);
        proof {
            assert(all.take(i + 1).drop_last() =~= all.take(i as int));
            lemma_live_count_bound(all.take(i as int));
        }
        if t.refs > 0 {
            let x = t.idx as usize;
            if x >= n || tags[x].refs == 0 {
                assert(!names_live_tag(all, all[i as int].idx));
                return false;
            }
            live = live + 1;
        }
        i = i + 1;
    }
    assert(all.take(n as int) =~= all);
    if live > u32::MAX as u64 {
        return false;
    }
    let m = images.len();
    let mut j: usize = 0;
    while j < m
        invariant
            n == tags@.len(),
            all == tag_views(tags@),
            m == images@.len(),
            iv == img_views(images@),
            j <= m,
            forall|a: int, b: int|
                0 <= a < j && 0 <= b < tag_list(iv[a].tags).len() ==> names_live_tag(
                    all,
                    #[trigger] tag_list(#[trigger] iv[a].tags)[b],
                ),
        decreases m - j,
    {
        let img = &images[j];
        assert(iv[j as int] == img@);
        if let Some(list) = &img.tags {
            let len = list.len();
            let mut k: usize = 0;
            while k < len
                invariant
                    n == tags@.len(),
                    all == tag_views(tags@),
                    len == list@.len(),
                    m == images@.len(),
                    iv == img_views(images@),
                    j < m,
                    iv[j as int].tags == Some(list@),
                    k <= len,
                    forall|b: int| 0 <= b < k ==> names_live_tag(all, #[trigger] list@[b]),
                decreases len - k,
            {
                let x = list[k] as usize;
                if x >= n || tags[x].refs == 0 {
                    assert(tag_list(iv[j as int].tags)[k as int] == list@[k as int]);
                    assert(!names_live_tag(all, list@[k as int]));
                    return false;
                }
                k = k + 1;
            }
        }
        proof {
            assert forall|a: int, b: int|
                0 <= a < j + 1 && 0 <= b < tag_list(iv[a].tags).len() implies names_live_tag(
                all,
                #[trigger] tag_list(#[trigger] iv[a].tags)[b],
            ) by {
                if a == j as int {
                    match iv[a].tags {
                        Some(l) => {
                            assert(l[b] == tag_list(iv[a].tags)[b]);
                        },
                        None => {},
                    }
                }
            }
        }
        j = j + 1;
    }
    true
}

/// A prefix holds no more live tags than the whole list.
proof fn lemma_live_count_prefix(all: Seq<TagView>, i: int)
    requires
        0 <= i <= all.len(),
    ensures
        live_count(all.take(i)) <= live_count(all),
    decreases all.len(),
{
    if i == all.len() {
        assert(all.take(i) =~= all);
    } else {
        lemma_live_count_prefix(all.drop_last(), i);
        assert(all.drop_last().take(i) =~= all.take(i));
    }
}

proof fn lemma_live_count_bound(ts: Seq<TagView>)
    ensures
        live_count(ts) <= ts.len(),
    decreases ts.len(),
{
    if ts.len() > 0 {
        lemma_live_count_bound(ts.drop_last());
    }
}

/// For each tag, the index it gets once the tags that no image carries are
/// dropped, or `None` for such a tag.
pub fn new_mappings(tags: &Vec<Tag>) -> (r: Vec<Option<TagIdx>>)
    requires
        live_count(tag_views(tags@)) <= u32::MAX,
    ensures
        r@ == mapping_of(tag_views(tags@)),
{
    let ghost all = tag_views(tags@);
    let mut counter: u32 = 0;
    let mut vec: Vec<Option<TagIdx>> = Vec::new();
    let n = tags.len();
    let mut i: usize = 0;
    while i < n
        invariant
            n == tags@.len(),
            live_count(all) <= u32::MAX,
            all == tag_views(tags@),
            i <= n,
            counter == live_count(all.take(i as int)),
            vec@ == mapping_of(all).take(i as int),
        decreases n - i,
    {
        proof {
            assert(all.take(i + 1).drop_last() =~= all.take(i as int));
            lemma_live_count_prefix(all, i + 1);
        }
        if tags[i].refs == 0 {
            vec.push(None);
        } else {
            vec.push(Some(counter));
            counter = counter + 1;
        }
        i = i + 1;
        assert(vec@ =~= mapping_of(all).take(i as int));
    }
    assert(mapping_of(all).take(n as int) =~= mapping_of(all));
    vec
}

/// Drops the tags that no image carries and renumbers the others, on the
/// tags and on the images, so that the remaining tags are numbered in order.
pub fn compress_tags(tags: &mut Vec<Tag>, images: &mut Vec<Img>)
    requires
        compressible(tag_views(old(tags)@), img_views(old(images)@)),
    ensures
        tag_views(final(tags)@) == compressed(
            tag_views(old(tags)@),
            old(tags)@.len() as int,
        ),
        img_views(final(images)@) == img_views(old(images)@).map_values(
            |img: ImgView| remap_image(tag_views(old(tags)@), img),
        ),
{
    let ghost all = tag_views(tags@);
    let ghost iv = img_views(images@);
    let new_map = new_mappings(tags);
    let n = tags.len();
    let mut kept: Vec<Tag> = Vec::new();
    let mut i: usize = 0;
    while i < n
        invariant
            n == tags@.len(),
            all == tag_views(tags@),
            compressible(all, iv),
            new_map@ == mapping_of(all),
            i <= n,
            tag_views(kept@) == compressed(all, i as int),
        decreases n - i,
    {
        let t = &tags[i];
        if t.refs > 0 {
            assert(is_live(all[i as int]));
            assert(names_live_tag(all, all[i as int].idx));
            let idx = match new_map[t.idx as usize] {
                Some(v) => v,
                None => {
                    proof {
                        assert(false);
                    }
                    0
                },
            };
            let ghost before = tag_views(kept@);
            kept.push(Tag { name: t.name.clone(), idx, refs: t.refs });
            assert(tag_views(kept@) =~= compressed(all, i + 1));
        } else {
            assert(tag_views(kept@) =~= compressed(all, i + 1));
        }
        i = i + 1;
    }
    let m = images.len();
    let mut out: Vec<Img> = Vec::new();
    let mut j: usize = 0;
    while j < m
        invariant
            m == images@.len(),
            iv == img_views(images@),
            compressible(all, iv),
            new_map@ == mapping_of(all),
            j <= m,
            img_views(out@) == iv.map_values(|img: ImgView| remap_image(all, img)).take(j as int),
        decreases m - j,
    {
        let img = &images[j];
        let new_tags: Option<Vec<TagIdx>> = match &img.tags {
            Some(list) => {
                let mut mapped: Vec<TagIdx> = Vec::new();
                let len = list.len();
                let mut k: usize = 0;
                while k < len
                    invariant
                        len == list@.len(),
                        iv == img_views(images@),
                        img@ == iv[j as int],
                        j < m,
                        m == images@.len(),
                        img.tags == Some(*list),
                        compressible(all, iv),
                        new_map@ == mapping_of(all),
                        k <= len,
                        mapped@ == remap(all, list@).take(k as int),
                    decreases len - k,
                {
                    let x = list[k];
                    assert(tag_list(iv[j as int].tags)[k as int] == x);
                    assert(names_live_tag(all, x));
                    let y = match new_map[x as usize] {
                        Some(v) => v,
                        None => {
                            proof {
                                assert(false);
                            }
                            0
                        },
                    };
                    mapped.push(y);
                    k = k + 1;
                    assert(mapped@ =~= remap(all, list@).take(k as int));
                }
                assert(remap(all, list@).take(len as int) =~= remap(all, list@));
                Some(mapped)
            },
            None => None,
        };
        proof {
            match iv[j as int].tags {
                Some(xs) => {
                    assert(new_tags matches Some(v) && v@ == remap(all, xs));
                },
                None => {
                    assert(new_tags is None);
                },
            }
        }
        let ghost before = img_views(out@);
        out.push(
            Img {
                idx: img.idx,
                path: img.path.clone(),
                name: img.name.clone(),
                extension: img.extension.clone(),
                tags: new_tags,
            },
        );
        assert(before.len() == j);
        assert(out@.len() == j + 1);
        assert(out@[j as int].name == img.name);
        assert(img@ == iv[j as int]);
        assert(out@[j as int].name@ == iv[j as int].name);
        assert(out@[j as int].path@ == iv[j as int].path);
        assert(out@[j as int].extension@ == iv[j as int].extension);
        assert(out@[j as int]@.tags == remap_image(all, iv[j as int]).tags);
        assert(out@[j as int]@ == remap_image(all, iv[j as int]));
        assert(img_views(out@) =~= before.push(remap_image(all, iv[j as int])));
        j = j + 1;
        assert(img_views(out@) =~= iv.map_values(|img: ImgView| remap_image(all, img)).take(
            j as int,
        ));
    }
    assert(iv.map_values(|img: ImgView| remap_image(all, img)).take(m as int) =~= iv.map_values(
        |img: ImgView| remap_image(all, img),
    ));
    *tags = kept;
    *images = out;
}

/// Whether each tag's index is its position in the list.
pub open spec fn dense(ts: Seq<TagView>) -> bool {
    forall|i: int| 0 <= i < ts.len() ==> (#[trigger] ts[i]).idx == i
}

pub(crate) proof fn lemma_compressed_shape(all: Seq<TagView>, k: int)
    requires
        0 <= k <= all.len(),
        live_count(all) <= u32::MAX,
        dense(all),
    ensures
        compressed(all, k).len() == live_count(all.take(k)),
        forall|j: int|
            0 <= j < compressed(all, k).len() ==> (#[trigger] compressed(all, k)[j]).idx == j
                && is_live(compressed(all, k)[j]),
        forall|i: int|
            0 <= i < k && is_live(#[trigger] all[i]) ==> compressed(all, k)[new_index(all, i) as int]
                == (TagView { idx: new_index(all, i) as TagIdx, ..all[i] }),
    decreases k,
{
    if k == 0 {
        assert(all.take(0) =~= Seq::<TagView>::empty());
    } else {
        lemma_compressed_shape(all, k - 1);
        assert(all.take(k).drop_last() =~= all.take(k - 1));
        lemma_live_count_prefix(all, k - 1);
        let t = all[k - 1];
        assert(t.idx == k - 1);
        assert(all.take(t.idx as int) == all.take(k - 1));
        assert forall|i: int| 0 <= i < k && is_live(#[trigger] all[i]) implies compressed(
            all,
            k,
        )[new_index(all, i) as int] == (TagView { idx: new_index(all, i) as TagIdx, ..all[i] }) by {
            lemma_live_count_prefix(all, i);
            if i < k - 1 {
                lemma_live_count_grows(all.take(k - 1), i);
                assert(all.take(k - 1).take(i) =~= all.take(i));
                assert(all.take(k - 1)[i] == all[i]);
            }
        }
    }
}

/// Compressing a tag list whose indices are the tags' positions leaves a
/// list of tags that all are carried, again numbered by position, and each
/// tag index on an image, once renumbered, names the same tag as before.
pub proof fn lemma_compress_keeps_tags(all: Seq<TagView>, imgs: Seq<ImgView>)
    requires
        dense(all),
        compressible(all, imgs),
    ensures
        dense(compressed(all, all.len() as int)),
        forall|j: int|
            0 <= j < compressed(all, all.len() as int).len() ==> is_live(
                #[trigger] compressed(all, all.len() as int)[j],
            ),
        forall|i: int, j: int|
            0 <= i < imgs.len() && 0 <= j < tag_list(imgs[i].tags).len() ==> {
                let x = #[trigger] tag_list(#[trigger] imgs[i].tags)[j];
                let c = compressed(all, all.len() as int);
                &&& new_index(all, x as int) < c.len()
                &&& c[new_index(all, x as int) as int].name == all[x as int].name
                &&& c[new_index(all, x as int) as int].refs == all[x as int].refs
            },
{
    let n = all.len() as int;
    lemma_compressed_shape(all, n);
    assert(all.take(n) =~= all);
    assert forall|i: int, j: int|
        0 <= i < imgs.len() && 0 <= j < tag_list(imgs[i].tags).len() implies {
            let x = #[trigger] tag_list(#[trigger] imgs[i].tags)[j];
            let c = compressed(all, all.len() as int);
            &&& new_index(all, x as int) < c.len()
            &&& c[new_index(all, x as int) as int].name == all[x as int].name
            &&& c[new_index(all, x as int) as int].refs == all[x as int].refs
        } by {
        let x = tag_list(imgs[i].tags)[j];
        assert(names_live_tag(all, x));
        lemma_live_count_grows(all, x as int);
    }
}

/// A live tag counts among the live tags up to and including it.
pub(crate) proof fn lemma_live_count_grows(all: Seq<TagView>, i: int)
    requires
        0 <= i < all.len(),
        is_live(all[i]),
    ensures
        new_index(all, i) < live_count(all),
    decreases all.len(),
{
    if i == all.len() - 1 {
        assert(all.take(i) =~= all.drop_last());
    } else {
        lemma_live_count_grows(all.drop_last(), i);
        assert(all.drop_last().take(i) =~= all.take(i));
    }
}


/// A live tag gets a smaller new index than any tag after it.
pub(crate) proof fn lemma_new_index_increasing(all: Seq<TagView>, a: int, b: int)
    requires
        0 <= a < b <= all.len(),
        is_live(all[a]),
    ensures
        new_index(all, a) < new_index(all, b),
{
    assert(all.take(a + 1).drop_last() =~= all.take(a));
    assert(all.take(a + 1).last() == all[a]);
    lemma_live_count_prefix(all.take(b), a + 1);
    assert(all.take(b).take(a + 1) =~= all.take(a + 1));
}

/// Every new index below the number of live tags among the first `k` is
/// that of a live tag among them.
pub(crate) proof fn lemma_new_index_onto(all: Seq<TagView>, k: int, j: int)
    requires
        0 <= k <= all.len(),
        0 <= j < live_count(all.take(k)),
    ensures
        exists|i: int| 0 <= i < k && is_live(all[i]) && #[trigger] new_index(all, i) == j,
    decreases k,
{
    assert(all.take(k).drop_last() =~= all.take(k - 1));
    assert(all.take(k).last() == all[k - 1]);
    if j < live_count(all.take(k - 1)) {
        lemma_new_index_onto(all, k - 1, j);
    } else {
        assert(new_index(all, k - 1) == j);
    }
}

} // verus!
