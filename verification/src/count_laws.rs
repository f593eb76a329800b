use vstd::prelude::*;

use crate::entry::{img_views, ImgView};
use crate::metadata::tag_list;
use crate::state::{add_tag_ok, first_index, is_first_index, new_tag_index, swap_removed, tags_or_empty, Counter, Message};
use crate::search::{tag_names, tag_position};
use crate::text_util::valid_tag_name;
use crate::tag::{Tag, TagIdx, TagView};
use crate::metadata::tag_views;
use crate::compress::{
    compressed, compressible, is_live, lemma_compressed_shape, lemma_live_count_grows,
    lemma_new_index_increasing, lemma_new_index_onto, live_count, names_live_tag, new_index, remap,
    remap_image,
};

verus! {

/// How many of the images `imgs` carry tag `k`.
pub open spec fn carriers(imgs: Seq<ImgView>, k: TagIdx) -> nat
    decreases imgs.len(),
{
    if imgs.len() == 0 {
        0
    } else {
        carriers(imgs.drop_last(), k) + if tag_list(imgs.last().tags).contains(k) {
            1nat
        } else {
            0nat
        }
    }
}

/// Whether a tag list holds no index twice and only indices below `n`.
pub open spec fn distinct_below(l: Seq<TagIdx>, n: int) -> bool {
    &&& forall|a: int, b: int| 0 <= a < b < l.len() ==> l[a] != l[b]
    &&& forall|a: int| 0 <= a < l.len() ==> l[a] < n
}

/// Whether the tags `tags` and images `imgs` agree: each tag's index is its
/// position and its count is the number of images that carry it, and each
/// image's tag list names tags of the list, none twice.
pub open spec fn counts_right(tags: Seq<TagView>, imgs: Seq<ImgView>) -> bool {
    &&& forall|k: int|
        0 <= k < tags.len() ==> (#[trigger] tags[k]).idx == k && tags[k].refs == carriers(
            imgs,
            k as TagIdx,
        )
    &&& forall|i: int|
        0 <= i < imgs.len() ==> distinct_below(tag_list(#[trigger] imgs[i].tags), tags.len() as int)
}

/// Whether a state has tags and images that agree (see [`counts_right`]).
pub open spec fn counts_hold<H, A>(s: Counter<H, A>) -> bool {
    &&& s.tags_list is Some
    &&& s.file_list is Some
    &&& counts_right(tag_views(s.tags_list->0@), img_views(s.file_list->0@))
}

/// Changing one image changes the count of a tag by what that image's
/// change does.
proof fn lemma_carriers_update(imgs: Seq<ImgView>, i: int, new: ImgView, k: TagIdx)
    requires
        0 <= i < imgs.len(),
    ensures
        carriers(imgs.update(i, new), k) + (if tag_list(imgs[i].tags).contains(k) {
            1int
        } else {
            0int
        }) == carriers(imgs, k) + (if tag_list(new.tags).contains(k) {
            1int
        } else {
            0int
        }),
    decreases imgs.len(),
{
    let u = imgs.update(i, new);
    if i == imgs.len() - 1 {
        assert(u.drop_last() =~= imgs.drop_last());
    } else {
        assert(u.drop_last() =~= imgs.drop_last().update(i, new));
        lemma_carriers_update(imgs.drop_last(), i, new, k);
    }
}

/// An image that carries a tag counts for it.
proof fn lemma_carriers_positive(imgs: Seq<ImgView>, i: int, k: TagIdx)
    requires
        0 <= i < imgs.len(),
        tag_list(imgs[i].tags).contains(k),
    ensures
        carriers(imgs, k) >= 1,
{
    lemma_carriers_update(imgs, i, ImgView { tags: None, ..imgs[i] }, k);
    assert(!tag_list(None::<Seq<TagIdx>>).contains(k));
}

/// No image carries a tag that lies beyond all their tag lists.
proof fn lemma_carriers_zero(imgs: Seq<ImgView>, k: TagIdx, n: int)
    requires
        k >= n,
        forall|i: int| 0 <= i < imgs.len() ==> distinct_below(tag_list(#[trigger] imgs[i].tags), n),
    ensures
        carriers(imgs, k) == 0,
    decreases imgs.len(),
{
    if imgs.len() > 0 {
        let last = imgs.len() - 1;
        assert(distinct_below(tag_list(imgs[last].tags), n));
        assert(!tag_list(imgs.last().tags).contains(k));
        assert forall|i: int| 0 <= i < imgs.drop_last().len() implies distinct_below(
            tag_list(#[trigger] imgs.drop_last()[i].tags),
            n,
        ) by {
            assert(imgs.drop_last()[i] == imgs[i]);
        }
        lemma_carriers_zero(imgs.drop_last(), k, n);
    }
}

/// Taking the first `t` out of a list with no repeats, the last element
/// taking its place, leaves every other element and no `t`.
proof fn lemma_swap_removed(l: Seq<TagIdx>, t: TagIdx, n: int)
    requires
        distinct_below(l, n),
        l.contains(t),
    ensures
        !swap_removed(l, first_index(l, t)).contains(t),
        forall|k: TagIdx| k != t ==> (#[trigger] swap_removed(l, first_index(l, t)).contains(k))
            == l.contains(k),
        distinct_below(swap_removed(l, first_index(l, t)), n),
        swap_removed(l, first_index(l, t)).len() == l.len() - 1,
{
    let q = choose|q: int| 0 <= q < l.len() && l[q] == t;
    assert(is_first_index(l, t, q)) by {
        assert forall|j: int| 0 <= j < q implies l[j] != t by {
            assert(l[j] != l[q]);
        }
    }
    let p = first_index(l, t);
    assert(is_first_index(l, t, p));
    let last = l.len() - 1;
    let nl = swap_removed(l, p);
    assert(nl.len() == last);
    // Each element of the new list is an element of the old one at another
    // position than `p`.
    assert forall|a: int| 0 <= a < nl.len() implies (#[trigger] nl[a]) == l[if a == p {
        last
    } else {
        a
    }] && (if a == p {
        last
    } else {
        a
    }) != p by {}
    if nl.contains(t) {
        let a = choose|a: int| 0 <= a < nl.len() && nl[a] == t;
        let b = if a == p {
            last
        } else {
            a
        };
        assert(l[b] == l[p]);
    }
    assert forall|k: TagIdx| k != t implies (#[trigger] nl.contains(k)) == l.contains(k) by {
        if l.contains(k) {
            let b = choose|b: int| 0 <= b < l.len() && l[b] == k;
            assert(b != p);
            if b == last {
                assert(nl[p] == k);
            } else {
                assert(nl[b] == k);
            }
        }
        if nl.contains(k) {
            let a = choose|a: int| 0 <= a < nl.len() && nl[a] == k;
            assert(nl[a] == k);
        }
    }
    assert forall|a: int, b: int| 0 <= a < b < nl.len() implies nl[a] != nl[b] by {
        let x = if a == p {
            last
        } else {
            a
        };
        let y = if b == p {
            last
        } else {
            b
        };
        assert(nl[a] == l[x] && nl[b] == l[y]);
        assert(x != y);
    }
    assert forall|a: int| 0 <= a < nl.len() implies nl[a] < n by {
        assert(nl[a] == l[if a == p {
            last
        } else {
            a
        }]);
    }
}


/// Adding a tag to the selected image, as [`Counter::tag_added`] says, keeps
/// the tags and images in agreement.
proof fn lemma_added_counts<H, A>(before: Counter<H, A>, after: Counter<H, A>, t: TagIdx)
    requires
        counts_hold(before),
        add_tag_ok(before.selected_index(), Some(before.tags_list->0@), before.file_list, t),
        Counter::tag_added(before, after, t),
    ensures
        counts_hold(after),
{
    if before.selected_index() is Some {
        let i = before.selected_index()->0 as int;
        let tags = before.tags_list->0@;
        let files = before.file_list->0@;
        let imgs = img_views(files);
        let img = files[i]@;
        assert(imgs[i] == img);
        if !(img.tags matches Some(l) && l.contains(t)) {
            let l = tag_list(img.tags);
            let nl = l.push(t);
            let new_img = ImgView { tags: Some(nl), ..img };
            let nimgs = img_views(after.file_list->0@);
            let ntags = after.tags_list->0@;
            assert(nimgs == imgs.update(i, new_img));
            assert(!l.contains(t));
            assert(nl.contains(t)) by {
                assert(nl[l.len() as int] == t);
            }
            assert forall|k: TagIdx| k != t implies nl.contains(k) == l.contains(k) by {
                if nl.contains(k) {
                    let a = choose|a: int| 0 <= a < nl.len() && nl[a] == k;
                    assert(a < l.len());
                    assert(l[a] == k);
                }
                if l.contains(k) {
                    let a = choose|a: int| 0 <= a < l.len() && l[a] == k;
                    assert(nl[a] == k);
                }
            }
            assert forall|k: int| 0 <= k < ntags.len() implies (#[trigger] ntags[k]).idx == k
                && ntags[k].refs == carriers(nimgs, k as TagIdx) by {
                lemma_carriers_update(imgs, i, new_img, k as TagIdx);
                assert(tag_views(tags)[k] == tags[k]@);
                assert(tag_views(ntags)[k] == ntags[k]@);
                assert(tags[k].idx == k && tags[k].refs == carriers(imgs, k as TagIdx));
            }
            assert(distinct_below(l, tags.len() as int));
            assert forall|j: int| 0 <= j < nimgs.len() implies distinct_below(
                tag_list(#[trigger] nimgs[j].tags),
                ntags.len() as int,
            ) by {
                if j != i {
                    assert(nimgs[j] == imgs[j]);
                } else {
                    assert(tag_list(nimgs[j].tags) == nl);
                    assert forall|a: int, b: int| 0 <= a < b < nl.len() implies nl[a] != nl[b] by {
                        if b == l.len() {
                            assert(l[a] == nl[a]);
                        } else {
                            assert(l[a] == nl[a] && l[b] == nl[b]);
                        }
                    }
                    assert forall|a: int| 0 <= a < nl.len() implies nl[a] < ntags.len() by {
                        if a < l.len() {
                            assert(l[a] == nl[a]);
                        }
                    }
                }
            }
        }
    }
}

/// Taking a tag off the selected image, as [`Counter::tag_removed`] says,
/// keeps the tags and images in agreement.
proof fn lemma_removed_counts<H, A>(before: Counter<H, A>, after: Counter<H, A>, t: TagIdx)
    requires
        counts_hold(before),
        before.can_remove_tag(t),
        Counter::tag_removed(before, after, t),
    ensures
        counts_hold(after),
        after.error_message == before.error_message,
{
    if before.selected_index() is Some {
        let i = before.selected_index()->0 as int;
        let tags = before.tags_list->0@;
        let files = before.file_list->0@;
        let imgs = img_views(files);
        let img = files[i]@;
        assert(imgs[i] == img);
        if img.tags matches Some(l) && l.contains(t) {
            let l = img.tags->0;
            assert(distinct_below(tag_list(imgs[i].tags), tags.len() as int));
            lemma_swap_removed(l, t, tags.len() as int);
            let nl = swap_removed(l, first_index(l, t));
            let new_img = ImgView {
                tags: if nl.len() == 0 {
                    None
                } else {
                    Some(nl)
                },
                ..img
            };
            assert(tag_list(new_img.tags) =~= nl);
            lemma_carriers_positive(imgs, i, t);
            assert(tag_views(tags)[t as int] == tags[t as int]@);
            assert(tags[t as int].refs == carriers(imgs, t));
            let nimgs = img_views(after.file_list->0@);
            let ntags = after.tags_list->0@;
            assert(nimgs == imgs.update(i, new_img));
            assert forall|k: int| 0 <= k < ntags.len() implies (#[trigger] ntags[k]).idx == k
                && ntags[k].refs == carriers(nimgs, k as TagIdx) by {
                lemma_carriers_update(imgs, i, new_img, k as TagIdx);
                assert(tag_views(tags)[k] == tags[k]@);
                assert(tag_views(ntags)[k] == ntags[k]@);
                assert(tags[k].idx == k && tags[k].refs == carriers(imgs, k as TagIdx));
            }
            assert forall|j: int| 0 <= j < nimgs.len() implies distinct_below(
                tag_list(#[trigger] nimgs[j].tags),
                ntags.len() as int,
            ) by {
                if j != i {
                    assert(nimgs[j] == imgs[j]);
                }
            }
        }
    }
}


/// The tag messages keep the tags and images in agreement.
proof fn lemma_tag_messages_keep_counts<H, A>(
    s0: Counter<H, A>,
    s1: Counter<H, A>,
    msg: Message<H, A>,
    a: crate::state::Action,
)
    requires
        s0.wf(),
        counts_hold(s0),
        s0.accepts(msg),
        msg is AddTag || msg is RemoveTag || msg is AddInputTag,
        Counter::stepped(s0, s1, msg, a),
    ensures
        counts_hold(s1),
{
    let c0 = s0.cleared();
    assert(c0.selected_index() == s0.selected_index());
    match msg {
        Message::AddTag(t) => {
            lemma_added_counts(c0, s1, t);
        },
        Message::RemoveTag(t) => {
            lemma_removed_counts(c0, s1, t);
        },
        _ => {
            if valid_tag_name(c0.search_content@) {
                let (ntags, t) = c0.tags_with_input();
                let mid = choose|mid: Counter<H, A>|
                    #[trigger] Counter::tag_added(mid, s1, t) && mid == Counter {
                        tags_list: mid.tags_list,
                        search_content: mid.search_content,
                        ..c0
                    } && (mid.tags_list matches Some(mt) && mt@ == ntags) && (if tag_position(
                        tag_names(tags_or_empty(c0.tags_list)),
                        c0.search_content@,
                    ) < 0 {
                        mid.search_content@ == Seq::<char>::empty()
                    } else {
                        mid.search_content == c0.search_content
                    });
                assert(mid.selected_index() == s0.selected_index());
                let tags = c0.tags_list->0@;
                let imgs = img_views(c0.file_list->0@);
                let k = tag_position(tag_names(tags), c0.search_content@);
                if k < 0 {
                    let n = tags.len();
                    assert(new_tag_index(tags) == n) by {
                        if n > 0 {
                            assert(tag_views(tags)[n - 1] == tags[n - 1]@);
                            assert(tags[n - 1].idx == n - 1);
                        }
                    }
                    assert(t == n);
                    lemma_carriers_zero(imgs, n as TagIdx, n as int);
                    assert forall|j: int| 0 <= j < ntags.len() implies (#[trigger] ntags[j]).idx
                        == j && ntags[j].refs == carriers(imgs, j as TagIdx) by {
                        assert(tag_views(ntags)[j] == ntags[j]@);
                        if j < n {
                            assert(ntags[j] == tags[j]);
                            assert(tag_views(tags)[j] == tags[j]@);
                        }
                    }
                    assert forall|j: int| 0 <= j < imgs.len() implies distinct_below(
                        tag_list(#[trigger] imgs[j].tags),
                        ntags.len() as int,
                    ) by {
                        assert(distinct_below(tag_list(imgs[j].tags), n as int));
                    }
                } else {
                    assert(ntags == tags);
                }
                assert(counts_hold(mid));
                lemma_added_counts(mid, s1, t);
            }
        },
    }
}


/// Where each image of `b` carries `k2` exactly where the same image of `a`
/// carries `k1`, the two counts agree.
proof fn lemma_carriers_pointwise(a: Seq<ImgView>, b: Seq<ImgView>, k1: TagIdx, k2: TagIdx)
    requires
        a.len() == b.len(),
        forall|m: int|
            #![trigger a[m]]
            0 <= m < a.len() ==> tag_list(b[m].tags).contains(k2) == tag_list(a[m].tags).contains(
                k1,
            ),
    ensures
        carriers(b, k2) == carriers(a, k1),
    decreases a.len(),
{
    if a.len() > 0 {
        assert forall|m: int| #![trigger a.drop_last()[m]] 0 <= m < a.drop_last().len() implies tag_list(
            b.drop_last()[m].tags,
        ).contains(k2) == tag_list(a.drop_last()[m].tags).contains(k1) by {
            assert(a.drop_last()[m] == a[m]);
            assert(b.drop_last()[m] == b[m]);
        }
        lemma_carriers_pointwise(a.drop_last(), b.drop_last(), k1, k2);
        assert(a[a.len() - 1] == a.last());
    }
}

/// Renumbering a tag list whose indices all name live tags keeps which live
/// tags it holds, holds no index twice where it held none twice, and holds
/// only indices below the number of live tags.
proof fn lemma_remap_list(all: Seq<TagView>, xs: Seq<TagIdx>)
    requires
        live_count(all) <= u32::MAX,
        forall|k: int| 0 <= k < all.len() ==> (#[trigger] all[k]).idx == k,
        forall|p: int| 0 <= p < xs.len() ==> names_live_tag(all, #[trigger] xs[p]),
    ensures
        forall|i: int|
            0 <= i < all.len() && is_live(all[i]) ==> (#[trigger] remap(all, xs).contains(
                new_index(all, i) as TagIdx,
            )) == xs.contains(i as TagIdx),
        distinct_below(xs, all.len() as int) ==> distinct_below(
            remap(all, xs),
            live_count(all) as int,
        ),
{
    let r = remap(all, xs);
    assert forall|p: int| 0 <= p < xs.len() implies #[trigger] r[p] == new_index(all, xs[p] as int)
        && new_index(all, xs[p] as int) < live_count(all) by {
        lemma_live_count_grows(all, xs[p] as int);
    }
    assert forall|i: int| 0 <= i < all.len() && is_live(all[i]) implies (#[trigger] r.contains(
        new_index(all, i) as TagIdx,
    )) == xs.contains(i as TagIdx) by {
        lemma_live_count_grows(all, i);
        assert(all[i].idx == i);
        if xs.contains(i as TagIdx) {
            let p = choose|p: int| 0 <= p < xs.len() && xs[p] == i as TagIdx;
            assert(r[p] == new_index(all, i) as TagIdx);
        }
        if r.contains(new_index(all, i) as TagIdx) {
            let p = choose|p: int| 0 <= p < r.len() && r[p] == new_index(all, i) as TagIdx;
            let x = xs[p] as int;
            assert(names_live_tag(all, xs[p]));
            if x < i {
                lemma_new_index_increasing(all, x, i);
            } else if i < x {
                lemma_new_index_increasing(all, i, x);
            }
            assert(xs[p] == i as TagIdx);
        }
    }
    if distinct_below(xs, all.len() as int) {
        assert forall|a: int, b: int| 0 <= a < b < r.len() implies r[a] != r[b] by {
            let x = xs[a] as int;
            let y = xs[b] as int;
            assert(names_live_tag(all, xs[a]) && names_live_tag(all, xs[b]));
            if x < y {
                lemma_new_index_increasing(all, x, y);
            } else {
                lemma_new_index_increasing(all, y, x);
            }
        }
    }
}

/// Compressing tags and images that agree leaves tags and images that agree.
proof fn lemma_compressed_counts(all: Seq<TagView>, imgs: Seq<ImgView>)
    requires
        counts_right(all, imgs),
        compressible(all, imgs),
    ensures
        counts_right(
            compressed(all, all.len() as int),
            imgs.map_values(|m: ImgView| remap_image(all, m)),
        ),
{
    let n = all.len() as int;
    let c = compressed(all, n);
    let nimgs = imgs.map_values(|m: ImgView| remap_image(all, m));
    assert forall|k: int| 0 <= k < all.len() implies (#[trigger] all[k]).idx == k by {}
    lemma_compressed_shape(all, n);
    assert(all.take(n) =~= all);
    // Each image's new tag list is its old one renumbered.
    assert forall|m: int| #![trigger imgs[m]] 0 <= m < imgs.len() implies tag_list(nimgs[m].tags)
        == remap(all, tag_list(imgs[m].tags)) && (forall|p: int|
        0 <= p < tag_list(imgs[m].tags).len() ==> names_live_tag(
            all,
            #[trigger] tag_list(imgs[m].tags)[p],
        )) by {
        assert(nimgs[m] == remap_image(all, imgs[m]));
        if imgs[m].tags is None {
            assert(remap(all, tag_list(imgs[m].tags)) =~= Seq::<TagIdx>::empty());
        }
        assert forall|p: int| 0 <= p < tag_list(imgs[m].tags).len() implies names_live_tag(
            all,
            #[trigger] tag_list(imgs[m].tags)[p],
        ) by {
            assert(names_live_tag(all, tag_list(imgs[m].tags)[p]));
        }
    }
    assert forall|j: int| 0 <= j < c.len() implies (#[trigger] c[j]).idx == j && c[j].refs
        == carriers(nimgs, j as TagIdx) by {
        lemma_new_index_onto(all, n, j);
        let i = choose|i: int| 0 <= i < n && is_live(all[i]) && #[trigger] new_index(all, i) == j;
        assert(c[j] == (TagView { idx: new_index(all, i) as TagIdx, ..all[i] }));
        assert(all[i].refs == carriers(imgs, i as TagIdx));
        assert forall|m: int| #![trigger imgs[m]] 0 <= m < imgs.len() implies tag_list(
            nimgs[m].tags,
        ).contains(j as TagIdx) == tag_list(imgs[m].tags).contains(i as TagIdx) by {
            lemma_remap_list(all, tag_list(imgs[m].tags));
        }
        lemma_carriers_pointwise(imgs, nimgs, i as TagIdx, j as TagIdx);
    }
    assert forall|m: int| 0 <= m < nimgs.len() implies distinct_below(
        tag_list(#[trigger] nimgs[m].tags),
        c.len() as int,
    ) by {
        assert(imgs[m] == imgs[m]);
        assert(distinct_below(tag_list(imgs[m].tags), n));
        lemma_remap_list(all, tag_list(imgs[m].tags));
    }
}

/// Compressing the tags before a save, as [`Counter::saved`] says, keeps the
/// tags and images in agreement.
proof fn lemma_saved_counts<H, A>(before: Counter<H, A>, after: Counter<H, A>, bytes: Option<Vec<u8>>)
    requires
        counts_hold(before),
        before.can_save(),
        Counter::saved(before, after, bytes),
    ensures
        counts_hold(after),
{
    let all = tag_views(before.tags_list->0@);
    let imgs = img_views(before.file_list->0@);
    lemma_compressed_counts(all, imgs);
}


/// Every message that can be handled keeps the tags and images in
/// agreement: each tag's index stays its position, each tag's count stays
/// the number of images that carry it, and no image's tag list holds an
/// index twice or one past the tag list. Adding and removing tags change
/// the counts with the images; saving (switching folder, closing) drops the
/// unused tags and renumbers the rest on the tags and the images alike; no
/// other message changes the tags or the images.
pub proof fn lemma_update_keeps_counts<H, A>(
    s0: Counter<H, A>,
    s1: Counter<H, A>,
    msg: Message<H, A>,
    a: crate::state::Action,
)
    requires
        s0.wf(),
        counts_hold(s0),
        s0.accepts(msg),
        Counter::stepped(s0, s1, msg, a),
    ensures
        counts_hold(s1),
{
    let c0 = s0.cleared();
    assert(counts_hold(c0));
    match msg {
        Message::AddTag(_) => {
            lemma_tag_messages_keep_counts(s0, s1, msg, a);
        },
        Message::RemoveTag(_) => {
            lemma_tag_messages_keep_counts(s0, s1, msg, a);
        },
        Message::AddInputTag => {
            lemma_tag_messages_keep_counts(s0, s1, msg, a);
        },
        Message::SwitchDirectory(_) => {
            let bytes = a->SaveAndSwitch_0;
            lemma_saved_counts(c0, s1, bytes);
        },
        Message::CloseApp => {
            let bytes = a->SaveAndClose_0;
            lemma_saved_counts(c0, s1, bytes);
        },
        _ => {
            assert(s1.tags_list == s0.tags_list && s1.file_list == s0.file_list);
        },
    }
}

} // verus!
