use vstd::prelude::*;

use crate::entry::img_views;
use crate::metadata::tag_list;
use crate::state::{
    first_index, is_first_entry, is_first_index, shows_image, swap_removed, Action, BodyPanel, Counter,
    Key, Message,
};
use crate::tag::TagIdx;

verus! {

/// The image a tag message acts on: in the collection view the image of
/// the shown entry, the one at position `selected`; in the explorer the
/// image picked there.
pub open spec fn acted_on<H, A>(s: Counter<H, A>) -> int {
    match s.body_panel {
        BodyPanel::Collection => {
            let c = s.collection->0;
            c.entries@[c.selected as int].img_idx as int
        },
        BodyPanel::Explore => s.selected_file_idx->0 as int,
    }
}

/// Whether a state has a selected image (see [`acted_on`]) and lists of
/// tags and images.
pub open spec fn has_selection<H, A>(s: Counter<H, A>) -> bool {
    &&& s.body_panel is Collection ==> s.collection is Some
    &&& s.body_panel is Explore ==> s.selected_file_idx is Some
    &&& s.tags_list is Some
    &&& s.file_list is Some
}

/// Adding a tag acts on the selected image (see [`acted_on`]): that image
/// gets the tag at the end of its tag list where it lacks it, and every
/// other image keeps its tags.
pub proof fn lemma_add_tag_to_selected_image<H, A>(
    s0: Counter<H, A>,
    s1: Counter<H, A>,
    t: TagIdx,
    a: Action,
)
    requires
        s0.wf(),
        s0.accepts(Message::AddTag(t)),
        has_selection(s0),
        Counter::stepped(s0, s1, Message::AddTag(t), a),
    ensures
        ({
            let k = acted_on(s0);
            let f0 = img_views(s0.file_list->0@);
            &&& 0 <= k < f0.len()
            &&& s1.file_list matches Some(f) && img_views(f@).len() == f0.len()
            &&& forall|j: int|
                0 <= j < f0.len() && j != k ==> #[trigger] img_views(s1.file_list->0@)[j] == f0[j]
            &&& tag_list(img_views(s1.file_list->0@)[k].tags).contains(t)
            &&& !tag_list(f0[k].tags).contains(t) ==> tag_list(
                img_views(s1.file_list->0@)[k].tags,
            ) == tag_list(f0[k].tags).push(t)
        }),
{
    let c0 = s0.cleared();
    let k = acted_on(s0);
    assert(c0.selected_index() == Some(k as usize));
    let f0 = img_views(s0.file_list->0@);
    let img = s0.file_list->0@[k]@;
    assert(f0[k] == img);
    if img.tags matches Some(l) && l.contains(t) {
    } else {
        let nl = tag_list(img.tags).push(t);
        assert(nl[nl.len() - 1] == t);
    }
}

/// Removing a tag acts on the selected image (see [`acted_on`]): where that
/// image carries the tag, the first occurrence leaves its list, the last
/// element taking its place, and every other image keeps its tags; where it
/// does not, no image changes.
pub proof fn lemma_remove_tag_from_selected_image<H, A>(
    s0: Counter<H, A>,
    s1: Counter<H, A>,
    t: TagIdx,
    a: Action,
)
    requires
        s0.wf(),
        s0.accepts(Message::RemoveTag(t)),
        has_selection(s0),
        Counter::stepped(s0, s1, Message::RemoveTag(t), a),
    ensures
        ({
            let k = acted_on(s0);
            let f0 = img_views(s0.file_list->0@);
            let l0 = tag_list(f0[k].tags);
            &&& 0 <= k < f0.len()
            &&& s1.file_list matches Some(f) && img_views(f@).len() == f0.len()
            &&& forall|j: int|
                0 <= j < f0.len() && j != k ==> #[trigger] img_views(s1.file_list->0@)[j] == f0[j]
            &&& !l0.contains(t) ==> img_views(s1.file_list->0@)[k] == f0[k]
            &&& forall|p: int|
                0 <= p < l0.len() && l0[p] == t && (forall|q: int| 0 <= q < p ==> l0[q] != t) ==> {
                    let l1 = tag_list(img_views(s1.file_list->0@)[k].tags);
                    &&& l1.len() == l0.len() - 1
                    &&& forall|j: int|
                        0 <= j < l1.len() ==> #[trigger] l1[j] == if j == p {
                            l0[l0.len() - 1]
                        } else {
                            l0[j]
                        }
                }
        }),
{
    let c0 = s0.cleared();
    let k = acted_on(s0);
    assert(c0.selected_index() == Some(k as usize));
    let f0 = img_views(s0.file_list->0@);
    let img = s0.file_list->0@[k]@;
    assert(f0[k] == img);
    let l0 = tag_list(f0[k].tags);
    if img.tags matches Some(l) && l.contains(t) {
        assert(img.tags == Some(l0));
        assert forall|p: int|
            0 <= p < l0.len() && l0[p] == t && (forall|q: int| 0 <= q < p ==> l0[q] != t) implies {
            let l1 = tag_list(img_views(s1.file_list->0@)[k].tags);
            &&& l1.len() == l0.len() - 1
            &&& forall|j: int|
                0 <= j < l1.len() ==> #[trigger] l1[j] == if j == p {
                    l0[l0.len() - 1]
                } else {
                    l0[j]
                }
        } by {
            assert(is_first_index(l0, t, p));
            let p2 = first_index(l0, t);
            assert(is_first_index(l0, t, p2));
            assert(p2 == p) by {
                if p2 < p {
                    assert(l0[p2] != t);
                }
                if p < p2 {
                    assert(l0[p] != t);
                }
            }
            let nl = swap_removed(l0, p);
            let l1 = tag_list(img_views(s1.file_list->0@)[k].tags);
            assert(l1 == nl);
        }
    } else {
        if l0.contains(t) {
            assert(img.tags is Some);
        }
    }
}

/// In the collection view, space asks to take the image of the shown entry
/// out of the collection.
pub proof fn lemma_space_toggles_shown_image<H, A>(s0: Counter<H, A>, s1: Counter<H, A>, a: Action)
    requires
        s0.wf(),
        s0.body_panel is Collection,
        s0.collection is Some,
        Counter::stepped(s0, s1, Message::KeyPressed(Key::Space), a),
    ensures
        ({
            let c = s0.collection->0;
            a matches Action::Toggle(k) && k == c.entries@[c.selected as int].img_idx
        }),
        s1 == s0.cleared(),
{
}

/// Adding all images to an existing collection keeps its entries, in
/// order, and its shown entry, and puts after them one entry per filtered
/// image (per image where there is no filter), in order.
pub proof fn lemma_add_all_keeps_collection<H, A>(
    s0: Counter<H, A>,
    s1: Counter<H, A>,
    a: Action,
)
    requires
        s0.wf(),
        s0.accepts(Message::AddAllToCollection),
        s0.file_list is Some,
        s0.collection is Some,
        Counter::stepped(s0, s1, Message::AddAllToCollection, a),
    ensures
        ({
            let c = s0.collection->0;
            let n = s0.file_list->0@.len();
            let m = match s0.file_filter_indices {
                Some(f) => f@.len(),
                None => n,
            };
            &&& s1.collection matches Some(c2) && c2.selected == c.selected
            &&& s1.collection->0.entries@.len() == c.entries@.len() + m
            &&& forall|j: int|
                0 <= j < c.entries@.len() ==> #[trigger] s1.collection->0.entries@[j]
                    == c.entries@[j]
            &&& forall|k: int|
                0 <= k < m ==> #[trigger] s1.collection->0.entries@[c.entries@.len() + k].img_idx
                    == match s0.file_filter_indices {
                    Some(f) => f@[k],
                    None => k as usize,
                }
        }),
{
    let c = s0.collection->0;
    let s = s0.cleared();
    let n = s0.file_list->0@.len();
    let m = match s0.file_filter_indices {
        Some(f) => f@.len(),
        None => n,
    };
    if m > 0 {
        let c2 = s1.collection->0;
        assert forall|k: int| 0 <= k < m implies #[trigger] c2.entries@[c.entries@.len() + k].img_idx
            == match s0.file_filter_indices {
            Some(f) => f@[k],
            None => k as usize,
        } by {
            assert(c2.entries@[c.entries@.len() + k] == crate::state::new_entries::<A>(
                s0.file_list->0@,
                crate::state::positions_to_add(s0.file_filter_indices, n),
            )[k]);
        }
    }
}

/// Taking out an image of the collection removes only its first entry: the
/// entries before it stay, the ones after it move up by one, and the shown
/// position stays unless it was the last; a collection of one entry goes.
pub proof fn lemma_toggle_out_removes_one<H, A>(
    s0: Counter<H, A>,
    s1: Counter<H, A>,
    idx: usize,
    k: int,
    a: Action,
)
    requires
        s0.wf(),
        s0.collection is Some,
        0 <= k < s0.collection->0.entries@.len(),
        s0.collection->0.entries@[k].img_idx == idx,
        forall|j: int| 0 <= j < k ==> (#[trigger] s0.collection->0.entries@[j]).img_idx != idx,
        Counter::stepped(s0, s1, Message::ToggleIntoCollection(idx), a),
    ensures
        a is Nothing,
        ({
            let c = s0.collection->0;
            let n = c.entries@.len();
            if n == 1 {
                s1.collection is None
            } else {
                &&& s1.collection matches Some(c2) && c2.entries@.len() == n - 1
                &&& forall|j: int|
                    0 <= j < k ==> #[trigger] s1.collection->0.entries@[j] == c.entries@[j]
                &&& forall|j: int|
                    k <= j < n - 1 ==> #[trigger] s1.collection->0.entries@[j] == c.entries@[j + 1]
                &&& s1.collection->0.selected == if c.selected < n - 1 {
                    c.selected as int
                } else {
                    n - 2
                }
            }
        }),
{
    let c = s0.collection->0;
    assert(shows_image(c.entries@, idx));
    assert(is_first_entry(c.entries@, idx, k));
    let k2 = choose|k2: int| is_first_entry(c.entries@, idx, k2);
    assert(k2 == k) by {
        if k2 < k {
            assert(c.entries@[k2].img_idx != idx);
        }
        if k < k2 {
            assert(c.entries@[k].img_idx != idx);
        }
    }
}

/// Moving right shows the entry just after the shown one, where there is
/// one; the entries stay.
pub proof fn lemma_move_right<H, A>(s0: Counter<H, A>, s1: Counter<H, A>, a: Action)
    requires
        s0.wf(),
        s0.collection is Some,
        Counter::stepped(s0, s1, Message::CollectionRight, a),
    ensures
        ({
            let c = s0.collection->0;
            &&& s1.collection matches Some(c2) && c2.entries == c.entries
            &&& s1.collection->0.selected == if c.selected + 1 < c.entries@.len() {
                c.selected + 1
            } else {
                c.selected as int
            }
        }),
{
    let c = s0.collection->0;
    assert(c.entries@.len() == c.entries.len());
    assert(c.entries.len() <= usize::MAX);
}

/// Moving left shows the entry just before the shown one, where there is
/// one; the entries stay.
pub proof fn lemma_move_left<H, A>(s0: Counter<H, A>, s1: Counter<H, A>, a: Action)
    requires
        s0.wf(),
        s0.collection is Some,
        Counter::stepped(s0, s1, Message::CollectionLeft, a),
    ensures
        ({
            let c = s0.collection->0;
            &&& s1.collection matches Some(c2) && c2.entries == c.entries
            &&& s1.collection->0.selected == if c.selected > 0 {
                c.selected - 1
            } else {
                c.selected as int
            }
        }),
{
}


/// The tag rows shown are those of the selected image (see [`acted_on`]):
/// one row per tag of its list, in order, with the tag's name.
pub proof fn lemma_tag_rows_of_selected_image<H, A>(s: Counter<H, A>)
    requires
        s.wf(),
        has_selection(s),
        0 <= acted_on(s) < s.file_list->0@.len(),
    ensures
        ({
            let l = s.file_list->0@[acted_on(s)]@.tags;
            match l {
                Some(l) => s.tag_rows() matches Some(rows) && rows.len() == l.len() && forall|j: int|
                    0 <= j < l.len() ==> (#[trigger] rows[j]).0 == l[j] && rows[j].1
                        == s.tags_list->0@[l[j] as int].name@,
                None => s.tag_rows() is None,
            }
        }),
{
    assert(s.selected_index() == Some(acted_on(s) as usize));
}

} // verus!
