use vstd::prelude::*;

use crate::entry::{img_views, ImgView};
use crate::metadata::tag_list;
use crate::state::{shows_image, swap_removed, first_index, is_first_index, is_first_entry, Counter, Message};
use crate::tag::TagIdx;

verus! {

/// Putting an image that is not in the collection into it and taking it out
/// again leaves the collection as it was: the same entries and the same
/// shown entry, or no collection where there was none.
pub proof fn lemma_toggle_in_then_out<H, A>(
    s0: Counter<H, A>,
    s1: Counter<H, A>,
    s2: Counter<H, A>,
    idx: usize,
    a1: crate::state::Action,
    a2: crate::state::Action,
)
    requires
        s0.wf(),
        s0.collection matches Some(c) ==> !shows_image(c.entries@, idx),
        Counter::stepped(s0, s1, Message::ToggleIntoCollection(idx), a1),
        Counter::stepped(s1, s2, Message::ToggleIntoCollection(idx), a2),
    ensures
        match s0.collection {
            None => s2.collection is None,
            Some(c) => s2.collection matches Some(c2) && c2.entries@ == c.entries@ && c2.selected
                == c.selected,
        },
{
    let t0 = s0.cleared();
    let t1 = s1.cleared();
    match s0.collection {
        None => {
            if s0.file_list is Some {
                let c1 = s1.collection->0;
                assert(shows_image(c1.entries@, idx)) by {
                    assert(c1.entries@[0].img_idx == idx);
                }
                assert(is_first_entry(c1.entries@, idx, 0));
                let k = choose|k: int| is_first_entry(c1.entries@, idx, k);
                assert(k == 0) by {
                    if k > 0 {
                        assert(c1.entries@[0].img_idx != idx);
                    }
                }
                assert(c1.entries@.remove(k).len() == 0);
            }
        },
        Some(c) => if s0.file_list is None {
            assert(s1.collection == s0.collection);
            assert(s1.file_list is None);
        } else {
            let c1 = s1.collection->0;
            let n = c.entries@.len();
            assert(c1.entries@[n as int].img_idx == idx);
            assert(shows_image(c1.entries@, idx));
            assert forall|j: int| 0 <= j < n implies (#[trigger] c1.entries@[j]).img_idx != idx by {
                assert(c1.entries@[j] == c.entries@[j]);
                if c.entries@[j].img_idx == idx {
                    assert(shows_image(c.entries@, idx));
                }
            }
            assert(is_first_entry(c1.entries@, idx, n as int));
            let k = choose|k: int| is_first_entry(c1.entries@, idx, k);
            assert(k == n) by {
                if k < n {
                    assert(c1.entries@[k] == c.entries@[k]);
                    assert(shows_image(c.entries@, idx));
                }
            }
            assert(c1.entries@.remove(k) =~= c.entries@);
        },
    }
}


/// Adding a tag to the selected image, which lacks it, and removing it again
/// gives back the images and the tag list as they were (the error shown is
/// cleared). An image whose tag list is present but empty is left out: it
/// comes back with no list.
pub proof fn lemma_add_then_remove_tag<H, A>(
    s0: Counter<H, A>,
    s1: Counter<H, A>,
    s2: Counter<H, A>,
    tidx: TagIdx,
    a1: crate::state::Action,
    a2: crate::state::Action,
)
    requires
        s0.wf(),
        s0.accepts(Message::AddTag(tidx)),
        s0.selected_index() is Some,
        s0.tags_list is Some,
        s0.file_list is Some,
        ({
            let img = s0.file_list->0@[s0.selected_index()->0 as int]@;
            !(img.tags matches Some(l) && (l.contains(tidx) || l.len() == 0))
        }),
        Counter::stepped(s0, s1, Message::AddTag(tidx), a1),
        Counter::stepped(s1, s2, Message::RemoveTag(tidx), a2),
    ensures
        s2.file_list matches Some(f) && img_views(f@) == img_views(s0.file_list->0@),
        s2.tags_list matches Some(t) && t@ == s0.tags_list->0@,
        s2 == (Counter { file_list: s2.file_list, tags_list: s2.tags_list, ..s0.cleared() }),
{
    let c0 = s0.cleared();
    let c1 = s1.cleared();
    let i = s0.selected_index()->0 as int;
    let files = s0.file_list->0@;
    let tags = s0.tags_list->0@;
    let img = files[i]@;
    let l0 = tag_list(img.tags);
    let l1 = l0.push(tidx);
    assert(c0.selected_index() == s0.selected_index());
    assert(!(img.tags matches Some(l) && l.contains(tidx)));
    assert(Counter::tag_added(c0, s1, tidx));
    assert(c0.file_list == s0.file_list);
    assert(c0.tags_list == s0.tags_list);
    let f1 = s1.file_list->0@;
    assert(img_views(f1) == img_views(files).update(i, ImgView { tags: Some(l1), ..img }));
    assert(img_views(f1).len() == files.len());
    assert(0 <= i < f1.len());
    assert(img_views(f1)[i] == f1[i]@);
    assert(f1[i]@ == ImgView { tags: Some(l1), ..img });
    assert(c1.selected_index() == s0.selected_index());
    assert(l1.contains(tidx)) by {
        assert(l1[l0.len() as int] == tidx);
    }
    assert(is_first_index(l1, tidx, l0.len() as int)) by {
        assert forall|j: int| 0 <= j < l0.len() implies l1[j] != tidx by {
            assert(l1[j] == l0[j]);
            if l0[j] == tidx {
                assert(l0.contains(tidx));
            }
        }
    }
    let p = first_index(l1, tidx);
    assert(p == l0.len()) by {
        assert(is_first_index(l1, tidx, p));
        if p < l0.len() {
            assert(l1[p] == l0[p]);
            assert(l0.contains(tidx));
        }
    }
    assert(swap_removed(l1, p) =~= l0);
    let t1 = s1.tags_list->0@;
    assert(t1[tidx as int].refs == tags[tidx as int].refs + 1);
    assert(s2.tags_list->0@ =~= tags);
    let f2 = s2.file_list->0@;
    assert(img_views(f2) =~= img_views(files)) by {
        assert forall|j: int| 0 <= j < files.len() implies img_views(f2)[j] == img_views(files)[j] by {
            if j == i {
                match img.tags {
                    Some(l) => {
                        assert(l0 == l);
                    },
                    None => {},
                }
            }
        }
    }
}


/// Adding the same tag to the selected image twice does what adding it once
/// does: the second time changes nothing.
pub proof fn lemma_add_tag_twice<H, A>(
    s0: Counter<H, A>,
    s1: Counter<H, A>,
    s2: Counter<H, A>,
    tidx: TagIdx,
    a1: crate::state::Action,
    a2: crate::state::Action,
)
    requires
        s0.wf(),
        s0.accepts(Message::AddTag(tidx)),
        Counter::stepped(s0, s1, Message::AddTag(tidx), a1),
        Counter::stepped(s1, s2, Message::AddTag(tidx), a2),
    ensures
        s2 == s1,
{
    let c0 = s0.cleared();
    assert(Counter::tag_added(c0, s1, tidx));
    assert(s1.cleared() == s1);
    assert(s1.selected_index() == c0.selected_index());
    if !(c0.selected_index() is None || c0.tags_list is None || c0.file_list is None) {
        let i = c0.selected_index()->0 as int;
        let files = c0.file_list->0@;
        let img = files[i]@;
        if !(img.tags matches Some(l) && l.contains(tidx)) {
            let f1 = s1.file_list->0@;
            let nl = tag_list(img.tags).push(tidx);
            assert(img_views(f1) == img_views(files).update(i, ImgView { tags: Some(nl), ..img }));
            assert(img_views(f1)[i] == f1[i]@);
            assert(nl[nl.len() - 1] == tidx);
            assert(f1[i]@.tags matches Some(l) && l.contains(tidx));
        }
    }
}

} // verus!
