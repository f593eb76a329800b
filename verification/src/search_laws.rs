use vstd::prelude::*;

use crate::entry::Img;
use crate::metadata::tag_list;
use crate::search::{
    all_hold, all_indices, holds, is_separator, matching, parse_and, parse_and_rest, parse_not,
    parse_or, parse_or_rest, parse_primary, search_result, tag_position, tokens_from, tokens_of,
    word_end, SpecExpr, TokenView,
};
use crate::tag::TagIdx;

verus! {

/// Whether the tag token at `i` has a `-` before it.
pub open spec fn negated(t: Seq<TokenView>, i: int) -> bool {
    i > 0 && t[i - 1] is Not
}

/// The tag index that the tag token at `i` stands for: the position of the
/// first tag of that name.
pub open spec fn named_index(t: Seq<TokenView>, names: Seq<Seq<char>>, i: int) -> TagIdx {
    tag_position(names, t[i]->Tag_0) as TagIdx
}

/// Whether the tokens `t[lo..hi]` are a plain search: names of existing
/// tags, some with one `-` before them, and nothing else; no `-` comes just
/// before them, and they end the tokens or are followed by `)`.
pub open spec fn plain_range(t: Seq<TokenView>, names: Seq<Seq<char>>, lo: int, hi: int) -> bool {
    &&& 0 <= lo <= hi <= t.len()
    &&& hi < t.len() ==> t[hi] is RParen
    &&& lo > 0 ==> !(t[lo - 1] is Not)
    &&& forall|i: int| lo <= i < hi ==> (#[trigger] t[i]) is Tag || t[i] is Not
    &&& forall|i: int|
        lo <= i < hi && (#[trigger] t[i]) is Tag ==> tag_position(names, t[i]->Tag_0) >= 0
    &&& forall|i: int, j: int|
        lo <= i && j == i + 1 && j < hi && (#[trigger] t[i]) is Not ==> (#[trigger] t[j]) is Tag
    &&& hi > lo ==> !(t[hi - 1] is Not)
}

/// Whether `t` is a plain search: names of existing tags, some with one `-`
/// before them, and nothing else.
pub open spec fn plain_query(t: Seq<TokenView>, names: Seq<Seq<char>>) -> bool {
    plain_range(t, names, 0, t.len() as int)
}

/// Whether the tags `tags` carry each tag named by a tag token in
/// `from..to` without `-`, and none of those named with `-`.
pub open spec fn fits_between(
    t: Seq<TokenView>,
    names: Seq<Seq<char>>,
    tags: Seq<TagIdx>,
    from: int,
    to: int,
) -> bool {
    forall|j: int|
        from <= j < to && (#[trigger] t[j]) is Tag ==> (tags.contains(named_index(t, names, j))
            == !negated(t, j))
}

/// Whether a list of positions is strictly increasing.
pub open spec fn increasing(v: Seq<usize>) -> bool {
    forall|a: int, b: int| 0 <= a < b < v.len() ==> v[a] < v[b]
}

/// A tag name that names a tag, not followed by `,`, reads as that tag.
proof fn lemma_tag_term(t: Seq<TokenView>, names: Seq<Seq<char>>, pos: int)
    requires
        0 <= pos < t.len(),
        t[pos] is Tag,
        tag_position(names, t[pos]->Tag_0) >= 0,
        pos + 1 < t.len() ==> !(t[pos + 1] is Or),
    ensures
        parse_or(t, names, pos) == Ok::<(SpecExpr, int), Seq<char>>(
            (SpecExpr::Tag(tag_position(names, t[pos]->Tag_0) as TagIdx), pos + 1),
        ),
{
    let e = SpecExpr::Tag(tag_position(names, t[pos]->Tag_0) as TagIdx);
    assert(parse_primary(t, names, pos) == Ok::<(SpecExpr, int), Seq<char>>((e, pos + 1)));
    assert(parse_not(t, names, pos) == parse_primary(t, names, pos));
    assert(parse_or_rest(t, names, pos + 1, seq![e]) == Ok::<(Seq<SpecExpr>, int), Seq<char>>(
        (seq![e], pos + 1),
    ));
}

/// `-` and a tag name that names a tag, not followed by `,`, read as the
/// negated tag.
proof fn lemma_not_term(t: Seq<TokenView>, names: Seq<Seq<char>>, pos: int)
    requires
        0 <= pos,
        pos + 1 < t.len(),
        t[pos] is Not,
        t[pos + 1] is Tag,
        tag_position(names, t[pos + 1]->Tag_0) >= 0,
        pos + 2 < t.len() ==> !(t[pos + 2] is Or),
    ensures
        parse_or(t, names, pos) == Ok::<(SpecExpr, int), Seq<char>>(
            (
                SpecExpr::Not(
                    Box::new(SpecExpr::Tag(tag_position(names, t[pos + 1]->Tag_0) as TagIdx)),
                ),
                pos + 2,
            ),
        ),
{
    let inner = SpecExpr::Tag(tag_position(names, t[pos + 1]->Tag_0) as TagIdx);
    assert(parse_primary(t, names, pos + 1) == Ok::<(SpecExpr, int), Seq<char>>(
        (inner, pos + 2),
    ));
    let e = SpecExpr::Not(Box::new(inner));
    assert(parse_not(t, names, pos) == Ok::<(SpecExpr, int), Seq<char>>((e, pos + 2)));
    assert(parse_or_rest(t, names, pos + 2, seq![e]) == Ok::<(Seq<SpecExpr>, int), Seq<char>>(
        (seq![e], pos + 2),
    ));
}

/// One term of a plain search, a tag name with or without `-`, reads as an
/// expression that matches exactly the tags that fit that term.
proof fn lemma_plain_term(
    t: Seq<TokenView>,
    names: Seq<Seq<char>>,
    tags: Seq<TagIdx>,
    lo: int,
    hi: int,
    pos: int,
)
    requires
        plain_range(t, names, lo, hi),
        lo <= pos < hi,
        pos == lo || t[pos - 1] is Tag,
    ensures
        parse_or(t, names, pos) matches Ok((e, p)) && pos < p <= hi && t[p - 1] is Tag && (
        holds(e, tags) == fits_between(t, names, tags, pos, p)),
{
    let x = t[pos];
    assert(x is Tag || x is Not);
    if pos + 1 < hi {
        let y = t[pos + 1];
        assert(y is Tag || y is Not);
    } else if pos + 1 < t.len() {
        let y = t[pos + 1];
        assert(y is RParen);
    }
    if x is Tag {
        assert(tag_position(names, x->Tag_0) >= 0);
        if pos + 1 < t.len() {
            let y = t[pos + 1];
            assert(!(y is Or));
        }
        lemma_tag_term(t, names, pos);
        let k = tag_position(names, x->Tag_0);
        assert(!negated(t, pos));
        assert(named_index(t, names, pos) == k as TagIdx);
        assert(fits_between(t, names, tags, pos, pos + 1) == tags.contains(k as TagIdx));
        let e = SpecExpr::Tag(k as TagIdx);
        assert(holds(e, tags) == tags.contains(k as TagIdx));
        assert(parse_or(t, names, pos) == Ok::<(SpecExpr, int), Seq<char>>((e, pos + 1)));
        assert(t[pos + 1 - 1] is Tag);
    } else {
        assert(pos + 1 < hi);
        let y = t[pos + 1];
        assert(y is Tag);
        if pos + 2 < hi {
            let z = t[pos + 2];
            assert(z is Tag || z is Not);
        } else if pos + 2 < t.len() {
            let z = t[pos + 2];
            assert(z is RParen);
        }
        assert(tag_position(names, y->Tag_0) >= 0);
        if pos + 2 < t.len() {
            let z = t[pos + 2];
            assert(!(z is Or));
        }
        lemma_not_term(t, names, pos);
        let k = tag_position(names, y->Tag_0);
        assert(negated(t, pos + 1));
        assert(named_index(t, names, pos + 1) == k as TagIdx);
        assert(fits_between(t, names, tags, pos, pos + 2) == !tags.contains(k as TagIdx));
        let inner = SpecExpr::Tag(k as TagIdx);
        let e = SpecExpr::Not(Box::new(inner));
        assert(holds(inner, tags) == tags.contains(k as TagIdx));
        assert(holds(e, tags) == !holds(inner, tags));
        assert(parse_or(t, names, pos) == Ok::<(SpecExpr, int), Seq<char>>((e, pos + 2)));
        assert(t[pos + 2 - 1] is Tag);
    }
}

/// Adding one expression to a list: all of them match where the list did
/// and the new one does.
proof fn lemma_all_hold_push(es: Seq<SpecExpr>, e: SpecExpr, tags: Seq<TagIdx>)
    ensures
        all_hold(es.push(e), tags) == (all_hold(es, tags) && holds(e, tags)),
{
    let l = es.push(e);
    if all_hold(es, tags) && holds(e, tags) {
        assert forall|i: int| 0 <= i < l.len() implies holds(#[trigger] l[i], tags) by {
            if i < es.len() {
                assert(l[i] == es[i]);
            }
        }
    }
    if all_hold(l, tags) {
        assert(holds(l[es.len() as int], tags));
        assert forall|i: int| 0 <= i < es.len() implies holds(#[trigger] es[i], tags) by {
            assert(l[i] == es[i]);
            assert(holds(l[i], tags));
        }
    }
}

/// The rest of a plain search reads to its end, and its terms, added to
/// `acc`, all match exactly where `acc` does and the tags fit the rest.
proof fn lemma_plain_rest(
    t: Seq<TokenView>,
    names: Seq<Seq<char>>,
    tags: Seq<TagIdx>,
    lo: int,
    hi: int,
    pos: int,
    acc: Seq<SpecExpr>,
)
    requires
        plain_range(t, names, lo, hi),
        lo <= pos <= hi,
        pos == lo || t[pos - 1] is Tag,
    ensures
        parse_and_rest(t, names, pos, acc) matches Ok((es, q)) && q == hi && (pos < hi
            ==> es.len() > acc.len()) && (pos == hi ==> es == acc) && all_hold(es, tags) == (
        all_hold(acc, tags) && fits_between(t, names, tags, pos, hi)),
    decreases hi - pos,
{
    if pos < hi {
        assert(!(t[pos] is RParen));
        lemma_plain_term(t, names, tags, lo, hi, pos);
        let (e, p) = parse_or(t, names, pos)->Ok_0;
        lemma_plain_rest(t, names, tags, lo, hi, p, acc.push(e));
        lemma_all_hold_push(acc, e, tags);
        assert(fits_between(t, names, tags, pos, hi) == (fits_between(t, names, tags, pos, p)
            && fits_between(t, names, tags, p, hi))) by {
            if fits_between(t, names, tags, pos, p) && fits_between(t, names, tags, p, hi) {
                assert forall|j: int|
                    pos <= j < hi && (#[trigger] t[j]) is Tag implies (tags.contains(
                    named_index(t, names, j),
                ) == !negated(t, j)) by {
                    if j < p {
                    } else {
                    }
                }
            }
        }
    } else if hi < t.len() {
        assert(t[hi] is RParen);
    }
}

/// A plain search that is not empty reads, up to its end, as an expression
/// that matches exactly the tag lists that fit all its terms.
proof fn lemma_plain_parse_range(
    t: Seq<TokenView>,
    names: Seq<Seq<char>>,
    tags: Seq<TagIdx>,
    lo: int,
    hi: int,
)
    requires
        plain_range(t, names, lo, hi),
        lo < hi,
    ensures
        parse_and(t, names, lo) matches Ok((e, p)) && p == hi && holds(e, tags) == fits_between(
            t,
            names,
            tags,
            lo,
            hi,
        ),
{
    lemma_plain_term(t, names, tags, lo, hi, lo);
    let (e0, p0) = parse_or(t, names, lo)->Ok_0;
    lemma_plain_rest(t, names, tags, lo, hi, p0, seq![e0]);
    let (es, q) = parse_and_rest(t, names, p0, seq![e0])->Ok_0;
    lemma_all_hold_push(Seq::<SpecExpr>::empty(), e0, tags);
    assert(seq![e0] =~= Seq::<SpecExpr>::empty().push(e0));
    assert(all_hold(Seq::<SpecExpr>::empty(), tags));
    assert(fits_between(t, names, tags, lo, hi) == (fits_between(t, names, tags, lo, p0)
        && fits_between(t, names, tags, p0, hi))) by {
        if fits_between(t, names, tags, lo, p0) && fits_between(t, names, tags, p0, hi) {
            assert forall|j: int|
                lo <= j < hi && (#[trigger] t[j]) is Tag implies (tags.contains(
                named_index(t, names, j),
            ) == !negated(t, j)) by {
                if j < p0 {
                } else {
                }
            }
        }
    }
    if es.len() == 1 {
        assert(holds(es[0], tags) == all_hold(es, tags));
    }
}

/// A plain search that is not empty reads to its end as an expression that
/// matches exactly the tag lists that fit all its terms.
proof fn lemma_plain_parse(t: Seq<TokenView>, names: Seq<Seq<char>>, tags: Seq<TagIdx>)
    requires
        plain_query(t, names),
        t.len() > 0,
    ensures
        parse_and(t, names, 0) matches Ok((e, p)) && holds(e, tags) == fits_between(
            t,
            names,
            tags,
            0,
            t.len() as int,
        ),
{
    lemma_plain_parse_range(t, names, tags, 0, t.len() as int);
}

/// The images that a search picks, among the first `n`: positions below
/// `n`, in increasing order, exactly those of the images whose tags match.
proof fn lemma_matching_members(imgs: Seq<Img>, e: SpecExpr, n: int)
    requires
        0 <= n <= usize::MAX,
    ensures
        increasing(matching(imgs, e, n)),
        forall|j: int|
            0 <= j < matching(imgs, e, n).len() ==> #[trigger] matching(imgs, e, n)[j] < n,
        forall|i: int|
            0 <= i < n ==> (matching(imgs, e, n).contains(i as usize) <==> holds(
                e,
                tag_list(#[trigger] imgs[i]@.tags),
            )),
    decreases n,
{
    if n > 0 {
        lemma_matching_members(imgs, e, n - 1);
        let rest = matching(imgs, e, n - 1);
        let m = matching(imgs, e, n);
        assert forall|j: int| 0 <= j < m.len() implies #[trigger] m[j] < n by {
            if j < rest.len() {
                assert(m[j] == rest[j]);
            }
        }
        assert forall|a: int, b: int| 0 <= a < b < m.len() implies m[a] < m[b] by {
            if b < rest.len() {
                assert(m[a] == rest[a] && m[b] == rest[b]);
            } else {
                assert(m[a] == rest[a]);
                assert(rest[a] < n - 1);
            }
        }
        assert forall|i: int| 0 <= i < n implies (m.contains(i as usize) <==> holds(
            e,
            tag_list(#[trigger] imgs[i]@.tags),
        )) by {
            if i < n - 1 {
                if rest.contains(i as usize) {
                    let k = choose|k: int| 0 <= k < rest.len() && rest[k] == i as usize;
                    assert(m[k] == rest[k]);
                }
                if m.contains(i as usize) {
                    let k = choose|k: int| 0 <= k < m.len() && m[k] == i as usize;
                    if k < rest.len() {
                        assert(m[k] == rest[k]);
                    }
                }
            } else {
                if m.contains(i as usize) {
                    let k = choose|k: int| 0 <= k < m.len() && m[k] == i as usize;
                    if k < rest.len() {
                        assert(m[k] == rest[k]);
                        assert(rest[k] < n - 1);
                    }
                }
                if holds(e, tag_list(imgs[i]@.tags)) {
                    assert(m[rest.len() as int] == (n - 1) as usize);
                }
            }
        }
    }
}

/// A plain search (tag names, some with `-` before them) gives, in
/// increasing order, exactly the images that carry every tag named without
/// `-` and none of the tags named with `-`; an empty search gives every
/// image.
pub proof fn lemma_plain_search(s: Seq<char>, names: Seq<Seq<char>>, imgs: Seq<Img>)
    requires
        plain_query(tokens_of(s), names),
        imgs.len() <= usize::MAX,
    ensures
        search_result(s, names, imgs) matches Ok(v) && increasing(v) && (forall|j: int|
            0 <= j < v.len() ==> #[trigger] v[j] < imgs.len()) && (forall|i: int|
            0 <= i < imgs.len() ==> (v.contains(i as usize) <==> fits_between(
                tokens_of(s),
                names,
                tag_list(#[trigger] imgs[i]@.tags),
                0,
                tokens_of(s).len() as int,
            ))),
{
    let t = tokens_of(s);
    let n = imgs.len() as int;
    if t.len() == 0 {
        let v = all_indices(imgs.len());
        assert forall|i: int| 0 <= i < n implies #[trigger] v.contains(i as usize) by {
            assert(v[i] == i as usize);
        }
    } else {
        lemma_parse_gives_plain(t, names, imgs);
        let (e, p) = parse_and(t, names, 0)->Ok_0;
        lemma_matching_members(imgs, e, n);
    }
}

/// For every image, the expression that a plain search reads as matches
/// exactly where the image's tags fit the search.
proof fn lemma_parse_gives_plain(t: Seq<TokenView>, names: Seq<Seq<char>>, imgs: Seq<Img>)
    requires
        plain_query(t, names),
        t.len() > 0,
    ensures
        parse_and(t, names, 0) matches Ok((e, p)) && forall|i: int|
            0 <= i < imgs.len() ==> holds(e, tag_list(#[trigger] imgs[i]@.tags)) == fits_between(
                t,
                names,
                tag_list(imgs[i]@.tags),
                0,
                t.len() as int,
            ),
{
    lemma_plain_parse(t, names, seq![]);
    let (e, p) = parse_and(t, names, 0)->Ok_0;
    assert forall|i: int| 0 <= i < imgs.len() implies holds(
        e,
        tag_list(#[trigger] imgs[i]@.tags),
    ) == fits_between(t, names, tag_list(imgs[i]@.tags), 0, t.len() as int) by {
        lemma_plain_parse(t, names, tag_list(imgs[i]@.tags));
    }
}


/// In a text put in parentheses, a tag name ends one place later than in
/// the text itself.
proof fn lemma_word_end_shift(s: Seq<char>, j: int)
    requires
        0 <= j <= s.len(),
    ensures
        word_end(seq!['('] + s + seq![')'], j + 1) == word_end(s, j) + 1,
    decreases s.len() - j,
{
    let p = seq!['('] + s + seq![')'];
    if j < s.len() {
        assert(p[j + 1] == s[j]);
        if !is_separator(s[j]) {
            lemma_word_end_shift(s, j + 1);
        }
    } else {
        assert(p[j + 1] == ')');
    }
}

/// The tokens of a text put in parentheses, from one place on, are those
/// of the text followed by `)`.
proof fn lemma_tokens_shift(s: Seq<char>, i: int)
    requires
        0 <= i <= s.len(),
    ensures
        tokens_from(seq!['('] + s + seq![')'], i + 1) == tokens_from(s, i) + seq![TokenView::RParen],
    decreases s.len() - i,
{
    let p = seq!['('] + s + seq![')'];
    if i == s.len() {
        assert(p[i + 1] == ')');
        assert(tokens_from(p, i + 2) == Seq::<TokenView>::empty());
        assert(tokens_from(s, i) == Seq::<TokenView>::empty());
        assert(tokens_from(p, i + 1) =~= seq![TokenView::RParen]);
    } else {
        let c = s[i];
        assert(p[i + 1] == c);
        if c == '-' || c == ',' || c == '(' || c == ')' || c == ' ' {
            lemma_tokens_shift(s, i + 1);
            assert(tokens_from(p, i + 1) =~= tokens_from(s, i) + seq![TokenView::RParen]);
        } else {
            crate::search::lemma_word_end(s, i + 1);
            let e = word_end(s, i + 1);
            lemma_word_end_shift(s, i + 1);
            assert(word_end(p, i + 2) == e + 1);
            assert(p.subrange(i + 1, e + 1) =~= s.subrange(i, e));
            lemma_tokens_shift(s, e);
            assert(tokens_from(p, i + 1) =~= tokens_from(s, i) + seq![TokenView::RParen]);
        }
    }
}

/// The tokens of a text put in parentheses are `(`, the tokens of the text,
/// and `)`.
pub proof fn lemma_tokens_of_parenthesised(s: Seq<char>)
    ensures
        tokens_of(seq!['('] + s + seq![')']) == seq![TokenView::LParen] + tokens_of(s) + seq![
            TokenView::RParen,
        ],
{
    let p = seq!['('] + s + seq![')'];
    assert(p[0] == '(');
    lemma_tokens_shift(s, 0);
    assert(tokens_of(p) =~= seq![TokenView::LParen] + tokens_of(s) + seq![TokenView::RParen]);
}

/// A plain search in parentheses reads as an expression that matches
/// exactly where the search itself does.
proof fn lemma_parenthesised_parse(t: Seq<TokenView>, names: Seq<Seq<char>>, tags: Seq<TagIdx>)
    requires
        plain_query(t, names),
        t.len() > 0,
    ensures
        parse_and(seq![TokenView::LParen] + t + seq![TokenView::RParen], names, 0) matches Ok(
            (e, p),
        ) && holds(e, tags) == fits_between(t, names, tags, 0, t.len() as int),
{
    let tt = seq![TokenView::LParen] + t + seq![TokenView::RParen];
    let hi = t.len() as int + 1;
    assert forall|i: int| 1 <= i < hi implies #[trigger] tt[i] == t[i - 1] by {}
    assert(tt[0] is LParen);
    assert(tt[hi] is RParen);
    assert(plain_range(tt, names, 1, hi)) by {
        assert forall|i: int| 1 <= i < hi implies (#[trigger] tt[i]) is Tag || tt[i] is Not by {
            assert(tt[i] == t[i - 1]);
            let x = t[i - 1];
        }
        assert forall|i: int| 1 <= i < hi && (#[trigger] tt[i]) is Tag implies tag_position(
            names,
            tt[i]->Tag_0,
        ) >= 0 by {
            assert(tt[i] == t[i - 1]);
            let x = t[i - 1];
        }
        assert forall|i: int, j: int|
            1 <= i && j == i + 1 && j < hi && (#[trigger] tt[i]) is Not implies (
            #[trigger] tt[j]) is Tag by {
            assert(tt[i] == t[i - 1] && tt[j] == t[j - 1]);
            let x = t[i - 1];
            let y = t[j - 1];
        }
        let last = t[t.len() - 1];
        assert(tt[hi - 1] == last);
    }
    lemma_plain_parse_range(tt, names, tags, 1, hi);
    let (e, p) = parse_and(tt, names, 1)->Ok_0;
    assert(parse_primary(tt, names, 0) == Ok::<(SpecExpr, int), Seq<char>>((e, hi + 1)));
    assert(parse_not(tt, names, 0) == parse_primary(tt, names, 0));
    assert(parse_or_rest(tt, names, hi + 1, seq![e]) == Ok::<(Seq<SpecExpr>, int), Seq<char>>(
        (seq![e], hi + 1),
    ));
    assert(parse_or(tt, names, 0) == Ok::<(SpecExpr, int), Seq<char>>((e, hi + 1)));
    assert(parse_and_rest(tt, names, hi + 1, seq![e]) == Ok::<(Seq<SpecExpr>, int), Seq<char>>(
        (seq![e], hi + 1),
    ));
    assert(fits_between(tt, names, tags, 1, hi) == fits_between(t, names, tags, 0, t.len() as int))
        by {
        if fits_between(tt, names, tags, 1, hi) {
            assert forall|j: int| 0 <= j < t.len() && (#[trigger] t[j]) is Tag implies (tags.contains(
                named_index(t, names, j),
            ) == !negated(t, j)) by {
                assert(tt[j + 1] == t[j]);
                if j > 0 {
                    assert(tt[j] == t[j - 1]);
                }
            }
        }
        if fits_between(t, names, tags, 0, t.len() as int) {
            assert forall|j: int| 1 <= j < hi && (#[trigger] tt[j]) is Tag implies (tags.contains(
                named_index(tt, names, j),
            ) == !negated(tt, j)) by {
                assert(tt[j] == t[j - 1]);
                if j > 1 {
                    assert(tt[j - 1] == t[j - 2]);
                }
            }
        }
    }
}

/// Two expressions that match the same tag lists pick the same images.
proof fn lemma_matching_same(imgs: Seq<Img>, e1: SpecExpr, e2: SpecExpr, n: int)
    requires
        forall|i: int| 0 <= i < n ==> holds(e1, tag_list(#[trigger] imgs[i]@.tags)) == holds(
            e2,
            tag_list(imgs[i]@.tags),
        ),
    ensures
        matching(imgs, e1, n) == matching(imgs, e2, n),
    decreases n,
{
    if n > 0 {
        assert(holds(e1, tag_list(imgs[n - 1]@.tags)) == holds(e2, tag_list(imgs[n - 1]@.tags)));
        lemma_matching_same(imgs, e1, e2, n - 1);
    }
}

/// Putting a plain search that is not empty in parentheses picks the same
/// images: a parenthesised group reads as the search inside it.
pub proof fn lemma_parenthesised_search(s: Seq<char>, names: Seq<Seq<char>>, imgs: Seq<Img>)
    requires
        plain_query(tokens_of(s), names),
        tokens_of(s).len() > 0,
    ensures
        search_result(seq!['('] + s + seq![')'], names, imgs) == search_result(s, names, imgs),
{
    let t = tokens_of(s);
    let ps = seq!['('] + s + seq![')'];
    lemma_tokens_of_parenthesised(s);
    let tt = tokens_of(ps);
    lemma_plain_parse(t, names, seq![]);
    lemma_parenthesised_parse(t, names, seq![]);
    let (e1, p1) = parse_and(t, names, 0)->Ok_0;
    let (e2, p2) = parse_and(tt, names, 0)->Ok_0;
    assert forall|i: int| 0 <= i < imgs.len() implies holds(
        e1,
        tag_list(#[trigger] imgs[i]@.tags),
    ) == holds(e2, tag_list(imgs[i]@.tags)) by {
        lemma_plain_parse(t, names, tag_list(imgs[i]@.tags));
        lemma_parenthesised_parse(t, names, tag_list(imgs[i]@.tags));
    }
    lemma_matching_same(imgs, e1, e2, imgs.len() as int);
}

} // verus!
