use vstd::prelude::*;
use vstd::utf8::*;

verus! {

/// Index of a tag in the tag list of a folder.
pub type TagIdx = u32;

/// A tag: its name, its index in the tag list, and how many images carry it.
pub struct Tag {
    pub name: String,
    pub idx: TagIdx,
    pub refs: u32,
}

/// The mathematical value of a [`Tag`].
pub struct TagView {
    pub name: Seq<char>,
    pub idx: u32,
    pub refs: u32,
}

impl View for Tag {
    type V = TagView;

    open spec fn view(&self) -> TagView {
        TagView { name: self.name@, idx: self.idx, refs: self.refs }
    }
}

/// The four little-endian bytes of `n`.
pub open spec fn le_bytes(n: u32) -> Seq<u8> {
    seq![(n & 0xff) as u8, ((n >> 8) & 0xff) as u8, ((n >> 16) & 0xff) as u8, ((n >> 24) & 0xff) as u8]
}

/// The number whose little-endian bytes are `b0 b1 b2 b3`.
pub open spec fn le_value(b0: u8, b1: u8, b2: u8, b3: u8) -> u32 {
    (b0 as u32) | ((b1 as u32) << 8) | ((b2 as u32) << 16) | ((b3 as u32) << 24)
}

/// The number held in the four bytes of `b` that start at `at`.
pub open spec fn le_value_at(b: Seq<u8>, at: int) -> u32 {
    le_value(b[at], b[at + 1], b[at + 2], b[at + 3])
}

/// Decoding the little-endian bytes of a number gives the number back.
pub proof fn lemma_le_roundtrip(n: u32)
    ensures
        le_bytes(n).len() == 4,
        le_value_at(le_bytes(n), 0) == n,
{
    let b0 = (n & 0xff) as u8;
    let b1 = ((n >> 8) & 0xff) as u8;
    let b2 = ((n >> 16) & 0xff) as u8;
    let b3 = ((n >> 24) & 0xff) as u8;
    assert(le_value(b0, b1, b2, b3) == n) by (bit_vector)
        requires
            b0 == (n & 0xff) as u8,
            b1 == ((n >> 8) & 0xff) as u8,
            b2 == ((n >> 16) & 0xff) as u8,
            b3 == ((n >> 24) & 0xff) as u8,
    ;
}

/// The bytes that encode a tag: index and reference count, little-endian,
/// then the name in UTF-8.
pub open spec fn tag_bytes(t: TagView) -> Seq<u8> {
    le_bytes(t.idx) + le_bytes(t.refs) + encode_utf8(t.name)
}

/// Whether `b` can be read as a tag: eight bytes of numbers, then UTF-8 text.
pub open spec fn tag_decodable(b: Seq<u8>) -> bool {
    b.len() >= 8 && valid_utf8(b.subrange(8, b.len() as int))
}

/// The tag read from `b` (meaningful when [`tag_decodable`] holds).
pub open spec fn tag_from_seq(b: Seq<u8>) -> TagView {
    TagView {
        name: decode_utf8(b.subrange(8, b.len() as int)),
        idx: le_value_at(b, 0),
        refs: le_value_at(b, 4),
    }
}

/// `std::str::from_utf8`: succeeds exactly on valid UTF-8, and then holds the
/// decoded text, which is copied into a `String`.
#[verifier::external_body]
pub(crate) fn utf8_to_string(bytes: &[u8]) -> (r: Option<String>)
    ensures
        r is Some <==> valid_utf8(bytes@),
        r matches Some(s) ==> s@ == decode_utf8(bytes@),
{
    match std::str::from_utf8(bytes) {
        Ok(s) => Some(s.to_owned()),
        Err(_) => None,
    }
}

/// Appends the little-endian bytes of `n` to `out`.
pub(crate) fn push_le_bytes(out: &mut Vec<u8>, n: u32)
    ensures
        final(out)@ == old(out)@ + le_bytes(n),
{
    out.push((n & 0xff) as u8);
    out.push(((n >> 8) & 0xff) as u8);
    out.push(((n >> 16) & 0xff) as u8);
    out.push(((n >> 24) & 0xff) as u8);
    assert(out@ =~= old(out)@ + le_bytes(n));
}

/// Reads the little-endian number held in `b[at..at + 4]`.
pub(crate) fn read_le_u32(b: &[u8], at: usize) -> (r: u32)
    requires
        at + 4 <= b@.len(),
    ensures
        r == le_value_at(b@, at as int),
{
    (b[at] as u32) | ((b[at + 1] as u32) << 8) | ((b[at + 2] as u32) << 16) | ((b[at + 3] as u32)
        << 24)
}

/// Appends the bytes of `src` to `out`.
pub(crate) fn push_all(out: &mut Vec<u8>, src: &[u8])
    ensures
        final(out)@ == old(out)@ + src@,
{
    let n = src.len();
    let mut i: usize = 0;
    while i < n
        invariant
            n == src@.len(),
            i <= n,
            out@ == old(out)@ + src@.subrange(0, i as int),
        decreases n - i,
    {
        out.push(src[i]);
        i = i + 1;
        assert(out@ =~= old(out)@ + src@.subrange(0, i as int));
    }
    assert(src@.subrange(0, n as int) =~= src@);
}

impl Tag {
    /// The bytes that store this tag.
    pub fn as_bytes(&self) -> (r: Vec<u8>)
        ensures
            r@ == tag_bytes(self@),
    {
        let mut v: Vec<u8> = Vec::new();
        push_le_bytes(&mut v, self.idx);
        push_le_bytes(&mut v, self.refs);
        push_all(&mut v, self.name.as_str().as_bytes());
        assert(v@ =~= tag_bytes(self@));
        v
    }

    /// Reads a tag from its bytes; `None` where the bytes are too short or
    /// the name is not UTF-8.
    pub fn try_from_bytes(bytes: &[u8]) -> (r: Option<Tag>)
        ensures
            r is Some <==> tag_decodable(bytes@),
            r matches Some(t) ==> t@ == tag_from_seq(bytes@),
    {
        if bytes.len() < 8 {
            return None;
        }
        let idx = read_le_u32(bytes, 0);
        let refs = read_le_u32(bytes, 4);
        match utf8_to_string(&bytes[8..bytes.len()]) {
            Some(name) => Some(Tag { name, idx, refs }),
            None => None,
        }
    }

    /// Reads a tag from its bytes.
    pub fn from_bytes(bytes: &[u8]) -> (t: Tag)
        requires
            tag_decodable(bytes@),
        ensures
            t@ == tag_from_seq(bytes@),
    {
        match Self::try_from_bytes(bytes) {
            Some(t) => t,
            None => {
                proof {
                    assert(false);
                }
                Tag { name: String::new(), idx: 0, refs: 0 }
            },
        }
    }
}

/// Reading back the bytes of a tag gives the same tag.
pub proof fn lemma_tag_bytes_roundtrip(t: TagView)
    ensures
        tag_decodable(tag_bytes(t)),
        tag_from_seq(tag_bytes(t)) == t,
{
    broadcast use vstd::utf8::group_utf8_lib;
    let b = tag_bytes(t);
    lemma_le_roundtrip(t.idx);
    lemma_le_roundtrip(t.refs);
    assert(b.subrange(8, b.len() as int) =~= encode_utf8(t.name));
    assert(b[0] == le_bytes(t.idx)[0] && b[1] == le_bytes(t.idx)[1] && b[2] == le_bytes(t.idx)[2]
        && b[3] == le_bytes(t.idx)[3]);
    assert(b[4] == le_bytes(t.refs)[0] && b[5] == le_bytes(t.refs)[1] && b[6] == le_bytes(
        t.refs,
    )[2] && b[7] == le_bytes(t.refs)[3]);
}

} // verus!
