use vstd::prelude::*;
use vstd::utf8::*;

verus! {

/// Characters allowed in a tag name: ASCII letters, digits and underscore.
pub open spec fn is_tag_char(c: char) -> bool {
    ('0' <= c && c <= '9') || ('a' <= c && c <= 'z') || ('A' <= c && c <= 'Z') || c == '_'
}

/// A tag name is non-empty and made of tag characters only.
pub open spec fn valid_tag_name(name: Seq<char>) -> bool {
    &&& name.len() > 0
    &&& forall|i: int| 0 <= i < name.len() ==> is_tag_char(#[trigger] name[i])
}

/// Whether `name` may be used as the name of a tag.
pub fn is_valid_tag(name: &str) -> (r: bool)
    ensures
        r == valid_tag_name(name@),
{
    broadcast use vstd::string::is_ascii_spec_bytes;
    broadcast use vstd::utf8::group_utf8_lib;
    if name.is_empty() || !name.is_ascii() {
        proof {
            if name@.len() > 0 && !name.is_ascii() {
                assert(!is_ascii_chars(name@));
                let k = choose|k: int| 0 <= k < name@.len() && !('\0' <= #[trigger] name@[k] <= '\x7f');
                assert(!is_tag_char(name@[k]));
            }
        }
        return false;
    }
    let bytes = name.as_bytes();
    let n = bytes.len();
    let mut i: usize = 0;
    while i < n
        invariant
            n == bytes@.len(),
            bytes@.len() == name@.len(),
            forall|k: int| 0 <= k < name@.len() ==> bytes@[k] == name@[k] as u8,
            is_ascii_chars(name@),
            i <= n,
            forall|k: int| 0 <= k < i ==> is_tag_char(#[trigger] name@[k]),
        decreases n - i,
    {
        let b = bytes[i];
        assert(b == name@[i as int] as u8);
        assert('\0' <= name@[i as int] <= '\x7f');
        let ok = (48 <= b && b <= 57) || (97 <= b && b <= 122) || (65 <= b && b <= 90) || b == 95;
        if !ok {
            return false;
        }
        i = i + 1;
    }
    true
}

/// Whether two strings hold the same text (compared byte by byte).
pub fn str_eq(a: &str, b: &str) -> (r: bool)
    ensures
        r == (a@ == b@),
{
    broadcast use vstd::utf8::group_utf8_lib;
    let x = a.as_bytes();
    let y = b.as_bytes();
    if x.len() != y.len() {
        proof {
            if a@ == b@ {
                assert(x@ == y@);
            }
        }
        return false;
    }
    let n = x.len();
    let mut i: usize = 0;
    while i < n
        invariant
            n == x@.len(),
            n == y@.len(),
            i <= n,
            forall|k: int| 0 <= k < i ==> x@[k] == y@[k],
            x@ == encode_utf8(a@),
            y@ == encode_utf8(b@),
        decreases n - i,
    {
        if x[i] != y[i] {
            proof {
                if a@ == b@ {
                    assert(x@ == y@);
                }
            }
            return false;
        }
        i = i + 1;
    }
    assert(x@ =~= y@);
    assert(decode_utf8(encode_utf8(a@)) == a@);
    assert(decode_utf8(encode_utf8(b@)) == b@);
    true
}


/// The text shown for `s` in a space of `max_bytes` bytes: `s` itself where
/// its UTF-8 form is shorter than that, otherwise the text of its first
/// `max_bytes - 4` bytes followed by "...".
pub open spec fn truncated(s: Seq<char>, max_bytes: nat) -> Seq<char> {
    let b = encode_utf8(s);
    if b.len() < max_bytes {
        s
    } else {
        decode_utf8(b.subrange(0, max_bytes - 4)) + seq!['.', '.', '.']
    }
}

/// Shortens `s` to fit in `max_chars` bytes (see [`truncated`]).
/// `max_chars` must be more than 4, and where `s` is cut, the cut must fall
/// between two characters.
pub fn truncate(s: &str, max_chars: usize) -> (r: String)
    requires
        max_chars > 4,
        encode_utf8(s@).len() >= max_chars ==> is_char_boundary(encode_utf8(s@), max_chars - 4),
    ensures
        r@ == truncated(s@, max_chars as nat),
{
    broadcast use vstd::utf8::group_utf8_lib;
    if s.as_bytes().len() < max_chars {
        return s.to_owned();
    }
    let (head, _) = s.split_at(max_chars - 4);
    let mut full = head.to_owned();
    proof {
        reveal_strlit("...");
        assert(head@ == decode_utf8(encode_utf8(head@)));
    }
    full.append("...");
    full
}

} // verus!
