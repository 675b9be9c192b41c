//! Percent-decoding of `%XX` escapes and `+`, returning the input itself whenever
//! nothing had to change.
use std::borrow::Cow;
use vstd::prelude::*;

verus! {

/// The value of an ASCII hexadecimal digit, if `b` is one.
pub open spec fn hex_digit(b: u8) -> Option<u8> {
    if 48 <= b <= 57 {
        Some((b - 48) as u8)
    } else if 65 <= b <= 70 {
        Some((b - 55) as u8)
    } else if 97 <= b <= 102 {
        Some((b - 87) as u8)
    } else {
        None
    }
}

/// The byte written as the two hexadecimal digits `h` and `l`, if both are digits.
pub open spec fn hex_pair(h: u8, l: u8) -> Option<u8> {
    match (hex_digit(h), hex_digit(l)) {
        (Some(a), Some(b)) => Some((a * 16 + b) as u8),
        _ => None,
    }
}

/// Whether a well-formed escape `%XX` starts at position `i` of `s`.
pub open spec fn escape_at(s: Seq<u8>, i: int) -> bool {
    0 <= i && i + 2 < s.len() && s[i] == 37u8 && hex_pair(s[i + 1], s[i + 2]).is_some()
}

/// The percent-decoding of `s` from position `i` on: `+` becomes a space, a
/// well-formed `%XX` becomes the byte it writes, and every other byte (a `%`
/// without two hexadecimal digits after it included) stays as it is.
pub open spec fn decode_from(s: Seq<u8>, i: int) -> Seq<u8>
    decreases s.len() - i,
{
    if i < 0 || i >= s.len() {
        Seq::empty()
    } else if s[i] == 43u8 {
        seq![32u8] + decode_from(s, i + 1)
    } else if escape_at(s, i) {
        seq![hex_pair(s[i + 1], s[i + 2]).unwrap()] + decode_from(s, i + 3)
    } else {
        seq![s[i]] + decode_from(s, i + 1)
    }
}

/// The percent-decoding of the whole of `s`.
pub open spec fn decoded(s: Seq<u8>) -> Seq<u8> {
    decode_from(s, 0)
}

/// Whether decoding changes nothing at or after position `i` (no `+` and no escape).
pub open spec fn plain_from(s: Seq<u8>, i: int) -> bool {
    forall|j: int| i <= j < s.len() ==> s[j] != 43u8 && !escape_at(s, j)
}

fn hex_value(b: u8) -> (r: Option<u8>)
    ensures
        r == hex_digit(b),
{
    if 48 <= b && b <= 57 {
        Some(b - 48)
    } else if 65 <= b && b <= 70 {
        Some(b - 55)
    } else if 97 <= b && b <= 102 {
        Some(b - 87)
    } else {
        None
    }
}

/// Decodes the byte written as the two hexadecimal digits `h` and `l` (either case).
pub fn parse_char(h: u8, l: u8) -> (r: Option<u8>)
    ensures
        r == hex_pair(h, l),
{
    match (hex_value(h), hex_value(l)) {
        (Some(a), Some(b)) => Some(a * 16 + b),
        _ => None,
    }
}

/// Copies `b` into a vector of its own.
pub fn copy_bytes(b: &[u8]) -> (r: Vec<u8>)
    ensures
        r@ == b@,
{
    let mut r: Vec<u8> = Vec::new();
    let mut i: usize = 0;
    while i < b.len()
        invariant
            i <= b.len(),
            r@ == b@.subrange(0, i as int),
        decreases b.len() - i,
    {
        r.push(b[i]);
        i += 1;
        proof {
            assert(r@ =~= b@.subrange(0, i as int));
        }
    }
    proof {
        assert(b@.subrange(0, b@.len() as int) =~= b@);
    }
    r
}

/// A decoded slice: either the input itself, when decoding changed nothing, or a
/// freshly written buffer.
pub enum Reference<'a> {
    Borrowed(&'a [u8]),
    Owned(Vec<u8>),
}

impl<'a> View for Reference<'a> {
    type V = Seq<u8>;

    open spec fn view(&self) -> Seq<u8> {
        match self {
            Reference::Borrowed(b) => b@,
            Reference::Owned(o) => o@,
        }
    }
}

impl<'a> Reference<'a> {
    /// The decoded bytes as a `Cow`: borrowed exactly when the input was.
    pub fn into_cow(self) -> (r: Cow<'a, [u8]>)
        ensures
            r@ == self@,
            (self is Borrowed) <==> (r matches Cow::Borrowed(_)),
    {
        match self {
            Reference::Borrowed(b) => Cow::Borrowed(b),
            Reference::Owned(o) => Cow::Owned(o),
        }
    }

    /// The decoded bytes, copied into a vector of their own.
    pub fn to_vec(&self) -> (r: Vec<u8>)
        ensures
            r@ == self@,
    {
        match self {
            Reference::Borrowed(b) => copy_bytes(b),
            Reference::Owned(o) => o.clone(),
        }
    }
}

/// Percent-decodes `slice`. The result borrows `slice` exactly when decoding left it
/// unchanged (it holds no `+` and no well-formed `%XX`).
pub fn parse_bytes<'a>(slice: &'a [u8]) -> (r: Reference<'a>)
    ensures
        r@ == decoded(slice@),
        r is Borrowed <==> plain_from(slice@, 0),
{
    let mut out: Vec<u8> = Vec::new();
    let mut changed = false;
    let mut cursor: usize = 0;
    while cursor < slice.len()
        invariant
            cursor <= slice.len(),
            out@ + decode_from(slice@, cursor as int) == decoded(slice@),
            !changed ==> out@ == slice@.subrange(0, cursor as int) && plain_from(slice@, 0)
                == plain_from(slice@, cursor as int),
            changed ==> !plain_from(slice@, 0),
        decreases slice.len() - cursor,
    {
        let ghost s = slice@;
        let ghost c = cursor as int;
        let v = slice[cursor];
        if v == 43u8 {
            proof {
                assert(!plain_from(s, 0));
                assert(out@.push(32u8) + decode_from(s, c + 1) =~= out@ + decode_from(s, c));
            }
            out.push(32u8);
            changed = true;
            cursor += 1;
        } else if v == 37u8 && slice.len() - cursor > 2 && parse_char(slice[cursor + 1], slice[cursor + 2]).is_some() {
            let b = parse_char(slice[cursor + 1], slice[cursor + 2]).unwrap();
            proof {
                assert(escape_at(s, c));
                assert(!plain_from(s, 0));
                assert(out@.push(b) + decode_from(s, c + 3) =~= out@ + decode_from(s, c));
            }
            out.push(b);
            changed = true;
            cursor += 3;
        } else {
            proof {
                assert(!escape_at(s, c));
                assert(out@.push(v) + decode_from(s, c + 1) =~= out@ + decode_from(s, c));
                if !changed {
                    assert(out@.push(v) =~= s.subrange(0, c + 1));
                    assert(plain_from(s, c) == plain_from(s, c + 1));
                }
            }
            out.push(v);
            cursor += 1;
        }
    }
    proof {
        assert(decode_from(slice@, cursor as int) =~= Seq::<u8>::empty());
        assert(out@ + Seq::<u8>::empty() =~= out@);
    }
    if changed {
        Reference::Owned(out)
    } else {
        proof {
            assert(slice@.subrange(0, slice@.len() as int) =~= slice@);
        }
        Reference::Borrowed(slice)
    }
}

} // verus!
