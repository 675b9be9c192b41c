//! The error model, and the conversion of a raw value into a boolean, a bounded
//! integer, text or bytes.
use vstd::prelude::*;
use vstd::utf8::{decode_utf8, valid_utf8};
use crate::decode::{decoded, escape_at, plain_from, parse_bytes, parse_char, Reference};

verus! {

/// What went wrong.
#[derive(Debug, Clone, Copy, PartialEq, Eq, Structural)]
pub enum ErrorKind {
    /// The shape asked for cannot come from the chosen grammar.
    InvalidType,
    /// A fixed-size list was given another number of values.
    InvalidLength,
    /// Decoded bytes that had to be text are not UTF-8.
    InvalidEncoding,
    /// A number is malformed or out of range.
    InvalidNumber,
    /// A boolean is not one of the accepted words.
    InvalidBoolean,
    /// Nesting goes deeper than the depth budget allows.
    MaximumDepthReached,
    /// The input ended where more was expected (a value asked for before its key).
    EofReached,
    /// Anything else, with its message.
    Other,
}

/// A failure: its kind, a message, the offending slice as text, and the position of
/// the offending byte in that slice where one is known.
#[derive(Debug, PartialEq, Eq)]
pub struct Error {
    pub kind: ErrorKind,
    pub message: String,
    pub value: String,
    pub index: Option<usize>,
}

/// The text that a lossy UTF-8 rendering makes of `b`.
pub uninterp spec fn lossy_text(b: Seq<u8>) -> Seq<char>;

/// Relies on `String::from_utf8_lossy`: the rendering depends on the bytes alone, and
/// valid UTF-8 is rendered as the text it encodes.
#[verifier::external_body]
fn lossy(b: &[u8]) -> (r: String)
    ensures
        r@ == lossy_text(b@),
        valid_utf8(b@) ==> r@ == decode_utf8(b@),
{
    String::from_utf8_lossy(b).into_owned()
}

/// Relies on `std::str::from_utf8`: `Ok` with the text exactly when the bytes are
/// UTF-8, else `Utf8Error::valid_up_to`, the largest `n` such that the first `n`
/// bytes are UTF-8.
#[verifier::external_body]
fn utf8_text(b: &[u8]) -> (r: Result<String, usize>)
    ensures
        r matches Ok(t) ==> valid_utf8(b@) && t@ == decode_utf8(b@),
        r matches Err(n) ==> !valid_utf8(b@) && longest_valid_prefix(b@, n as int),
{
    match std::str::from_utf8(b) {
        Ok(t) => Ok(t.to_owned()),
        Err(e) => Err(e.valid_up_to()),
    }
}

/// Whether the first `n` bytes of `b` are its longest UTF-8 prefix, `b` itself not
/// being UTF-8: `n` is then the position of the first byte that is not.
pub open spec fn longest_valid_prefix(b: Seq<u8>, n: int) -> bool {
    &&& 0 <= n < b.len()
    &&& valid_utf8(b.subrange(0, n))
    &&& forall|m: int| n < m <= b.len() ==> !valid_utf8(#[trigger] b.subrange(0, m))
}

/// The value of a run of decimal digits.
pub open spec fn digits_value(d: Seq<u8>) -> int
    decreases d.len(),
{
    if d.len() == 0 {
        0
    } else {
        digits_value(d.drop_last()) * 10 + (d.last() - 48)
    }
}

/// A run of digits has a value of at least zero.
pub proof fn lemma_digits_value_nonneg(d: Seq<u8>)
    requires
        all_digits(d),
    ensures
        digits_value(d) >= 0,
    decreases d.len(),
{
    if d.len() > 0 {
        assert(all_digits(d.drop_last()));
        lemma_digits_value_nonneg(d.drop_last());
        assert(48 <= d[d.len() - 1]);
    }
}

/// Whether every byte of `d` is a decimal digit.
pub open spec fn all_digits(d: Seq<u8>) -> bool {
    forall|i: int| 0 <= i < d.len() ==> 48 <= #[trigger] d[i] <= 57
}

/// The digits of a decimal literal `b`, after its optional `+` or `-`.
pub open spec fn unsigned_part(b: Seq<u8>) -> Seq<u8> {
    if b.len() > 0 && (b[0] == 45u8 || b[0] == 43u8) {
        b.drop_first()
    } else {
        b
    }
}

/// Whether the decimal literal `b` starts with `-`.
pub open spec fn negative(b: Seq<u8>) -> bool {
    b.len() > 0 && b[0] == 45u8
}

/// The integer that `b` writes in decimal: an optional `+` or `-`, then one or more
/// digits and nothing else.
pub open spec fn decimal_int(b: Seq<u8>) -> Option<int> {
    let d = unsigned_part(b);
    if d.len() > 0 && all_digits(d) {
        Some(if negative(b) { -digits_value(d) } else { digits_value(d) })
    } else {
        None
    }
}

/// The integer that `b` writes, if it lies in `[min, max]`; a `-` is refused
/// outright when `min` is not negative (an unsigned target).
pub open spec fn int_in(b: Seq<u8>, min: int, max: int) -> Option<int> {
    match decimal_int(b) {
        Some(v) => if (negative(b) && min >= 0) || v < min || v > max {
            None
        } else {
            Some(v)
        },
        None => None,
    }
}

/// A run of digits is worth at least any of its prefixes.
pub proof fn lemma_digits_value_prefix(d: Seq<u8>, j: int)
    requires
        all_digits(d),
        0 <= j <= d.len(),
    ensures
        digits_value(d) >= digits_value(d.take(j)),
    decreases d.len(),
{
    if j < d.len() {
        assert(all_digits(d.drop_last()));
        lemma_digits_value_prefix(d.drop_last(), j);
        lemma_digits_value_nonneg(d.drop_last());
        assert(d.drop_last().take(j) =~= d.take(j));
        assert(48 <= d[d.len() - 1]);
    } else {
        assert(d.take(j) =~= d);
    }
}

/// Reads a decimal literal: its sign and the value of its digits. `None` when `b` is
/// not one, or when the value of its digits exceeds `u128::MAX`.
pub fn read_decimal(b: &[u8]) -> (r: Option<(bool, u128)>)
    ensures
        r matches Some((neg, m)) ==> neg == negative(b@) && unsigned_part(b@).len() > 0 && all_digits(
            unsigned_part(b@),
        ) && digits_value(unsigned_part(b@)) == m as int,
        r is None ==> !(unsigned_part(b@).len() > 0 && all_digits(unsigned_part(b@))) || digits_value(
            unsigned_part(b@),
        ) > u128::MAX,
{
    let neg = b.len() > 0 && b[0] == 45u8;
    let start: usize = if b.len() > 0 && (b[0] == 45u8 || b[0] == 43u8) { 1 } else { 0 };
    let ghost d = unsigned_part(b@);
    assert(d =~= b@.subrange(start as int, b@.len() as int));
    if start >= b.len() {
        return None;
    }
    let mut acc: u128 = 0;
    let mut i: usize = start;
    while i < b.len()
        invariant
            start <= i <= b@.len(),
            d == b@.subrange(start as int, b@.len() as int),
            d == unsigned_part(b@),
            neg == negative(b@),
            all_digits(d.take(i - start)),
            acc as int == digits_value(d.take(i - start)),
        decreases b.len() - i,
    {
        let ghost j = i - start;
        let c = b[i];
        assert(d[j as int] == c);
        if c < 48 || c > 57 {
            assert(!(48 <= d[j as int] <= 57));
            assert(!all_digits(d));
            return None;
        }
        assert(d.take(j + 1).drop_last() =~= d.take(j));
        assert(d.take(j + 1).last() == c);
        assert(all_digits(d.take(j + 1)));
        assert(digits_value(d.take(j + 1)) == digits_value(d.take(j)) * 10 + (c - 48));
        match acc.checked_mul(10) {
            Some(t) => match t.checked_add((c - 48) as u128) {
                Some(n) => {
                    acc = n;
                },
                None => {
                    proof {
                        if all_digits(d) {
                            lemma_digits_value_prefix(d, j + 1);
                            assert(t as int + (c - 48) > u128::MAX);
                            assert(digits_value(d) > u128::MAX);
                        }
                    }
                    return None;
                },
            },
            None => {
                proof {
                    if all_digits(d) {
                        lemma_digits_value_prefix(d, j + 1);
                        lemma_digits_value_nonneg(d.take(j));
                    }
                }
                return None;
            },
        }
        i += 1;
    }
    assert(d.take(i - start) =~= d);
    Some((neg, acc))
}

/// The integer that `b` writes, if it lies in `[min, max]` (see `int_in`).
pub fn int_in_range(b: &[u8], min: i128, max: i128) -> (r: Option<i128>)
    ensures
        r matches Some(v) ==> int_in(b@, min as int, max as int) == Some(v as int),
        r is None ==> int_in(b@, min as int, max as int) is None,
{
    match read_decimal(b) {
        None => None,
        Some((neg, m)) => {
            if neg {
                if min >= 0 {
                    return None;
                }
                let lim: u128 = ((-(min + 1)) as u128) + 1;
                if m > lim {
                    return None;
                }
                let x: i128 = if m == 170141183460469231731687303715884105728u128 {
                    i128::MIN
                } else {
                    -(m as i128)
                };
                if x <= max {
                    Some(x)
                } else {
                    None
                }
            } else {
                if max < 0 || m > max as u128 {
                    return None;
                }
                let x = m as i128;
                if x >= min {
                    Some(x)
                } else {
                    None
                }
            }
        },
    }
}

/// The unsigned integer that `b` writes, if it is at most `max`; a `-` is refused.
pub open spec fn uint_in(b: Seq<u8>, max: int) -> Option<int> {
    int_in(b, 0, max)
}

/// The unsigned integer that `b` writes, if it is at most `max` (see `uint_in`).
pub fn uint_in_range(b: &[u8], max: u128) -> (r: Option<u128>)
    ensures
        r matches Some(v) ==> uint_in(b@, max as int) == Some(v as int),
        r is None ==> uint_in(b@, max as int) is None,
{
    match read_decimal(b) {
        Some((false, m)) => {
            if m <= max {
                Some(m)
            } else {
                None
            }
        },
        _ => None,
    }
}

impl Error {
    /// An error of `kind`, with no message, value or index.
    pub fn new(kind: ErrorKind) -> (r: Self)
        ensures
            r.kind == kind,
            r.message@.len() == 0,
            r.value@.len() == 0,
            r.index is None,
    {
        Error { kind, message: String::new(), value: String::new(), index: None }
    }

    /// The same error with `message`.
    pub fn message(self, message: String) -> (r: Self)
        ensures
            r.kind == self.kind,
            r.message@ == message@,
            r.value@ == self.value@,
            r.index == self.index,
    {
        Error { message, ..self }
    }

    /// The same error, naming `slice` as the offending value.
    pub fn value(self, slice: &[u8]) -> (r: Self)
        ensures
            r.kind == self.kind,
            r.message@ == self.message@,
            r.value@ == lossy_text(slice@),
            r.index == self.index,
    {
        Error { value: lossy(slice), ..self }
    }

    /// The same error, with the position of the offending byte.
    pub fn index(self, index: usize) -> (r: Self)
        ensures
            r.kind == self.kind,
            r.message@ == self.message@,
            r.value@ == self.value@,
            r.index == Some(index),
    {
        Error { index: Some(index), ..self }
    }
}

/// The boolean that a decoded value writes: empty, `1`, `on` and `true` are true;
/// `0`, `off` and `false` are false; nothing else is a boolean.
pub open spec fn bool_of(b: Seq<u8>) -> Option<bool> {
    if b.len() == 0 || b == seq![49u8] || b == seq![111u8, 110u8] || b == seq![116u8, 114u8, 117u8, 101u8] {
        Some(true)
    } else if b == seq![48u8] || b == seq![111u8, 102u8, 102u8] || b == seq![102u8, 97u8, 108u8, 115u8, 101u8] {
        Some(false)
    } else {
        None
    }
}

/// The position in the raw `s`, from `i` on, of the byte that decodes to position
/// `n` of the decoding: each escape stands for one decoded byte and takes three.
pub open spec fn raw_index(s: Seq<u8>, i: int, n: int) -> int
    decreases n,
{
    if n <= 0 || i < 0 || i >= s.len() {
        i
    } else if escape_at(s, i) {
        raw_index(s, i + 3, n - 1)
    } else {
        raw_index(s, i + 1, n - 1)
    }
}

/// Maps a position in the decoding of `raw` back to the position in `raw` it came
/// from.
pub fn index_before_decoding(raw: &[u8], index: usize) -> (r: usize)
    ensures
        r as int == raw_index(raw@, 0, index as int),
{
    let mut cursor: usize = 0;
    let mut n: usize = index;
    while n > 0 && cursor < raw.len()
        invariant
            cursor <= raw@.len(),
            raw_index(raw@, cursor as int, n as int) == raw_index(raw@, 0, index as int),
        decreases n,
    {
        if raw[cursor] == 37u8 && raw.len() - cursor > 2 && parse_char(raw[cursor + 1], raw[cursor + 2]).is_some() {
            cursor += 3;
        } else {
            cursor += 1;
        }
        n -= 1;
    }
    cursor
}

fn invalid_boolean_error(slice: &[u8]) -> (e: Error)
    ensures
        e.kind == ErrorKind::InvalidBoolean,
{
    Error::new(ErrorKind::InvalidBoolean).value(slice).message(
        "invalid boolean, supported values are 1, on and true for true and 0, off and false for false".to_owned(),
    )
}

/// A raw (not yet percent-decoded) value.
pub struct RawSlice<'a>(pub &'a [u8]);

/// A percent-decoded key or value.
pub struct DecodedSlice(pub Vec<u8>);

impl<'a> RawSlice<'a> {
    /// The decoded bytes, with no check that they are text.
    pub fn parse_bytes(&self) -> (r: Reference<'a>)
        ensures
            r@ == decoded(self.0@),
            r is Borrowed <==> plain_from(self.0@, 0),
    {
        parse_bytes(self.0)
    }

    /// The boolean that the decoded value writes.
    pub fn parse_bool(&self) -> (r: Result<bool, Error>)
        ensures
            bool_of(decoded(self.0@)) matches Some(b) ==> r == Ok::<bool, Error>(b),
            bool_of(decoded(self.0@)) is None ==> (r matches Err(e) && e.kind == ErrorKind::InvalidBoolean),
    {
        DecodedSlice(parse_bytes(self.0).to_vec()).parse_bool()
    }

    /// The integer that the decoded value writes in decimal, if it lies in
    /// `[min, max]`; a `-` is refused when `min` is not negative.
    pub fn parse_int(&self, min: i128, max: i128) -> (r: Result<i128, Error>)
        ensures
            int_in(decoded(self.0@), min as int, max as int) matches Some(v) ==> (r matches Ok(x) && x == v),
            int_in(decoded(self.0@), min as int, max as int) is None ==> (r matches Err(e) && e.kind
                == ErrorKind::InvalidNumber),
    {
        DecodedSlice(parse_bytes(self.0).to_vec()).parse_int(min, max)
    }

    /// The unsigned integer that the decoded value writes in decimal, if it is at most
    /// `max`.
    pub fn parse_uint(&self, max: u128) -> (r: Result<u128, Error>)
        ensures
            uint_in(decoded(self.0@), max as int) matches Some(v) ==> (r matches Ok(x) && x == v),
            uint_in(decoded(self.0@), max as int) is None ==> (r matches Err(e) && e.kind
                == ErrorKind::InvalidNumber),
    {
        DecodedSlice(parse_bytes(self.0).to_vec()).parse_uint(max)
    }

    /// The decoded value as text; it must be UTF-8. On failure the index is the
    /// position in the raw value of the first byte that is not.
    pub fn parse_str(&self) -> (r: Result<String, Error>)
        ensures
            valid_utf8(decoded(self.0@)) ==> (r matches Ok(t) && t@ == decode_utf8(decoded(self.0@))),
            !valid_utf8(decoded(self.0@)) ==> (r matches Err(e) && e.kind == ErrorKind::InvalidEncoding
                && e.value@ == lossy_text(self.0@) && exists|n: int|
                longest_valid_prefix(decoded(self.0@), n) && e.index == Some(raw_index(self.0@, 0, n) as usize)),
    {
        let d = parse_bytes(self.0).to_vec();
        match utf8_text(d.as_slice()) {
            Ok(t) => Ok(t),
            Err(n) => {
                assert(longest_valid_prefix(decoded(self.0@), n as int));
                let at = index_before_decoding(self.0, n);
                Err(Error::new(ErrorKind::InvalidEncoding).message(
                    "invalid utf-8 sequence found in the percent decoded value".to_owned(),
                ).value(self.0).index(at))
            },
        }
    }
}

impl DecodedSlice {
    /// The boolean that the key writes.
    pub fn parse_bool(&self) -> (r: Result<bool, Error>)
        ensures
            bool_of(self.0@) matches Some(b) ==> r == Ok::<bool, Error>(b),
            bool_of(self.0@) is None ==> (r matches Err(e) && e.kind == ErrorKind::InvalidBoolean),
    {
        let b = self.0.as_slice();
        if b.len() == 0 {
            Ok(true)
        } else if b.len() == 1 && b[0] == 49u8 {
            assert(b@ =~= seq![49u8]);
            Ok(true)
        } else if b.len() == 1 && b[0] == 48u8 {
            assert(b@ =~= seq![48u8]);
            Ok(false)
        } else if b.len() == 2 && b[0] == 111u8 && b[1] == 110u8 {
            assert(b@ =~= seq![111u8, 110u8]);
            Ok(true)
        } else if b.len() == 3 && b[0] == 111u8 && b[1] == 102u8 && b[2] == 102u8 {
            assert(b@ =~= seq![111u8, 102u8, 102u8]);
            Ok(false)
        } else if b.len() == 4 && b[0] == 116u8 && b[1] == 114u8 && b[2] == 117u8 && b[3] == 101u8 {
            assert(b@ =~= seq![116u8, 114u8, 117u8, 101u8]);
            Ok(true)
        } else if b.len() == 5 && b[0] == 102u8 && b[1] == 97u8 && b[2] == 108u8 && b[3] == 115u8 && b[4] == 101u8 {
            assert(b@ =~= seq![102u8, 97u8, 108u8, 115u8, 101u8]);
            Ok(false)
        } else {
            Err(invalid_boolean_error(b))
        }
    }

    /// The integer that the key writes in decimal, if it lies in `[min, max]`; a `-`
    /// is refused when `min` is not negative.
    pub fn parse_int(&self, min: i128, max: i128) -> (r: Result<i128, Error>)
        ensures
            int_in(self.0@, min as int, max as int) matches Some(v) ==> (r matches Ok(x) && x == v),
            int_in(self.0@, min as int, max as int) is None ==> (r matches Err(e) && e.kind
                == ErrorKind::InvalidNumber),
    {
        match int_in_range(self.0.as_slice(), min, max) {
            Some(v) => Ok(v),
            None => Err(Error::new(ErrorKind::InvalidNumber).value(self.0.as_slice()).message(
                "invalid number, or out of range".to_owned(),
            )),
        }
    }

    /// The unsigned integer that the key writes in decimal, if it is at most `max`.
    pub fn parse_uint(&self, max: u128) -> (r: Result<u128, Error>)
        ensures
            uint_in(self.0@, max as int) matches Some(v) ==> (r matches Ok(x) && x == v),
            uint_in(self.0@, max as int) is None ==> (r matches Err(e) && e.kind == ErrorKind::InvalidNumber),
    {
        match uint_in_range(self.0.as_slice(), max) {
            Some(v) => Ok(v),
            None => Err(Error::new(ErrorKind::InvalidNumber).value(self.0.as_slice()).message(
                "invalid number, or out of range".to_owned(),
            )),
        }
    }

    /// The key as text; it must be UTF-8.
    pub fn parse_str(&self) -> (r: Result<String, Error>)
        ensures
            valid_utf8(self.0@) ==> (r matches Ok(t) && t@ == decode_utf8(self.0@)),
            !valid_utf8(self.0@) ==> (r matches Err(e) && e.kind == ErrorKind::InvalidEncoding
                && e.value@ == lossy_text(self.0@) && exists|n: int|
                longest_valid_prefix(self.0@, n) && e.index == Some(n as usize)),
    {
        match utf8_text(self.0.as_slice()) {
            Ok(t) => Ok(t),
            Err(n) => {
                assert(longest_valid_prefix(self.0@, n as int));
                Err(Error::new(ErrorKind::InvalidEncoding).message(
                    "invalid utf-8 sequence found in the decoded key".to_owned(),
                ).value(self.0.as_slice()).index(n))
            },
        }
    }
}

} // verus!
