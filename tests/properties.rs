use std::borrow::Cow;

use serde_querystring::access::QSDeserializer;
use serde_querystring::brackets::{has_subkey, BracketItem, BracketsQS};
use serde_querystring::decode::{parse_bytes, parse_char, Reference};
use serde_querystring::delimiter::{split_raw, DelimiterQS, SizedValuesIterator};
use serde_querystring::sequence::{is_absent, scalar, tuple_items, tuple_parts, variant};
use serde_querystring::duplicate::DuplicateQS;
use serde_querystring::mode::{check_list_support, descend, sized, ParseMode, QueryString, MAX_DEPTH};
use serde_querystring::urlencoded::UrlEncodedQS;
use serde_querystring::value::{index_before_decoding, Error, ErrorKind, RawSlice};

fn decoded(s: &[u8]) -> Vec<u8> {
    parse_bytes(s).to_vec()
}

fn last_direct(item: &[BracketItem]) -> Option<Vec<u8>> {
    let mut out = None;
    for i in item {
        if !has_subkey(i.rest) {
            out = i.value.map(|v| decoded(v));
        }
    }
    out
}

#[test]
fn hex_pairs_decode_in_either_case() {
    assert_eq!(parse_char(b'4', b'1'), Some(0x41));
    assert_eq!(parse_char(b'a', b'F'), Some(0xaf));
    assert_eq!(parse_char(b'g', b'1'), None);
    assert_eq!(parse_char(b'1', b'%'), None);
}

#[test]
fn malformed_escapes_stay_literal() {
    assert_eq!(decoded(b"Test%8"), b"Test%8".to_vec());
    assert_eq!(decoded(b"Test%as"), b"Test%as".to_vec());
    assert_eq!(decoded(b"Test%%25"), b"Test%%".to_vec());
    assert_eq!(decoded(b"a+b%20c"), b"a b c".to_vec());
}

#[test]
fn plain_input_is_borrowed() {
    assert!(matches!(parse_bytes(b"plain"), Reference::Borrowed(_)));
    assert!(matches!(parse_bytes(b"not+plain"), Reference::Owned(_)));
    assert_eq!(parse_bytes(b"x%41").into_cow().as_ref(), b"xA");
}

#[test]
fn flat_order_does_not_matter() {
    let a = "baba=%D8%A8%D8%A7%D8%A8%D8%A7%D8%A8%D8%B2%D8%B1%DA%AF";
    let b = "amoo=%D8%B9%D9%85%D9%88%20%D9%86%D9%88%D8%B1%D9%88%D8%B2";
    let ab = format!("{}&{}", a, b);
    let ba = format!("{}&{}", b, a);
    for q in [ab.as_bytes(), ba.as_bytes()] {
        let u = UrlEncodedQS::parse(q);
        assert_eq!(u.value(b"baba"), Some(Some(Cow::Borrowed("بابابزرگ".as_bytes()))));
        assert_eq!(u.value(b"amoo"), Some(Some(Cow::Borrowed("عمو نوروز".as_bytes()))));
        assert_eq!(u.keys(), vec![b"amoo".to_vec(), b"baba".to_vec()]);
        let d = DuplicateQS::parse(q);
        assert_eq!(d.value(b"baba"), Some(Some(Cow::Borrowed("بابابزرگ".as_bytes()))));
        assert_eq!(d.value(b"amoo"), Some(Some(Cow::Borrowed("عمو نوروز".as_bytes()))));
    }
}

#[test]
fn last_write_wins_in_every_mode() {
    let q = b"num=-2500&num=-2503&num=-2502&num=-2501";
    let want = Some(Some(Cow::Borrowed(&b"-2501"[..])));
    assert_eq!(UrlEncodedQS::parse(q).value(b"num"), want);
    assert_eq!(DuplicateQS::parse(q).value(b"num"), want);
    assert_eq!(DelimiterQS::parse(q, b',').value(b"num"), want);
    assert_eq!(BracketsQS::parse(q).value(b"num"), want);
    let raw = UrlEncodedQS::parse(q);
    assert_eq!(raw.table.items.last().map(|p| p.value), Some(Some(&b"-2501"[..])));
    assert_eq!(RawSlice(b"-2501").parse_int(i32::MIN as i128, i32::MAX as i128), Ok(-2501));
}

#[test]
fn repeated_keys_keep_input_order() {
    let d = DuplicateQS::parse(b"value=1&value=3&value=1337");
    assert_eq!(
        d.values(b"value"),
        Some(vec![Some(Cow::Borrowed(&b"1"[..])), Some(Cow::Borrowed(&b"3"[..])), Some(Cow::Borrowed(&b"1337"[..]))])
    );
}

#[test]
fn delimiter_is_a_parameter() {
    let want = Some(Some(vec![Cow::Borrowed(&b"1"[..]), Cow::Borrowed(&b"3"[..]), Cow::Borrowed(&b"1337"[..])]));
    assert_eq!(DelimiterQS::parse(b"value=1|3|1337", b'|').values(b"value"), want);
    assert_eq!(DelimiterQS::parse(b"value=1,3,1337", b',').values(b"value"), want);
    assert_eq!(
        DelimiterQS::parse(b"value=1,3,1337", b'|').values(b"value"),
        Some(Some(vec![Cow::Borrowed(&b"1,3,1337"[..])]))
    );
}

#[test]
fn sized_values_iterator_hands_out_every_part() {
    let mut it = SizedValuesIterator::new(b"a|b|c", b'|');
    let mut parts = Vec::new();
    while let Some(p) = it.next() {
        parts.push(p);
    }
    assert_eq!(parts, vec![&b"a"[..], &b"b"[..], &b"c"[..]]);
    assert_eq!(it.next(), None);
    assert_eq!(sized(parts, 2).unwrap_err().kind, ErrorKind::InvalidLength);

    let mut it = SizedValuesIterator::new(b"a|b|", b'|');
    assert_eq!(it.next(), Some(&b"a"[..]));
    assert_eq!(it.next(), Some(&b"b"[..]));
    assert_eq!(it.next(), Some(&b""[..]));
    assert_eq!(it.next(), None);

    let mut it = SizedValuesIterator::new(b"", b'|');
    assert_eq!(it.next(), Some(&b""[..]));
    assert_eq!(it.next(), None);
}

#[test]
fn bracket_order_does_not_matter() {
    let one = BracketsQS::parse(b"child[age]=12&child[book][pages]=1000");
    let two = BracketsQS::parse(b"child[book][pages]=1000&child[age]=12");
    for p in [&one, &two] {
        let child = p.sub_values(b"child").unwrap();
        assert_eq!(child.value(b"age"), Some(Some(Cow::Borrowed(&b"12"[..]))));
        let book = child.sub_values(b"book").unwrap();
        assert_eq!(book.value(b"pages"), Some(Some(Cow::Borrowed(&b"1000"[..]))));
        let path = vec![b"book".to_vec(), b"pages".to_vec()];
        assert_eq!(p.path_value(b"child", &path), Ok(Some(Some(Cow::Borrowed(&b"1000"[..])))));
    }
}

#[test]
fn percent_encoded_brackets() {
    let p = BracketsQS::parse(b"a%5Bb%5D=1&a%5bc%5d%5Bd%5D=2");
    let a = p.sub_values(b"a").unwrap();
    assert_eq!(a.value(b"b"), Some(Some(Cow::Borrowed(&b"1"[..]))));
    let c = a.sub_values(b"c").unwrap();
    assert_eq!(c.value(b"d"), Some(Some(Cow::Borrowed(&b"2"[..]))));
}

#[test]
fn integer_bounds_are_exact() {
    assert_eq!(RawSlice(b"255").parse_int(0, 255), Ok(255));
    assert_eq!(RawSlice(b"256").parse_int(0, 255).unwrap_err().kind, ErrorKind::InvalidNumber);
    assert_eq!(RawSlice(b"-1").parse_int(0, 255).unwrap_err().kind, ErrorKind::InvalidNumber);
    assert_eq!(RawSlice(b"-128").parse_int(-128, 127), Ok(-128));
    assert_eq!(RawSlice(b"").parse_int(0, 255).unwrap_err().kind, ErrorKind::InvalidNumber);
    assert_eq!(RawSlice(b"12foo").parse_int(i32::MIN as i128, i32::MAX as i128).unwrap_err().kind, ErrorKind::InvalidNumber);
    assert_eq!(
        RawSlice(b"18446744073709551615").parse_int(0, u64::MAX as i128),
        Ok(18446744073709551615)
    );
    assert_eq!(RawSlice(b"%2D7").parse_int(-10, 10), Ok(-7));
    assert_eq!(RawSlice(b"-0").parse_int(0, 255).unwrap_err().kind, ErrorKind::InvalidNumber);
    assert_eq!(RawSlice(b"-0").parse_int(-128, 127), Ok(0));
    assert_eq!(RawSlice(b"%2B12").parse_int(0, 255), Ok(12));
    assert_eq!(RawSlice(b"+12").parse_int(0, 255).unwrap_err().kind, ErrorKind::InvalidNumber);
    assert_eq!(
        RawSlice(b"460282366920938463463374607431768211456").parse_int(i128::MIN, i128::MAX).unwrap_err().kind,
        ErrorKind::InvalidNumber
    );
    assert_eq!(
        RawSlice(b"-170141183460469231731687303715884105728").parse_int(i128::MIN, i128::MAX),
        Ok(i128::MIN)
    );
    assert_eq!(
        RawSlice(b"340282366920938463463374607431768211455").parse_uint(u128::MAX),
        Ok(u128::MAX)
    );
    assert_eq!(
        RawSlice(b"340282366920938463463374607431768211456").parse_uint(u128::MAX).unwrap_err().kind,
        ErrorKind::InvalidNumber
    );
    assert_eq!(RawSlice(b"-1").parse_uint(u128::MAX).unwrap_err().kind, ErrorKind::InvalidNumber);
    assert_eq!(RawSlice(b"00042").parse_uint(100), Ok(42));
}

#[test]
fn boolean_words() {
    for w in [&b"1"[..], b"on", b"true", b""] {
        assert_eq!(RawSlice(w).parse_bool(), Ok(true));
    }
    for w in [&b"0"[..], b"off", b"false"] {
        assert_eq!(RawSlice(w).parse_bool(), Ok(false));
    }
    for w in [&b"bla"[..], b"onoff", b"True", b"2"] {
        assert_eq!(RawSlice(w).parse_bool().unwrap_err().kind, ErrorKind::InvalidBoolean);
    }
    assert_eq!(RawSlice(b"o%6E").parse_bool(), Ok(true));
}

#[test]
fn text_must_be_utf8() {
    assert_eq!(RawSlice(b"Test%8").parse_str(), Ok("Test%8".to_string()));
    let e = RawSlice(b"Test%88%88").parse_str().unwrap_err();
    assert_eq!(e.kind, ErrorKind::InvalidEncoding);
    assert_eq!(e.index, Some(4));
    assert_eq!(e.value, "Test%88%88");
    let e = RawSlice(b"ab%20%88").parse_str().unwrap_err();
    assert_eq!(e.index, Some(5));
    assert_eq!(e.value, "ab%20%88");
    assert_eq!(RawSlice(b"%D8%A8").parse_str(), Ok("ب".to_string()));
}

#[test]
fn error_value_is_rendered_lossily() {
    let e = Error::new(ErrorKind::Other).value(&[0x61, 0xff]).index(1);
    assert_eq!(e.value, "a\u{fffd}");
    assert_eq!(e.index, Some(1));
    assert_eq!(e.kind, ErrorKind::Other);
}

#[test]
fn raw_positions_account_for_escapes() {
    assert_eq!(index_before_decoding(b"a%20b%20c", 3), 5);
    assert_eq!(index_before_decoding(b"abc", 2), 2);
    assert_eq!(index_before_decoding(b"%zz", 1), 1);
}

#[test]
fn depth_limit_is_exact() {
    let mut at_limit = b"a".to_vec();
    for _ in 0..MAX_DEPTH {
        at_limit.extend_from_slice(b"[x]");
    }
    at_limit.extend_from_slice(b"=1");
    let p = BracketsQS::parse(&at_limit);
    let path = vec![b"x".to_vec(); MAX_DEPTH];
    assert_eq!(p.path_value(b"a", &path), Ok(Some(Some(Cow::Borrowed(&b"1"[..])))));

    let mut beyond = b"a".to_vec();
    for _ in 0..MAX_DEPTH + 1 {
        beyond.extend_from_slice(b"[x]");
    }
    beyond.extend_from_slice(b"=1");
    let p = BracketsQS::parse(&beyond);
    let path = vec![b"x".to_vec(); MAX_DEPTH + 1];
    assert_eq!(p.path_value(b"a", &path).unwrap_err().kind, ErrorKind::MaximumDepthReached);
    assert_eq!(descend(0).unwrap_err().kind, ErrorKind::MaximumDepthReached);
    assert_eq!(descend(3), Ok(2));
}

#[test]
fn fixed_arity_is_enforced() {
    let d = DuplicateQS::parse(b"value=1&value=3&value=1337&value=999");
    let values = d.values(b"value").unwrap();
    assert_eq!(sized(values, 3).unwrap_err().kind, ErrorKind::InvalidLength);
    let values = d.values(b"value").unwrap();
    assert_eq!(sized(values, 4).map(|v| v.len()), Ok(4));
    assert_eq!(check_list_support(ParseMode::UrlEncoded).unwrap_err().kind, ErrorKind::InvalidType);
    assert_eq!(check_list_support(ParseMode::Delimiter(b'|')), Ok(()));
    assert_eq!(check_list_support(ParseMode::Brackets), Ok(()));
}

#[test]
fn bracket_lists_are_ordered_by_index() {
    let p = BracketsQS::parse(
        b"value[10]=9&value[10]=10&value[1]=2&value[8]=8&value[2]=3&value[6]=7&value[0]=1&value[]=0",
    );
    let list = p.list(b"value").unwrap();
    let got: Vec<Option<Vec<u8>>> = list.iter().map(|e| last_direct(e)).collect();
    let want: Vec<Option<Vec<u8>>> =
        ["0", "1", "2", "3", "7", "8", "10"].iter().map(|s| Some(s.as_bytes().to_vec())).collect();
    assert_eq!(got, want);

    let p = BracketsQS::parse(b"value=1&value=3&value=1337");
    let list = p.list(b"value").unwrap();
    assert_eq!(list.len(), 3);
    assert_eq!(last_direct(&list[2]), Some(b"1337".to_vec()));

    let p = BracketsQS::parse(b"v[b]=1&v[a]=2&v[b]=3&v[3]=4");
    let list = p.list(b"v").unwrap();
    let got: Vec<Option<Vec<u8>>> = list.iter().map(|e| last_direct(e)).collect();
    assert_eq!(got, vec![Some(b"3".to_vec()), Some(b"2".to_vec()), Some(b"4".to_vec())]);
    assert!(p.list(b"w").is_none());
}

#[test]
fn query_string_hands_back_its_value() {
    assert_eq!(QueryString(7).into_inner(), 7);
}

#[test]
fn deserialize_invalid() {
    // `x[3]=22&&x[2]`: the empty pair is a key of its own, and both `x` pairs are
    // numbered items of the list of `x`.
    let p = BracketsQS::parse(b"x[3]=22&&x[2]");
    assert_eq!(p.keys(), vec![b"".to_vec(), b"x".to_vec()]);
    let list = p.list(b"x").unwrap();
    assert_eq!(list.len(), 2);
    assert_eq!(last_direct(&list[0]), None);
    assert_eq!(last_direct(&list[1]), Some(b"22".to_vec()));
}

#[test]
fn deserialize_to_unit() {
    // `x[3]=22&x[2]=22`: both sub-keys of `x` are present, each with its value.
    let p = BracketsQS::parse(b"x[3]=22&x[2]=22");
    let x = p.sub_values(b"x").unwrap();
    assert_eq!(x.keys(), vec![b"2".to_vec(), b"3".to_vec()]);
    assert_eq!(x.value(b"2"), Some(Some(Cow::Borrowed(&b"22"[..]))));
}

#[test]
fn delimited_raw_value_splits_and_decodes() {
    let p = DelimiterQS::parse(b"v=a%20b|c&w", b'|');
    let raw = p.raw_value(b"v").unwrap().unwrap();
    assert_eq!(raw.slice(), b"a%20b|c");
    assert_eq!(raw.decode().as_ref(), b"a b|c");
    assert_eq!(raw.split(b'|'), vec![Cow::Borrowed(&b"a b"[..]), Cow::Borrowed(&b"c"[..])]);
    assert!(p.raw_value(b"w").unwrap().is_none());
    assert!(p.raw_value(b"x").is_none());
}

#[test]
fn map_access_hands_out_key_then_value() {
    let mut d = QSDeserializer::new(vec![(b"a".to_vec(), 1), (b"b".to_vec(), 2)]);
    assert_eq!(d.size_hint(), 2);
    assert_eq!(d.next_value(), None);
    assert_eq!(d.next_key(), Some(b"a".to_vec()));
    assert_eq!(d.next_value(), Some(1));
    assert_eq!(d.next_value(), None);
    assert_eq!(d.next_key(), Some(b"b".to_vec()));
    assert_eq!(d.next_value(), Some(2));
    assert_eq!(d.next_key(), None);
}

#[test]
fn keys_are_sorted_and_distinct() {
    let u = UrlEncodedQS::parse(b"b=1&a=2&c=3&a=4&ab=5&=6");
    assert_eq!(
        u.keys(),
        vec![b"".to_vec(), b"a".to_vec(), b"ab".to_vec(), b"b".to_vec(), b"c".to_vec()]
    );
    let p = BracketsQS::parse(b"z[1]=1&y=2&z[0]=3");
    assert_eq!(p.keys(), vec![b"y".to_vec(), b"z".to_vec()]);
}

#[test]
fn comma_joined_tuple_variant() {
    let p = BracketsQS::parse(b"w[E]=1,2&x[E][]=1&x[E][]=2");
    let w = p.sub_values(b"w").unwrap();
    let g = w.group_items(b"E");
    let parts = tuple_parts(&g).unwrap();
    assert_eq!(parts, vec![&b"1"[..], &b"2"[..]]);
    let x = p.sub_values(b"x").unwrap();
    assert!(tuple_parts(&x.group_items(b"E")).is_none());
    assert_eq!(split_raw(b"a,,b", b','), vec![&b"a"[..], &b""[..], &b"b"[..]]);
}

#[test]
fn last_assignment_picks_the_variant() {
    let p = BracketsQS::parse(b"e[W]=10&e=Q");
    let (name, payload) = variant(&p.group_items(b"e")).unwrap();
    assert_eq!(name, b"Q".to_vec());
    assert!(payload.is_none());

    let p = BracketsQS::parse(b"e=Q&e[W]=10");
    let (name, payload) = variant(&p.group_items(b"e")).unwrap();
    assert_eq!(name, b"W".to_vec());
    assert_eq!(scalar(&payload.unwrap()), Some(&b"10"[..]));

    let p = BracketsQS::parse(b"e[R][x]=1&e[R][y]=2&e[S]=3");
    let (name, payload) = variant(&p.group_items(b"e")).unwrap();
    assert_eq!(name, b"S".to_vec());
    assert_eq!(payload.unwrap().len(), 1);

    assert!(variant(&Vec::new()).is_none());
}

#[test]
fn scalars_and_absence_of_bracket_groups() {
    let p = BracketsQS::parse(b"a=1&a[b]=2&c[d]=3&e&f=&g=x");
    assert_eq!(scalar(&p.group_items(b"a")), Some(&b"1"[..]));
    assert_eq!(scalar(&p.group_items(b"c")), None);
    assert!(is_absent(&p.group_items(b"e")));
    assert!(is_absent(&p.group_items(b"f")));
    assert!(!is_absent(&p.group_items(b"g")));
    assert!(is_absent(&p.group_items(b"missing")));
    assert!(!is_absent(&p.group_items(b"a")));
}

#[test]
fn values_borrow_the_input_when_unchanged() {
    let u = UrlEncodedQS::parse(b"plain=abc&coded=a%20b");
    assert!(matches!(u.value(b"plain"), Some(Some(Cow::Borrowed(_)))));
    assert!(matches!(u.value(b"coded"), Some(Some(Cow::Owned(_)))));
    assert_eq!(u.value(b"coded"), Some(Some(Cow::Borrowed(&b"a b"[..]))));
}

#[test]
fn borrowed_exactly_when_nothing_decoded() {
    assert!(matches!(parse_bytes(b"abc").into_cow(), Cow::Borrowed(_)));
    assert!(matches!(parse_bytes(b"a+c").into_cow(), Cow::Owned(_)));
    let p = DelimiterQS::parse(b"foo=bar|baz||&bar=a%7Cb", b'|');
    assert!(matches!(p.value(b"foo"), Some(Some(Cow::Borrowed(_)))));
    assert_eq!(p.value(b"foo"), Some(Some(Cow::Borrowed(&b"bar|baz||"[..]))));
    assert!(matches!(p.value(b"bar"), Some(Some(Cow::Owned(_)))));
    assert_eq!(p.values(b"bar"), Some(Some(vec![Cow::Borrowed(&b"a|b"[..])])));
    assert_eq!(p.value(b"baz"), None);
    assert!(matches!(RawSlice(b"x").parse_bytes(), Reference::Borrowed(_)));
}

#[test]
fn flat_last_raw_value_and_bracket_tuples() {
    let u = UrlEncodedQS::parse(b"a=1&a=%32&b");
    assert_eq!(u.table.last_raw_value(b"a"), Some(Some(&b"%32"[..])));
    assert_eq!(u.table.last_raw_value(b"b"), Some(None));
    assert_eq!(u.table.last_raw_value(b"c"), None);

    let p = BracketsQS::parse(b"v[0]=1&v[1]=3&v[2]=1337&v[3]=999");
    let g = p.group_items(b"v");
    assert_eq!(tuple_items(&g, 3).unwrap_err().kind, ErrorKind::InvalidLength);
    assert_eq!(tuple_items(&g, 4).map(|l| l.len()), Ok(4));
}
