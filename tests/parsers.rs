use std::borrow::Cow;

use serde_querystring::brackets::BracketsQS;
use serde_querystring::delimiter::DelimiterQS;
use serde_querystring::duplicate::DuplicateQS;
use serde_querystring::urlencoded::UrlEncodedQS;

#[test]
fn urlencoded_parse_pair() {
    let slice = b"key=value";
    let parser = UrlEncodedQS::parse(slice);
    assert_eq!(parser.keys(), vec![b"key".to_vec()]);
    assert_eq!(parser.value(b"key"), Some(Some(Cow::Borrowed("value".as_bytes()))));
}

#[test]
fn urlencoded_parse_multiple_pairs() {
    let slice = b"foo=bar&foobar=baz&qux=box";
    let parser = UrlEncodedQS::parse(slice);
    assert_eq!(parser.value(b"foo"), Some(Some("bar".as_bytes().into())));
    assert_eq!(parser.value(b"foobar"), Some(Some("baz".as_bytes().into())));
    assert_eq!(parser.value(b"qux"), Some(Some("box".as_bytes().into())));
}

#[test]
fn urlencoded_parse_no_value() {
    let slice = b"foo&foobar=&foo2";
    let parser = UrlEncodedQS::parse(slice);
    assert_eq!(parser.value(b"foo3"), None);
    assert_eq!(parser.value(b"foo2"), Some(None));
    assert_eq!(parser.value(b"foo"), Some(None));
    assert_eq!(parser.value(b"foobar"), Some(Some("".as_bytes().into())));
}

#[test]
fn urlencoded_parse_multiple_values() {
    let slice = b"foo=bar&foo=baz&foo=foobar&foo&foo=";
    let parser = UrlEncodedQS::parse(slice);
    assert_eq!(parser.value(b"foo"), Some(Some("".as_bytes().into())));
}

#[test]
fn duplicate_parse_pair() {
    let slice = b"key=value";
    let parser = DuplicateQS::parse(slice);
    assert_eq!(parser.keys(), vec![b"key".to_vec()]);
    assert_eq!(parser.values(b"key"), Some(vec![Some(Cow::Borrowed("value".as_bytes()))]));
    assert_eq!(parser.value(b"key"), Some(Some(Cow::Borrowed("value".as_bytes()))));
}

#[test]
fn duplicate_parse_multiple_pairs() {
    let slice = b"foo=bar&foobar=baz&qux=box";
    let parser = DuplicateQS::parse(slice);
    assert_eq!(parser.values(b"foo"), Some(vec![Some("bar".as_bytes().into())]));
    assert_eq!(parser.values(b"foobar"), Some(vec![Some("baz".as_bytes().into())]));
    assert_eq!(parser.values(b"qux"), Some(vec![Some("box".as_bytes().into())]));
}

#[test]
fn duplicate_parse_no_value() {
    let slice = b"foo&foobar=";
    let parser = DuplicateQS::parse(slice);
    assert_eq!(parser.value(b"key"), None);
    assert_eq!(parser.values(b"key"), None);
    assert_eq!(parser.value(b"foo"), Some(None));
    assert_eq!(parser.values(b"foo"), Some(vec![None]));
    assert_eq!(parser.values(b"foobar"), Some(vec![Some("".as_bytes().into())]));
    assert_eq!(parser.value(b"foobar"), Some(Some("".as_bytes().into())));
}

#[test]
fn duplicate_parse_multiple_values() {
    let slice = b"foo=bar&foo=baz&foo=foobar&foo&foo=";
    let parser = DuplicateQS::parse(slice);
    assert_eq!(
        parser.values(b"foo"),
        Some(vec![
            Some("bar".as_bytes().into()),
            Some("baz".as_bytes().into()),
            Some("foobar".as_bytes().into()),
            None,
            Some("".as_bytes().into())
        ])
    );
    assert_eq!(parser.value(b"foo"), Some(Some("".as_bytes().into())));
}

#[test]
fn delimiter_parse_pair() {
    let slice = b"key=value";
    let parser = DelimiterQS::parse(slice, b'|');
    assert_eq!(parser.keys(), vec![b"key".to_vec()]);
    assert_eq!(parser.values(b"key"), Some(Some(vec![Cow::Borrowed("value".as_bytes())])));
    assert_eq!(parser.value(b"key"), Some(Some(Cow::Borrowed("value".as_bytes()))));
    assert_eq!(parser.values(b"test"), None);
}

#[test]
fn delimiter_parse_multiple_pairs() {
    let slice = b"foo=bar&foobar=baz&qux=box";
    let parser = DelimiterQS::parse(slice, b'|');
    assert_eq!(parser.values(b"foo"), Some(Some(vec!["bar".as_bytes().into()])));
    assert_eq!(parser.values(b"foobar"), Some(Some(vec!["baz".as_bytes().into()])));
    assert_eq!(parser.values(b"qux"), Some(Some(vec!["box".as_bytes().into()])));
}

#[test]
fn delimiter_parse_no_value() {
    let slice = b"foo&foobar=";
    let parser = DelimiterQS::parse(slice, b'|');
    assert_eq!(parser.values(b"foo"), Some(None));
    assert_eq!(parser.values(b"foobar"), Some(Some(vec!["".as_bytes().into()])));
    assert_eq!(parser.value(b"foo"), Some(None));
    assert_eq!(parser.value(b"foobar"), Some(Some("".as_bytes().into())));
}

#[test]
fn delimiter_parse_multiple_values() {
    let slice = b"foo=bar|baz|foobar||";
    let parser = DelimiterQS::parse(slice, b'|');
    assert_eq!(
        parser.values(b"foo"),
        Some(Some(vec![
            "bar".as_bytes().into(),
            "baz".as_bytes().into(),
            "foobar".as_bytes().into(),
            "".as_bytes().into(),
            "".as_bytes().into()
        ]))
    );

    let slice = b"foo=bar,baz,foobar,,";
    let parser = DelimiterQS::parse(slice, b',');
    assert_eq!(
        parser.values(b"foo"),
        Some(Some(vec![
            "bar".as_bytes().into(),
            "baz".as_bytes().into(),
            "foobar".as_bytes().into(),
            "".as_bytes().into(),
            "".as_bytes().into()
        ]))
    );
}

#[test]
fn brackets_parse_pair() {
    let slice = b"key=value";
    let parser = BracketsQS::parse(slice);
    assert_eq!(parser.keys(), vec![b"key".to_vec()]);
    assert_eq!(parser.values(b"key"), Some(vec![Some(Cow::Borrowed("value".as_bytes()))]));
    assert_eq!(parser.value(b"key"), Some(Some(Cow::Borrowed("value".as_bytes()))));
    assert_eq!(parser.values(b"test"), None);
}

#[test]
fn brackets_parse_multiple_pairs() {
    let slice = b"foo=bar&foobar=baz&qux=box";
    let parser = BracketsQS::parse(slice);
    assert_eq!(parser.values(b"foo"), Some(vec![Some("bar".as_bytes().into())]));
    assert_eq!(parser.values(b"foobar"), Some(vec![Some("baz".as_bytes().into())]));
    assert_eq!(parser.values(b"qux"), Some(vec![Some("box".as_bytes().into())]));
}

#[test]
fn brackets_parse_no_value() {
    let slice = b"foo&foobar=";
    let parser = BracketsQS::parse(slice);
    assert_eq!(parser.values(b"foo"), Some(vec![None]));
    assert_eq!(parser.values(b"foobar"), Some(vec![Some("".as_bytes().into())]));
}

#[test]
fn brackets_parse_multiple_values() {
    let slice = b"foo=bar&foo=baz&foo=foobar&foo&foo=";
    let parser = BracketsQS::parse(slice);
    assert_eq!(
        parser.values(b"foo"),
        Some(vec![
            Some("bar".as_bytes().into()),
            Some("baz".as_bytes().into()),
            Some("foobar".as_bytes().into()),
            None,
            Some("".as_bytes().into())
        ])
    );
    assert_eq!(parser.value(b"foo"), Some(Some("".as_bytes().into())));
}

#[test]
fn parse_subkeys() {
    let slice = b"foo[bar]=baz&foo[bar]=buzz&foo[foobar]=qux&foo=bar";
    let parser = BracketsQS::parse(slice);
    assert_eq!(parser.values(b"foo"), Some(vec![Some("bar".as_bytes().into())]));

    let foo_values = parser.sub_values(b"foo");
    assert!(foo_values.is_some());
    let foo_values = foo_values.unwrap();
    assert_eq!(
        foo_values.values(b"bar"),
        Some(vec![Some("baz".as_bytes().into()), Some("buzz".as_bytes().into())])
    );
    assert_eq!(foo_values.values(b"foobar"), Some(vec![Some("qux".as_bytes().into())]))
}

#[test]
fn parse_invalid() {
    // Invalid suffix of keys should be ignored; a key whose bracket never closes is
    // one literal key.
    let slice = b"foo[bar]xyz=baz&foo[bar][xyz=buzz&foo[foobar]xyz]=qux&foo[xyz=bar";
    let parser = BracketsQS::parse(slice);
    assert_eq!(parser.values(b"foo"), Some(vec![]));
    assert_eq!(parser.values(b"foo[xyz"), Some(vec![Some("bar".as_bytes().into())]));

    let foo_values = parser.sub_values(b"foo");
    assert!(foo_values.is_some());
    let foo_values = foo_values.unwrap();
    assert_eq!(
        foo_values.values(b"bar"),
        Some(vec![Some("baz".as_bytes().into()), Some("buzz".as_bytes().into())])
    );
    assert_eq!(foo_values.values(b"foobar"), Some(vec![Some("qux".as_bytes().into())]))
}
