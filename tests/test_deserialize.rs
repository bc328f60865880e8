use structuredqs::{Deserializer, Error, Level, LevelDeserializer};

fn root(input: &str) -> Deserializer {
    Deserializer::with_bytes(input.as_bytes()).unwrap()
}

fn present(d: &mut Deserializer, name: &str) -> Option<LevelDeserializer> {
    d.field(name).unwrap().and_then(|n| n.as_option())
}

fn text(n: LevelDeserializer) -> String {
    n.as_scalar().unwrap()
}

fn texts(n: LevelDeserializer) -> Vec<String> {
    n.as_sequence().unwrap().into_iter().map(text).collect()
}

#[derive(Debug, PartialEq, Eq)]
struct SearchParams {
    keyword: Option<String>,
    limit: Option<u32>,
}

#[test]
fn test_deserialize_flat() {
    let expected = SearchParams {
        keyword: Some(String::from("foo")),
        limit: Some(20),
    };
    let mut d = root("keyword=foo&limit=20");
    let actual = SearchParams {
        keyword: present(&mut d, "keyword").map(text),
        limit: present(&mut d, "limit").map(|n| u32::try_from(n.as_u64().unwrap()).unwrap()),
    };
    assert_eq!(actual, expected)
}

#[derive(Debug, PartialEq, Eq)]
struct StructuredParams {
    keyword: Option<String>,
    limit: Option<u32>,
    filter: Option<FilteringParameter>,
}

#[derive(Debug, PartialEq, Eq)]
struct FilteringParameter {
    category: Option<String>,
    difficulty: Option<RangeFilteringParameter>,
}

#[derive(Debug, PartialEq, Eq)]
struct RangeFilteringParameter {
    from: Option<i32>,
    to: Option<i32>,
}

fn int32(n: LevelDeserializer) -> i32 {
    i32::try_from(n.as_i64().unwrap()).unwrap()
}

fn range(n: LevelDeserializer) -> RangeFilteringParameter {
    let mut r = n.as_record().unwrap();
    RangeFilteringParameter {
        from: present(&mut r, "from").map(int32),
        to: present(&mut r, "to").map(int32),
    }
}

fn filtering(n: LevelDeserializer) -> FilteringParameter {
    let mut r = n.as_record().unwrap();
    FilteringParameter {
        category: present(&mut r, "category").map(text),
        difficulty: present(&mut r, "difficulty").map(range),
    }
}

#[test]
fn test_deserialize_structured() {
    let expected = StructuredParams {
        keyword: Some(String::from("foo")),
        limit: Some(20),
        filter: Some(FilteringParameter {
            category: Some(String::from("A")),
            difficulty: Some(RangeFilteringParameter {
                from: None,
                to: Some(800),
            }),
        }),
    };
    let mut d = root("keyword=foo&limit=20&filter.category=A&filter.difficulty.to=800");
    let actual = StructuredParams {
        keyword: present(&mut d, "keyword").map(text),
        limit: present(&mut d, "limit").map(|n| u32::try_from(n.as_u64().unwrap()).unwrap()),
        filter: present(&mut d, "filter").map(filtering),
    };
    assert_eq!(actual, expected)
}

#[derive(Debug, PartialEq, Eq)]
struct VecStruct {
    a: Vec<String>,
    b: Option<Vec<String>>,
    c: Vec<i32>,
}

#[test]
fn deserialize_vec() {
    let expected = VecStruct {
        a: vec![
            String::from("foo"),
            String::from("bar"),
            String::from("baz"),
        ],
        b: Some(vec![String::from("foo")]),
        c: vec![100, 200],
    };
    let mut d = root("a=foo,bar,baz&b=foo&c=100,200");
    let actual = VecStruct {
        a: texts(d.required("a").unwrap()),
        b: present(&mut d, "b").map(texts),
        c: d
            .required("c")
            .unwrap()
            .as_sequence()
            .unwrap()
            .into_iter()
            .map(int32)
            .collect(),
    };
    assert_eq!(actual, expected)
}

#[test]
fn deserialize_vec_with_unwise_comma_separated() {
    let expected = vec![
        String::from("foo"),
        String::from("bar"),
        String::from("baz"),
    ];
    let mut d = root("a=,,,,foo,,,,,,bar,baz,,,,");
    let actual = texts(d.required("a").unwrap());
    assert_eq!(actual, expected)
}

#[derive(Debug, PartialEq, Eq)]
struct TwoVecs {
    a: Vec<String>,
    b: Option<Vec<String>>,
}

fn two_vecs(input: &str) -> TwoVecs {
    let mut d = root(input);
    TwoVecs {
        a: texts(d.required("a").unwrap()),
        b: present(&mut d, "b").map(texts),
    }
}

#[test]
fn deserialize_hollow_vec() {
    let expected = TwoVecs {
        a: vec![],
        b: Some(vec![]),
    };
    assert_eq!(two_vecs("a=,,,,,&b=,,,,"), expected)
}

#[test]
fn deserialize_empty_vec() {
    let expected = TwoVecs { a: vec![], b: None };
    assert_eq!(two_vecs("a=&b="), expected)
}

#[test]
fn duplicate_key_poisons_only_that_field() {
    let mut d = root("a=1&a=2&b=3");
    assert_eq!(text(d.required("b").unwrap()), "3");
    match d.required("a").unwrap().as_scalar() {
        Err(Error::Ambiguous(path, _)) => assert_eq!(path, "a"),
        other => panic!("expected an ambiguity, got {:?}", other),
    }
}

#[test]
fn nested_key_below_scalar_poisons_the_scalar() {
    let mut d = root("a=1&a.b=2&c=x");
    assert!(matches!(
        d.required("a").unwrap().as_record(),
        Err(Error::Ambiguous(_, _))
    ));
    assert_eq!(text(d.required("c").unwrap()), "x");
}

#[test]
fn decoding_twice_gives_the_same_tree() {
    let input = "a=1&b.c=x%20y&b.d=&e";
    let mut first = root(input);
    let mut second = root(input);
    for name in ["a", "e"] {
        assert_eq!(
            text(first.required(name).unwrap()),
            text(second.required(name).unwrap())
        );
    }
    let mut b1 = first.required("b").unwrap().as_record().unwrap();
    let mut b2 = second.required("b").unwrap().as_record().unwrap();
    assert_eq!(text(b1.required("c").unwrap()), "x y");
    assert_eq!(text(b2.required("c").unwrap()), "x y");
    assert_eq!(text(b1.required("d").unwrap()), text(b2.required("d").unwrap()));
}

#[test]
fn key_without_value_is_empty_scalar() {
    let mut d = root("a&b=1");
    assert_eq!(text(d.required("a").unwrap()), "");
    assert!(d.field("z").unwrap().is_none());
}

#[test]
fn empty_key_segment_is_a_parse_error() {
    match Deserializer::with_bytes(b"a..b=1") {
        Err(Error::Parse(_, offset)) => assert_eq!(offset, 2),
        other => panic!("expected a parse error, got {:?}", other.err()),
    }
    assert!(matches!(Deserializer::with_bytes(b"a.=1"), Err(Error::Parse(_, 2))));
    assert!(matches!(Deserializer::with_bytes(b"=1"), Err(Error::Parse(_, 0))));
    assert!(matches!(Deserializer::with_bytes(b".a=1"), Err(Error::Parse(_, 0))));
}

#[test]
fn malformed_escape_is_a_decode_error() {
    match Deserializer::with_bytes(b"a=1&b=%4") {
        Err(Error::Decode(offset, cause)) => {
            assert_eq!(offset, 6);
            assert_eq!(cause, structuredqs::DecodeCause::MalformedEscape);
        }
        other => panic!("expected a decode error, got {:?}", other.err()),
    }
}

#[test]
fn invalid_utf8_is_a_decode_error() {
    match Deserializer::with_bytes(b"a=%FF") {
        Err(Error::Decode(offset, cause)) => {
            assert_eq!(offset, 2);
            assert_eq!(cause, structuredqs::DecodeCause::InvalidUtf8);
        }
        other => panic!("expected a decode error, got {:?}", other.err()),
    }
}

#[test]
fn escapes_and_plus_are_decoded() {
    let mut d = root("key1=foo&key2=%E3%81%BB%E3%81%92&child.key3=100&s=a+b%2Bc");
    assert_eq!(text(d.required("key2").unwrap()), "ほげ");
    assert_eq!(text(d.required("s").unwrap()), "a b+c");
    let mut child = d.required("child").unwrap().as_record().unwrap();
    assert_eq!(child.required("key3").unwrap().as_i64().unwrap(), 100);
}

#[test]
fn field_taken_twice_is_already_consumed() {
    let mut d = root("a=1");
    assert!(d.field("a").unwrap().is_some());
    match d.field("a") {
        Err(Error::AlreadyConsumed(path)) => assert_eq!(path, "a"),
        other => panic!("expected already consumed, got {:?}", other.err()),
    }
}

#[test]
fn missing_required_field_names_its_path() {
    let mut d = root("p.x=1");
    let mut p = d.required("p").unwrap().as_record().unwrap();
    match p.required("y") {
        Err(Error::MissingField(path)) => assert_eq!(path, "p.y"),
        other => panic!("expected a missing field, got {:?}", other.err()),
    }
}

#[test]
fn shape_mismatch_names_expected_and_actual() {
    let mut d = root("a.b=1&c=2");
    match d.required("a").unwrap().as_scalar() {
        Err(Error::ShapeMismatch(path, expected, actual)) => {
            assert_eq!(path, "a");
            assert_eq!(expected, structuredqs::Shape::Scalar);
            assert_eq!(actual, structuredqs::Shape::Record);
        }
        other => panic!("expected a shape mismatch, got {:?}", other),
    }
    assert!(matches!(
        d.required("c").unwrap().as_record(),
        Err(Error::ShapeMismatch(_, structuredqs::Shape::Record, structuredqs::Shape::Scalar))
    ));
}

#[test]
fn enum_variants_from_scalar_and_record() {
    let mut d = root("unit=Red&newtype.Size=3&bad.x=1&bad.y=2");
    let (name, payload) = d.required("unit").unwrap().as_enum().unwrap();
    assert_eq!(name, "Red");
    assert!(payload.as_option().is_none());
    let (name, payload) = d.required("newtype").unwrap().as_enum().unwrap();
    assert_eq!(name, "Size");
    assert_eq!(payload.path, "newtype.Size");
    assert_eq!(payload.as_u64().unwrap(), 3);
    assert!(matches!(
        d.required("bad").unwrap().as_enum(),
        Err(Error::ShapeMismatch(_, structuredqs::Shape::Variant, structuredqs::Shape::Record))
    ));
}

#[test]
fn integers_and_booleans() {
    let mut d = root("a=%2B7&b=-9223372036854775808&c=18446744073709551616&d=true&e=no&f=-1");
    assert_eq!(d.required("a").unwrap().as_u64().unwrap(), 7);
    assert_eq!(d.required("b").unwrap().as_i64().unwrap(), i64::MIN);
    assert!(matches!(
        d.required("c").unwrap().as_u64(),
        Err(Error::InvalidValue(_, structuredqs::Shape::Integer))
    ));
    assert!(d.required("d").unwrap().as_bool().unwrap());
    assert!(matches!(
        d.required("e").unwrap().as_bool(),
        Err(Error::InvalidValue(_, structuredqs::Shape::Boolean))
    ));
    assert!(d.required("f").unwrap().as_u64().is_err());
}

#[test]
fn entries_come_out_in_first_written_order() {
    let mut d = root("z=1&a=2&z.q=3");
    let (k1, _) = d.next_entry().unwrap();
    let (k2, _) = d.next_entry().unwrap();
    assert_eq!((k1.as_str(), k2.as_str()), ("z", "a"));
    assert!(d.next_entry().is_none());
}

#[test]
fn plus_is_replaced_with_space() {
    assert_eq!(structuredqs::replace_plus(b"a+b++"), b"a b  ".to_vec());
}

#[test]
fn scanner_reads_and_decodes_segments() {
    let input = b"a%20b+c=x";
    let mut p = structuredqs::Parser::new(input);
    assert_eq!(p.peek(), Some(b'a'));
    for _ in 0..7 {
        p.advance();
    }
    assert_eq!(p.peek(), Some(b'='));
    assert_eq!(p.collect_str().unwrap(), "a b c");
    p.advance();
    p.shrink();
    assert_eq!(p.advance(), Some(b'x'));
    assert_eq!(p.advance(), None);
    assert_eq!(p.collect_str().unwrap(), "x");
}

#[test]
fn whole_input_parses_into_nested_levels() {
    let mut p = structuredqs::Parser::new(b"&&x.y=1&x.z=2&");
    match p.as_deserializer().unwrap() {
        Level::Nested(entries) => {
            assert_eq!(entries.len(), 1);
            assert_eq!(entries[0].0, "x");
            match &entries[0].1 {
                Level::Nested(inner) => assert_eq!(inner.len(), 2),
                other => panic!("expected a record, got {:?}", other),
            }
        }
        other => panic!("expected a record, got {:?}", other),
    }
}
