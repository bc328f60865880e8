use structuredqs::{integer_text, Deserializer, Encoder};

fn ints(v: &[i128]) -> Vec<String> {
    v.iter().map(|n| integer_text(*n)).collect()
}

fn strings(v: &[&str]) -> Vec<String> {
    v.iter().map(|s| String::from(*s)).collect()
}

#[test]
fn flat_struct() {
    let mut e = Encoder::new();
    e.write_integer("a", 100).unwrap();
    let b: f64 = 3.14;
    e.write_scalar("b", ryu::Buffer::new().format(b)).unwrap();
    e.write_scalar("c", "foo").unwrap();
    assert_eq!(e.finish(), String::from("a=100&b=3.14&c=foo"));
}

#[test]
fn serialize_nested_struct() {
    let mut e = Encoder::new();
    e.write_integer("a", 1).unwrap();
    e.write_integer("b", 100).unwrap();
    let c = Encoder::field_key("", "c");
    e.write_integer(&Encoder::field_key(&c, "d"), 2).unwrap();
    e.write_integer(&Encoder::field_key(&c, "e"), 3).unwrap();
    assert_eq!(e.finish(), String::from("a=1&b=100&c.d=2&c.e=3"));
}

#[test]
fn serialize_search_params() {
    let keyword: Option<&str> = Some("foo,bar");
    let page: Option<i128> = None;
    let limit: Option<i128> = Some(20);
    let category: Option<&str> = Some("ABC");
    let from: Option<i128> = Some(800);
    let to: Option<i128> = None;
    let sort: Option<&str> = None;

    let mut e = Encoder::new();
    if let Some(k) = keyword {
        e.write_scalar("keyword", k).unwrap();
    }
    if let Some(p) = page {
        e.write_integer("page", p).unwrap();
    }
    if let Some(l) = limit {
        e.write_integer("limit", l).unwrap();
    }
    let filter = Encoder::field_key("", "filter");
    if let Some(c) = category {
        e.write_scalar(&Encoder::field_key(&filter, "category"), c).unwrap();
    }
    let difficulty = Encoder::field_key(&filter, "difficulty");
    if let Some(f) = from {
        e.write_integer(&Encoder::field_key(&difficulty, "from"), f).unwrap();
    }
    if let Some(t) = to {
        e.write_integer(&Encoder::field_key(&difficulty, "to"), t).unwrap();
    }
    if let Some(s) = sort {
        e.write_scalar("sort", s).unwrap();
    }
    assert_eq!(
        e.finish(),
        String::from("keyword=foo%2Cbar&limit=20&filter.category=ABC&filter.difficulty.from=800")
    )
}

#[test]
fn serialize_vec() {
    let mut e = Encoder::new();
    e.write_sequence("a", &strings(&["foo", "bar"])).unwrap();
    e.write_sequence("b", &strings(&["baz"])).unwrap();
    e.write_sequence("c", &ints(&[100, 200])).unwrap();
    e.write_sequence("d", &ints(&[300, 400])).unwrap();
    assert_eq!(
        e.finish(),
        String::from("a=foo%2Cbar&b=baz&c=100%2C200&d=300%2C400")
    )
}

#[test]
fn serialize_vec_of_multi_byte_string() {
    let mut e = Encoder::new();
    e.write_sequence("a", &strings(&["ほげ", "もげ"])).unwrap();
    assert_eq!(
        e.finish(),
        String::from("a=%E3%81%BB%E3%81%92%2C%E3%82%82%E3%81%92")
    )
}

#[test]
fn serialize_empty_vec() {
    let mut e = Encoder::new();
    e.write_sequence("a", &Vec::new()).unwrap();
    e.write_sequence("b", &Vec::new()).unwrap();
    assert_eq!(e.finish(), String::from("a=&b="))
}

#[test]
fn spaces_become_plus_and_bytes_are_escaped() {
    let mut e = Encoder::new();
    e.write_scalar("k k", "a b&c=d*-._~").unwrap();
    assert_eq!(e.finish(), "k+k=a+b%26c%3Dd*-._%7E");
}

#[test]
fn top_level_scalar_is_unsupported() {
    let mut e = Encoder::new();
    assert!(matches!(e.write_scalar("", "x"), Err(structuredqs::Error::Unsupported)));
    assert_eq!(e.finish(), "");
}

#[test]
fn integers_and_booleans_are_written_in_decimal() {
    let mut e = Encoder::new();
    e.write_integer("n", -42).unwrap();
    e.write_integer("m", i64::MIN as i128).unwrap();
    e.write_bool("t", true).unwrap();
    e.write_bool("f", false).unwrap();
    assert_eq!(e.finish(), "n=-42&m=-9223372036854775808&t=true&f=false");
}

#[test]
fn error_constructors() {
    match structuredqs::Error::top_level("sequence") {
        structuredqs::Error::Custom(m) => {
            assert_eq!(m, "cannot deserialize sequence at the top level")
        }
        other => panic!("unexpected {:?}", other),
    }
    assert!(matches!(
        structuredqs::Error::parse_error("bad", 4),
        structuredqs::Error::Parse(m, 4) if m == "bad"
    ));
}

#[test]
fn nested_record_survives_a_round_trip() {
    let mut e = Encoder::new();
    e.write_scalar("keyword", "foo bar").unwrap();
    e.write_integer("limit", 20).unwrap();
    let filter = Encoder::field_key("", "filter");
    e.write_scalar(&Encoder::field_key(&filter, "category"), "A&B=C").unwrap();
    e.write_sequence(&Encoder::field_key(&filter, "tags"), &strings(&["x", "ほげ"]))
        .unwrap();
    let wire = e.finish();
    assert_eq!(
        wire,
        "keyword=foo+bar&limit=20&filter.category=A%26B%3DC&filter.tags=x%2C%E3%81%BB%E3%81%92"
    );

    let mut d = Deserializer::with_bytes(wire.as_bytes()).unwrap();
    assert_eq!(d.required("keyword").unwrap().as_scalar().unwrap(), "foo bar");
    assert_eq!(d.required("limit").unwrap().as_u64().unwrap(), 20);
    let mut f = d.required("filter").unwrap().as_record().unwrap();
    assert_eq!(f.required("category").unwrap().as_scalar().unwrap(), "A&B=C");
    let tags: Vec<String> = f
        .required("tags")
        .unwrap()
        .as_sequence()
        .unwrap()
        .into_iter()
        .map(|n| n.as_scalar().unwrap())
        .collect();
    assert_eq!(tags, strings(&["x", "ほげ"]));
    assert!(d.field("page").unwrap().is_none());
}

#[test]
fn text_survives_percent_encoding() {
    let text = "ほげ a+b%25&=.~\u{7f}\t";
    let mut e = Encoder::new();
    e.write_scalar("k", text).unwrap();
    let wire = e.finish();
    let mut d = Deserializer::with_bytes(wire.as_bytes()).unwrap();
    assert_eq!(d.required("k").unwrap().as_scalar().unwrap(), text);
}
