use crate::error::{Error, Shape};
use crate::level::{entries_view, record_entries, Level, Node};
use crate::parser::{parsed, reports, Parser};
use vstd::prelude::*;
use vstd::std_specs::iter::IteratorSpec;
use vstd::string::*;

verus! {

broadcast use vstd::string::group_string_axioms;

/// The key path of the field `name` of the record at `p`.
pub open spec fn child_path(p: Seq<char>, name: Seq<char>) -> Seq<char> {
    if p.len() == 0 {
        name
    } else {
        p.push('.') + name
    }
}

/// The shape of a node that is not poisoned.
pub open spec fn shape_of(n: Node) -> Shape {
    match n {
        Node::Record(_) => Shape::Record,
        Node::Scalar(_) => Shape::Scalar,
        _ => Shape::Unset,
    }
}

/// Whether `e` is the error for reading the node `n` at `path` as `wanted`:
/// the poison of an ambiguous node, or else a shape mismatch.
pub open spec fn refused(e: Error, path: Seq<char>, n: Node, wanted: Shape) -> bool {
    match n {
        Node::Ambiguous(c) => e matches Error::Ambiguous(p, c2) && p@ == path && c2 == c,
        _ => e matches Error::ShapeMismatch(p, w, a) && p@ == path && w == wanted && a
            == shape_of(n),
    }
}

/// The first index at or after `a` that holds a `,`, or the length.
pub open spec fn find_comma(t: Seq<char>, a: int) -> int
    decreases t.len() - a,
{
    if a >= t.len() {
        t.len() as int
    } else if t[a] == ',' {
        a
    } else {
        find_comma(t, a + 1)
    }
}

pub proof fn lemma_find_comma(t: Seq<char>, a: int)
    requires
        0 <= a <= t.len(),
    ensures
        a <= find_comma(t, a) <= t.len(),
        find_comma(t, a) < t.len() ==> t[find_comma(t, a)] == ',',
    decreases t.len() - a,
{
    if a < t.len() && t[a] != ',' {
        lemma_find_comma(t, a + 1);
    }
}

/// The non-empty pieces between the commas of `t`, from offset `a` on.
pub open spec fn items_from(t: Seq<char>, a: int) -> Seq<Seq<char>>
    decreases t.len() + 1 - a,
{
    if a < 0 || a >= t.len() {
        Seq::empty()
    } else {
        let c = find_comma(t, a);
        proof {
            lemma_find_comma(t, a);
        }
        let rest = items_from(t, c + 1);
        if c == a {
            rest
        } else {
            seq![t.subrange(a, c)] + rest
        }
    }
}

/// The elements of a sequence written as the text `t`: the pieces between
/// its commas, with the empty ones left out.
pub open spec fn comma_items(t: Seq<char>) -> Seq<Seq<char>> {
    items_from(t, 0)
}

/// Splits `t` at its commas and leaves out the empty pieces.
fn split_items(t: &str) -> (r: Vec<String>)
    ensures
        r.deep_view() == comma_items(t@),
{
    let ghost s = t@;
    let n = t.unicode_len();
    let mut out: Vec<String> = Vec::new();
    let mut it = t.chars();
    let mut start: usize = 0;
    let mut i: usize = 0;
    loop
        invariant
            n == s.len(),
            s == t@,
            it.remaining() == s.subrange(i as int, s.len() as int),
            start <= i <= s.len(),
            find_comma(s, start as int) == find_comma(s, i as int),
            comma_items(s) == out.deep_view() + items_from(s, start as int),
        decreases s.len() - i,
    {
        let ghost it_before = it;
        match it.next() {
            Some(c) => {
                assert(s[i as int] == c);
                if c == ',' {
                    proof {
                        lemma_find_comma(s, start as int);
                    }
                    if start < i {
                        let ghost before = out.deep_view();
                        out.push(t.substring_char(start, i).to_owned());
                        proof {
                            assert(out.deep_view() =~= before + seq![
                                s.subrange(start as int, i as int),
                            ]);
                            assert(items_from(s, start as int) == seq![
                                s.subrange(start as int, i as int),
                            ] + items_from(s, i + 1));
                            assert(before + (seq![s.subrange(start as int, i as int)]
                                + items_from(s, i + 1)) =~= out.deep_view() + items_from(
                                s,
                                i + 1,
                            ));
                        }
                    } else {
                        assert(items_from(s, start as int) == items_from(s, i + 1));
                    }
                    start = i + 1;
                }
                i = i + 1;
                assert(it.remaining() =~= s.subrange(i as int, s.len() as int));
            },
            None => {
                proof {
                    lemma_find_comma(s, start as int);
                }
                if start < i {
                    let ghost before = out.deep_view();
                    out.push(t.substring_char(start, i).to_owned());
                    proof {
                        assert(items_from(s, start as int) == seq![
                            s.subrange(start as int, i as int),
                        ] + items_from(s, i + 1));
                        assert(out.deep_view() =~= before + seq![
                            s.subrange(start as int, i as int),
                        ]);
                        assert(before + (seq![s.subrange(start as int, i as int)] + items_from(
                            s,
                            i + 1,
                        )) =~= out.deep_view());
                    }
                } else {
                    assert(out.deep_view() + items_from(s, start as int) =~= out.deep_view());
                }
                return out;
            },
        }
    }
}


pub open spec fn is_digit(c: char) -> bool {
    '0' <= c <= '9'
}

pub open spec fn all_digits(t: Seq<char>) -> bool {
    t.len() > 0 && forall|i: int| 0 <= i < t.len() ==> is_digit(#[trigger] t[i])
}

/// The value of a string of decimal digits.
pub open spec fn digits_value(t: Seq<char>) -> int
    decreases t.len(),
{
    if t.len() == 0 {
        0
    } else {
        digits_value(t.drop_last()) * 10 + (t.last() as int - 48)
    }
}

/// The integer that `t` spells: decimal digits after an optional `+`, or
/// after a `-` where `signed` allows one.
pub open spec fn integer_value(t: Seq<char>, signed: bool) -> Option<int> {
    if t.len() > 0 && t[0] == '-' && signed && all_digits(t.drop_first()) {
        Some(-digits_value(t.drop_first()))
    } else if t.len() > 0 && t[0] == '+' && all_digits(t.drop_first()) {
        Some(digits_value(t.drop_first()))
    } else if all_digits(t) {
        Some(digits_value(t))
    } else {
        None
    }
}

proof fn lemma_digits_value_grows(t: Seq<char>, n: int)
    requires
        0 <= n <= t.len(),
        forall|i: int| 0 <= i < t.len() ==> is_digit(#[trigger] t[i]),
    ensures
        digits_value(t) >= digits_value(t.subrange(0, n)) >= 0,
    decreases t.len(),
{
    if t.len() > 0 {
        if n == t.len() {
            assert(t.subrange(0, n) == t);
            lemma_digits_value_grows(t.drop_last(), n - 1);
            assert(t.drop_last().subrange(0, n - 1) == t.drop_last());
        } else {
            lemma_digits_value_grows(t.drop_last(), n);
            assert(t.drop_last().subrange(0, n) == t.subrange(0, n));
            lemma_digits_value_grows(t.drop_last(), t.len() - 1);
            assert(t.drop_last().subrange(0, t.len() - 1) == t.drop_last());
        }
    }
}

/// The magnitude spelled by the digits of `t` from offset `from` on, if
/// they are one or more digits and it is at most `max`.
fn read_digits(t: &str, from: usize, max: u128) -> (r: Option<u128>)
    requires
        from <= t@.len(),
    ensures
        ({
            let d = t@.subrange(from as int, t@.len() as int);
            match r {
                Some(v) => all_digits(d) && v == digits_value(d) && v <= max,
                None => !all_digits(d) || digits_value(d) > max,
            }
        }),
{
    let ghost s = t@;
    let ghost d = s.subrange(from as int, s.len() as int);
    let n = t.unicode_len();
    if from >= n {
        return None;
    }
    let mut acc: u128 = 0;
    let mut i: usize = from;
    while i < n
        invariant
            n == s.len(),
            s == t@,
            d == s.subrange(from as int, s.len() as int),
            from <= i <= n,
            from < n,
            forall|j: int| from <= j < i ==> is_digit(#[trigger] s[j]),
            acc == digits_value(s.subrange(from as int, i as int)),
            acc <= max,
        decreases n - i,
    {
        let c = t.get_char(i);
        if !('0' <= c && c <= '9') {
            assert(!is_digit(d[i - from]));
            return None;
        }
        let digit = (c as u32 - 48) as u128;
        let ghost prefix = s.subrange(from as int, i + 1);
        assert(prefix.drop_last() == s.subrange(from as int, i as int));
        if digit > max || acc > (max - digit) / 10 {
            proof {
                if digit <= max {
                    assert(acc * 10 + digit > max) by (nonlinear_arith)
                        requires
                            acc > (max - digit) / 10,
                            max >= digit,
                    ;
                }
                assert(digits_value(prefix) == acc * 10 + digit);
                if all_digits(d) {
                    lemma_digits_value_grows(d, i + 1 - from);
                    assert(d.subrange(0, i + 1 - from) == prefix);
                }
            }
            return None;
        }
        proof {
            assert(acc * 10 + digit <= max) by (nonlinear_arith)
                requires
                    acc <= (max - digit) / 10,
                    max >= digit,
            ;
        }
        acc = acc * 10 + digit;
        i = i + 1;
    }
    assert(s.subrange(from as int, i as int) == d);
    Some(acc)
}

/// One node of the value tree, with its key path, that a reader takes in the
/// shape it asks for. Each accessor consumes the node.
pub struct LevelDeserializer {
    pub node: Level,
    pub path: String,
}

impl LevelDeserializer {
    /// The node as a scalar text.
    pub fn as_scalar(self) -> (r: Result<String, Error>)
        ensures
            match self.node@ {
                Node::Scalar(t) => r matches Ok(x) && x@ == t,
                n => r matches Err(e) && refused(e, self.path@, n, Shape::Scalar),
            },
    {
        match self.node {
            Level::Flat(t) => Ok(t),
            Level::Invalid(c) => Err(Error::Ambiguous(self.path, c)),
            Level::Nested(_) => Err(Error::ShapeMismatch(self.path, Shape::Scalar, Shape::Record)),
            Level::Uninitialized => Err(
                Error::ShapeMismatch(self.path, Shape::Scalar, Shape::Unset),
            ),
        }
    }

    /// The node as an unsigned integer: decimal digits after an optional `+`.
    pub fn as_u64(self) -> (r: Result<u64, Error>)
        ensures
            match self.node@ {
                Node::Scalar(t) => match integer_value(t, false) {
                    Some(v) => if v <= u64::MAX {
                        r matches Ok(x) && x == v
                    } else {
                        r matches Err(Error::InvalidValue(p, s)) && p@ == self.path@ && s
                            == Shape::Integer
                    },
                    None => r matches Err(Error::InvalidValue(p, s)) && p@ == self.path@ && s
                        == Shape::Integer,
                },
                n => r matches Err(e) && refused(e, self.path@, n, Shape::Integer),
            },
    {
        let path = self.path;
        match self.node {
            Level::Flat(t) => {
                let plus = t.as_str().unicode_len() > 0 && t.as_str().get_char(0) == '+';
                let from: usize = if plus { 1 } else { 0 };
                proof {
                    if !plus {
                        assert(t@.subrange(0, t@.len() as int) == t@);
                    }
                }
                match read_digits(t.as_str(), from, u64::MAX as u128) {
                    Some(v) => Ok(v as u64),
                    None => Err(Error::InvalidValue(path, Shape::Integer)),
                }
            },
            Level::Invalid(c) => Err(Error::Ambiguous(path, c)),
            Level::Nested(_) => Err(Error::ShapeMismatch(path, Shape::Integer, Shape::Record)),
            Level::Uninitialized => Err(Error::ShapeMismatch(path, Shape::Integer, Shape::Unset)),
        }
    }

    /// The node as a signed integer: decimal digits after an optional `+`
    /// or `-`.
    pub fn as_i64(self) -> (r: Result<i64, Error>)
        ensures
            match self.node@ {
                Node::Scalar(t) => match integer_value(t, true) {
                    Some(v) => if i64::MIN <= v <= i64::MAX {
                        r matches Ok(x) && x == v
                    } else {
                        r matches Err(Error::InvalidValue(p, s)) && p@ == self.path@ && s
                            == Shape::Integer
                    },
                    None => r matches Err(Error::InvalidValue(p, s)) && p@ == self.path@ && s
                        == Shape::Integer,
                },
                n => r matches Err(e) && refused(e, self.path@, n, Shape::Integer),
            },
    {
        let path = self.path;
        match self.node {
            Level::Flat(t) => {
                let len = t.as_str().unicode_len();
                let first = if len > 0 {
                    t.as_str().get_char(0)
                } else {
                    ' '
                };
                if first == '-' {
                    match read_digits(t.as_str(), 1, 0x8000_0000_0000_0000u128) {
                        Some(v) => {
                            let r = if v == 0x8000_0000_0000_0000u128 {
                                i64::MIN
                            } else {
                                -(v as i64)
                            };
                            Ok(r)
                        },
                        None => Err(Error::InvalidValue(path, Shape::Integer)),
                    }
                } else {
                    let from: usize = if first == '+' { 1 } else { 0 };
                    proof {
                        if from == 0 {
                            assert(t@.subrange(0, t@.len() as int) == t@);
                        }
                    }
                    match read_digits(t.as_str(), from, i64::MAX as u128) {
                        Some(v) => Ok(v as i64),
                        None => Err(Error::InvalidValue(path, Shape::Integer)),
                    }
                }
            },
            Level::Invalid(c) => Err(Error::Ambiguous(path, c)),
            Level::Nested(_) => Err(Error::ShapeMismatch(path, Shape::Integer, Shape::Record)),
            Level::Uninitialized => Err(Error::ShapeMismatch(path, Shape::Integer, Shape::Unset)),
        }
    }

    /// The node as a boolean: the text `true` or `false`.
    pub fn as_bool(self) -> (r: Result<bool, Error>)
        ensures
            match self.node@ {
                Node::Scalar(t) => if t == "true"@ {
                    r matches Ok(true)
                } else if t == "false"@ {
                    r matches Ok(false)
                } else {
                    r matches Err(Error::InvalidValue(p, s)) && p@ == self.path@ && s
                        == Shape::Boolean
                },
                n => r matches Err(e) && refused(e, self.path@, n, Shape::Boolean),
            },
    {
        let path = self.path;
        match self.node {
            Level::Flat(t) => {
                let yes = String::from_str("true");
                let no = String::from_str("false");
                if t == yes {
                    Ok(true)
                } else if t == no {
                    Ok(false)
                } else {
                    Err(Error::InvalidValue(path, Shape::Boolean))
                }
            },
            Level::Invalid(c) => Err(Error::Ambiguous(path, c)),
            Level::Nested(_) => Err(Error::ShapeMismatch(path, Shape::Boolean, Shape::Record)),
            Level::Uninitialized => Err(Error::ShapeMismatch(path, Shape::Boolean, Shape::Unset)),
        }
    }

    /// Whether the node holds a value: a node never written and an empty
    /// scalar do not. A node that does is handed back for its inner shape.
    pub fn as_option(self) -> (r: Option<LevelDeserializer>)
        ensures
            r is None <==> (self.node@ is Unset || self.node@ == Node::Scalar(Seq::empty())),
            r matches Some(d) ==> d == self,
    {
        let absent = match &self.node {
            Level::Uninitialized => true,
            Level::Flat(t) => {
                let e = t.as_str().is_empty();
                proof {
                    if e {
                        assert(t@ =~= Seq::<char>::empty());
                    }
                }
                e
            },
            _ => false,
        };
        if absent {
            None
        } else {
            Some(self)
        }
    }

    /// The node as a sequence: one scalar element for each non-empty piece
    /// between the commas of its text, each at the node's key path.
    pub fn as_sequence(self) -> (r: Result<Vec<LevelDeserializer>, Error>)
        ensures
            match self.node@ {
                Node::Scalar(t) => r matches Ok(v) && v.len() == comma_items(t).len() && forall|
                    i: int,
                | 0 <= i < v.len() ==> {
                    &&& #[trigger] v[i].node@ == Node::Scalar(comma_items(t)[i])
                    &&& v[i].path@ == self.path@
                },
                n => r matches Err(e) && refused(e, self.path@, n, Shape::Sequence),
            },
    {
        match self.node {
            Level::Flat(t) => {
                let items = split_items(t.as_str());
                let mut out: Vec<LevelDeserializer> = Vec::new();
                let mut i: usize = 0;
                while i < items.len()
                    invariant
                        items.deep_view() == comma_items(t@),
                        i <= items.len(),
                        out.len() == i,
                        forall|j: int|
                            0 <= j < i ==> {
                                &&& #[trigger] out[j].node@ == Node::Scalar(comma_items(t@)[j])
                                &&& out[j].path@ == self.path@
                            },
                    decreases items.len() - i,
                {
                    assert(items.deep_view()[i as int] == items[i as int]@);
                    out.push(
                        LevelDeserializer {
                            node: Level::Flat(items[i].clone()),
                            path: self.path.clone(),
                        },
                    );
                    i = i + 1;
                }
                Ok(out)
            },
            Level::Invalid(c) => Err(Error::Ambiguous(self.path, c)),
            Level::Nested(_) => Err(
                Error::ShapeMismatch(self.path, Shape::Sequence, Shape::Record),
            ),
            Level::Uninitialized => Err(
                Error::ShapeMismatch(self.path, Shape::Sequence, Shape::Unset),
            ),
        }
    }

    /// The node as a record, whose fields are then looked up by name.
    pub fn as_record(self) -> (r: Result<Deserializer, Error>)
        ensures
            match self.node@ {
                Node::Record(es) => r matches Ok(d) && d.fields() == all_present(es)
                    && d.key_path() == self.path@,
                n => r matches Err(e) && refused(e, self.path@, n, Shape::Record),
            },
    {
        match self.node {
            Level::Nested(es) => Ok(Deserializer::within(self.path, es)),
            Level::Invalid(c) => Err(Error::Ambiguous(self.path, c)),
            Level::Flat(_) => Err(Error::ShapeMismatch(self.path, Shape::Record, Shape::Scalar)),
            Level::Uninitialized => Err(
                Error::ShapeMismatch(self.path, Shape::Record, Shape::Unset),
            ),
        }
    }

    /// The node as an enum value: a scalar names a unit variant, which has
    /// no payload; a record with exactly one field names the variant by that
    /// field and holds its payload there.
    pub fn as_enum(self) -> (r: Result<(String, LevelDeserializer), Error>)
        ensures
            match self.node@ {
                Node::Scalar(t) => r matches Ok((name, payload)) && name@ == t && payload.node@
                    is Unset && payload.path@ == self.path@,
                Node::Record(es) => if es.len() == 1 {
                    r matches Ok((name, payload)) && name@ == es[0].0 && payload.node@
                        == es[0].1 && payload.path@ == child_path(self.path@, es[0].0)
                } else {
                    r matches Err(Error::ShapeMismatch(p, w, a)) && p@ == self.path@ && w
                        == Shape::Variant && a == Shape::Record
                },
                n => r matches Err(e) && refused(e, self.path@, n, Shape::Variant),
            },
    {
        match self.node {
            Level::Flat(t) => Ok(
                (t, LevelDeserializer { node: Level::Uninitialized, path: self.path }),
            ),
            Level::Nested(mut es) => {
                if es.len() == 1 {
                    proof {
                        crate::level::lemma_entries_view(es@);
                    }
                    let (name, payload) = es.remove(0);
                    let path = extend_path(&self.path, &name);
                    Ok((name, LevelDeserializer { node: payload, path }))
                } else {
                    proof {
                        crate::level::lemma_entries_view(es@);
                    }
                    Err(Error::ShapeMismatch(self.path, Shape::Variant, Shape::Record))
                }
            },
            Level::Invalid(c) => Err(Error::Ambiguous(self.path, c)),
            Level::Uninitialized => Err(
                Error::ShapeMismatch(self.path, Shape::Variant, Shape::Unset),
            ),
        }
    }
}

/// The key path of the field `name` below the record at `parent`.
fn extend_path(parent: &String, name: &String) -> (r: String)
    ensures
        r@ == child_path(parent@, name@),
{
    if parent.as_str().is_empty() {
        name.clone()
    } else {
        proof {
            reveal_strlit(".");
        }
        parent.clone().concat(".").concat(name.as_str())
    }
}

/// The fields of a record as handed out so far: `None` marks a field that
/// was already taken.
pub open spec fn all_present(es: Seq<(Seq<char>, Node)>) -> Seq<(Seq<char>, Option<Node>)> {
    Seq::new(es.len(), |i: int| (es[i].0, Some(es[i].1)))
}

pub open spec fn slots_view(es: Seq<(String, Option<Level>)>) -> Seq<(Seq<char>, Option<Node>)> {
    Seq::new(
        es.len(),
        |i: int|
            (
                es[i].0@,
                match es[i].1 {
                    Some(l) => Some(l@),
                    None => None,
                },
            ),
    )
}

/// The index of the first field named `k`, or the number of fields.
pub open spec fn slot_index(es: Seq<(Seq<char>, Option<Node>)>, k: Seq<char>) -> int
    decreases es.len(),
{
    if es.len() == 0 {
        0
    } else if es[0].0 == k {
        0
    } else {
        1 + slot_index(es.drop_first(), k)
    }
}

proof fn lemma_slot_index(es: Seq<(Seq<char>, Option<Node>)>, k: Seq<char>, i: int)
    requires
        0 <= i <= es.len(),
        forall|j: int| 0 <= j < i ==> es[j].0 != k,
        i < es.len() ==> es[i].0 == k,
    ensures
        slot_index(es, k) == i,
    decreases es.len(),
{
    if es.len() > 0 && i > 0 {
        lemma_slot_index(es.drop_first(), k, i - 1);
    }
}

/// A record of the value tree, whose fields a reader takes by name.
pub struct Deserializer {
    entries: Vec<(String, Option<Level>)>,
    path: String,
}

impl Deserializer {
    /// The fields, in the order in which they were first written.
    pub closed spec fn fields(&self) -> Seq<(Seq<char>, Option<Node>)> {
        slots_view(self.entries@)
    }

    /// The key path of the record.
    pub closed spec fn key_path(&self) -> Seq<char> {
        self.path@
    }

    /// The record with the given fields, at the top level.
    pub fn with_map(map: Vec<(String, Level)>) -> (r: Deserializer)
        ensures
            r.fields() == all_present(entries_view(map@)),
            r.key_path() == Seq::<char>::empty(),
    {
        Deserializer::within(String::new(), map)
    }

    fn within(path: String, map: Vec<(String, Level)>) -> (r: Deserializer)
        ensures
            r.fields() == all_present(entries_view(map@)),
            r.key_path() == path@,
    {
        let ghost es = entries_view(map@);
        proof {
            crate::level::lemma_entries_view(map@);
        }
        let mut map = map;
        let mut entries: Vec<(String, Option<Level>)> = Vec::new();
        let ghost n = map.len();
        while map.len() > 0
            invariant
                entries_view(map@) == es.subrange(entries.len() as int, n as int),
                entries.len() + map.len() == n,
                n == es.len(),
                forall|j: int|
                    0 <= j < entries.len() ==> #[trigger] slots_view(entries@)[j] == (
                        es[j].0,
                        Some(es[j].1),
                    ),
            decreases map.len(),
        {
            proof {
                crate::level::lemma_entries_view(map@);
            }
            let ghost before = map@;
            let (k, l) = map.remove(0);
            proof {
                crate::level::lemma_entries_view(map@);
                assert(map@ == before.subrange(1, before.len() as int));
                crate::level::lemma_entries_view(before);
                assert(entries_view(before)[0] == es[entries.len() as int]);
                assert forall|j: int| 0 <= j < map@.len() implies #[trigger] entries_view(map@)[j]
                    == es.subrange(entries.len() + 1, n as int)[j] by {
                    assert(entries_view(before)[j + 1] == es[entries.len() + 1 + j]);
                }
                assert(entries_view(map@) =~= es.subrange(entries.len() + 1, n as int));
            }
            let ghost old_entries = entries@;
            entries.push((k, Some(l)));
            proof {
                assert forall|j: int| 0 <= j < entries.len() implies #[trigger] slots_view(
                    entries@,
                )[j] == (es[j].0, Some(es[j].1)) by {
                    if j < old_entries.len() {
                        assert(slots_view(old_entries)[j] == (es[j].0, Some(es[j].1)));
                    }
                }
            }
        }
        let r = Deserializer { entries, path };
        assert(r.fields() =~= all_present(es));
        r
    }

    /// Parses a query string into its top-level record.
    pub fn with_bytes(input: &[u8]) -> (r: Result<Deserializer, Error>)
        ensures
            decodes(input@, r),
    {
        let mut parser = Parser::new(input);
        match parser.as_deserializer() {
            Ok(Level::Nested(es)) => Ok(Deserializer::with_map(es)),
            // The root starts as a record and stays one; were it not, it
            // would hold no fields.
            Ok(_) => Ok(Deserializer::with_map(Vec::new())),
            Err(e) => Err(e),
        }
    }

    /// Takes the field `name`: `None` if it was never written. A field can
    /// be taken once; asking again is an error.
    pub fn field(&mut self, name: &str) -> (r: Result<Option<LevelDeserializer>, Error>)
        ensures
            final(self).key_path() == old(self).key_path(),
            ({
                let fs = old(self).fields();
                let i = slot_index(fs, name@);
                let p = child_path(old(self).key_path(), name@);
                if i == fs.len() {
                    r matches Ok(None) && final(self).fields() == fs
                } else if fs[i].1 is None {
                    (r matches Err(Error::AlreadyConsumed(q)) && q@ == p) && final(self).fields()
                        == fs
                } else {
                    (r matches Ok(Some(d)) && d.node@ == fs[i].1->Some_0 && d.path@ == p)
                        && final(self).fields() == fs.update(i, (name@, None))
                }
            }),
    {
        let ghost fs = self.fields();
        let key = String::from_str(name);
        let i = find_slot(&self.entries, &key);
        if i == self.entries.len() {
            return Ok(None);
        }
        let path = extend_path(&self.path, &key);
        let ghost before = self.entries@;
        let taken = self.entries[i].1.take();
        proof {
            assert(self.entries@ == before.update(i as int, (before[i as int].0, None)));
            assert(self.fields() =~= fs.update(i as int, (name@, None)));
        }
        match taken {
            Some(node) => Ok(Some(LevelDeserializer { node, path })),
            None => {
                proof {
                    assert(self.entries@ =~= before);
                }
                Err(Error::AlreadyConsumed(path))
            },
        }
    }

    /// Takes the field `name`, which must have been written.
    pub fn required(&mut self, name: &str) -> (r: Result<LevelDeserializer, Error>)
        ensures
            final(self).key_path() == old(self).key_path(),
            ({
                let fs = old(self).fields();
                let i = slot_index(fs, name@);
                let p = child_path(old(self).key_path(), name@);
                if i == fs.len() {
                    r matches Err(Error::MissingField(q)) && q@ == p
                } else if fs[i].1 is None {
                    r matches Err(Error::AlreadyConsumed(q)) && q@ == p
                } else {
                    r matches Ok(d) && d.node@ == fs[i].1->Some_0 && d.path@ == p
                }
            }),
    {
        match self.field(name) {
            Ok(Some(d)) => Ok(d),
            Ok(None) => {
                let path = extend_path(&self.path, &String::from_str(name));
                Err(Error::MissingField(path))
            },
            Err(e) => Err(e),
        }
    }

    /// Takes the first field that was not taken yet, with its name.
    pub fn next_entry(&mut self) -> (r: Option<(String, LevelDeserializer)>)
        ensures
            final(self).key_path() == old(self).key_path(),
            ({
                let fs = old(self).fields();
                let i = first_present(fs);
                if i == fs.len() {
                    r is None && final(self).fields() == fs
                } else {
                    (r matches Some((k, d)) && k@ == fs[i].0 && d.node@ == fs[i].1->Some_0
                        && d.path@ == child_path(old(self).key_path(), fs[i].0))
                        && final(self).fields() == fs.update(i, (fs[i].0, None))
                }
            }),
    {
        let ghost fs = self.fields();
        let i = find_present(&self.entries);
        if i == self.entries.len() {
            return None;
        }
        let ghost before = self.entries@;
        let taken = self.entries[i].1.take();
        let key = self.entries[i].0.clone();
        proof {
            assert(self.fields() =~= fs.update(i as int, (fs[i as int].0, None)));
        }
        let path = extend_path(&self.path, &key);
        match taken {
            Some(node) => Some((key, LevelDeserializer { node, path })),
            None => None,
        }
    }
}

fn find_slot(entries: &Vec<(String, Option<Level>)>, key: &String) -> (r: usize)
    ensures
        r as int == slot_index(slots_view(entries@), key@),
        r <= entries.len(),
        r < entries.len() ==> entries@[r as int].0@ == key@,
{
    let mut i: usize = 0;
    while i < entries.len()
        invariant
            i <= entries.len(),
            forall|j: int| 0 <= j < i ==> slots_view(entries@)[j].0 != key@,
        decreases entries.len() - i,
    {
        if entries[i].0 == *key {
            proof {
                lemma_slot_index(slots_view(entries@), key@, i as int);
            }
            return i;
        }
        i = i + 1;
    }
    proof {
        lemma_slot_index(slots_view(entries@), key@, i as int);
    }
    i
}

fn find_present(entries: &Vec<(String, Option<Level>)>) -> (r: usize)
    ensures
        r as int == first_present(slots_view(entries@)),
        r <= entries.len(),
        r < entries.len() ==> entries@[r as int].1 is Some,
{
    let mut i: usize = 0;
    while i < entries.len()
        invariant
            i <= entries.len(),
            forall|j: int| 0 <= j < i ==> slots_view(entries@)[j].1 is None,
        decreases entries.len() - i,
    {
        if entries[i].1.is_some() {
            proof {
                lemma_first_present(slots_view(entries@), i as int);
            }
            return i;
        }
        i = i + 1;
    }
    proof {
        lemma_first_present(slots_view(entries@), i as int);
    }
    i
}

/// What decoding the bytes `input` gives: the fields of the top-level record
/// of the tree that [`parsed`] builds, or the error that reports its fault.
pub open spec fn decodes(input: Seq<u8>, r: Result<Deserializer, Error>) -> bool {
    match parsed(input) {
        Ok(n) => r matches Ok(d) && d.fields() == all_present(record_entries(n)) && d.key_path()
            == Seq::<char>::empty(),
        Err(f) => r matches Err(e) && reports(e, f),
    }
}

/// The index of the first field not taken yet, or the number of fields.
pub open spec fn first_present(es: Seq<(Seq<char>, Option<Node>)>) -> int
    decreases es.len(),
{
    if es.len() == 0 {
        0
    } else if es[0].1 is Some {
        0
    } else {
        1 + first_present(es.drop_first())
    }
}

proof fn lemma_first_present(es: Seq<(Seq<char>, Option<Node>)>, i: int)
    requires
        0 <= i <= es.len(),
        forall|j: int| 0 <= j < i ==> es[j].1 is None,
        i < es.len() ==> es[i].1 is Some,
    ensures
        first_present(es) == i,
    decreases es.len(),
{
    if es.len() > 0 && i > 0 {
        lemma_first_present(es.drop_first(), i - 1);
    }
}

} // verus!
