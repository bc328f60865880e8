use crate::error::Error;
use crate::text::{
    encode_text, form_encode, format_integer, lemma_encode_one_ascii, lemma_encode_utf8_concat,
    signed_decimal,
};
use vstd::utf8::*;
use vstd::prelude::*;
use vstd::string::*;

verus! {

/// The texts of `items` joined with commas.
pub open spec fn joined(items: Seq<Seq<char>>) -> Seq<char>
    decreases items.len(),
{
    if items.len() == 0 {
        Seq::empty()
    } else if items.len() == 1 {
        items[0]
    } else {
        items[0].push(',') + joined(items.drop_first())
    }
}

proof fn lemma_joined_push(items: Seq<Seq<char>>, x: Seq<char>)
    requires
        items.len() >= 1,
    ensures
        joined(items.push(x)) == joined(items).push(',') + x,
    decreases items.len(),
{
    if items.len() == 1 {
        assert(items.push(x).drop_first() =~= seq![x]);
        assert(joined(seq![x]) == x);
        assert(items.push(x)[0] == items[0]);
    } else {
        assert(items.push(x)[0] == items[0]);
        assert(items.push(x).drop_first() =~= items.drop_first().push(x));
        lemma_joined_push(items.drop_first(), x);
        assert(joined(items.push(x)) =~= joined(items).push(',') + x);
    }
}

/// The bytes of one `key=value` pair of the wire format, both parts
/// form-urlencoded.
pub open spec fn pair_text(k: Seq<char>, v: Seq<char>) -> Seq<u8> {
    encode_text(k).push(61u8) + encode_text(v)
}

/// The bytes of the wire form of a list of pairs: their texts joined with `&`.
pub open spec fn wire(pairs: Seq<(Seq<char>, Seq<char>)>) -> Seq<u8>
    decreases pairs.len(),
{
    if pairs.len() == 0 {
        Seq::empty()
    } else if pairs.len() == 1 {
        pair_text(pairs[0].0, pairs[0].1)
    } else {
        wire(pairs.drop_last()).push(38u8) + pair_text(pairs.last().0, pairs.last().1)
    }
}

/// The key of the field `name` of the record at `parent`: `parent.name`,
/// or `name` at the top level.
pub open spec fn field_key_of(parent: Seq<char>, name: Seq<char>) -> Seq<char> {
    if parent.len() == 0 {
        name
    } else {
        parent.push('.') + name
    }
}

/// The decimal text of an integer.
pub fn integer_text(n: i128) -> (r: String)
    ensures
        r@ == signed_decimal(n as int),
{
    format_integer(n)
}

/// Joins texts with commas.
pub fn join_items(items: &Vec<String>) -> (r: String)
    ensures
        r@ == joined(items.deep_view()),
{
    let mut out = String::new();
    let mut i: usize = 0;
    while i < items.len()
        invariant
            i <= items.len(),
            out@ == joined(items.deep_view().subrange(0, i as int)),
        decreases items.len() - i,
    {
        let ghost before = items.deep_view().subrange(0, i as int);
        let ghost now = items.deep_view().subrange(0, i + 1);
        assert(now.drop_last() == before);
        proof {
            reveal_strlit(",");
            assert(now.last() == items@[i as int]@);
            if i > 0 {
                assert(now == before.push(now.last()));
                lemma_joined_push(before, now.last());
            }
        }
        if i > 0 {
            out.append(",");
        }
        out.append(items[i].as_str());
        i = i + 1;
        assert(out@ =~= joined(now));
    }
    assert(items.deep_view().subrange(0, i as int) == items.deep_view());
    out
}

/// Collects dot-joined keys and their texts, in the order written, and
/// joins them into a query string.
pub struct Encoder {
    pairs: Vec<(String, String)>,
}

impl Encoder {
    /// The pairs written so far, unencoded.
    pub closed spec fn written(&self) -> Seq<(Seq<char>, Seq<char>)> {
        Seq::new(self.pairs@.len(), |i: int| (self.pairs@[i].0@, self.pairs@[i].1@))
    }

    pub fn new() -> (r: Encoder)
        ensures
            r.written() == Seq::<(Seq<char>, Seq<char>)>::empty(),
    {
        let r = Encoder { pairs: Vec::new() };
        assert(r.written() =~= Seq::<(Seq<char>, Seq<char>)>::empty());
        r
    }

    /// The key of the field `name` of the record at `parent`.
    pub fn field_key(parent: &str, name: &str) -> (r: String)
        ensures
            r@ == field_key_of(parent@, name@),
    {
        if parent.is_empty() {
            String::from_str(name)
        } else {
            proof {
                reveal_strlit(".");
            }
            String::from_str(parent).concat(".").concat(name)
        }
    }

    /// Writes `text` at `key`. A scalar has no key at the top level.
    pub fn write_scalar(&mut self, key: &str, text: &str) -> (r: Result<(), Error>)
        ensures
            key@.len() == 0 ==> (r matches Err(Error::Unsupported)) && final(self).written()
                == old(self).written(),
            key@.len() > 0 ==> r is Ok && final(self).written() == old(self).written().push(
                (key@, text@),
            ),
    {
        if key.is_empty() {
            return Err(Error::Unsupported);
        }
        let ghost before = self.written();
        self.pairs.push((String::from_str(key), String::from_str(text)));
        assert(self.written() =~= before.push((key@, text@)));
        Ok(())
    }

    /// Writes a sequence at `key` as one scalar: its texts joined with commas.
    pub fn write_sequence(&mut self, key: &str, items: &Vec<String>) -> (r: Result<(), Error>)
        ensures
            key@.len() == 0 ==> (r matches Err(Error::Unsupported)) && final(self).written()
                == old(self).written(),
            key@.len() > 0 ==> r is Ok && final(self).written() == old(self).written().push(
                (key@, joined(items.deep_view())),
            ),
    {
        let text = join_items(items);
        self.write_scalar(key, text.as_str())
    }

    /// Writes the decimal text of `n` at `key`.
    pub fn write_integer(&mut self, key: &str, n: i128) -> (r: Result<(), Error>)
        ensures
            key@.len() == 0 ==> (r matches Err(Error::Unsupported)) && final(self).written()
                == old(self).written(),
            key@.len() > 0 ==> r is Ok && final(self).written() == old(self).written().push(
                (key@, signed_decimal(n as int)),
            ),
    {
        let text = integer_text(n);
        self.write_scalar(key, text.as_str())
    }

    /// Writes `true` or `false` at `key`.
    pub fn write_bool(&mut self, key: &str, b: bool) -> (r: Result<(), Error>)
        ensures
            key@.len() == 0 ==> (r matches Err(Error::Unsupported)) && final(self).written()
                == old(self).written(),
            key@.len() > 0 ==> r is Ok && final(self).written() == old(self).written().push(
                (key@, if b { "true"@ } else { "false"@ }),
            ),
    {
        if b {
            self.write_scalar(key, "true")
        } else {
            self.write_scalar(key, "false")
        }
    }

    /// The query string: each pair as `key=value`, both form-urlencoded,
    /// joined with `&`.
    pub fn finish(&self) -> (r: String)
        ensures
            encode_utf8(r@) == wire(self.written()),
    {
        let ghost ps = self.written();
        let mut out = String::new();
        let mut i: usize = 0;
        while i < self.pairs.len()
            invariant
                ps == self.written(),
                i <= self.pairs.len(),
                encode_utf8(out@) == wire(ps.subrange(0, i as int)),
            decreases self.pairs.len() - i,
        {
            let ghost now = ps.subrange(0, i + 1);
            assert(now.drop_last() == ps.subrange(0, i as int));
            proof {
                reveal_strlit("&");
                reveal_strlit("=");
            }
            let ghost o0 = out@;
            if i > 0 {
                out.append("&");
            }
            let ghost o1 = out@;
            let k = form_encode(self.pairs[i].0.as_str());
            let v = form_encode(self.pairs[i].1.as_str());
            out.append(k.as_str());
            let ghost o2 = out@;
            out.append("=");
            let ghost o3 = out@;
            out.append(v.as_str());
            proof {
                lemma_encode_one_ascii('&', 38u8);
                lemma_encode_one_ascii('=', 61u8);
                assert("&"@ == seq!['&']);
                assert("="@ == seq!['=']);
                if i > 0 {
                    lemma_encode_utf8_concat(o0, "&"@);
                } else {
                    assert(o0 =~= Seq::<char>::empty());
                }
                lemma_encode_utf8_concat(o1, k@);
                lemma_encode_utf8_concat(o2, "="@);
                lemma_encode_utf8_concat(o3, v@);
            }
            i = i + 1;
            assert(encode_utf8(out@) =~= wire(now));
        }
        assert(ps.subrange(0, i as int) == ps);
        out
    }
}

} // verus!
