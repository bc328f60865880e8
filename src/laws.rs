use crate::deserializer::{comma_items, decodes, find_comma, items_from, Deserializer};
use crate::encoder::{joined, pair_text, wire};
use crate::error::{Conflict, DecodeCause, Error};
use crate::level::{insert, insert_entries, key_index, lemma_key_index, Node};
use crate::parser::{
    decode_at, find_amp, find_stop, is_stop, parse_from, parse_pair, parse_segments, parsed, reports,
    Fault,
};
use crate::text::{
    byte_unchanged, decode_segment, encode_text, escape_complete, first_malformed, form_encode_byte,
    form_encoded, hex_upper, hex_value, is_hex_digit, lemma_encode_one_ascii,
    lemma_encode_utf8_concat, malformed_at, percent_decoded, plus_as_space,
};
use vstd::prelude::*;
use vstd::utf8::*;

verus! {

proof fn lemma_hex_round_trip(n: int)
    requires
        0 <= n < 16,
    ensures
        is_hex_digit(hex_upper(n)),
        hex_value(hex_upper(n)) == n,
        hex_upper(n) != 43,
{
}

proof fn lemma_first_malformed_none(b: Seq<u8>, i: int)
    requires
        0 <= i <= b.len(),
        forall|j: int| i <= j < b.len() ==> !malformed_at(b, j),
    ensures
        first_malformed(b, i) == b.len(),
    decreases b.len() - i,
{
    if i < b.len() {
        lemma_first_malformed_none(b, i + 1);
    }
}

/// What the form-urlencoding of a byte string is made of: it holds no
/// malformed escape, no `&` or `=`, a `.` only where the input has one, and
/// percent-decoding it after reading `+` as a space gives the input back.
pub proof fn lemma_form_encoded(b: Seq<u8>)
    ensures
        forall|i: int| 0 <= i < form_encoded(b).len() ==> !malformed_at(form_encoded(b), i),
        forall|i: int|
            0 <= i < form_encoded(b).len() ==> {
                &&& #[trigger] form_encoded(b)[i] != 38
                &&& form_encoded(b)[i] != 61
                &&& (form_encoded(b)[i] == 46 ==> exists|j: int| 0 <= j < b.len() && b[j] == 46)
            },
        percent_decoded(plus_as_space(form_encoded(b))) == b,
        b.len() > 0 ==> form_encoded(b).len() > 0,
    decreases b.len(),
{
    if b.len() > 0 {
        let b0 = b[0];
        let rest = b.drop_first();
        let x = form_encode_byte(b0);
        let e = form_encoded(rest);
        lemma_form_encoded(rest);
        assert(form_encoded(b) == x + e);
        let fe = x + e;
        lemma_hex_round_trip(b0 as int / 16);
        lemma_hex_round_trip(b0 as int % 16);
        assert forall|i: int| 0 <= i < fe.len() implies !malformed_at(fe, i) by {
            if i >= x.len() {
                assert(fe[i] == e[i - x.len()]);
                if i + 2 < fe.len() {
                    assert(fe[i + 1] == e[i - x.len() + 1]);
                    assert(fe[i + 2] == e[i - x.len() + 2]);
                }
                assert(!malformed_at(e, i - x.len()));
            }
        }
        assert forall|i: int| 0 <= i < fe.len() implies {
            &&& #[trigger] fe[i] != 38
            &&& fe[i] != 61
            &&& (fe[i] == 46 ==> exists|j: int| 0 <= j < b.len() && b[j] == 46)
        } by {
            if i >= x.len() {
                assert(fe[i] == e[i - x.len()]);
                if e[i - x.len()] == 46 {
                    let j = choose|j: int| 0 <= j < rest.len() && rest[j] == 46;
                    assert(b[j + 1] == 46);
                }
            } else if fe[i] == 46 {
                assert(b[0] == 46);
            }
        }
        let px = plus_as_space(x);
        let pe = plus_as_space(e);
        assert(plus_as_space(fe) == px + pe);
        if byte_unchanged(b0) {
            assert((px + pe).drop_first() == pe);
        } else if b0 == 32 {
            assert((px + pe).drop_first() == pe);
        } else {
            assert((px + pe).subrange(3, (px + pe).len() as int) == pe);
            assert(escape_complete(px + pe, 0));
            assert(b0 as int / 16 * 16 + b0 as int % 16 == b0);
        }
        assert(percent_decoded(plus_as_space(fe)) =~= seq![b0] + rest);
        assert(seq![b0] + rest == b);
    }
}

/// Decoding the form-urlencoding of a text gives the text back.
pub proof fn lemma_percent_round_trip(s: Seq<char>)
    ensures
        decode_segment(encode_text(s)) == Ok::<Seq<char>, (int, DecodeCause)>(s),
{
    let b = encode_utf8(s);
    lemma_form_encoded(b);
    lemma_first_malformed_none(form_encoded(b), 0);
    encode_utf8_valid_utf8(s);
    encode_utf8_decode_utf8(s);
}


/// Key segments joined with `.`.
pub open spec fn dot_join(path: Seq<Seq<char>>) -> Seq<char>
    decreases path.len(),
{
    if path.len() == 0 {
        Seq::empty()
    } else if path.len() == 1 {
        path[0]
    } else {
        path[0].push('.') + dot_join(path.drop_first())
    }
}

/// A key path that the wire format can carry: one or more segments, each
/// non-empty and without a `.`.
pub open spec fn valid_path(path: Seq<Seq<char>>) -> bool {
    &&& path.len() >= 1
    &&& forall|i: int|
        0 <= i < path.len() ==> (#[trigger] path[i]).len() > 0 && !path[i].contains('.')
}

/// The pairs that an encoder is given, with their key paths dot-joined.
pub open spec fn keyed(ps: Seq<(Seq<Seq<char>>, Seq<char>)>) -> Seq<(Seq<char>, Seq<char>)> {
    Seq::new(ps.len(), |i: int| (dot_join(ps[i].0), ps[i].1))
}

/// The tree that writing the pairs `ps[k..]`, in order, into `root` leaves.
pub open spec fn build_from(ps: Seq<(Seq<Seq<char>>, Seq<char>)>, k: int, root: Node) -> Node
    decreases ps.len() - k,
{
    if k < 0 || k >= ps.len() {
        root
    } else {
        build_from(ps, k + 1, insert(root, ps[k].0, ps[k].1))
    }
}

/// The tree that writing all the pairs `ps`, in order, into an empty record
/// builds.
pub open spec fn built(ps: Seq<(Seq<Seq<char>>, Seq<char>)>) -> Node {
    build_from(ps, 0, Node::Record(Seq::empty()))
}

proof fn lemma_form_encoded_concat(a: Seq<u8>, b: Seq<u8>)
    ensures
        form_encoded(a + b) == form_encoded(a) + form_encoded(b),
    decreases a.len(),
{
    if a.len() > 0 {
        assert((a + b).drop_first() == a.drop_first() + b);
        lemma_form_encoded_concat(a.drop_first(), b);
        assert(form_encoded(a + b) =~= form_encoded(a) + form_encoded(b));
    } else {
        assert(a + b == b);
    }
}

/// A text without a `.` has no byte 46 in its UTF-8 form.
proof fn lemma_utf8_no_dot(t: Seq<char>)
    requires
        !t.contains('.'),
    ensures
        forall|i: int| 0 <= i < encode_utf8(t).len() ==> encode_utf8(t)[i] != 46,
    decreases t.len(),
{
    if t.len() > 0 {
        let rest = t.drop_first();
        assert(!rest.contains('.')) by {
            if rest.contains('.') {
                let j = choose|j: int| 0 <= j < rest.len() && rest[j] == '.';
                assert(t[j + 1] == '.');
            }
        }
        lemma_utf8_no_dot(rest);
        let v = t[0] as u32;
        assert(t[0] != '.') by {
            if t[0] == '.' {
                assert(t.contains('.'));
            }
        }
        assert(v != 46) by {
            if v == 46 {
                char_u32_cast(t[0], v);
                assert((46u32 as char) == '.');
            }
        }
        let e = encode_scalar(v);
        if has_width_1_encoding(v) {
            assert((v & 0x7F) as u8 != 46) by (bit_vector)
                requires
                    v <= 0x7F,
                    v != 46,
            ;
        } else {
            assert((0xC0 | ((v >> 6) & 0x1F) as u8) != 46u8) by (bit_vector);
            assert((0xE0 | ((v >> 12) & 0x0F) as u8) != 46u8) by (bit_vector);
            assert((0xF0 | ((v >> 18) & 0x7) as u8) != 46u8) by (bit_vector);
            assert((0x80 | (v & 0x3F) as u8) != 46u8) by (bit_vector);
            assert((0x80 | ((v >> 6) & 0x3F) as u8) != 46u8) by (bit_vector);
            assert((0x80 | ((v >> 12) & 0x3F) as u8) != 46u8) by (bit_vector);
        }
        assert(forall|i: int| 0 <= i < e.len() ==> e[i] != 46);
        assert(encode_utf8(t) == e + encode_utf8(rest));
    }
}

/// What the encoded form of a key segment or a value is made of.
proof fn lemma_encoded_text(t: Seq<char>)
    ensures
        decode_segment(encode_text(t)) == Ok::<Seq<char>, (int, DecodeCause)>(t),
        forall|i: int|
            0 <= i < encode_text(t).len() ==> #[trigger] encode_text(t)[i] != 38
                && encode_text(t)[i] != 61,
        !t.contains('.') ==> forall|i: int|
            0 <= i < encode_text(t).len() ==> !is_stop(#[trigger] encode_text(t)[i]),
        t.len() > 0 ==> encode_text(t).len() > 0,
{
    lemma_percent_round_trip(t);
    lemma_form_encoded(encode_utf8(t));
    if !t.contains('.') {
        lemma_utf8_no_dot(t);
    }
    if t.len() > 0 {
        assert(encode_utf8(t).len() > 0);
    }
}

/// The encoded form of a dot-joined key: the encoded segments joined with `.`.
proof fn lemma_key_split(path: Seq<Seq<char>>)
    requires
        path.len() >= 2,
    ensures
        encode_text(dot_join(path)) == encode_text(path[0]).push(46u8) + encode_text(
            dot_join(path.drop_first()),
        ),
{
    let a = path[0];
    let b = dot_join(path.drop_first());
    lemma_encode_one_ascii('.', 46u8);
    assert(a.push('.') == a + seq!['.']);
    lemma_encode_utf8_concat(a, seq!['.']);
    lemma_encode_utf8_concat(a.push('.'), b);
    lemma_form_encoded_concat(encode_utf8(a), seq![46u8]);
    lemma_form_encoded_concat(encode_utf8(a) + seq![46u8], encode_utf8(b));
    assert(seq![46u8].drop_first() == Seq::<u8>::empty());
    assert(form_encoded(Seq::<u8>::empty()) == Seq::<u8>::empty());
    assert(form_encoded(seq![46u8]) =~= seq![46u8]);
    assert(encode_text(a) + seq![46u8] == encode_text(a).push(46u8));
}

proof fn lemma_find_stop_region(s: Seq<u8>, a: int, e: int)
    requires
        0 <= a <= e <= s.len(),
        forall|x: int| a <= x < e ==> !is_stop(#[trigger] s[x]),
        e == s.len() || is_stop(s[e]),
    ensures
        find_stop(s, a) == e,
    decreases e - a,
{
    if a < e {
        lemma_find_stop_region(s, a + 1, e);
    }
}

proof fn lemma_find_amp_region(s: Seq<u8>, a: int, e: int)
    requires
        0 <= a <= e <= s.len(),
        forall|x: int| a <= x < e ==> #[trigger] s[x] != 38,
        e == s.len() || s[e] == 38,
    ensures
        find_amp(s, a) == e,
    decreases e - a,
{
    if a < e {
        lemma_find_amp_region(s, a + 1, e);
    }
}

/// The encoded key of `path`, standing at `a` in `s` before a `=`, a `&` or
/// the end, parses back to `path`.
proof fn lemma_segments_at(s: Seq<u8>, a: int, path: Seq<Seq<char>>)
    requires
        valid_path(path),
        0 <= a,
        a + encode_text(dot_join(path)).len() <= s.len(),
        s.subrange(a, a + encode_text(dot_join(path)).len()) == encode_text(dot_join(path)),
        ({
            let e = a + encode_text(dot_join(path)).len();
            e == s.len() || s[e] == 61 || s[e] == 38
        }),
    ensures
        parse_segments(s, a) == Ok::<(Seq<Seq<char>>, int), Fault>(
            (path, a + encode_text(dot_join(path)).len()),
        ),
    decreases path.len(),
{
    let k = encode_text(dot_join(path));
    let e0 = encode_text(path[0]);
    let d = a + e0.len();
    assert(path[0].len() > 0 && !path[0].contains('.'));
    lemma_encoded_text(path[0]);
    if path.len() >= 2 {
        lemma_key_split(path);
    } else {
        assert(dot_join(path) == path[0]);
    }
    assert(s.subrange(a, d) == e0) by {
        assert(s.subrange(a, d) == k.subrange(0, e0.len() as int));
        if path.len() >= 2 {
            assert(k.subrange(0, e0.len() as int) == e0);
        } else {
            assert(k.subrange(0, e0.len() as int) == k);
        }
    }
    assert forall|x: int| a <= x < d implies !is_stop(#[trigger] s[x]) by {
        assert(s[x] == s.subrange(a, d)[x - a]);
    }
    if path.len() >= 2 {
        assert(s[d] == k[e0.len() as int]);
    }
    lemma_find_stop_region(s, a, d);
    assert(decode_at(s, a, d) == Ok::<Seq<char>, Fault>(path[0]));
    if path.len() >= 2 {
        let rest = path.drop_first();
        let k2 = encode_text(dot_join(rest));
        assert(valid_path(rest)) by {
            assert forall|i: int| 0 <= i < rest.len() implies (#[trigger] rest[i]).len() > 0
                && !rest[i].contains('.') by {
                assert(rest[i] == path[i + 1]);
            }
        }
        assert(s.subrange(d + 1, d + 1 + k2.len()) == k2) by {
            assert(s.subrange(d + 1, d + 1 + k2.len()) == k.subrange(
                e0.len() + 1 as int,
                k.len() as int,
            ));
            assert(k.subrange(e0.len() + 1 as int, k.len() as int) =~= k2);
        }
        lemma_segments_at(s, d + 1, rest);
        assert(seq![path[0]] + rest =~= path);
        assert(d + 1 + k2.len() == a + k.len());
    } else {
        assert(d == s.len() || s[d] != 46);
        assert(seq![path[0]] =~= path);
    }
}

/// The encoded pair of `path` and `v`, standing at `o` in `s` before a `&`
/// or the end, parses back to `path` and `v`.
proof fn lemma_pair_at(s: Seq<u8>, o: int, path: Seq<Seq<char>>, v: Seq<char>)
    requires
        valid_path(path),
        0 <= o,
        o + pair_text(dot_join(path), v).len() <= s.len(),
        s.subrange(o, o + pair_text(dot_join(path), v).len()) == pair_text(dot_join(path), v),
        ({
            let e = o + pair_text(dot_join(path), v).len();
            e == s.len() || s[e] == 38
        }),
    ensures
        parse_pair(s, o) == Ok::<(Seq<Seq<char>>, Seq<char>, int), Fault>(
            (path, v, o + pair_text(dot_join(path), v).len()),
        ),
        s[o] != 38,
{
    let k = encode_text(dot_join(path));
    let ev = encode_text(v);
    let p = pair_text(dot_join(path), v);
    let kend = o + k.len();
    let end = o + p.len();
    assert(p == k.push(61u8) + ev);
    assert(s.subrange(o, kend) == k) by {
        assert(s.subrange(o, kend) =~= p.subrange(0, k.len() as int));
    }
    assert(s[kend] == 61) by {
        assert(s[kend] == p[k.len() as int]);
    }
    lemma_segments_at(s, o, path);
    lemma_encoded_text(v);
    assert forall|x: int| kend + 1 <= x < end implies #[trigger] s[x] != 38 by {
        assert(s[x] == p[x - o]);
        assert(p[x - o] == ev[x - kend - 1]);
    }
    lemma_find_amp_region(s, kend + 1, end);
    assert(s.subrange(kend + 1, end) =~= ev) by {
        assert forall|x: int| 0 <= x < ev.len() implies s.subrange(kend + 1, end)[x] == ev[x] by {
            assert(s[kend + 1 + x] == p[k.len() + 1 + x]);
        }
    }
    assert(decode_at(s, kend + 1, end) == Ok::<Seq<char>, Fault>(v));
    assert(dot_join(path).len() > 0) by {
        if path.len() == 1 {
        } else {
            assert(dot_join(path).len() >= path[0].len());
        }
        assert(path[0].len() > 0);
    }
    lemma_encoded_text(dot_join(path));
    assert(s[o] == k[0]) by {
        assert(s[o] == p[0]);
    }
}


/// The offset at which the `k`-th pair stands in `wire(q)`.
pub open spec fn pair_offset(q: Seq<(Seq<char>, Seq<char>)>, k: int) -> int
    decreases k,
{
    if k <= 0 {
        0
    } else {
        pair_offset(q, k - 1) + pair_text(q[k - 1].0, q[k - 1].1).len() + 1
    }
}

proof fn lemma_offset_prefix(q: Seq<(Seq<char>, Seq<char>)>, m: int, k: int)
    requires
        0 <= k <= m <= q.len(),
    ensures
        pair_offset(q.subrange(0, m), k) == pair_offset(q, k),
    decreases k,
{
    if k > 0 {
        lemma_offset_prefix(q, m, k - 1);
    }
}

/// Where each pair stands in the wire form of a list of pairs.
proof fn lemma_wire_layout(q: Seq<(Seq<char>, Seq<char>)>)
    requires
        q.len() >= 1,
    ensures
        forall|k: int|
            0 <= k < q.len() ==> {
                let o = #[trigger] pair_offset(q, k);
                let l = pair_text(q[k].0, q[k].1).len();
                &&& 0 <= o
                &&& o + l <= wire(q).len()
                &&& wire(q).subrange(o, o + l) == pair_text(q[k].0, q[k].1)
                &&& (k + 1 < q.len() ==> wire(q)[o + l] == 38)
            },
        pair_offset(q, q.len() - 1) + pair_text(q.last().0, q.last().1).len() == wire(q).len(),
    decreases q.len(),
{
    let n = q.len() as int;
    if n == 1 {
        assert(wire(q).subrange(0, wire(q).len() as int) == wire(q));
    } else {
        let q2 = q.drop_last();
        lemma_wire_layout(q2);
        let w2 = wire(q2);
        let w = wire(q);
        let last = pair_text(q.last().0, q.last().1);
        assert(w == w2.push(38u8) + last);
        assert forall|k: int| 0 <= k < n implies {
            let o = #[trigger] pair_offset(q, k);
            let l = pair_text(q[k].0, q[k].1).len();
            &&& 0 <= o
            &&& o + l <= w.len()
            &&& w.subrange(o, o + l) == pair_text(q[k].0, q[k].1)
            &&& (k + 1 < n ==> w[o + l] == 38)
        } by {
            lemma_offset_prefix(q, n - 1, k);
            assert(q2 == q.subrange(0, n - 1));
            if k < n - 1 {
                let o = pair_offset(q2, k);
                let l = pair_text(q2[k].0, q2[k].1).len();
                assert(pair_offset(q2, k) >= 0);
                assert(w.subrange(o, o + l) =~= w2.subrange(o, o + l));
                if k + 1 < n - 1 {
                    assert(w[o + l] == w2[o + l]);
                } else {
                    assert(o + l == w2.len());
                }
            } else {
                lemma_offset_prefix(q, n - 1, n - 2);
                assert(pair_offset(q, n - 1) == w2.len() + 1);
                assert(w.subrange(w2.len() + 1 as int, w.len() as int) =~= last);
            }
        }
        lemma_offset_prefix(q, n - 1, n - 2);
    }
}

proof fn lemma_parse_wire(ps: Seq<(Seq<Seq<char>>, Seq<char>)>, k: int, root: Node)
    requires
        ps.len() >= 1,
        0 <= k <= ps.len(),
        forall|i: int| 0 <= i < ps.len() ==> valid_path(#[trigger] ps[i].0),
    ensures
        parse_from(wire(keyed(ps)), pair_offset(keyed(ps), k), root) == Ok::<Node, Fault>(
            build_from(ps, k, root),
        ),
    decreases ps.len() - k,
{
    let q = keyed(ps);
    let w = wire(q);
    lemma_wire_layout(q);
    let o = pair_offset(q, k);
    if k == ps.len() {
        assert(pair_offset(q, k) == pair_offset(q, k - 1) + pair_text(q[k - 1].0, q[k - 1].1).len()
            + 1);
        assert(q.last() == q[k - 1]);
    } else {
        assert(q[k] == (dot_join(ps[k].0), ps[k].1));
        let l = pair_text(q[k].0, q[k].1).len();
        assert(valid_path(ps[k].0));
        if k + 1 == ps.len() {
            assert(q.last() == q[k]);
        }
        lemma_pair_at(w, o, ps[k].0, ps[k].1);
        lemma_parse_wire(ps, k + 1, insert(root, ps[k].0, ps[k].1));
        assert(pair_offset(q, k + 1) == o + l + 1);
    }
}

/// Decoding the bytes that an encoder makes of a list of pairs rebuilds the
/// tree that writing those pairs, in order, builds, for keys whose segments
/// are non-empty and free of `.`.
pub proof fn lemma_wire_round_trip(ps: Seq<(Seq<Seq<char>>, Seq<char>)>)
    requires
        forall|i: int| 0 <= i < ps.len() ==> valid_path(#[trigger] ps[i].0),
    ensures
        parsed(wire(keyed(ps))) == Ok::<Node, Fault>(built(ps)),
{
    if ps.len() == 0 {
        assert(wire(keyed(ps)) == Seq::<u8>::empty());
    } else {
        lemma_parse_wire(ps, 0, Node::Record(Seq::empty()));
    }
}


proof fn lemma_find_comma_region(t: Seq<char>, a: int, e: int)
    requires
        0 <= a <= e <= t.len(),
        forall|x: int| a <= x < e ==> #[trigger] t[x] != ',',
        e == t.len() || t[e] == ',',
    ensures
        find_comma(t, a) == e,
    decreases e - a,
{
    if a < e {
        lemma_find_comma_region(t, a + 1, e);
    }
}

proof fn lemma_find_comma_shift(x: Seq<char>, y: Seq<char>, a: int)
    requires
        0 <= a <= y.len(),
    ensures
        find_comma(x + y, x.len() + a) == x.len() + find_comma(y, a),
    decreases y.len() - a,
{
    if a < y.len() {
        assert((x + y)[x.len() + a] == y[a]);
        lemma_find_comma_shift(x, y, a + 1);
    }
}

proof fn lemma_items_shift(x: Seq<char>, y: Seq<char>, a: int)
    requires
        0 <= a,
    ensures
        items_from(x + y, x.len() + a) == items_from(y, a),
    decreases y.len() + 1 - a,
{
    if a < y.len() {
        lemma_find_comma_shift(x, y, a);
        crate::deserializer::lemma_find_comma(y, a);
        let c = find_comma(y, a);
        lemma_items_shift(x, y, c + 1);
        assert((x + y).subrange(x.len() + a, x.len() + c) =~= y.subrange(a, c));
    }
}

/// Splitting the comma-joined texts of a sequence gives the sequence back,
/// when no element is empty or holds a comma.
pub proof fn lemma_sequence_round_trip(items: Seq<Seq<char>>)
    requires
        forall|i: int|
            0 <= i < items.len() ==> (#[trigger] items[i]).len() > 0 && !items[i].contains(','),
    ensures
        comma_items(joined(items)) == items,
    decreases items.len(),
{
    if items.len() > 0 {
        let x = items[0];
        assert(x.len() > 0 && !x.contains(','));
        assert forall|j: int| 0 <= j < x.len() implies #[trigger] x[j] != ',' by {
            if x[j] == ',' {
                assert(x.contains(','));
            }
        }
        if items.len() == 1 {
            lemma_find_comma_region(x, 0, x.len() as int);
            assert(x.subrange(0, x.len() as int) == x);
            assert(joined(items) == x);
            assert(items_from(x, 0) == seq![x] + items_from(x, x.len() + 1 as int));
            assert(seq![x] =~= items);
        } else {
            let rest = items.drop_first();
            let t = x.push(',') + joined(rest);
            assert forall|j: int| 0 <= j < x.len() implies #[trigger] t[j] != ',' by {
                assert(t[j] == x[j]);
            }
            assert(t[x.len() as int] == ',');
            lemma_find_comma_region(t, 0, x.len() as int);
            assert(t.subrange(0, x.len() as int) =~= x);
            lemma_items_shift(x.push(','), joined(rest), 0);
            assert forall|i: int| 0 <= i < rest.len() implies (#[trigger] rest[i]).len() > 0
                && !rest[i].contains(',') by {
                assert(rest[i] == items[i + 1]);
            }
            lemma_sequence_round_trip(rest);
            assert(joined(items) == t);
            assert(x.push(',').len() == x.len() + 1);
            assert(items_from(t, x.len() + 1 as int) == rest);
            assert(items_from(t, 0) == seq![x] + items_from(t, x.len() + 1 as int));
            assert(seq![x] + rest =~= items);
        }
    } else {
        assert(items =~= Seq::<Seq<char>>::empty());
    }
}


/// A record value as the wire format carries it: what the typed-binding
/// layer writes for each field.
pub enum Value {
    /// A scalar field: a text, or the decimal text of a number.
    Text(Seq<char>),
    /// A sequence of scalar texts.
    List(Seq<Seq<char>>),
    /// An optional field that holds nothing.
    Absent,
    /// A nested record: its fields in order.
    Fields(Seq<(Seq<char>, Value)>),
}

/// The pairs in `ps`, each with `name` put before its key path.
pub open spec fn under(name: Seq<char>, ps: Seq<(Seq<Seq<char>>, Seq<char>)>) -> Seq<
    (Seq<Seq<char>>, Seq<char>),
> {
    Seq::new(ps.len(), |i: int| (seq![name] + ps[i].0, ps[i].1))
}

/// The pairs that encoding `v` writes, with key paths relative to `v`: a
/// scalar or a sequence (its texts joined with commas) at the empty path,
/// nothing for an absent value, and each field of a record under its name.
pub open spec fn flatten(v: Value) -> Seq<(Seq<Seq<char>>, Seq<char>)>
    decreases v, 1int,
{
    match v {
        Value::Text(t) => seq![(Seq::empty(), t)],
        Value::List(items) => seq![(Seq::empty(), joined(items))],
        Value::Absent => Seq::empty(),
        Value::Fields(fs) => flatten_fields(fs),
    }
}

pub open spec fn flatten_fields(fs: Seq<(Seq<char>, Value)>) -> Seq<(Seq<Seq<char>>, Seq<char>)>
    decreases fs, 0int,
{
    if fs.len() == 0 {
        Seq::empty()
    } else {
        under(fs[0].0, flatten(fs[0].1)) + flatten_fields(fs.subrange(1, fs.len() as int))
    }
}

/// The node of the field `name` of a record: `Unset` if it has none.
pub open spec fn field_node(es: Seq<(Seq<char>, Node)>, name: Seq<char>) -> Node {
    let i = key_index(es, name);
    if i < es.len() {
        es[i].1
    } else {
        Node::Unset
    }
}

/// What a reader that expects the shape of `v` gets from the node `n`, as
/// the decoder's accessors give it: a text by `as_scalar`, a sequence by
/// `as_sequence`, an absent value by `as_option`, and a record's fields by
/// name through `as_record`. `None` where a read fails.
pub open spec fn read(n: Node, v: Value) -> Option<Value>
    decreases v, 1int,
{
    match v {
        Value::Text(_) => match n {
            Node::Scalar(t) => Some(Value::Text(t)),
            _ => None,
        },
        Value::List(_) => match n {
            Node::Scalar(t) => Some(Value::List(comma_items(t))),
            _ => None,
        },
        Value::Absent => if n is Unset || n == Node::Scalar(Seq::empty()) {
            Some(Value::Absent)
        } else {
            None
        },
        Value::Fields(fs) => match n {
            Node::Record(es) => match read_fields(es, fs) {
                Some(gs) => Some(Value::Fields(gs)),
                None => None,
            },
            _ => None,
        },
    }
}

pub open spec fn read_fields(es: Seq<(Seq<char>, Node)>, fs: Seq<(Seq<char>, Value)>) -> Option<
    Seq<(Seq<char>, Value)>,
>
    decreases fs, 0int,
{
    if fs.len() == 0 {
        Some(Seq::empty())
    } else {
        match (
            read(field_node(es, fs[0].0), fs[0].1),
            read_fields(es, fs.subrange(1, fs.len() as int)),
        ) {
            (Some(a), Some(rest)) => Some(seq![(fs[0].0, a)] + rest),
            _ => None,
        }
    }
}

/// A field name that the wire format can carry.
pub open spec fn name_ok(name: Seq<char>) -> bool {
    name.len() > 0 && !name.contains('.')
}

/// A value that the wire format carries without loss: sequence elements are
/// non-empty and free of commas, and a nested record writes at least one pair.
pub open spec fn supported(v: Value) -> bool
    decreases v, 1int,
{
    match v {
        Value::Text(_) => true,
        Value::List(items) => forall|i: int|
            0 <= i < items.len() ==> (#[trigger] items[i]).len() > 0 && !items[i].contains(','),
        Value::Absent => true,
        Value::Fields(fs) => fields_supported(fs) && flatten_fields(fs).len() > 0,
    }
}

/// Fields with distinct names that the wire format can carry, each with a
/// supported value.
pub open spec fn fields_supported(fs: Seq<(Seq<char>, Value)>) -> bool
    decreases fs, 0int,
{
    if fs.len() == 0 {
        true
    } else {
        &&& name_ok(fs[0].0)
        &&& supported(fs[0].1)
        &&& forall|j: int| 1 <= j < fs.len() ==> (#[trigger] fs[j]).0 != fs[0].0
        &&& fields_supported(fs.subrange(1, fs.len() as int))
    }
}

/// The tree that writing the pairs `ps`, in order, into `n` leaves.
pub open spec fn fold(n: Node, ps: Seq<(Seq<Seq<char>>, Seq<char>)>) -> Node
    decreases ps.len(),
{
    if ps.len() == 0 {
        n
    } else {
        insert(fold(n, ps.drop_last()), ps.last().0, ps.last().1)
    }
}

/// The node that encoding and then parsing a field value leaves.
pub open spec fn tree_of(v: Value) -> Node {
    fold(Node::Unset, flatten(v))
}

/// The entries of the record that encoding and then parsing the fields `fs`
/// leaves: one for each field that writes a pair, in order.
pub open spec fn entries_of(fs: Seq<(Seq<char>, Value)>) -> Seq<(Seq<char>, Node)>
    decreases fs.len(),
{
    if fs.len() == 0 {
        Seq::empty()
    } else {
        let head = if flatten(fs[0].1).len() > 0 {
            seq![(fs[0].0, tree_of(fs[0].1))]
        } else {
            Seq::empty()
        };
        head + entries_of(fs.subrange(1, fs.len() as int))
    }
}

proof fn lemma_build_is_fold(ps: Seq<(Seq<Seq<char>>, Seq<char>)>, k: int, n: Node)
    requires
        0 <= k <= ps.len(),
    ensures
        build_from(ps, k, fold(n, ps.subrange(0, k))) == fold(n, ps),
    decreases ps.len() - k,
{
    if k < ps.len() {
        let pre = ps.subrange(0, k + 1);
        assert(pre.drop_last() == ps.subrange(0, k));
        assert(pre.last() == ps[k]);
        lemma_build_is_fold(ps, k + 1, n);
    } else {
        assert(ps.subrange(0, k) == ps);
    }
}

proof fn lemma_fold_concat(n: Node, a: Seq<(Seq<Seq<char>>, Seq<char>)>, b: Seq<(Seq<Seq<char>>, Seq<char>)>)
    ensures
        fold(n, a + b) == fold(fold(n, a), b),
    decreases b.len(),
{
    if b.len() == 0 {
        assert(a + b == a);
    } else {
        assert((a + b).drop_last() == a + b.drop_last());
        assert((a + b).last() == b.last());
        lemma_fold_concat(n, a, b.drop_last());
    }
}

/// Writing pairs that all go below the new field `name` adds that one field.
proof fn lemma_fold_under(es: Seq<(Seq<char>, Node)>, name: Seq<char>, ps: Seq<(Seq<Seq<char>>, Seq<char>)>)
    requires
        ps.len() > 0,
        forall|j: int| 0 <= j < es.len() ==> es[j].0 != name,
    ensures
        fold(Node::Record(es), under(name, ps)) == Node::Record(
            es.push((name, fold(Node::Unset, ps))),
        ),
    decreases ps.len(),
{
    let u = under(name, ps);
    let last = ps.last();
    assert(u.last() == (seq![name] + last.0, last.1));
    assert((seq![name] + last.0)[0] == name);
    assert((seq![name] + last.0).drop_first() =~= last.0);
    if ps.len() == 1 {
        assert(u.drop_last() =~= Seq::<(Seq<Seq<char>>, Seq<char>)>::empty());
        assert(ps.drop_last() =~= Seq::<(Seq<Seq<char>>, Seq<char>)>::empty());
        lemma_key_index(es, name, es.len() as int);
        assert(fold(Node::Record(es), u.drop_last()) == Node::Record(es));
        assert(fold(Node::Unset, ps.drop_last()) == Node::Unset);
        assert(insert_entries(es, u.last().0, u.last().1) == es.push(
            (name, insert(Node::Unset, last.0, last.1)),
        ));
    } else {
        assert(u.drop_last() =~= under(name, ps.drop_last()));
        lemma_fold_under(es, name, ps.drop_last());
        let es2 = es.push((name, fold(Node::Unset, ps.drop_last())));
        assert forall|j: int| 0 <= j < es.len() implies es2[j].0 != name by {
            assert(es2[j] == es[j]);
        }
        lemma_key_index(es2, name, es.len() as int);
        assert(insert_entries(es2, u.last().0, u.last().1) == es2.update(
            es.len() as int,
            (name, insert(fold(Node::Unset, ps.drop_last()), last.0, last.1)),
        ));
        assert(es2.update(es.len() as int, (name, fold(Node::Unset, ps))) =~= es.push(
            (name, fold(Node::Unset, ps)),
        ));
    }
}


/// The node that a field of value `v` gets: its tree, or none if it writes
/// no pair.
pub open spec fn node_for(v: Value) -> Node {
    if flatten(v).len() > 0 {
        tree_of(v)
    } else {
        Node::Unset
    }
}

proof fn lemma_fields_rest(fs: Seq<(Seq<char>, Value)>)
    requires
        fields_supported(fs),
        fs.len() > 0,
    ensures
        name_ok(fs[0].0),
        supported(fs[0].1),
        fields_supported(fs.subrange(1, fs.len() as int)),
        forall|j: int| 1 <= j < fs.len() ==> (#[trigger] fs[j]).0 != fs[0].0,
        flatten_fields(fs) == under(fs[0].0, flatten(fs[0].1)) + flatten_fields(
            fs.subrange(1, fs.len() as int),
        ),
{
}

/// The names of the entries are names of the fields.
proof fn lemma_entries_keys(fs: Seq<(Seq<char>, Value)>, k: Seq<char>)
    requires
        forall|i: int| 0 <= i < fs.len() ==> (#[trigger] fs[i]).0 != k,
    ensures
        forall|j: int| 0 <= j < entries_of(fs).len() ==> (#[trigger] entries_of(fs)[j]).0 != k,
    decreases fs.len(),
{
    if fs.len() > 0 {
        let rest = fs.subrange(1, fs.len() as int);
        assert forall|i: int| 0 <= i < rest.len() implies (#[trigger] rest[i]).0 != k by {
            assert(rest[i] == fs[i + 1]);
        }
        lemma_entries_keys(rest, k);
        assert(fs[0].0 != k);
        let head = if flatten(fs[0].1).len() > 0 {
            seq![(fs[0].0, tree_of(fs[0].1))]
        } else {
            Seq::<(Seq<char>, Node)>::empty()
        };
        let e = entries_of(fs);
        assert(e == head + entries_of(rest));
        assert forall|j: int| 0 <= j < e.len() implies (#[trigger] e[j]).0 != k by {
            if j >= head.len() {
                assert(e[j] == entries_of(rest)[j - head.len()]);
            }
        }
    }
}

proof fn lemma_fold_fields(es: Seq<(Seq<char>, Node)>, fs: Seq<(Seq<char>, Value)>)
    requires
        fields_supported(fs),
        forall|i: int, j: int| 0 <= i < fs.len() && 0 <= j < es.len() ==> es[j].0 != fs[i].0,
    ensures
        fold(Node::Record(es), flatten_fields(fs)) == Node::Record(es + entries_of(fs)),
    decreases fs.len(),
{
    if fs.len() == 0 {
        assert(es + entries_of(fs) =~= es);
    } else {
        lemma_fields_rest(fs);
        let rest = fs.subrange(1, fs.len() as int);
        let a = under(fs[0].0, flatten(fs[0].1));
        lemma_fold_concat(Node::Record(es), a, flatten_fields(rest));
        let es2 = if flatten(fs[0].1).len() > 0 {
            assert forall|j: int| 0 <= j < es.len() implies es[j].0 != fs[0].0 by {
                assert(es[j].0 != fs[0].0);
            }
            lemma_fold_under(es, fs[0].0, flatten(fs[0].1));
            es.push((fs[0].0, tree_of(fs[0].1)))
        } else {
            assert(a =~= Seq::<(Seq<Seq<char>>, Seq<char>)>::empty());
            es
        };
        assert(fold(Node::Record(es), a) == Node::Record(es2));
        assert forall|i: int, j: int| 0 <= i < rest.len() && 0 <= j < es2.len() implies es2[j].0
            != rest[i].0 by {
            assert(rest[i] == fs[i + 1]);
            if j < es.len() {
                assert(es2[j] == es[j]);
            }
        }
        lemma_fold_fields(es2, rest);
        assert(es2 + entries_of(rest) =~= es + entries_of(fs));
    }
}

proof fn lemma_fold_unset(ps: Seq<(Seq<Seq<char>>, Seq<char>)>)
    requires
        ps.len() > 0,
        ps[0].0.len() > 0,
    ensures
        fold(Node::Unset, ps) == fold(Node::Record(Seq::empty()), ps),
    decreases ps.len(),
{
    if ps.len() == 1 {
        assert(ps.drop_last() =~= Seq::<(Seq<Seq<char>>, Seq<char>)>::empty());
        assert(ps.last() == ps[0]);
    } else {
        assert(ps.drop_last()[0] == ps[0]);
        lemma_fold_unset(ps.drop_last());
    }
}

/// Every pair of a field list goes below one of the field names, along
/// names the wire format carries.
proof fn lemma_paths_valid(v: Value)
    requires
        supported(v),
    ensures
        forall|k: int, m: int|
            0 <= k < flatten(v).len() && 0 <= m < flatten(v)[k].0.len() ==> name_ok(
                #[trigger] flatten(v)[k].0[m],
            ),
    decreases v, 1int,
{
    if let Value::Fields(fs) = v {
        lemma_fields_paths_valid(fs);
    }
}

proof fn lemma_fields_paths_valid(fs: Seq<(Seq<char>, Value)>)
    requires
        fields_supported(fs),
    ensures
        forall|k: int|
            0 <= k < flatten_fields(fs).len() ==> valid_path(#[trigger] flatten_fields(fs)[k].0),
    decreases fs, 0int,
{
    if fs.len() > 0 {
        lemma_fields_rest(fs);
        let rest = fs.subrange(1, fs.len() as int);
        let a = under(fs[0].0, flatten(fs[0].1));
        lemma_paths_valid(fs[0].1);
        lemma_fields_paths_valid(rest);
        let all = flatten_fields(fs);
        assert forall|k: int| 0 <= k < all.len() implies valid_path(#[trigger] all[k].0) by {
            if k < a.len() {
                let p = flatten(fs[0].1)[k].0;
                assert(all[k].0 == seq![fs[0].0] + p);
                assert forall|m: int| 0 <= m < all[k].0.len() implies (#[trigger] all[k].0[m]).len()
                    > 0 && !all[k].0[m].contains('.') by {
                    if m > 0 {
                        assert(all[k].0[m] == p[m - 1]);
                        assert(name_ok(flatten(fs[0].1)[k].0[m - 1]));
                    }
                }
            } else {
                assert(all[k] == flatten_fields(rest)[k - a.len()]);
            }
        }
    }
}

proof fn lemma_key_index_bounds(es: Seq<(Seq<char>, Node)>, k: Seq<char>)
    ensures
        0 <= key_index(es, k) <= es.len(),
    decreases es.len(),
{
    if es.len() > 0 && es[0].0 != k {
        lemma_key_index_bounds(es.drop_first(), k);
    }
}

proof fn lemma_field_node(fs: Seq<(Seq<char>, Value)>, i: int)
    requires
        fields_supported(fs),
        0 <= i < fs.len(),
    ensures
        field_node(entries_of(fs), fs[i].0) == node_for(fs[i].1),
    decreases fs.len(),
{
    lemma_fields_rest(fs);
    let rest = fs.subrange(1, fs.len() as int);
    let e = entries_of(fs);
    let e2 = entries_of(rest);
    let nonvacant = flatten(fs[0].1).len() > 0;
    if nonvacant {
        assert(e == seq![(fs[0].0, tree_of(fs[0].1))] + e2);
        assert(e.drop_first() =~= e2);
    } else {
        assert(e =~= e2);
    }
    if i == 0 {
        if nonvacant {
            lemma_key_index(e, fs[0].0, 0);
        } else {
            assert forall|j: int| 0 <= j < rest.len() implies (#[trigger] rest[j]).0 != fs[0].0 by {
                assert(rest[j] == fs[j + 1]);
            }
            lemma_entries_keys(rest, fs[0].0);
            lemma_key_index(e2, fs[0].0, e2.len() as int);
        }
    } else {
        assert(rest[i - 1] == fs[i]);
        lemma_field_node(rest, i - 1);
        if nonvacant {
            assert(e[0].0 != fs[i].0);
            let idx = key_index(e2, fs[i].0);
            lemma_key_index_bounds(e2, fs[i].0);
            assert(key_index(e, fs[i].0) == 1 + idx);
            if idx < e2.len() {
                assert(e[1 + idx] == e2[idx]);
            }
        }
    }
}

proof fn lemma_read_value(v: Value)
    requires
        supported(v),
    ensures
        read(tree_of(v), v) == Some(v),
    decreases v, 1int,
{
    match v {
        Value::Text(t) => {
            let ps = flatten(v);
            assert(ps.drop_last() =~= Seq::<(Seq<Seq<char>>, Seq<char>)>::empty());
            assert(fold(Node::Unset, ps.drop_last()) == Node::Unset);
            assert(ps.last() == (Seq::<Seq<char>>::empty(), t));
            assert(tree_of(v) == insert(Node::Unset, Seq::empty(), t));
        },
        Value::List(items) => {
            let ps = flatten(v);
            assert(ps.drop_last() =~= Seq::<(Seq<Seq<char>>, Seq<char>)>::empty());
            assert(fold(Node::Unset, ps.drop_last()) == Node::Unset);
            assert(ps.last() == (Seq::<Seq<char>>::empty(), joined(items)));
            assert(tree_of(v) == Node::Scalar(joined(items)));
            lemma_sequence_round_trip(items);
        },
        Value::Absent => {},
        Value::Fields(gs) => {
            let ps = flatten_fields(gs);
            lemma_fields_paths_valid(gs);
            assert(valid_path(ps[0].0));
            lemma_fold_unset(ps);
            lemma_fold_fields(Seq::empty(), gs);
            assert(Seq::<(Seq<char>, Node)>::empty() + entries_of(gs) =~= entries_of(gs));
            assert forall|i: int| 0 <= i < gs.len() implies field_node(
                entries_of(gs),
                (#[trigger] gs[i]).0,
            ) == node_for(gs[i].1) by {
                lemma_field_node(gs, i);
            }
            lemma_read_fields(entries_of(gs), gs);
        },
    }
}

proof fn lemma_read_fields(es: Seq<(Seq<char>, Node)>, fs: Seq<(Seq<char>, Value)>)
    requires
        fields_supported(fs),
        forall|i: int| 0 <= i < fs.len() ==> field_node(es, (#[trigger] fs[i]).0) == node_for(fs[i].1),
    ensures
        read_fields(es, fs) == Some(fs),
    decreases fs, 0int,
{
    if fs.len() == 0 {
        assert(fs =~= Seq::<(Seq<char>, Value)>::empty());
    } else {
        lemma_fields_rest(fs);
        let rest = fs.subrange(1, fs.len() as int);
        let v0 = fs[0].1;
        assert(field_node(es, fs[0].0) == node_for(v0));
        if flatten(v0).len() > 0 {
            lemma_read_value(v0);
        } else {
            assert(v0 is Absent);
        }
        assert forall|i: int| 0 <= i < rest.len() implies field_node(es, (#[trigger] rest[i]).0)
            == node_for(rest[i].1) by {
            assert(rest[i] == fs[i + 1]);
        }
        lemma_read_fields(es, rest);
        assert(seq![(fs[0].0, v0)] + rest =~= fs);
    }
}

/// Encoding a record whose fields the wire format carries, decoding the
/// bytes, and reading the tree in the record's shape gives the record back.
pub proof fn lemma_record_round_trip(fs: Seq<(Seq<char>, Value)>)
    requires
        fields_supported(fs),
    ensures
        parsed(wire(keyed(flatten_fields(fs)))) matches Ok(n) && read(n, Value::Fields(fs))
            == Some(Value::Fields(fs)),
{
    let ps = flatten_fields(fs);
    lemma_fields_paths_valid(fs);
    lemma_wire_round_trip(ps);
    lemma_build_is_fold(ps, 0, Node::Record(Seq::empty()));
    assert(ps.subrange(0, 0) =~= Seq::<(Seq<Seq<char>>, Seq<char>)>::empty());
    lemma_fold_fields(Seq::empty(), fs);
    assert(Seq::<(Seq<char>, Node)>::empty() + entries_of(fs) =~= entries_of(fs));
    assert forall|i: int| 0 <= i < fs.len() implies field_node(entries_of(fs), (#[trigger] fs[i]).0)
        == node_for(fs[i].1) by {
        lemma_field_node(fs, i);
    }
    lemma_read_fields(entries_of(fs), fs);
}


/// Decoding is a function of the bytes alone: two decodings of the same bytes
/// succeed or fail together, hand out the same fields at the same key path,
/// and report the same fault.
pub proof fn lemma_decoding_deterministic(
    input: Seq<u8>,
    r1: Result<Deserializer, Error>,
    r2: Result<Deserializer, Error>,
)
    requires
        decodes(input, r1),
        decodes(input, r2),
    ensures
        r1 is Ok <==> r2 is Ok,
        r1 is Ok ==> r1->Ok_0.fields() == r2->Ok_0.fields() && r1->Ok_0.key_path()
            == r2->Ok_0.key_path(),
        r1 is Err ==> (parsed(input) matches Err(f) && reports(r1->Err_0, f) && reports(
            r2->Err_0,
            f,
        )),
{
}

/// Writing two values at the same single-segment key poisons that field
/// alone: the record's other fields stay as they were.
pub proof fn lemma_duplicate_poisons_only_its_field(
    es: Seq<(Seq<char>, Node)>,
    k: Seq<char>,
    v1: Seq<char>,
    v2: Seq<char>,
)
    requires
        forall|j: int| 0 <= j < es.len() ==> es[j].0 != k,
    ensures
        insert(insert(Node::Record(es), seq![k], v1), seq![k], v2) == Node::Record(
            es.push((k, Node::Ambiguous(Conflict::DuplicateKey))),
        ),
{
    lemma_key_index(es, k, es.len() as int);
    assert(seq![k].drop_first() =~= Seq::<Seq<char>>::empty());
    let es1 = es.push((k, Node::Scalar(v1)));
    assert(seq![k][0] == k);
    assert(insert(Node::Unset, Seq::empty(), v1) == Node::Scalar(v1));
    assert(insert_entries(es, seq![k], v1) == es1);
    assert(insert(Node::Record(es), seq![k], v1) == Node::Record(es1));
    assert(insert(Node::Scalar(v1), Seq::empty(), v2) == Node::Ambiguous(Conflict::DuplicateKey));
    assert forall|j: int| 0 <= j < es.len() implies es1[j].0 != k by {
        assert(es1[j] == es[j]);
    }
    lemma_key_index(es1, k, es.len() as int);
    assert(es1.update(es.len() as int, (k, Node::Ambiguous(Conflict::DuplicateKey))) =~= es.push(
        (k, Node::Ambiguous(Conflict::DuplicateKey)),
    ));
}

} // verus!
