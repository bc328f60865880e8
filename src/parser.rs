use crate::error::{DecodeCause, Error};
use crate::level::{insert, Level, Node};
use crate::text::{decode_range, decode_segment};
use vstd::prelude::*;

verus! {

/// Why a byte string is not a well-formed query string.
pub enum Fault {
    /// An empty key segment starts at this offset.
    EmptySegment(int),
    /// The segment at this offset cannot be decoded.
    Undecodable(int, DecodeCause),
}

/// Whether `e` is the error that reports `f`.
pub open spec fn reports(e: Error, f: Fault) -> bool {
    match f {
        Fault::EmptySegment(o) => e matches Error::Parse(m, p) && p == o && m@
            == "empty key segment"@,
        Fault::Undecodable(o, c) => e matches Error::Decode(p, c2) && p == o && c2 == c,
    }
}

/// Bytes that end a key segment.
pub open spec fn is_stop(b: u8) -> bool {
    b == 46 || b == 61 || b == 38
}

/// The first index at or after `a` that holds a `.`, `=` or `&`, or the length.
pub open spec fn find_stop(s: Seq<u8>, a: int) -> int
    decreases s.len() - a,
{
    if a >= s.len() {
        s.len() as int
    } else if is_stop(s[a]) {
        a
    } else {
        find_stop(s, a + 1)
    }
}

/// The first index at or after `a` that holds a `&`, or the length.
pub open spec fn find_amp(s: Seq<u8>, a: int) -> int
    decreases s.len() - a,
{
    if a >= s.len() {
        s.len() as int
    } else if s[a] == 38 {
        a
    } else {
        find_amp(s, a + 1)
    }
}

pub proof fn lemma_find_stop(s: Seq<u8>, a: int)
    requires
        0 <= a <= s.len(),
    ensures
        a <= find_stop(s, a) <= s.len(),
        find_stop(s, a) < s.len() ==> is_stop(s[find_stop(s, a)]),
    decreases s.len() - a,
{
    if a < s.len() && !is_stop(s[a]) {
        lemma_find_stop(s, a + 1);
    }
}

pub proof fn lemma_find_amp(s: Seq<u8>, a: int)
    requires
        0 <= a <= s.len(),
    ensures
        a <= find_amp(s, a) <= s.len(),
    decreases s.len() - a,
{
    if a < s.len() && s[a] != 38 {
        lemma_find_amp(s, a + 1);
    }
}

/// The decoded text of `s[a..d]`, or the fault at its offset in `s`.
pub open spec fn decode_at(s: Seq<u8>, a: int, d: int) -> Result<Seq<char>, Fault> {
    match decode_segment(s.subrange(a, d)) {
        Ok(t) => Ok(t),
        Err((o, c)) => Err(Fault::Undecodable(a + o, c)),
    }
}

/// The key path that starts at `a`: its decoded segments, and the offset of
/// the byte that ends it (a `=`, a `&`, or the end of the input).
pub open spec fn parse_segments(s: Seq<u8>, a: int) -> Result<(Seq<Seq<char>>, int), Fault>
    decreases s.len() - a,
{
    let d = find_stop(s, a);
    if a < 0 || a > s.len() || d == a {
        Err(Fault::EmptySegment(a))
    } else {
        match decode_at(s, a, d) {
            Err(f) => Err(f),
            Ok(seg) => if d < s.len() && s[d] == 46 {
                proof {
                    lemma_find_stop(s, a);
                }
                match parse_segments(s, d + 1) {
                    Err(f) => Err(f),
                    Ok((rest, k)) => Ok((seq![seg] + rest, k)),
                }
            } else {
                Ok((seq![seg], d))
            },
        }
    }
}

/// The pair that starts at `i`: its key path, its decoded value (empty when
/// the key has no `=`), and the offset of the `&` or end that closes it.
pub open spec fn parse_pair(s: Seq<u8>, i: int) -> Result<
    (Seq<Seq<char>>, Seq<char>, int),
    Fault,
> {
    match parse_segments(s, i) {
        Err(f) => Err(f),
        Ok((p, k)) => if k < s.len() && s[k] == 61 {
            let j = find_amp(s, k + 1);
            match decode_at(s, k + 1, j) {
                Err(f) => Err(f),
                Ok(v) => Ok((p, v, j)),
            }
        } else {
            Ok((p, seq![], k))
        },
    }
}

pub proof fn lemma_parse_segments(s: Seq<u8>, a: int)
    ensures
        parse_segments(s, a) matches Ok((p, k)) ==> {
            &&& 0 <= a < k <= s.len()
            &&& p.len() >= 1
            &&& (k == s.len() || s[k] == 61 || s[k] == 38)
        },
    decreases s.len() - a,
{
    let d = find_stop(s, a);
    if 0 <= a <= s.len() && d != a {
        lemma_find_stop(s, a);
        if d < s.len() && s[d] == 46 {
            lemma_parse_segments(s, d + 1);
        }
    }
}

pub proof fn lemma_parse_pair(s: Seq<u8>, i: int)
    ensures
        parse_pair(s, i) matches Ok((p, v, j)) ==> {
            &&& 0 <= i < j <= s.len()
            &&& p.len() >= 1
            &&& (j == s.len() || s[j] == 38)
        },
{
    lemma_parse_segments(s, i);
    if let Ok((p, k)) = parse_segments(s, i) {
        if k < s.len() && s[k] == 61 {
            lemma_find_amp(s, k + 1);
            lemma_find_amp_hit(s, k + 1);
        }
    }
}

pub proof fn lemma_find_amp_hit(s: Seq<u8>, a: int)
    requires
        0 <= a <= s.len(),
    ensures
        find_amp(s, a) == s.len() || s[find_amp(s, a)] == 38,
    decreases s.len() - a,
{
    if a < s.len() && s[a] != 38 {
        lemma_find_amp_hit(s, a + 1);
    }
}

/// What is left to parse from offset `i`, into the tree `root`: pairs are
/// separated by `&`, empty pairs are skipped, and each pair is written into
/// the tree as [`insert`] says. The first fault ends the parse.
pub open spec fn parse_from(s: Seq<u8>, i: int, root: Node) -> Result<Node, Fault>
    decreases s.len() + 1 - i,
{
    if i < 0 || i >= s.len() {
        Ok(root)
    } else if s[i] == 38 {
        parse_from(s, i + 1, root)
    } else {
        match parse_pair(s, i) {
            Err(f) => Err(f),
            Ok((p, v, j)) => {
                proof {
                    lemma_parse_pair(s, i);
                }
                parse_from(s, j + 1, insert(root, p, v))
            },
        }
    }
}

/// The value tree of a whole query string.
pub open spec fn parsed(s: Seq<u8>) -> Result<Node, Fault> {
    parse_from(s, 0, Node::Record(Seq::empty()))
}

/// A cursor over the bytes of a query string, with one byte of lookahead and
/// a mark where the segment being read began.
pub struct Parser<'a> {
    inner: &'a [u8],
    head: usize,
    tail: usize,
}

impl<'a> Parser<'a> {
    /// The bytes being read.
    pub closed spec fn input(&self) -> Seq<u8> {
        self.inner@
    }

    /// The offset of the next byte.
    pub closed spec fn position(&self) -> int {
        self.head as int
    }

    /// The offset where the segment being read began.
    pub closed spec fn marked(&self) -> int {
        self.tail as int
    }

    pub closed spec fn wf(&self) -> bool {
        self.tail <= self.head <= self.inner@.len()
    }

    pub fn new(encoded: &'a [u8]) -> (r: Self)
        ensures
            r.wf(),
            r.input() == encoded@,
            r.position() == 0,
            r.marked() == 0,
    {
        Parser { inner: encoded, head: 0, tail: 0 }
    }

    /// The next byte, if there is one.
    pub fn peek(&self) -> (r: Option<u8>)
        requires
            self.wf(),
        ensures
            r == if self.position() < self.input().len() {
                Some(self.input()[self.position()])
            } else {
                None::<u8>
            },
    {
        if self.head < self.inner.len() {
            Some(self.inner[self.head])
        } else {
            None
        }
    }

    /// Consumes and returns the next byte, if there is one.
    pub fn advance(&mut self) -> (r: Option<u8>)
        requires
            old(self).wf(),
        ensures
            final(self).wf(),
            final(self).input() == old(self).input(),
            final(self).marked() == old(self).marked(),
            r == if old(self).position() < old(self).input().len() {
                Some(old(self).input()[old(self).position()])
            } else {
                None::<u8>
            },
            final(self).position() == if r is Some {
                old(self).position() + 1
            } else {
                old(self).position()
            },
    {
        if self.head < self.inner.len() {
            let b = self.inner[self.head];
            self.head = self.head + 1;
            Some(b)
        } else {
            None
        }
    }

    /// Starts a new segment at the current position.
    pub fn shrink(&mut self)
        requires
            old(self).wf(),
        ensures
            final(self).wf(),
            final(self).input() == old(self).input(),
            final(self).position() == old(self).position(),
            final(self).marked() == old(self).position(),
    {
        self.tail = self.head;
    }

    /// Decodes the segment from the mark up to the current position, and
    /// starts a new one there.
    pub fn collect_str(&mut self) -> (r: Result<String, Error>)
        requires
            old(self).wf(),
        ensures
            final(self).wf(),
            final(self).input() == old(self).input(),
            final(self).position() == old(self).position(),
            final(self).marked() == old(self).position(),
            match decode_at(old(self).input(), old(self).marked(), old(self).position()) {
                Ok(t) => r matches Ok(x) && x@ == t,
                Err(f) => r matches Err(e) && reports(e, f),
            },
    {
        let r = decode_range(self.inner, self.tail, self.head);
        self.tail = self.head;
        r
    }

    /// Moves to the next `.`, `=` or `&`, or to the end.
    fn skip_to_stop(&mut self)
        requires
            old(self).wf(),
        ensures
            final(self).wf(),
            final(self).input() == old(self).input(),
            final(self).marked() == old(self).marked(),
            final(self).position() == find_stop(old(self).input(), old(self).position()),
    {
        loop
            invariant
                self.wf(),
                self.input() == old(self).input(),
                self.marked() == old(self).marked(),
                find_stop(self.input(), old(self).position()) == find_stop(self.input(), self.position()),
            decreases self.input().len() - self.position(),
        {
            match self.peek() {
                Some(b) => {
                    if b == 46 || b == 61 || b == 38 {
                        return;
                    }
                    self.advance();
                },
                None => {
                    return;
                },
            }
        }
    }

    /// Moves to the next `&`, or to the end.
    fn skip_to_amp(&mut self)
        requires
            old(self).wf(),
        ensures
            final(self).wf(),
            final(self).input() == old(self).input(),
            final(self).marked() == old(self).marked(),
            final(self).position() == find_amp(old(self).input(), old(self).position()),
    {
        loop
            invariant
                self.wf(),
                self.input() == old(self).input(),
                self.marked() == old(self).marked(),
                find_amp(self.input(), old(self).position()) == find_amp(self.input(), self.position()),
            decreases self.input().len() - self.position(),
        {
            match self.peek() {
                Some(b) => {
                    if b == 38 {
                        return;
                    }
                    self.advance();
                },
                None => {
                    return;
                },
            }
        }
    }

    /// Reads the key path that starts at the current position, up to the `=`,
    /// `&` or end that closes it.
    fn parse_key(&mut self) -> (r: Result<Vec<String>, Error>)
        requires
            old(self).wf(),
        ensures
            final(self).wf(),
            final(self).input() == old(self).input(),
            match parse_segments(old(self).input(), old(self).position()) {
                Ok((p, k)) => final(self).position() == k && (r matches Ok(path)
                    && path.deep_view() == p),
                Err(f) => r matches Err(e) && reports(e, f),
            },
    {
        let ghost s = old(self).input();
        let ghost start = old(self).position();
        let mut path: Vec<String> = Vec::new();
        loop
            invariant
                self.wf(),
                self.input() == s,
                s == old(self).input(),
                start == old(self).position(),
                match parse_segments(s, self.position()) {
                    Ok((p, k)) => parse_segments(s, start) == Ok::<_, Fault>(
                        (path.deep_view() + p, k),
                    ),
                    Err(f) => parse_segments(s, start) == Err::<(Seq<Seq<char>>, int), _>(f),
                },
            decreases s.len() - self.position(),
        {
            let ghost a = self.position();
            self.shrink();
            self.skip_to_stop();
            proof {
                lemma_find_stop(s, a);
            }
            if self.head == self.tail {
                return Err(Error::parse_error("empty key segment", self.head));
            }
            let seg = match self.collect_str() {
                Ok(t) => t,
                Err(e) => {
                    return Err(e);
                },
            };
            let ghost before = path.deep_view();
            path.push(seg);
            proof {
                assert(path.deep_view() =~= before + seq![seg@]);
            }
            if self.peek() == Some(46u8) {
                self.advance();
                proof {
                    if let Ok((rest, k)) = parse_segments(s, self.position()) {
                        assert(before + (seq![seg@] + rest) =~= path.deep_view() + rest);
                    }
                }
            } else {
                proof {
                    assert(before + seq![seg@] =~= path.deep_view());
                }
                return Ok(path);
            }
        }
    }

    /// After the key path `path`, which ends at the current position, reads
    /// the value (empty when no `=` follows) and writes it at `path` into
    /// `root`.
    fn parse_map_value(&mut self, path: &Vec<String>, root: &mut Level) -> (r: Result<(), Error>)
        requires
            old(self).wf(),
        ensures
            final(self).wf(),
            final(self).input() == old(self).input(),
            ({
                let s = old(self).input();
                let k = old(self).position();
                if k < s.len() && s[k] == 61 {
                    let j = find_amp(s, k + 1);
                    match decode_at(s, k + 1, j) {
                        Ok(v) => r is Ok && final(root)@ == insert(old(root)@, path.deep_view(), v)
                            && final(self).position() == j,
                        Err(f) => r matches Err(e) && reports(e, f),
                    }
                } else {
                    r is Ok && final(root)@ == insert(old(root)@, path.deep_view(), seq![])
                        && final(self).position() == k
                }
            }),
    {
        let value = if self.peek() == Some(61u8) {
            self.advance();
            self.shrink();
            self.skip_to_amp();
            match self.collect_str() {
                Ok(v) => v,
                Err(e) => {
                    return Err(e);
                },
            }
        } else {
            String::new()
        };
        assert(path.deep_view().subrange(0, path.len() as int) == path.deep_view());
        root.insert_map_value(path, 0, value);
        Ok(())
    }

    /// Reads the next pair and writes it into `root`; `false` once the input
    /// is used up. A `&` with nothing before it is an empty pair, skipped.
    fn parse(&mut self, root: &mut Level) -> (r: Result<bool, Error>)
        requires
            old(self).wf(),
        ensures
            final(self).wf(),
            final(self).input() == old(self).input(),
            ({
                let s = old(self).input();
                match r {
                    Ok(more) => {
                        &&& more == (old(self).position() < s.len())
                        &&& more ==> final(self).position() > old(self).position()
                        &&& !more ==> final(self).position() == old(self).position()
                            && final(root)@ == old(root)@
                        &&& parse_from(s, final(self).position(), final(root)@) == parse_from(
                            s,
                            old(self).position(),
                            old(root)@,
                        )
                    },
                    Err(e) => parse_from(s, old(self).position(), old(root)@) matches Err(f)
                        && reports(e, f),
                }
            }),
    {
        let ghost s = old(self).input();
        let ghost i = old(self).position();
        match self.advance() {
            None => {
                return Ok(false);
            },
            Some(38u8) => {
                return Ok(true);
            },
            Some(_) => {},
        }
        self.head = self.head - 1;
        proof {
            lemma_parse_pair(s, i);
            lemma_parse_segments(s, i);
            assert(s[i] != 38);
            assert(parse_from(s, i, old(root)@) == match parse_pair(s, i) {
                Err(f) => Err(f),
                Ok((p, v, j)) => parse_from(s, j + 1, insert(old(root)@, p, v)),
            });
        }
        let path = match self.parse_key() {
            Ok(p) => p,
            Err(e) => {
                return Err(e);
            },
        };
        match self.parse_map_value(&path, root) {
            Ok(()) => {},
            Err(e) => {
                return Err(e);
            },
        }
        self.advance();
        Ok(true)
    }

    /// Parses the whole input into a value tree, as [`parsed`] says.
    pub fn as_deserializer(&mut self) -> (r: Result<Level, Error>)
        requires
            old(self).wf(),
            old(self).position() == 0,
        ensures
            match parsed(old(self).input()) {
                Ok(n) => r matches Ok(l) && l@ == n,
                Err(f) => r matches Err(e) && reports(e, f),
            },
    {
        let ghost s = old(self).input();
        let mut root = Level::Nested(Vec::new());
        assert(root@ == Node::Record(Seq::empty()));
        loop
            invariant
                self.wf(),
                self.input() == s,
                s == old(self).input(),
                parse_from(s, self.position(), root@) == parsed(s),
            decreases s.len() - self.position(),
        {
            match self.parse(&mut root) {
                Ok(true) => {},
                Ok(false) => {
                    return Ok(root);
                },
                Err(e) => {
                    return Err(e);
                },
            }
        }
    }
}

} // verus!
