use crate::error::Conflict;
use vstd::prelude::*;

verus! {

/// A node of the value tree, as the contracts see it.
pub enum Node {
    /// A record reached through dot-delimited keys: its fields in the order
    /// in which they were first written.
    Record(Seq<(Seq<char>, Node)>),
    /// A decoded leaf text; possibly empty.
    Scalar(Seq<char>),
    /// A node that received conflicting writes.
    Ambiguous(Conflict),
    /// A node that nothing was written to yet.
    Unset,
}

/// A node of the value tree that the parser builds.
#[derive(Debug)]
pub enum Level {
    Nested(Vec<(String, Level)>),
    Flat(String),
    Invalid(Conflict),
    Uninitialized,
}

pub open spec fn level_view(l: Level) -> Node
    decreases l, 1int,
{
    match l {
        Level::Nested(es) => Node::Record(entries_view(es@)),
        Level::Flat(s) => Node::Scalar(s@),
        Level::Invalid(c) => Node::Ambiguous(c),
        Level::Uninitialized => Node::Unset,
    }
}

pub open spec fn entries_view(es: Seq<(String, Level)>) -> Seq<(Seq<char>, Node)>
    decreases es, 0int,
{
    if es.len() == 0 {
        Seq::empty()
    } else {
        let last = es[es.len() - 1];
        entries_view(es.subrange(0, es.len() - 1)).push((last.0@, level_view(last.1)))
    }
}

impl View for Level {
    type V = Node;

    open spec fn view(&self) -> Node {
        level_view(*self)
    }
}


/// The field entries of a record node, or none for a node that is not one.
pub open spec fn record_entries(n: Node) -> Seq<(Seq<char>, Node)> {
    match n {
        Node::Record(es) => es,
        _ => Seq::empty(),
    }
}

/// The index of the first entry named `k`, or the number of entries if none is.
pub open spec fn key_index(es: Seq<(Seq<char>, Node)>, k: Seq<char>) -> int
    decreases es.len(),
{
    if es.len() == 0 {
        0
    } else if es[0].0 == k {
        0
    } else {
        1 + key_index(es.drop_first(), k)
    }
}

/// The node that writing `value` at the key path `path`, below `n`, leaves.
///
/// At the end of the path the value lands on a node that nothing was written
/// to yet; landing on any other node poisons it as a duplicate. On the way, a
/// record (or a node not yet written, which becomes one) is entered through
/// the field of the segment's name, which is added if new; a scalar on the way
/// is poisoned. A poisoned node stays poisoned.
pub open spec fn insert(n: Node, path: Seq<Seq<char>>, value: Seq<char>) -> Node
    decreases path.len(), 1int,
{
    match n {
        Node::Ambiguous(_) => n,
        Node::Unset => if path.len() == 0 {
            Node::Scalar(value)
        } else {
            Node::Record(insert_entries(Seq::empty(), path, value))
        },
        Node::Scalar(_) => if path.len() == 0 {
            Node::Ambiguous(Conflict::DuplicateKey)
        } else {
            Node::Ambiguous(Conflict::NotARecord)
        },
        Node::Record(es) => if path.len() == 0 {
            Node::Ambiguous(Conflict::DuplicateKey)
        } else {
            Node::Record(insert_entries(es, path, value))
        },
    }
}

/// The entries of a record after writing `value` at `path` (not empty) below it.
pub open spec fn insert_entries(
    es: Seq<(Seq<char>, Node)>,
    path: Seq<Seq<char>>,
    value: Seq<char>,
) -> Seq<(Seq<char>, Node)>
    decreases path.len(), 0int,
{
    if path.len() == 0 {
        es
    } else {
        let k = path[0];
        let i = key_index(es, k);
        if i < es.len() {
            es.update(i, (k, insert(es[i].1, path.drop_first(), value)))
        } else {
            es.push((k, insert(Node::Unset, path.drop_first(), value)))
        }
    }
}

pub proof fn lemma_entries_view(es: Seq<(String, Level)>)
    ensures
        entries_view(es).len() == es.len(),
        forall|i: int|
            0 <= i < es.len() ==> #[trigger] entries_view(es)[i] == (es[i].0@, es[i].1@),
    decreases es.len(),
{
    if es.len() > 0 {
        lemma_entries_view(es.subrange(0, es.len() - 1));
    }
}

pub proof fn lemma_entries_view_push(es: Seq<(String, Level)>, e: (String, Level))
    ensures
        entries_view(es.push(e)) == entries_view(es).push((e.0@, e.1@)),
{
    assert(es.push(e).subrange(0, es.len() as int) == es);
}

pub proof fn lemma_entries_view_update(es: Seq<(String, Level)>, i: int, e: (String, Level))
    requires
        0 <= i < es.len(),
    ensures
        entries_view(es.update(i, e)) == entries_view(es).update(i, (e.0@, e.1@)),
{
    lemma_entries_view(es);
    lemma_entries_view(es.update(i, e));
    assert(entries_view(es.update(i, e)) =~= entries_view(es).update(i, (e.0@, e.1@)));
}

/// Whether the first `i` entries are all named otherwise than `k`, and the
/// `i`-th, if there is one, is named `k`.
pub proof fn lemma_key_index(es: Seq<(Seq<char>, Node)>, k: Seq<char>, i: int)
    requires
        0 <= i <= es.len(),
        forall|j: int| 0 <= j < i ==> es[j].0 != k,
        i < es.len() ==> es[i].0 == k,
    ensures
        key_index(es, k) == i,
    decreases es.len(),
{
    if es.len() > 0 && i > 0 {
        lemma_key_index(es.drop_first(), k, i - 1);
    }
}

/// Finds the first entry named `k`.
fn find_entry(entries: &Vec<(String, Level)>, k: &String) -> (r: usize)
    ensures
        r as int == key_index(entries_view(entries@), k@),
        r <= entries.len(),
        r < entries.len() ==> entries@[r as int].0@ == k@,
{
    proof {
        lemma_entries_view(entries@);
    }
    let mut i: usize = 0;
    while i < entries.len()
        invariant
            i <= entries.len(),
            entries_view(entries@).len() == entries@.len(),
            forall|j: int|
                0 <= j < entries@.len() ==> #[trigger] entries_view(entries@)[j] == (
                    entries@[j].0@,
                    entries@[j].1@,
                ),
            forall|j: int| 0 <= j < i ==> entries_view(entries@)[j].0 != k@,
        decreases entries.len() - i,
    {
        if entries[i].0 == *k {
            proof {
                lemma_key_index(entries_view(entries@), k@, i as int);
            }
            return i;
        }
        i = i + 1;
    }
    proof {
        lemma_key_index(entries_view(entries@), k@, i as int);
    }
    i
}

impl Level {
    /// Writes `value` at the key path `path[at..]` below this node, as
    /// [`insert`] says: a conflicting write poisons the node it lands on
    /// instead of failing.
    pub fn insert_map_value(&mut self, path: &Vec<String>, at: usize, value: String)
        requires
            at <= path.len(),
        ensures
            final(self)@ == insert(
                old(self)@,
                path.deep_view().subrange(at as int, path.len() as int),
                value@,
            ),
        decreases path.len() - at, 1int,
    {
        let ghost p = path.deep_view().subrange(at as int, path.len() as int);
        let last = at == path.len();
        match self {
            Level::Invalid(_) => {},
            Level::Flat(_) => {
                *self = Level::Invalid(
                    if last {
                        Conflict::DuplicateKey
                    } else {
                        Conflict::NotARecord
                    },
                );
            },
            Level::Nested(entries) => {
                if last {
                    *self = Level::Invalid(Conflict::DuplicateKey);
                } else {
                    insert_entry(entries, path, at, value);
                }
            },
            Level::Uninitialized => {
                if last {
                    *self = Level::Flat(value);
                } else {
                    let mut entries: Vec<(String, Level)> = Vec::new();
                    proof {
                        assert(entries_view(entries@) == Seq::<(Seq<char>, Node)>::empty());
                    }
                    insert_entry(&mut entries, path, at, value);
                    *self = Level::Nested(entries);
                }
            },
        }
    }
}

/// Writes `value` at the key path `path[at..]` (not empty) into the entries
/// of a record.
fn insert_entry(entries: &mut Vec<(String, Level)>, path: &Vec<String>, at: usize, value: String)
    requires
        at < path.len(),
    ensures
        entries_view(final(entries)@) == insert_entries(
            entries_view(old(entries)@),
            path.deep_view().subrange(at as int, path.len() as int),
            value@,
        ),
    decreases path.len() - at, 0int,
{
    let ghost p = path.deep_view().subrange(at as int, path.len() as int);
    let ghost old_es = entries_view(entries@);
    assert(p[0] == path[at as int]@);
    assert(p.drop_first() == path.deep_view().subrange(at + 1, path.len() as int));
    let k = path[at].clone();
    let i = find_entry(entries, &k);
    proof {
        lemma_entries_view(entries@);
    }
    if i < entries.len() {
        let ghost before = entries@;
        entries[i].1.insert_map_value(path, at + 1, value);
        proof {
            assert(entries@ == before.update(i as int, entries@[i as int]));
            lemma_entries_view_update(before, i as int, entries@[i as int]);
            assert(entries_view(entries@) == insert_entries(old_es, p, value@));
        }
    } else {
        let ghost before = entries@;
        let mut child = Level::Uninitialized;
        child.insert_map_value(path, at + 1, value);
        entries.push((k, child));
        proof {
            lemma_entries_view_push(before, entries@.last());
            assert(entries_view(entries@) == insert_entries(old_es, p, value@));
        }
    }
}

} // verus!
