//! Session delta persistence: a path-addressed store of serialized delta
//! batches inside a session's deltas directory.
//!
//! The writer models the store as a map from full file path to file
//! content; each write serializes one batch and fully replaces the
//! content at its path. The caller performs the actual disk I/O and the
//! repository-wide mutual exclusion around it; a session must exist (be
//! created if absent) before the writer is constructed.

use vstd::prelude::*;
use crate::json::{json_deltas, serialize_deltas, Delta};

verus! {

/// An established session: the directory delta files are rooted in.
#[derive(Debug, Clone, PartialEq)]
pub struct Session {
    pub deltas_dir: String,
}

/// The failures the writer propagates to the caller.
#[derive(Clone, Copy, Debug, PartialEq, Eq, Structural)]
pub enum WriterError {
    /// The backing session could not be obtained or created.
    SessionNotAvailable,
}

/// The full path a relative delta path is stored under.
pub open spec fn joined(dir: Seq<char>, path: Seq<char>) -> Seq<char> {
    dir + "/"@ + path
}

/// The path-to-content map an entry list denotes; a later entry for the
/// same path wins.
pub open spec fn entries_map(es: Seq<(String, String)>) -> Map<Seq<char>, Seq<char>>
    decreases es.len(),
{
    if es.len() == 0 {
        Map::empty()
    } else {
        entries_map(es.drop_last()).insert(es.last().0@, es.last().1@)
    }
}

/// Appends serialized delta batches to a per-session, path-addressed
/// store; each write fully replaces the content at its path.
pub struct DeltasWriter {
    session: Session,
    entries: Vec<(String, String)>,
}

impl DeltasWriter {
    /// The deltas directory all writes are rooted in.
    pub closed spec fn session_dir(&self) -> Seq<char> {
        self.session.deltas_dir@
    }

    /// The store's content: full path to file content.
    pub closed spec fn store(&self) -> Map<Seq<char>, Seq<char>> {
        entries_map(self.entries@)
    }

    /// A writer over the given session; fails exactly when no session
    /// could be established.
    pub fn new(session: Option<Session>) -> (r: Result<DeltasWriter, WriterError>)
        ensures
            session is Some <==> r is Ok,
            session matches Some(s) ==> (r matches Ok(w) && w.session_dir() == s.deltas_dir@
                && w.store() == Map::<Seq<char>, Seq<char>>::empty()),
            r matches Err(e) ==> e == WriterError::SessionNotAvailable,
    {
        match session {
            Some(s) => Ok(DeltasWriter { session: s, entries: Vec::new() }),
            None => Err(WriterError::SessionNotAvailable),
        }
    }

    /// Serialize a batch and store it at the session path for `path`,
    /// replacing whatever was there; returns the serialized content for
    /// the caller to persist under the same exclusion region.
    pub fn write(&mut self, path: &String, deltas: &Vec<Delta>) -> (r: String)
        ensures
            final(self).session_dir() == old(self).session_dir(),
            final(self).store() == old(self).store().insert(
                joined(old(self).session_dir(), path@),
                json_deltas(deltas@),
            ),
            r@ == json_deltas(deltas@),
    {
        let raw_deltas = serialize_deltas(deltas);
        let full = self.full_path(path);
        let ghost es0 = self.entries@;
        self.entries.push((full, raw_deltas.clone()));
        proof {
            assert(self.entries@.drop_last() =~= es0);
        }
        raw_deltas
    }

    /// The stored content at the session path for `path`, if any.
    pub fn content_at(&self, path: &String) -> (r: Option<&String>)
        ensures
            match r {
                Some(b) => self.store().contains_key(joined(self.session_dir(), path@))
                    && b@ == self.store()[joined(self.session_dir(), path@)],
                None => !self.store().contains_key(joined(self.session_dir(), path@)),
            },
    {
        let full = self.full_path(path);
        let ghost key = joined(self.session_dir(), path@);
        let mut i: usize = self.entries.len();
        while i > 0
            invariant
                i <= self.entries@.len(),
                forall|m: int| i <= m < self.entries@.len() ==> (#[trigger] self.entries@[m]).0@
                    != key,
                key == full@,
                key == joined(self.session_dir(), path@),
            decreases i,
        {
            i = i - 1;
            if self.entries[i].0 == full {
                proof {
                    lemma_entries_map_skip(self.entries@, i + 1, key);
                    let pre = self.entries@.take(i + 1int);
                    assert(pre.drop_last() =~= self.entries@.take(i as int));
                    assert(pre.last() == self.entries@[i as int]);
                    assert(entries_map(pre) == entries_map(self.entries@.take(i as int)).insert(
                        self.entries@[i as int].0@,
                        self.entries@[i as int].1@,
                    ));
                    assert(self.entries@[i as int].0@ == key);
                    assert(entries_map(pre).contains_key(key));
                    assert(entries_map(pre)[key] == self.entries@[i as int].1@);
                    assert(self.store().contains_key(key));
                    assert(self.store()[key] == self.entries@[i as int].1@);
                }
                return Some(&self.entries[i].1);
            }
        }
        proof {
            lemma_entries_map_skip(self.entries@, 0, key);
            assert(self.entries@.take(0) =~= Seq::<(String, String)>::empty());
        }
        None
    }

    /// The full store path for a relative delta path.
    fn full_path(&self, path: &String) -> (r: String)
        ensures
            r@ == joined(self.session_dir(), path@),
    {
        let mut full = self.session.deltas_dir.clone();
        full.append("/");
        full.append(path.as_str());
        full
    }
}

/// Entries past `j` that all miss `key` do not affect its lookup.
proof fn lemma_entries_map_skip(es: Seq<(String, String)>, j: int, key: Seq<char>)
    requires
        0 <= j <= es.len(),
        forall|m: int| j <= m < es.len() ==> (#[trigger] es[m]).0@ != key,
    ensures
        entries_map(es).contains_key(key) == entries_map(es.take(j)).contains_key(key),
        entries_map(es.take(j)).contains_key(key) ==> entries_map(es)[key] == entries_map(
            es.take(j),
        )[key],
    decreases es.len() - j,
{
    if j == es.len() {
        assert(es.take(j) =~= es);
    } else {
        lemma_entries_map_skip(es, j + 1, key);
        assert(es.take(j + 1).drop_last() =~= es.take(j));
        assert(es.take(j + 1).last() == es[j]);
    }
}

/// Two writes to the same path leave only the second batch at that path:
/// a write replaces content, it never appends.
pub proof fn lemma_write_replaces(
    store: Map<Seq<char>, Seq<char>>,
    key: Seq<char>,
    first: Seq<char>,
    second: Seq<char>,
)
    ensures
        store.insert(key, first).insert(key, second) == store.insert(key, second),
{
    assert(store.insert(key, first).insert(key, second) =~= store.insert(key, second));
}

} // verus!
