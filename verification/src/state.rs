//! The in-memory program state: a mapping from artifact key to the time the
//! artifact was last used, expressed as a duration since the Unix epoch.

use vstd::prelude::*;

verus! {

/// A point in time, as a non-negative duration since the Unix epoch:
/// whole seconds plus a sub-second nanosecond part.
#[derive(Clone, Copy, PartialEq, Eq, Structural, Debug)]
pub struct Timestamp {
    pub secs: u64,
    pub nanos: u32,
}

impl Timestamp {
    /// A timestamp is well formed when its nanosecond part does not reach a
    /// whole second.
    pub open spec fn wf(self) -> bool {
        self.nanos < 1_000_000_000
    }

    /// Build a timestamp from whole seconds and a sub-second nanosecond part.
    pub fn new(secs: u64, nanos: u32) -> (r: Timestamp)
        requires
            nanos < 1_000_000_000,
        ensures
            r.secs == secs,
            r.nanos == nanos,
            r.wf(),
    {
        Timestamp { secs, nanos }
    }

    /// Build a timestamp from whole seconds.
    pub fn from_secs(secs: u64) -> (r: Timestamp)
        ensures
            r.secs == secs,
            r.nanos == 0,
            r.wf(),
    {
        Timestamp { secs, nanos: 0 }
    }
}

/// The program state: for each tracked artifact key, the time it was last
/// used. Keys are unique; the order of entries carries no meaning.
pub struct State {
    pub(crate) images: Vec<(String, Timestamp)>,
}

/// The mapping that a sequence of key/timestamp entries denotes: a later
/// entry for the same key would win, though well-formed states never hold
/// two entries with one key.
pub open spec fn map_of(es: Seq<(Seq<char>, Timestamp)>) -> Map<Seq<char>, Timestamp>
    decreases es.len(),
{
    if es.len() == 0 {
        Map::empty()
    } else {
        map_of(es.drop_last()).insert(es.last().0, es.last().1)
    }
}

/// Key uniqueness over a sequence of entries.
pub open spec fn keys_distinct(es: Seq<(Seq<char>, Timestamp)>) -> bool {
    forall|i: int, j: int| 0 <= i < j < es.len() ==> es[i].0 != es[j].0
}

/// A well-formed entry sequence: unique keys, well-formed timestamps.
pub open spec fn wf_entries(es: Seq<(Seq<char>, Timestamp)>) -> bool {
    &&& keys_distinct(es)
    &&& forall|i: int| 0 <= i < es.len() ==> (#[trigger] es[i]).1.wf()
}

impl State {
    /// The entries held, as mathematical values, in storage order.
    pub closed spec fn entries(self) -> Seq<(Seq<char>, Timestamp)> {
        self.images@.map(|i: int, e: (String, Timestamp)| (e.0@, e.1))
    }

    /// The mapping from artifact key to last-use time that this state denotes.
    pub open spec fn as_map(self) -> Map<Seq<char>, Timestamp> {
        map_of(self.entries())
    }

    /// A state is well formed when its keys are unique and every timestamp
    /// is well formed.
    pub open spec fn wf(self) -> bool {
        wf_entries(self.entries())
    }

    /// How many entries the state holds.
    pub fn entry_count(&self) -> (n: usize)
        ensures
            n == self.entries().len(),
    {
        self.images.len()
    }

    /// The key and timestamp of the entry at position `i`.
    pub fn entry_at(&self, i: usize) -> (e: (&String, Timestamp))
        requires
            i < self.entries().len(),
        ensures
            e.0@ == self.entries()[i as int].0,
            e.1 == self.entries()[i as int].1,
    {
        proof {
            assert(self.entries()[i as int] == (self.images@[i as int].0@,
            self.images@[i as int].1));
        }
        let p = &self.images[i];
        (&p.0, p.1)
    }

    /// Assemble a state from a vector of entries, kept in the given order.
    pub fn from_entries(images: Vec<(String, Timestamp)>) -> (s: State)
        ensures
            s.entries().len() == images@.len(),
            forall|i: int|
                0 <= i < images@.len() ==> s.entries()[i] == ((#[trigger] images@[i]).0@,
                images@[i].1),
    {
        let s = State { images };
        proof {
            assert(forall|i: int|
                0 <= i < s.images@.len() ==> s.entries()[i] == ((#[trigger] s.images@[i]).0@,
                s.images@[i].1));
        }
        s
    }

    /// The number of tracked artifacts.
    pub fn len(&self) -> (n: usize)
        requires
            self.wf(),
        ensures
            n == self.entries().len(),
            n == self.as_map().dom().len(),
    {
        proof {
            lemma_map_of_len(self.entries());
        }
        self.images.len()
    }

    /// Whether no artifact is tracked.
    pub fn is_empty(&self) -> (r: bool)
        requires
            self.wf(),
        ensures
            r == (self.as_map() == Map::<Seq<char>, Timestamp>::empty()),
    {
        proof {
            lemma_map_of_len(self.entries());
            if self.entries().len() == 0 {
                assert(self.as_map() =~= Map::<Seq<char>, Timestamp>::empty());
            } else {
                assert(self.as_map().dom().len() != 0);
                assert(self.as_map() != Map::<Seq<char>, Timestamp>::empty()) by {
                    if self.as_map() == Map::<Seq<char>, Timestamp>::empty() {
                        assert(self.as_map().dom().len() == 0);
                    }
                }
            }
        }
        self.images.len() == 0
    }

    /// The last-use time recorded for `key`, if any.
    pub fn get(&self, key: &str) -> (r: Option<Timestamp>)
        requires
            self.wf(),
        ensures
            r == (if self.as_map().contains_key(key@) {
                Some(self.as_map()[key@])
            } else {
                Option::<Timestamp>::None
            }),
    {
        let owned = key.to_owned();
        let n = self.images.len();
        let mut i: usize = 0;
        while i < n
            invariant
                self.wf(),
                owned@ == key@,
                n == self.entries().len(),
                i <= n,
                forall|j: int| 0 <= j < i ==> (#[trigger] self.entries()[j]).0 != key@,
            decreases n - i,
        {
            if self.images[i].0.eq(&owned) {
                proof {
                    lemma_map_of_found(self.entries(), i as int);
                }
                return Some(self.images[i].1);
            }
            i += 1;
        }
        proof {
            lemma_map_of_membership(self.entries(), key@);
        }
        None
    }

    /// Record that the artifact `key` was last used at `ts`, replacing any
    /// earlier record for that key.
    pub fn set(&mut self, key: String, ts: Timestamp)
        requires
            old(self).wf(),
            ts.wf(),
        ensures
            final(self).wf(),
            final(self).as_map() == old(self).as_map().insert(key@, ts),
    {
        let ghost es0 = self.entries();
        let n = self.images.len();
        let mut i: usize = 0;
        while i < n
            invariant
                self.wf(),
                ts.wf(),
                self.entries() == es0,
                old(self).entries() == es0,
                n == es0.len(),
                i <= n,
                forall|j: int| 0 <= j < i ==> (#[trigger] es0[j]).0 != key@,
            decreases n - i,
        {
            if self.images[i].0.eq(&key) {
                proof {
                    assert(es0[i as int].0 == key@);
                }
                self.images[i] = (key, ts);
                proof {
                    let es1 = es0.update(i as int, (es0[i as int].0, ts));
                    assert(self.entries() =~= es1);
                    lemma_entries_update(es0, i as int, ts);
                    assert(self.as_map() == map_of(es1));
                }
                return;
            }
            i += 1;
        }
        self.images.push((key, ts));
        proof {
            assert(self.entries() =~= es0.push((key@, ts)));
            assert(self.entries().drop_last() =~= es0);
            assert(forall|j: int| 0 <= j < es0.len() ==> (#[trigger] es0[j]) == self.entries()[j]);
        }
    }
}

/// Return the state in which the program starts, if no state was loaded
/// from disk: an empty mapping.
pub fn initial() -> (r: State)
    ensures
        r.wf(),
        r.entries() == Seq::<(Seq<char>, Timestamp)>::empty(),
        r.as_map() == Map::<Seq<char>, Timestamp>::empty(),
{
    let r = State { images: Vec::new() };
    proof {
        assert(r.entries() =~= Seq::<(Seq<char>, Timestamp)>::empty());
    }
    r
}

/// The mapping of a duplicate-free entry sequence has exactly one key per
/// entry.
pub proof fn lemma_map_of_len(es: Seq<(Seq<char>, Timestamp)>)
    requires
        keys_distinct(es),
    ensures
        map_of(es).dom().len() == es.len(),
        map_of(es).dom().finite(),
    decreases es.len(),
{
    if es.len() > 0 {
        lemma_map_of_len(es.drop_last());
        lemma_map_of_membership(es.drop_last(), es.last().0);
        assert(forall|j: int| 0 <= j < es.len() - 1 ==> (#[trigger] es.drop_last()[j]).0 == es[j].0);
        assert(!map_of(es.drop_last()).contains_key(es.last().0));
    }
}

/// A key is in the mapping exactly when some entry holds it.
pub proof fn lemma_map_of_membership(es: Seq<(Seq<char>, Timestamp)>, k: Seq<char>)
    ensures
        map_of(es).contains_key(k) <==> exists|i: int| 0 <= i < es.len() && (#[trigger] es[i]).0 == k,
    decreases es.len(),
{
    if es.len() > 0 {
        lemma_map_of_membership(es.drop_last(), k);
        if map_of(es).contains_key(k) {
            if k == es.last().0 {
                assert(es[es.len() - 1].0 == k);
            } else {
                let i = choose|i: int| 0 <= i < es.len() - 1 && (#[trigger] es.drop_last()[i]).0 == k;
                assert(es[i].0 == k);
            }
        }
        if exists|i: int| 0 <= i < es.len() && (#[trigger] es[i]).0 == k {
            let i = choose|i: int| 0 <= i < es.len() && (#[trigger] es[i]).0 == k;
            if i < es.len() - 1 {
                assert(es.drop_last()[i].0 == k);
            }
        }
    }
}

/// In a duplicate-free entry sequence, the mapping sends each entry's key to
/// that entry's timestamp.
pub proof fn lemma_map_of_found(es: Seq<(Seq<char>, Timestamp)>, i: int)
    requires
        keys_distinct(es),
        0 <= i < es.len(),
    ensures
        map_of(es).contains_key(es[i].0),
        map_of(es)[es[i].0] == es[i].1,
    decreases es.len(),
{
    if i == es.len() - 1 {
    } else {
        lemma_map_of_found(es.drop_last(), i);
        assert(es.drop_last()[i] == es[i]);
        assert(es.last().0 != es[i].0);
    }
}

/// Updating one entry's timestamp keeps the keys unique and well formed,
/// and updates the mapping at that key and nowhere else.
proof fn lemma_entries_update(es: Seq<(Seq<char>, Timestamp)>, i: int, ts: Timestamp)
    requires
        keys_distinct(es),
        forall|j: int| 0 <= j < es.len() ==> (#[trigger] es[j]).1.wf(),
        ts.wf(),
        0 <= i < es.len(),
    ensures
        keys_distinct(es.update(i, (es[i].0, ts))),
        forall|j: int|
            0 <= j < es.len() ==> (#[trigger] es.update(i, (es[i].0, ts))[j]).1.wf(),
        map_of(es.update(i, (es[i].0, ts))) == map_of(es).insert(es[i].0, ts),
{
    let es1 = es.update(i, (es[i].0, ts));
    assert forall|j: int| 0 <= j < es.len() implies (#[trigger] es1[j]).1.wf() by {
        if j != i {
            assert(es1[j] == es[j]);
            assert(es[j].1.wf());
        }
    }
    lemma_map_of_update(es, i, ts);
}

/// Updating the timestamp at one position updates the mapping at that key
/// and nothing else.
proof fn lemma_map_of_update(es: Seq<(Seq<char>, Timestamp)>, i: int, ts: Timestamp)
    requires
        keys_distinct(es),
        0 <= i < es.len(),
    ensures
        keys_distinct(es.update(i, (es[i].0, ts))),
        map_of(es.update(i, (es[i].0, ts))) == map_of(es).insert(es[i].0, ts),
    decreases es.len(),
{
    let es2 = es.update(i, (es[i].0, ts));
    assert(forall|j: int| 0 <= j < es.len() && j != i ==> es2[j] == es[j]);
    if i == es.len() - 1 {
        assert(es2.drop_last() =~= es.drop_last());
        assert(map_of(es2) =~= map_of(es).insert(es[i].0, ts));
    } else {
        lemma_map_of_update(es.drop_last(), i, ts);
        assert(es2.drop_last() =~= es.drop_last().update(i, (es[i].0, ts)));
        assert(es2.last() == es.last());
        assert(es.drop_last()[i] == es[i]);
        assert(map_of(es2) =~= map_of(es).insert(es[i].0, ts)) by {
            assert(map_of(es2) == map_of(es2.drop_last()).insert(es.last().0, es.last().1));
        }
    }
}

} // verus!
