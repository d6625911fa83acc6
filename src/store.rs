//! A key-value store of byte strings, the source that nodes are filled from.
use vstd::prelude::*;

verus! {

/// Keys mapped to stored bytes; a later entry for a key hides earlier ones.
pub struct Store {
    entries: Vec<(String, Vec<u8>)>,
}

/// The contents of a list of entries whose keys are distinct.
pub open spec fn entries_map(es: Seq<(String, Vec<u8>)>) -> Map<Seq<char>, Seq<u8>>
    decreases es.len(),
{
    if es.len() == 0 {
        Map::empty()
    } else {
        entries_map(es.drop_last()).insert(es.last().0@, es.last().1@)
    }
}

proof fn lemma_entries_map(es: Seq<(String, Vec<u8>)>, k: Seq<char>)
    ensures
        entries_map(es).contains_key(k) <==> exists|i: int| 0 <= i < es.len() && #[trigger] es[i].0@ == k,
        forall|i: int|
            0 <= i < es.len() && es[i].0@ == k && (forall|j: int| i < j < es.len() ==> es[j].0@ != k)
                ==> entries_map(es)[k] == #[trigger] es[i].1@,
    decreases es.len(),
{
    if es.len() > 0 {
        let d = es.drop_last();
        lemma_entries_map(d, k);
        if exists|i: int| 0 <= i < es.len() && #[trigger] es[i].0@ == k {
            let i = choose|i: int| 0 <= i < es.len() && #[trigger] es[i].0@ == k;
            if i < d.len() {
                assert(d[i].0@ == k);
            }
        }
        if exists|i: int| 0 <= i < d.len() && #[trigger] d[i].0@ == k {
            let i = choose|i: int| 0 <= i < d.len() && #[trigger] d[i].0@ == k;
            assert(es[i].0@ == k);
        }
        assert forall|i: int|
            0 <= i < es.len() && es[i].0@ == k && (forall|j: int| i < j < es.len() ==> es[j].0@ != k)
                implies entries_map(es)[k] == #[trigger] es[i].1@ by {
            if i < d.len() {
                assert(d[i] == es[i]);
                assert forall|j: int| i < j < d.len() implies d[j].0@ != k by {
                    assert(d[j] == es[j]);
                }
            }
        }
    }
}

impl View for Store {
    type V = Map<Seq<char>, Seq<u8>>;

    closed spec fn view(&self) -> Map<Seq<char>, Seq<u8>> {
        entries_map(self.entries@)
    }
}

impl Store {
    pub fn new() -> (r: Store)
        ensures
            r@ == Map::<Seq<char>, Seq<u8>>::empty(),
    {
        Store { entries: Vec::new() }
    }

    /// The bytes stored under `key`.
    pub fn get(&self, key: &String) -> (r: Option<&Vec<u8>>)
        ensures
            match r {
                Some(b) => self@.contains_key(key@) && self@[key@] == b@,
                None => !self@.contains_key(key@),
            },
    {
        let mut i: usize = self.entries.len();
        while i > 0
            invariant
                i <= self.entries@.len(),
                forall|j: int| i <= j < self.entries@.len() ==> self.entries@[j].0@ != key@,
            decreases i,
        {
            i = i - 1;
            if self.entries[i].0 == *key {
                proof {
                    lemma_entries_map(self.entries@, key@);
                }
                return Some(&self.entries[i].1);
            }
        }
        proof {
            lemma_entries_map(self.entries@, key@);
        }
        None
    }

    /// Stores `bytes` under `key`, in place of what was there.
    pub fn set(&mut self, key: String, bytes: Vec<u8>)
        ensures
            final(self)@ == old(self)@.insert(key@, bytes@),
    {
        self.entries.push((key, bytes));
        proof {
            assert(self.entries@.drop_last() == old(self).entries@);
        }
    }
}

} // verus!
