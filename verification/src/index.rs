//! The in-memory index: a key-to-entry mapping with unique keys, owned by
//! the engine and rebuilt from the log at startup. It has no durability of
//! its own; every mutation is driven by a log record that was appended first.
use vstd::prelude::*;
use crate::kv::KVValue;
use crate::model::{Entry, IndexModel};

verus! {

/// The mapping itself, represented as an association list with pairwise
/// distinct keys. Lookups scan it; the store's small working sets keep that
/// acceptable, and the representation stays fully verifiable.
pub struct Index {
    entries: Vec<(String, KVValue)>,
}

spec fn keys_unique(s: Seq<(String, KVValue)>) -> bool {
    forall|p: int, q: int| 0 <= p < q < s.len() ==> (#[trigger] s[p]).0@ != (#[trigger] s[q]).0@
}

spec fn entries_map(s: Seq<(String, KVValue)>) -> IndexModel
    decreases s.len(),
{
    if s.len() == 0 {
        Map::empty()
    } else {
        entries_map(s.drop_last()).insert(s.last().0@, s.last().1@)
    }
}

proof fn lemma_entries_map_dom(s: Seq<(String, KVValue)>, k: Seq<char>)
    ensures
        entries_map(s).dom().contains(k) <==> exists|i: int|
            0 <= i < s.len() && (#[trigger] s[i]).0@ == k,
    decreases s.len(),
{
    if s.len() > 0 {
        lemma_entries_map_dom(s.drop_last(), k);
        if s.last().0@ == k {
            assert(s[s.len() - 1].0@ == k);
        } else {
            assert(forall|i: int|
                0 <= i < s.len() - 1 ==> (#[trigger] s[i]) == s.drop_last()[i]);
        }
    }
}

proof fn lemma_entries_map_at(s: Seq<(String, KVValue)>, i: int)
    requires
        keys_unique(s),
        0 <= i < s.len(),
    ensures
        entries_map(s).dom().contains(s[i].0@),
        entries_map(s)[s[i].0@] == s[i].1@,
    decreases s.len(),
{
    if i == s.len() - 1 {
        assert(s[i] == s.last());
    } else {
        assert(forall|q: int| 0 <= q < s.len() - 1 ==> (#[trigger] s.drop_last()[q]) == s[q]);
        lemma_entries_map_at(s.drop_last(), i);
        assert(s[i].0@ != s.last().0@);
    }
}

proof fn lemma_entries_map_remove(s: Seq<(String, KVValue)>, i: int)
    requires
        keys_unique(s),
        0 <= i < s.len(),
    ensures
        entries_map(s.remove(i)) == entries_map(s).remove(s[i].0@),
    decreases s.len(),
{
    let k = s[i].0@;
    if i == s.len() - 1 {
        assert(s.remove(i) =~= s.drop_last());
        lemma_entries_map_dom(s.drop_last(), k);
        assert(forall|q: int| 0 <= q < s.len() - 1 ==> (#[trigger] s.drop_last()[q]) == s[q]);
        assert(!entries_map(s.drop_last()).dom().contains(k));
        assert(entries_map(s.drop_last()).insert(k, s.last().1@).remove(k) =~= entries_map(
            s.drop_last(),
        ));
    } else {
        assert(forall|q: int| 0 <= q < s.len() - 1 ==> (#[trigger] s.drop_last()[q]) == s[q]);
        lemma_entries_map_remove(s.drop_last(), i);
        assert(s.remove(i).drop_last() =~= s.drop_last().remove(i));
        assert(s.remove(i).last() == s.last());
        assert(k != s.last().0@);
        assert(entries_map(s.drop_last()).remove(k).insert(s.last().0@, s.last().1@)
            =~= entries_map(s.drop_last()).insert(s.last().0@, s.last().1@).remove(k));
    }
}

impl View for Index {
    type V = IndexModel;

    closed spec fn view(&self) -> IndexModel {
        entries_map(self.entries@)
    }
}

impl Index {
    #[verifier::type_invariant]
    spec fn inv(&self) -> bool {
        keys_unique(self.entries@)
    }

    /// The entries as a sequence of key and entry, for iteration; its order
    /// carries no meaning.
    pub closed spec fn rep(&self) -> Seq<(Seq<char>, Entry)> {
        Seq::new(self.entries@.len(), |i: int| (self.entries@[i].0@, self.entries@[i].1@))
    }

    /// A fresh, empty index.
    pub fn new() -> (kvstore: Index)
        ensures
            kvstore@ == IndexModel::empty(),
    {
        Index { entries: Vec::new() }
    }

    /// The entry currently bound to `key`, if any.
    pub fn get(&self, key: &String) -> (r: Option<&KVValue>)
        ensures
            match r {
                Some(v) => self@.dom().contains(key@) && v@ == self@[key@],
                None => !self@.dom().contains(key@),
            },
    {
        proof {
            use_type_invariant(self);
        }
        let n = self.entries.len();
        let mut i: usize = 0;
        while i < n
            invariant
                i <= n,
                n == self.entries@.len(),
                keys_unique(self.entries@),
                self@ == entries_map(self.entries@),
                forall|q: int| 0 <= q < i ==> (#[trigger] self.entries@[q]).0@ != key@,
            decreases n - i,
        {
            if self.entries[i].0 == *key {
                proof {
                    lemma_entries_map_at(self.entries@, i as int);
                }
                return Some(&self.entries[i].1);
            }
            i = i + 1;
        }
        proof {
            lemma_entries_map_dom(self.entries@, key@);
        }
        None
    }

    /// Whether `key` is currently bound.
    pub fn contains(&self, key: &String) -> (r: bool)
        ensures
            r == self@.dom().contains(key@),
    {
        match self.get(key) {
            Some(_) => true,
            None => false,
        }
    }

    /// Removes whatever is bound to `key`; absent keys are left alone.
    pub fn remove(&mut self, key: &String)
        ensures
            final(self)@ == old(self)@.remove(key@),
    {
        proof {
            use_type_invariant(&*self);
        }
        let mut entries: Vec<(String, KVValue)> = Vec::new();
        std::mem::swap(&mut entries, &mut self.entries);
        let n = entries.len();
        let mut i: usize = 0;
        while i < n
            invariant
                i <= n,
                n == entries@.len(),
                keys_unique(entries@),
                entries@ == old(self).entries@,
                forall|q: int| 0 <= q < i ==> (#[trigger] entries@[q]).0@ != key@,
            decreases n - i,
        {
            if entries[i].0 == *key {
                proof {
                    lemma_entries_map_remove(entries@, i as int);
                }
                entries.remove(i);
                assert(keys_unique(entries@)) by {
                    assert(forall|q: int| 0 <= q < entries@.len() ==> (#[trigger] entries@[q])
                        == if q < i { old(self).entries@[q] } else { old(self).entries@[q + 1] });
                }
                self.entries = entries;
                return ;
            }
            i = i + 1;
        }
        proof {
            lemma_entries_map_dom(entries@, key@);
            assert(entries_map(entries@).remove(key@) =~= entries_map(entries@));
        }
        self.entries = entries;
    }

    /// Binds `key` to `value`, replacing any previous binding.
    pub fn upsert(&mut self, key: String, value: KVValue)
        ensures
            final(self)@ == old(self)@.insert(key@, value@),
    {
        self.remove(&key);
        proof {
            use_type_invariant(&*self);
            lemma_entries_map_dom(self.entries@, key@);
        }
        let ghost pre = self.entries@;
        let mut entries: Vec<(String, KVValue)> = Vec::new();
        std::mem::swap(&mut entries, &mut self.entries);
        entries.push((key, value));
        proof {
            assert(entries@.drop_last() =~= pre);
            assert(keys_unique(entries@)) by {
                assert(forall|q: int| 0 <= q < pre.len() ==> (#[trigger] entries@[q]) == pre[q]);
            }
            assert(old(self)@.remove(entries@.last().0@).insert(
                entries@.last().0@,
                entries@.last().1@,
            ) =~= old(self)@.insert(entries@.last().0@, entries@.last().1@));
        }
        self.entries = entries;
    }

    /// How many keys are bound; every bound key appears somewhere in the
    /// representation.
    pub fn entry_count(&self) -> (n: usize)
        ensures
            n == self.rep().len(),
            forall|k: Seq<char>| self@.dom().contains(k) ==> exists|i: int|
                0 <= i < self.rep().len() && (#[trigger] self.rep()[i]).0 == k,
    {
        proof {
            use_type_invariant(self);
            assert forall|k: Seq<char>| self@.dom().contains(k) implies exists|i: int|
                0 <= i < self.rep().len() && (#[trigger] self.rep()[i]).0 == k by {
                lemma_entries_map_dom(self.entries@, k);
                let i = choose|i: int|
                    0 <= i < self.entries@.len() && (#[trigger] self.entries@[i]).0@ == k;
                assert(self.rep()[i].0 == k);
            }
        }
        self.entries.len()
    }

    /// The key and entry at one position of the representation; the mapping
    /// binds that key to that entry, and no other position carries the same
    /// key.
    pub fn entry_at(&self, i: usize) -> (p: (&String, &KVValue))
        requires
            i < self.rep().len(),
        ensures
            p.0@ == self.rep()[i as int].0,
            p.1@ == self.rep()[i as int].1,
            self@.dom().contains(p.0@),
            self@[p.0@] == p.1@,
            forall|j: int| 0 <= j < self.rep().len() && j != i as int ==> (
            #[trigger] self.rep()[j]).0 != self.rep()[i as int].0,
    {
        proof {
            use_type_invariant(self);
            lemma_entries_map_at(self.entries@, i as int);
            assert forall|j: int| 0 <= j < self.rep().len() && j != i as int implies (
            #[trigger] self.rep()[j]).0 != self.rep()[i as int].0 by {
                if j < i as int {
                    assert(self.entries@[j].0@ != self.entries@[i as int].0@);
                } else {
                    assert(self.entries@[i as int].0@ != self.entries@[j].0@);
                }
            }
        }
        (&self.entries[i].0, &self.entries[i].1)
    }
}

} // verus!
