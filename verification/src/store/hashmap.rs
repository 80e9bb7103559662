use crate::store::contains_key;
use crate::store::keys_equal;
use crate::store::keys_view;
use crate::store::ListableStore;
use crate::store::NodeKey;
use crate::store::ReadableStore;
use crate::store::Store;
use crate::store::WriteableStore;
use crate::RangeRequest;
use crate::ZarrError;
use vstd::prelude::*;

verus! {

/// A store that keeps all bytes in memory. No key stands twice among its
/// entries.
pub struct HashMapStore {
    keys: Vec<NodeKey>,
    values: Vec<Vec<u8>>,
}

/// Position of the key among the keys, if it is there.
pub open spec fn position(keys: Seq<Seq<Seq<char>>>, k: Seq<Seq<char>>) -> Option<int> {
    if keys.contains(k) {
        Some(keys.index_of(k))
    } else {
        None
    }
}

impl HashMapStore {
    pub closed spec fn entry_keys(&self) -> Seq<Seq<Seq<char>>> {
        keys_view(self.keys@)
    }

    pub closed spec fn entry_values(&self) -> Seq<Seq<u8>> {
        Seq::new(self.values@.len(), |i: int| self.values@[i]@)
    }

    pub closed spec fn wf(&self) -> bool {
        &&& self.keys@.len() == self.values@.len()
        &&& self.entry_keys().no_duplicates()
    }

    /// A store without keys.
    pub fn new() -> (s: HashMapStore)
        ensures
            s.wf(),
            s.store_wf(),
            s.contents() == Map::<Seq<Seq<char>>, Seq<u8>>::empty(),
    {
        let s = HashMapStore { keys: Vec::new(), values: Vec::new() };
        s
    }

    fn find(&self, key: &NodeKey) -> (r: Option<usize>)
        requires
            self.wf(),
        ensures
            r matches Some(i) ==> i < self.keys@.len() && self.entry_keys()[i as int] == key@,
            r.is_none() ==> !self.entry_keys().contains(key@),
    {
        let mut i: usize = 0;
        while i < self.keys.len()
            invariant
                i <= self.keys@.len(),
                forall|j: int| 0 <= j < i ==> self.entry_keys()[j] != key@,
            decreases self.keys@.len() - i,
        {
            if keys_equal(&self.keys[i], key) {
                return Some(i);
            }
            i += 1;
        }
        None
    }

    /// What a position among the entries says of the contents.
    proof fn lemma_entry(&self, i: int)
        requires
            self.wf(),
            0 <= i < self.keys@.len(),
        ensures
            self.contents().contains_key(self.entry_keys()[i]),
            self.contents()[self.entry_keys()[i]] == self.entry_values()[i],
    {
        let k = self.entry_keys()[i];
        let j = self.entry_keys().index_of(k);
    }
}

impl Default for HashMapStore {
    fn default() -> (s: HashMapStore)
        ensures
            s.wf(),
            s.store_wf(),
            s.contents() == Map::<Seq<Seq<char>>, Seq<u8>>::empty(),
    {
        HashMapStore::new()
    }
}

impl Store for HashMapStore {
    closed spec fn contents(&self) -> Map<Seq<Seq<char>>, Seq<u8>> {
        Map::new(
            |k: Seq<Seq<char>>| self.entry_keys().contains(k),
            |k: Seq<Seq<char>>| self.entry_values()[self.entry_keys().index_of(k)],
        )
    }

    closed spec fn store_wf(&self) -> bool {
        self.wf()
    }
}

impl HashMapStore {
    /// The bytes under the key; none where the store holds no such key.
    pub fn get_bytes(&self, key: &NodeKey) -> (r: Option<Vec<u8>>)
        requires
            self.wf(),
        ensures
            r matches Some(v) ==> self.contents().contains_key(key@) && self.contents()[key@]
                == v@,
            r.is_none() ==> !self.contents().contains_key(key@),
    {
        match self.find(key) {
            Some(i) => {
                proof {
                    self.lemma_entry(i as int);
                }
                Some(self.values[i].clone())
            },
            None => None,
        }
    }

    /// Puts the bytes under the key.
    pub fn set_bytes(&mut self, key: &NodeKey, value: Vec<u8>)
        requires
            old(self).wf(),
        ensures
            final(self).wf(),
            final(self).contents() == old(self).contents().insert(key@, value@),
    {
        let ghost before = *self;
        match self.find(key) {
            Some(i) => {
                self.values.set(i, value);
                proof {
                    assert forall|k: Seq<Seq<char>>| #[trigger]
                        self.contents().contains_key(k) implies self.contents()[k]
                        == before.contents().insert(key@, value@)[k] by {
                        let j = self.entry_keys().index_of(k);
                        if j == i {
                        } else {
                        }
                    }
                }
            },
            None => {
                self.keys.push(key.clone());
                self.values.push(value);
                proof {
                    assert forall|a: int, b: int|
                        0 <= a < self.entry_keys().len() && 0 <= b < self.entry_keys().len() && a
                            != b implies self.entry_keys()[a] != self.entry_keys()[b] by {
                        if a < before.entry_keys().len() {
                            assert(before.entry_keys()[a] == self.entry_keys()[a]);
                        }
                        if b < before.entry_keys().len() {
                            assert(before.entry_keys()[b] == self.entry_keys()[b]);
                        }
                    }
                    assert forall|k: Seq<Seq<char>>|
                        self.contents().contains_key(k) <==> before.contents().insert(
                            key@,
                            value@,
                        ).contains_key(k) by {
                        if self.entry_keys().contains(k) {
                            let j = choose|j: int|
                                0 <= j < self.entry_keys().len() && self.entry_keys()[j] == k;
                            if j < before.entry_keys().len() {
                                assert(before.entry_keys()[j] == k);
                            }
                        }
                        if before.entry_keys().contains(k) {
                            let j = choose|j: int|
                                0 <= j < before.entry_keys().len() && before.entry_keys()[j] == k;
                            assert(self.entry_keys()[j] == k);
                        }
                        if k == key@ {
                            assert(self.entry_keys()[before.entry_keys().len() as int] == k);
                        }
                    }
                    assert forall|k: Seq<Seq<char>>| #[trigger]
                        self.contents().contains_key(k) implies self.contents()[k]
                        == before.contents().insert(key@, value@)[k] by {
                        let j = self.entry_keys().index_of(k);
                        if j < before.entry_keys().len() {
                            assert(before.entry_keys()[j] == k);
                            let j2 = before.entry_keys().index_of(k);
                        }
                    }
                }
            },
        }
    }

    /// Takes the entry at position `i` out.
    fn remove_at(&mut self, i: usize)
        requires
            old(self).wf(),
            i < old(self).keys@.len(),
        ensures
            final(self).wf(),
            final(self).keys@.len() == old(self).keys@.len() - 1,
            final(self).contents() == old(self).contents().remove(old(self).entry_keys()[i as int]),
            final(self).entry_keys() == old(self).entry_keys().remove(i as int),
    {
        let ghost before = *self;
        let ghost key = self.entry_keys()[i as int];
        let _ = self.keys.remove(i);
        let _ = self.values.remove(i);
        proof {
            let ks = self.entry_keys();
            let bk = before.entry_keys();
            assert forall|a: int, b: int| 0 <= a < ks.len() && 0 <= b < ks.len() && a != b implies ks[a]
                != ks[b] by {
                let a2 = if a < i { a } else { a + 1 };
                let b2 = if b < i { b } else { b + 1 };
                assert(ks[a] == bk[a2] && ks[b] == bk[b2]);
            }
            assert forall|k: Seq<Seq<char>>|
                self.contents().contains_key(k) <==> before.contents().remove(key).contains_key(
                    k,
                ) by {
                if ks.contains(k) {
                    let j = choose|j: int| 0 <= j < ks.len() && ks[j] == k;
                    let j2 = if j < i { j } else { j + 1 };
                    assert(bk[j2] == k);
                }
                if bk.contains(k) && k != key {
                    let j = choose|j: int| 0 <= j < bk.len() && bk[j] == k;
                    let j2 = if j < i { j } else { j - 1 };
                    assert(ks[j2] == k);
                }
            }
            assert forall|k: Seq<Seq<char>>| #[trigger]
                self.contents().contains_key(k) implies self.contents()[k]
                == before.contents().remove(key)[k] by {
                let j = ks.index_of(k);
                let j2 = if j < i { j } else { j + 1 };
                assert(bk[j2] == k);
                let j3 = bk.index_of(k);
            }
        }
    }

    /// Takes the key out of the store.
    pub fn erase_key(&mut self, key: &NodeKey)
        requires
            old(self).wf(),
        ensures
            final(self).wf(),
            final(self).contents() == old(self).contents().remove(key@),
    {
        match self.find(key) {
            Some(i) => {
                self.remove_at(i);
            },
            None => {
            },
        }
    }

    /// Takes all keys out of the store that start with `key_prefix`.
    pub fn erase_keys_with_prefix(&mut self, key_prefix: &NodeKey)
        requires
            old(self).wf(),
        ensures
            final(self).wf(),
            final(self).contents() == crate::store::without_prefix(
                old(self).contents(),
                key_prefix@,
            ),
    {
        let ghost before = *self;
        let ghost target = crate::store::without_prefix(before.contents(), key_prefix@);
        let mut i: usize = 0;
        while i < self.keys.len()
            invariant
                self.wf(),
                i <= self.keys@.len(),
                target == crate::store::without_prefix(before.contents(), key_prefix@),
                crate::store::without_prefix(self.contents(), key_prefix@) == target,
                forall|j: int|
                    0 <= j < i ==> !crate::store::key_starts_with(
                        #[trigger] self.entry_keys()[j],
                        key_prefix@,
                    ),
            decreases self.keys@.len() - i,
        {
            if self.keys[i].starts_with(key_prefix) {
                let ghost cur = *self;
                self.remove_at(i);
                proof {
                    assert(crate::store::without_prefix(self.contents(), key_prefix@)
                        =~= crate::store::without_prefix(cur.contents(), key_prefix@));
                    assert forall|j: int| 0 <= j < i implies !crate::store::key_starts_with(
                        #[trigger] self.entry_keys()[j],
                        key_prefix@,
                    ) by {
                    }
                }
            } else {
                i += 1;
            }
        }
        proof {
            assert forall|k: Seq<Seq<char>>| #[trigger]
                self.contents().contains_key(k) implies !crate::store::key_starts_with(
                k,
                key_prefix@,
            ) by {
                let j = self.entry_keys().index_of(k);
            }
        }
    }

    /// A part of the bytes under each of the keys; none where the store
    /// holds no such key.
    pub fn partial_values(&self, key_ranges: &[(NodeKey, RangeRequest)]) -> (out: Vec<
        Option<Vec<u8>>,
    >)
        requires
            self.wf(),
        ensures
            out@.len() == key_ranges@.len(),
            forall|i: int|
                0 <= i < out@.len() ==> crate::store::partial_of(
                    self.contents(),
                    key_ranges@[i].0@,
                    key_ranges@[i].1,
                    #[trigger] out@[i],
                ),
    {
        let mut out: Vec<Option<Vec<u8>>> = Vec::new();
        let mut i: usize = 0;
        while i < key_ranges.len()
            invariant
                self.wf(),
                i <= key_ranges@.len(),
                out@.len() == i,
                forall|j: int|
                    0 <= j < i ==> crate::store::partial_of(
                        self.contents(),
                        key_ranges@[j].0@,
                        key_ranges@[j].1,
                        #[trigger] out@[j],
                    ),
            decreases key_ranges@.len() - i,
        {
            let part = match self.get_bytes(&key_ranges[i].0) {
                Some(b) => Some(key_ranges[i].1.slice_bytes(b.as_slice())),
                None => None,
            };
            out.push(part);
            i += 1;
        }
        out
    }

    /// All keys of the store.
    pub fn keys(&self) -> (v: Vec<NodeKey>)
        requires
            self.wf(),
        ensures
            keys_view(v@) == self.entry_keys(),
            keys_view(v@).no_duplicates(),
            keys_view(v@).to_set() == self.contents().dom(),
    {
        let mut v: Vec<NodeKey> = Vec::new();
        let mut i: usize = 0;
        while i < self.keys.len()
            invariant
                i <= self.keys@.len(),
                v@.len() == i,
                forall|j: int| 0 <= j < i ==> v@[j]@ == self.keys@[j]@,
            decreases self.keys@.len() - i,
        {
            v.push(self.keys[i].clone());
            i += 1;
        }
        assert(keys_view(v@) =~= self.entry_keys());
        v
    }
}

impl ReadableStore for HashMapStore {
    fn get(&self, key: &NodeKey) -> (r: Result<Option<Vec<u8>>, ZarrError>)
        ensures
            r is Ok,
    {
        Ok(self.get_bytes(key))
    }

    fn has_key(&self, key: &NodeKey) -> (r: Result<bool, ZarrError>)
        ensures
            r is Ok,
    {
        Ok(self.get_bytes(key).is_some())
    }

    fn get_partial_values(&self, key_ranges: &[(NodeKey, RangeRequest)]) -> (r: Result<
        Vec<Option<Vec<u8>>>,
        ZarrError,
    >)
        ensures
            r is Ok,
    {
        Ok(self.partial_values(key_ranges))
    }
}

impl ListableStore for HashMapStore {
    fn list(&self) -> (r: Result<Vec<NodeKey>, ZarrError>)
        ensures
            r is Ok,
    {
        Ok(self.keys())
    }

    fn list_prefix(&self, key: &NodeKey) -> (r: Result<Vec<NodeKey>, ZarrError>)
        ensures
            r is Ok,
    {
        proof {
            crate::store::lemma_keys_below(self.entry_keys(), key@);
        }
        let v = crate::store::list_prefix_from_all_keys_ref(self.keys.as_slice(), key);
        Ok(v)
    }

    fn list_dir(&self, prefix: &NodeKey) -> (r: Result<(Vec<NodeKey>, Vec<NodeKey>), ZarrError>)
        ensures
            r is Ok,
    {
        proof {
            let ek = self.entry_keys();
            crate::store::lemma_children_of(ek, prefix@);
            crate::store::lemma_child_prefixes_of(ek, prefix@);
            assert forall|p: Seq<Seq<char>>|
                crate::store::holds_below(self.contents(), p) implies crate::store::deeper_in(
                ek,
                p,
            ) by {
                let k = choose|k: Seq<Seq<char>>|
                    self.contents().contains_key(k) && #[trigger] crate::store::lies_below(k, p);
                let i = choose|i: int| 0 <= i < ek.len() && ek[i] == k;
            }
        }
        let d = crate::store::list_dir_from_all_keys_ref(self.keys.as_slice(), prefix);
        Ok(d)
    }
}

impl WriteableStore for HashMapStore {
    fn set(&mut self, key: &NodeKey, value: Vec<u8>) -> (r: Result<(), ZarrError>)
        ensures
            r is Ok,
    {
        self.set_bytes(key, value);
        Ok(())
    }

    fn erase(&mut self, key: &NodeKey) -> (r: Result<bool, ZarrError>)
        ensures
            r is Ok,
    {
        self.erase_key(key);
        Ok(false)
    }

    fn erase_prefix(&mut self, key_prefix: &NodeKey) -> (r: Result<bool, ZarrError>)
        ensures
            r is Ok,
    {
        self.erase_keys_with_prefix(key_prefix);
        Ok(false)
    }
}

} // verus!
