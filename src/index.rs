//! The in-memory index: each key with the offset of its latest record.
use vstd::prelude::*;

verus! {

/// The map that a list of distinct-keyed pairs describes.
pub open spec fn map_of(s: Seq<(Seq<u8>, u64)>) -> Map<Seq<u8>, u64>
    decreases s.len(),
{
    if s.len() == 0 {
        Map::empty()
    } else {
        map_of(s.drop_last()).insert(s.last().0, s.last().1)
    }
}

/// No key occurs twice.
pub open spec fn keys_distinct(s: Seq<(Seq<u8>, u64)>) -> bool {
    forall|i: int, j: int| 0 <= i < j < s.len() ==> s[i].0 != s[j].0
}

proof fn lemma_map_of_lookup(s: Seq<(Seq<u8>, u64)>, k: Seq<u8>)
    requires
        keys_distinct(s),
    ensures
        map_of(s).contains_key(k) <==> exists|i: int| 0 <= i < s.len() && s[i].0 == k,
        forall|i: int| 0 <= i < s.len() && s[i].0 == k ==> map_of(s)[k] == s[i].1,
    decreases s.len(),
{
    if s.len() > 0 {
        let t = s.drop_last();
        lemma_map_of_lookup(t, k);
        if map_of(s).contains_key(k) && s.last().0 != k {
            let i = choose|i: int| 0 <= i < t.len() && t[i].0 == k;
            assert(s[i].0 == k);
        }
        if exists|i: int| 0 <= i < s.len() && s[i].0 == k {
            let i = choose|i: int| 0 <= i < s.len() && s[i].0 == k;
            if i < s.len() - 1 {
                assert(t[i].0 == k);
            }
        }
    }
}

proof fn lemma_map_of_update(s: Seq<(Seq<u8>, u64)>, i: int, o: u64)
    requires
        keys_distinct(s),
        0 <= i < s.len(),
    ensures
        keys_distinct(s.update(i, (s[i].0, o))),
        map_of(s.update(i, (s[i].0, o))) == map_of(s).insert(s[i].0, o),
    decreases s.len(),
{
    let u = s.update(i, (s[i].0, o));
    if i == s.len() - 1 {
        assert(u.drop_last() =~= s.drop_last());
    } else {
        lemma_map_of_update(s.drop_last(), i, o);
        assert(u.drop_last() =~= s.drop_last().update(i, (s[i].0, o)));
        assert(map_of(u) =~= map_of(s).insert(s[i].0, o));
    }
}

proof fn lemma_map_of_remove(s: Seq<(Seq<u8>, u64)>, i: int)
    requires
        keys_distinct(s),
        0 <= i < s.len(),
    ensures
        keys_distinct(s.remove(i)),
        map_of(s.remove(i)) == map_of(s).remove(s[i].0),
    decreases s.len(),
{
    let r = s.remove(i);
    let k = s[i].0;
    let t = s.drop_last();
    lemma_map_of_lookup(t, k);
    if i == s.len() - 1 {
        assert(r =~= t);
        assert(!map_of(t).contains_key(k));
        assert(map_of(r) =~= map_of(s).remove(k));
    } else {
        lemma_map_of_remove(t, i);
        assert(r.drop_last() =~= t.remove(i));
        assert(r.last() == s.last());
        assert(map_of(r) =~= map_of(s).remove(k));
    }
}

/// Whether two byte strings are equal.
pub fn bytes_eq(a: &[u8], b: &[u8]) -> (r: bool)
    ensures
        r == (a@ == b@),
{
    if a.len() != b.len() {
        return false;
    }
    let mut i: usize = 0;
    while i < a.len()
        invariant
            a@.len() == b@.len(),
            i <= a@.len(),
            a@.subrange(0, i as int) == b@.subrange(0, i as int),
        decreases a@.len() - i,
    {
        if a[i] != b[i] {
            assert(a@[i as int] != b@[i as int]);
            return false;
        }
        assert(a@.subrange(0, i + 1) =~= a@.subrange(0, i as int).push(a@[i as int]));
        assert(b@.subrange(0, i + 1) =~= b@.subrange(0, i as int).push(b@[i as int]));
        i = i + 1;
    }
    assert(a@ =~= a@.subrange(0, i as int));
    assert(b@ =~= b@.subrange(0, i as int));
    true
}

/// Keys with the offsets of their latest records, in the order in which the
/// keys were first inserted.
pub struct Index {
    entries: Vec<(Vec<u8>, u64)>,
}

impl Index {
    /// The entries, as pairs of byte sequences and offsets.
    pub closed spec fn entries_view(&self) -> Seq<(Seq<u8>, u64)> {
        self.entries@.map_values(|e: (Vec<u8>, u64)| (e.0@, e.1))
    }

    pub open spec fn view(&self) -> Map<Seq<u8>, u64> {
        map_of(self.entries_view())
    }

    pub open spec fn wf(&self) -> bool {
        keys_distinct(self.entries_view())
    }

    /// An index with no key.
    pub fn new() -> (r: Index)
        ensures
            r.wf(),
            r@ == Map::<Seq<u8>, u64>::empty(),
            r.entries_view() == Seq::<(Seq<u8>, u64)>::empty(),
    {
        let r = Index { entries: Vec::new() };
        assert(r.entries_view() =~= Seq::<(Seq<u8>, u64)>::empty());
        r
    }

    /// The number of keys.
    pub fn len(&self) -> (r: usize)
        requires
            self.wf(),
        ensures
            r == self.entries_view().len(),
    {
        self.entries.len()
    }

    /// The position of `key` among the entries.
    fn find(&self, key: &[u8]) -> (r: Option<usize>)
        requires
            self.wf(),
        ensures
            match r {
                Some(i) => i < self.entries_view().len() && self.entries_view()[i as int].0 == key@,
                None => !self@.contains_key(key@),
            },
    {
        proof { lemma_map_of_lookup(self.entries_view(), key@); }
        let mut i: usize = 0;
        while i < self.entries.len()
            invariant
                i <= self.entries_view().len(),
                self.entries_view().len() == self.entries@.len(),
                forall|j: int| 0 <= j < i ==> self.entries_view()[j].0 != key@,
            decreases self.entries@.len() - i,
        {
            if bytes_eq(self.entries[i].0.as_slice(), key) {
                return Some(i);
            }
            i = i + 1;
        }
        None
    }

    /// The offset recorded for `key`.
    pub fn get(&self, key: &[u8]) -> (r: Option<u64>)
        requires
            self.wf(),
        ensures
            r == self@.get(key@),
    {
        match self.find(key) {
            Some(i) => {
                proof { lemma_map_of_lookup(self.entries_view(), key@); }
                Some(self.entries[i].1)
            },
            None => None,
        }
    }

    /// Records `offset` for `key`, replacing an earlier offset.
    pub fn insert(&mut self, key: Vec<u8>, offset: u64)
        requires
            old(self).wf(),
        ensures
            final(self).wf(),
            final(self)@ == old(self)@.insert(key@, offset),
    {
        match self.find(key.as_slice()) {
            Some(i) => {
                proof { lemma_map_of_update(self.entries_view(), i as int, offset); }
                let ghost k = key@;
                self.entries.set(i, (key, offset));
                assert(self.entries_view() =~= old(self).entries_view().update(i as int, (k, offset)));
            },
            None => {
                proof { lemma_map_of_lookup(self.entries_view(), key@); }
                let ghost k = key@;
                self.entries.push((key, offset));
                assert(self.entries_view() =~= old(self).entries_view().push((k, offset)));
                assert(self.entries_view().drop_last() =~= old(self).entries_view());
            },
        }
    }

    /// Drops `key` from the index; the other entries keep their order.
    pub fn remove(&mut self, key: &[u8])
        requires
            old(self).wf(),
        ensures
            final(self).wf(),
            final(self)@ == old(self)@.remove(key@),
    {
        match self.find(key) {
            Some(i) => {
                proof { lemma_map_of_remove(self.entries_view(), i as int); }
                self.entries.remove(i);
                assert(self.entries_view() =~= old(self).entries_view().remove(i as int));
            },
            None => {
                assert(old(self)@.remove(key@) =~= old(self)@);
            },
        }
    }

    /// The key and offset of entry `i`.
    pub fn entry(&self, i: usize) -> (r: (&Vec<u8>, u64))
        requires
            i < self.entries_view().len(),
        ensures
            (r.0@, r.1) == self.entries_view()[i as int],
    {
        (&self.entries[i].0, self.entries[i].1)
    }

    /// The entries as stored, for serialization.
    pub fn entries(&self) -> (r: &Vec<(Vec<u8>, u64)>)
        ensures
            r@.map_values(|e: (Vec<u8>, u64)| (e.0@, e.1)) == self.entries_view(),
    {
        &self.entries
    }
}

} // verus!
