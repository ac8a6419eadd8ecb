//! A table: the bytes of one log and the index built over them.
use vstd::prelude::*;
use crate::codec::{copy_range, decode_at, encodable, encode, encode_spec, read_at_spec, Error, KeyValuePair};
use crate::index::Index;
use crate::log::{replay, replay_from};

verus! {

/// The `width` little-endian bytes of `n` (the low `width` bytes).
pub open spec fn le_bytes_n(n: nat, width: nat) -> Seq<u8>
    decreases width,
{
    if width == 0 {
        Seq::empty()
    } else {
        seq![(n % 256) as u8] + le_bytes_n(n / 256, (width - 1) as nat)
    }
}

/// One entry in bincode's fixed-width encoding: the key's length as a u64,
/// the key's bytes, then the offset as a u64.
pub open spec fn entry_bytes(e: (Seq<u8>, u64)) -> Seq<u8> {
    le_bytes_n(e.0.len(), 8) + e.0 + le_bytes_n(e.1 as nat, 8)
}

/// The entries one after the other.
pub open spec fn entries_bytes(s: Seq<(Seq<u8>, u64)>) -> Seq<u8>
    decreases s.len(),
{
    if s.len() == 0 {
        Seq::empty()
    } else {
        entries_bytes(s.drop_last()) + entry_bytes(s.last())
    }
}

/// A serialized index: the number of entries as a u64, then each entry.
pub open spec fn index_bytes(s: Seq<(Seq<u8>, u64)>) -> Seq<u8> {
    le_bytes_n(s.len(), 8) + entries_bytes(s)
}

/// Relies on `bincode::serialize` with its default options (fixed-width
/// little-endian integers, no size limit): a sequence is its length as a u64
/// followed by its elements, a byte vector likewise with one byte per
/// element, a pair its two parts, a u64 eight bytes. Writing into a `Vec`
/// with sequence lengths known, it does not fail for this type.
#[verifier::external_body]
fn serialize_index(entries: &Vec<(Vec<u8>, u64)>) -> (r: Vec<u8>)
    ensures
        r@ == index_bytes(entries@.map_values(|e: (Vec<u8>, u64)| (e.0@, e.1))),
{
    bincode::serialize(entries).unwrap()
}

/// Whether `(key, value)` can be appended to `log`: it fits the framing, and
/// the grown log fits in memory.
pub open spec fn insertable(log: Seq<u8>, key: Seq<u8>, value: Seq<u8>) -> bool {
    encodable(key, value) && log.len() + 8 + key.len() + value.len() <= usize::MAX
}

/// The pairs that a listing of `entries` over `log` yields: each key with the
/// value of the record at its offset, skipping offsets that hold no record.
pub open spec fn listing(log: Seq<u8>, entries: Seq<(Seq<u8>, u64)>) -> Seq<(Seq<u8>, Seq<u8>)>
    decreases entries.len(),
{
    if entries.len() == 0 {
        Seq::empty()
    } else {
        let rest = listing(log, entries.drop_last());
        match read_at_spec(log, entries.last().1 as int) {
            Ok((k, v, e)) => rest.push((entries.last().0, v)),
            Err(_) => rest,
        }
    }
}

/// One log and its index. The index is a cache of the log: `load` rebuilds
/// it from the log alone.
pub struct Table {
    /// Every byte of the log, in file order.
    pub log: Vec<u8>,
    /// Each key with the offset of its latest record, as far as known.
    pub index: Index,
}

impl Table {
    pub open spec fn wf(&self) -> bool {
        self.index.wf()
    }

    /// A table over a log that already holds `log`; its index is empty until
    /// `load` runs.
    pub fn open(log: Vec<u8>) -> (r: Table)
        ensures
            r.wf(),
            r.log@ == log@,
            r.index@ == Map::<Seq<u8>, u64>::empty(),
    {
        Table { log, index: Index::new() }
    }

    /// Rebuilds the index by replaying the whole log from its start; a record
    /// cut short at the end is where replay stops. A corrupt header leaves the
    /// index as it was and gives `Corrupt`.
    pub fn load(&mut self) -> (r: Result<(), Error>)
        requires
            old(self).wf(),
        ensures
            final(self).wf(),
            final(self).log == old(self).log,
            match replay(old(self).log@) {
                Some(m) => r == Ok::<(), Error>(()) && final(self).index@ == m,
                None => r == Err::<(), Error>(Error::Corrupt) && final(self).index@ == old(self).index@,
            },
    {
        let mut idx = Index::new();
        let mut pos: u64 = 0;
        let ghost log = self.log@;
        loop
            invariant
                self.log@ == log,
                self.log == old(self).log,
                self.index == old(self).index,
                old(self).wf(),
                idx.wf(),
                0 <= pos <= log.len(),
                replay(log) == replay_from(log, pos as int, idx@),
            ensures
                self.log == old(self).log,
                self.index == old(self).index,
                idx.wf(),
                replay(log) == Some(idx@),
            decreases log.len() - pos,
        {
            match decode_at(self.log.as_slice(), pos) {
                Ok((kv, next)) => {
                    idx.insert(kv.key, pos);
                    pos = next;
                },
                Err(Error::Corrupt) => {
                    return Err(Error::Corrupt);
                },
                Err(e) => {
                    assert(replay_from(log, pos as int, idx@) == Some(idx@));
                    break;
                },
            }
        }
        self.index = idx;
        Ok(())
    }

    /// The record at offset `position`.
    pub fn get_at(&self, position: u64) -> (r: Result<KeyValuePair, Error>)
        ensures
            match (r, read_at_spec(self.log@, position as int)) {
                (Ok(kv), Ok((k, v, e))) => kv@ == (k, v),
                (Err(x), Err(y)) => x == y,
                _ => false,
            },
    {
        match decode_at(self.log.as_slice(), position) {
            Ok((kv, next)) => Ok(kv),
            Err(e) => Err(e),
        }
    }

    /// The value of the latest indexed record of `key`; `None` for a key that
    /// the index does not hold.
    pub fn get(&self, key: &[u8]) -> (r: Result<Option<Vec<u8>>, Error>)
        requires
            self.wf(),
        ensures
            match self.index@.get(key@) {
                None => r == Ok::<Option<Vec<u8>>, Error>(None),
                Some(p) => match (r, read_at_spec(self.log@, p as int)) {
                    (Ok(Some(v)), Ok((k, w, e))) => v@ == w,
                    (Err(x), Err(y)) => x == y,
                    _ => false,
                },
            },
    {
        match self.index.get(key) {
            None => Ok(None),
            Some(position) => match self.get_at(position) {
                Ok(kv) => Ok(Some(kv.value)),
                Err(e) => Err(e),
            },
        }
    }

    /// Each indexed key with the value at its offset, in index order; an
    /// offset that holds no readable record is skipped.
    pub fn list(&self) -> (r: Vec<KeyValuePair>)
        requires
            self.wf(),
        ensures
            r@.map_values(|kv: KeyValuePair| kv@) == listing(self.log@, self.index.entries_view()),
    {
        let mut out: Vec<KeyValuePair> = Vec::new();
        let n = self.index.len();
        let ghost es = self.index.entries_view();
        let mut i: usize = 0;
        while i < n
            invariant
                self.wf(),
                es == self.index.entries_view(),
                n == es.len(),
                i <= n,
                out@.map_values(|kv: KeyValuePair| kv@) == listing(self.log@, es.subrange(0, i as int)),
            decreases n - i,
        {
            let (key, position) = self.index.entry(i);
            let ghost before = out@.map_values(|kv: KeyValuePair| kv@);
            assert(es.subrange(0, i + 1).drop_last() =~= es.subrange(0, i as int));
            match decode_at(self.log.as_slice(), position) {
                Ok((kv, next)) => {
                    out.push(KeyValuePair { key: key.clone(), value: kv.value });
                    assert(out@.map_values(|kv: KeyValuePair| kv@) =~= before.push((key@, kv.value@)));
                },
                Err(e) => {},
            }
            i = i + 1;
        }
        assert(es.subrange(0, n as int) =~= es);
        out
    }

    /// Appends the record `(key, value)` at the end of the log and points
    /// `key` at it. A key or value too long for the framing, or a log that
    /// would outgrow memory, gives `InvalidRecord` and changes nothing.
    pub fn insert(&mut self, key: &[u8], value: &[u8]) -> (r: Result<(), Error>)
        requires
            old(self).wf(),
        ensures
            final(self).wf(),
            insertable(old(self).log@, key@, value@) ==> r == Ok::<(), Error>(())
                && final(self).log@ == old(self).log@ + encode_spec(key@, value@)
                && final(self).index@ == old(self).index@.insert(key@, old(self).log@.len() as u64),
            !insertable(old(self).log@, key@, value@) ==> r == Err::<(), Error>(Error::InvalidRecord)
                && final(self).log == old(self).log
                && final(self).index@ == old(self).index@,
    {
        if key.len() > usize::MAX - 8 || value.len() > usize::MAX - 8 - key.len()
            || self.log.len() > usize::MAX - 8 - key.len() - value.len() {
            return Err(Error::InvalidRecord);
        }
        let record = match encode(key, value) {
            Ok(b) => b,
            Err(e) => return Err(e),
        };
        let position = self.log.len() as u64;
        let ghost before = self.log@;
        let mut i: usize = 0;
        while i < record.len()
            invariant
                i <= record@.len(),
                self.index == old(self).index,
                self.log@ == before + record@.subrange(0, i as int),
            decreases record@.len() - i,
        {
            self.log.push(record[i]);
            i = i + 1;
            assert(self.log@ =~= before + record@.subrange(0, i as int));
        }
        assert(record@.subrange(0, record@.len() as int) =~= record@);
        assert(key@.subrange(0, key@.len() as int) =~= key@);
        self.index.insert(copy_range(key, 0, key.len()), position);
        Ok(())
    }

    /// Writes `snapshot` as a record under `index_key` after emptying the
    /// index, so that the index then holds `index_key` alone.
    pub fn install_snapshot(&mut self, index_key: &[u8], snapshot: &[u8]) -> (r: Result<(), Error>)
        requires
            old(self).wf(),
        ensures
            final(self).wf(),
            insertable(old(self).log@, index_key@, snapshot@) ==> r == Ok::<(), Error>(())
                && final(self).log@ == old(self).log@ + encode_spec(index_key@, snapshot@)
                && final(self).index@ == map![index_key@ => old(self).log@.len() as u64],
            !insertable(old(self).log@, index_key@, snapshot@) ==> r == Err::<(), Error>(Error::InvalidRecord)
                && final(self).log == old(self).log
                && final(self).index@ == Map::<Seq<u8>, u64>::empty(),
    {
        self.index = Index::new();
        let r = self.insert(index_key, snapshot);
        assert(self.index@ =~= Map::<Seq<u8>, u64>::empty().insert(index_key@, old(self).log@.len() as u64)
            || r is Err);
        r
    }

    /// Stores a snapshot of the index in the log under `index_key`: drops
    /// `index_key` from the index, serializes the rest, empties the index and
    /// appends the serialized bytes as the value of a record under
    /// `index_key`. Afterwards the index holds `index_key` alone; every other
    /// key comes back with the next `load`.
    pub fn store_index_on_disk(&mut self, index_key: &[u8]) -> (r: Result<(), Error>)
        requires
            old(self).wf(),
        ensures
            final(self).wf(),
            exists|s: Seq<(Seq<u8>, u64)>| crate::index::keys_distinct(s)
                && #[trigger] crate::index::map_of(s) == old(self).index@.remove(index_key@)
                && (insertable(old(self).log@, index_key@, index_bytes(s)) ==> r == Ok::<(), Error>(())
                    && final(self).log@ == old(self).log@ + encode_spec(index_key@, index_bytes(s))
                    && final(self).index@ == map![index_key@ => old(self).log@.len() as u64])
                && (!insertable(old(self).log@, index_key@, index_bytes(s)) ==> r == Err::<(), Error>(Error::InvalidRecord)
                    && final(self).log == old(self).log
                    && final(self).index@ == Map::<Seq<u8>, u64>::empty()),
    {
        self.index.remove(index_key);
        let ghost s = self.index.entries_view();
        let bytes = serialize_index(self.index.entries());
        assert(bytes@ == index_bytes(s));
        self.install_snapshot(index_key, bytes.as_slice())
    }
}

} // verus!
