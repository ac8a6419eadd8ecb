//! Replay of a log into an index, and the laws that replay obeys.
use vstd::prelude::*;
use crate::codec::{encodable, encode_spec, lemma_decode_in_context, read_at_spec, Error};

verus! {

/// The index that scanning `log` from `p` builds on top of `m`: each complete
/// record sets its key to its own offset. The scan stops at the end of the log
/// or at a record cut short; `None` if it meets a corrupt header.
pub open spec fn replay_from(log: Seq<u8>, p: int, m: Map<Seq<u8>, u64>) -> Option<Map<Seq<u8>, u64>>
    decreases log.len() - p,
    when 0 <= p
{
    match read_at_spec(log, p) {
        Ok((k, v, e)) => if p < e <= log.len() {
            replay_from(log, e, m.insert(k, p as u64))
        } else {
            Some(m)
        },
        Err(Error::Corrupt) => None,
        Err(_) => Some(m),
    }
}

/// The index that a full replay of `log` builds.
pub open spec fn replay(log: Seq<u8>) -> Option<Map<Seq<u8>, u64>> {
    replay_from(log, 0, Map::empty())
}

/// From `p` on, `log` is a sequence of complete records and nothing else.
pub open spec fn clean_from(log: Seq<u8>, p: int) -> bool
    decreases log.len() - p,
    when 0 <= p
{
    if p == log.len() {
        true
    } else {
        match read_at_spec(log, p) {
            Ok((k, v, e)) => if p < e <= log.len() {
                clean_from(log, e)
            } else {
                false
            },
            Err(_) => false,
        }
    }
}

/// `log` is a sequence of complete records, as appends leave it.
pub open spec fn clean(log: Seq<u8>) -> bool {
    clean_from(log, 0)
}

/// Bytes appended after a clean part do not change how that part replays.
pub proof fn lemma_replay_concat(a: Seq<u8>, b: Seq<u8>, p: int, m: Map<Seq<u8>, u64>)
    requires
        0 <= p <= a.len(),
        clean_from(a, p),
        a.len() + b.len() <= usize::MAX,
    ensures
        replay_from(a, p, m) is Some,
        replay_from(a + b, p, m) == replay_from(a + b, a.len() as int, replay_from(a, p, m)->Some_0),
        clean_from(a + b, p) == clean_from(a + b, a.len() as int),
    decreases a.len() - p,
{
    if p < a.len() {
        let r = read_at_spec(a, p);
        let (k, v, e) = r->Ok_0;
        let ab = a + b;
        assert(ab.subrange(p, p + 4) =~= a.subrange(p, p + 4));
        assert(ab.subrange(p + 4, p + 8) =~= a.subrange(p + 4, p + 8));
        assert(ab.subrange(p + 8, p + 8 + crate::codec::key_len_at(a, p)) =~= k);
        assert(ab.subrange(p + 8 + crate::codec::key_len_at(a, p), e) =~= v);
        assert(read_at_spec(ab, p) == r);
        lemma_replay_concat(a, b, e, m.insert(k, p as u64));
    } else {
        assert(read_at_spec(a, p) == Err::<(Seq<u8>, Seq<u8>, int), Error>(Error::EndOfLog));
    }
}

/// Appending one record to a clean log adds its key, at the old length of the
/// log, to what replay gives, and leaves the log clean.
pub proof fn lemma_replay_append(log: Seq<u8>, key: Seq<u8>, value: Seq<u8>)
    requires
        clean(log),
        encodable(key, value),
        log.len() + encode_spec(key, value).len() <= usize::MAX,
    ensures
        replay(log) is Some,
        replay(log + encode_spec(key, value)) == Some(replay(log)->Some_0.insert(key, log.len() as u64)),
        clean(log + encode_spec(key, value)),
{
    let e = encode_spec(key, value);
    let t = log + e;
    lemma_replay_concat(log, e, 0, Map::empty());
    lemma_decode_in_context(log, key, value, Seq::empty());
    assert(log + e + Seq::<u8>::empty() =~= t);
    let n = log.len() as int;
    let m = replay(log)->Some_0;
    assert(read_at_spec(t, t.len() as int) == Err::<(Seq<u8>, Seq<u8>, int), Error>(Error::EndOfLog));
    assert(replay_from(t, t.len() as int, m.insert(key, n as u64)) == Some(m.insert(key, n as u64)));
    assert(replay_from(t, n, m) == Some(m.insert(key, n as u64)));
    assert(t.len() == n + e.len());
    assert(clean_from(t, t.len() as int));
    assert(read_at_spec(t, n) == Ok::<_, Error>((key, value, t.len() as int)));
    assert(clean_from(t, n));
}

/// The log that a sequence of inserts writes into an empty table.
pub open spec fn log_of(ops: Seq<(Seq<u8>, Seq<u8>)>) -> Seq<u8>
    decreases ops.len(),
{
    if ops.len() == 0 {
        Seq::empty()
    } else {
        log_of(ops.drop_last()) + encode_spec(ops.last().0, ops.last().1)
    }
}

/// Each key with the offset at which its last insert wrote its record.
pub open spec fn last_offsets(ops: Seq<(Seq<u8>, Seq<u8>)>) -> Map<Seq<u8>, u64>
    decreases ops.len(),
{
    if ops.len() == 0 {
        Map::empty()
    } else {
        last_offsets(ops.drop_last()).insert(ops.last().0, log_of(ops.drop_last()).len() as u64)
    }
}

/// Replaying the log of any sequence of inserts into an empty table gives each
/// key the offset of its last record; replay reads the log alone, so every
/// replay of it gives the same index.
pub proof fn lemma_replay_inserts(ops: Seq<(Seq<u8>, Seq<u8>)>)
    requires
        forall|i: int| 0 <= i < ops.len() ==> encodable(#[trigger] ops[i].0, ops[i].1),
        log_of(ops).len() <= usize::MAX,
    ensures
        clean(log_of(ops)),
        replay(log_of(ops)) == Some(last_offsets(ops)),
    decreases ops.len(),
{
    if ops.len() == 0 {
        assert(read_at_spec(Seq::<u8>::empty(), 0) == Err::<(Seq<u8>, Seq<u8>, int), Error>(Error::EndOfLog));
    } else {
        let init = ops.drop_last();
        assert forall|i: int| 0 <= i < init.len() implies encodable(#[trigger] init[i].0, init[i].1) by {
            assert(init[i] == ops[i]);
        };
        assert(encodable(ops[ops.len() - 1].0, ops[ops.len() - 1].1));
        lemma_replay_inserts(init);
        lemma_replay_append(log_of(init), ops.last().0, ops.last().1);
    }
}

/// Writing `v1` and then `v2` under one key to a clean log: replay points the
/// key at the second record, which reads back as `v2`, while the first record
/// is still in the log and still reads back as `v1`.
pub proof fn lemma_last_write_wins(log: Seq<u8>, k: Seq<u8>, v1: Seq<u8>, v2: Seq<u8>)
    requires
        clean(log),
        encodable(k, v1),
        encodable(k, v2),
        log.len() + encode_spec(k, v1).len() + encode_spec(k, v2).len() <= usize::MAX,
    ensures
        ({
            let first = log.len() as int;
            let second = first + encode_spec(k, v1).len();
            let full = log + encode_spec(k, v1) + encode_spec(k, v2);
            &&& replay(full) is Some
            &&& replay(full)->Some_0[k] == second as u64
            &&& read_at_spec(full, second) == Ok::<_, Error>((k, v2, full.len() as int))
            &&& read_at_spec(full, first) == Ok::<_, Error>((k, v1, second))
        }),
{
    let e1 = encode_spec(k, v1);
    let e2 = encode_spec(k, v2);
    lemma_replay_append(log, k, v1);
    lemma_replay_append(log + e1, k, v2);
    lemma_decode_in_context(log + e1, k, v2, Seq::empty());
    assert(log + e1 + e2 + Seq::<u8>::empty() =~= log + e1 + e2);
    lemma_decode_in_context(log, k, v1, e2);
}

/// Cutting a clean log's newly appended record short by its last byte leaves
/// replay as it was before the append, without error. The bound leaves out
/// one case only among logs that fit in memory once cut: a record whose full
/// form would end one byte past the address space. Its header then declares
/// an end that no log can reach, which replay reports as corrupt.
pub proof fn lemma_truncated_tail(log: Seq<u8>, k: Seq<u8>, v: Seq<u8>)
    requires
        clean(log),
        encodable(k, v),
        log.len() + encode_spec(k, v).len() <= usize::MAX,
    ensures
        replay(log + encode_spec(k, v).drop_last()) == replay(log),
        replay(log) is Some,
{
    let e = encode_spec(k, v);
    let cut = e.drop_last();
    let t = log + cut;
    lemma_replay_concat(log, cut, 0, Map::empty());
    lemma_decode_in_context(log, k, v, Seq::empty());
    let full = log + e + Seq::<u8>::empty();
    let n = log.len() as int;
    assert(t =~= full.subrange(0, full.len() - 1));
    if n + 8 <= t.len() {
        assert(t.subrange(n, n + 4) =~= full.subrange(n, n + 4));
        assert(t.subrange(n + 4, n + 8) =~= full.subrange(n + 4, n + 8));
    }
    let m = replay(log)->Some_0;
    assert(replay_from(t, n, m) == Some(m));
}

/// A snapshot record appended under `reserved` to a clean log: a later replay
/// gives every key that the log held before, and `reserved` at the old length.
pub proof fn lemma_snapshot_then_load(log: Seq<u8>, reserved: Seq<u8>, snapshot: Seq<u8>)
    requires
        clean(log),
        encodable(reserved, snapshot),
        log.len() + encode_spec(reserved, snapshot).len() <= usize::MAX,
    ensures
        replay(log) is Some,
        replay(log + encode_spec(reserved, snapshot)) == Some(replay(log)->Some_0.insert(reserved, log.len() as u64)),
        replay(log + encode_spec(reserved, snapshot))->Some_0.dom() == replay(log)->Some_0.dom().insert(reserved),
{
    lemma_replay_append(log, reserved, snapshot);
}

} // verus!
