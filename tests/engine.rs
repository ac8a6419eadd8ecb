use simpledb::api::{get_value, list_values, reserved_key, routes, set_value, Handler, Method};
use simpledb::codec::{decode_at, encode, Error};
use simpledb::database::Database;
use simpledb::index::{bytes_eq, Index};
use simpledb::table::Table;

fn loaded(log: Vec<u8>) -> Table {
    let mut t = Table::open(log);
    t.load().unwrap();
    t
}

#[test]
fn encode_writes_little_endian_header() {
    let r = encode(b"key", b"value").unwrap();
    assert_eq!(r, vec![3, 0, 0, 0, 5, 0, 0, 0, b'k', b'e', b'y', b'v', b'a', b'l', b'u', b'e']);
}

#[test]
fn encode_large_length_bytes() {
    let value = vec![7u8; 0x0102];
    let r = encode(b"", &value).unwrap();
    assert_eq!(&r[..8], &[0, 0, 0, 0, 0x02, 0x01, 0, 0]);
    assert_eq!(r.len(), 8 + 0x0102);
}

#[test]
fn decode_round_trip() {
    let bytes = encode(b"alpha", b"beta").unwrap();
    let (kv, next) = decode_at(&bytes, 0).unwrap();
    assert_eq!(kv.key, b"alpha".to_vec());
    assert_eq!(kv.value, b"beta".to_vec());
    assert_eq!(next, bytes.len() as u64);
}

#[test]
fn decode_round_trip_empty() {
    let bytes = encode(b"", b"").unwrap();
    assert_eq!(bytes, vec![0u8; 8]);
    let (kv, next) = decode_at(&bytes, 0).unwrap();
    assert!(kv.key.is_empty());
    assert!(kv.value.is_empty());
    assert_eq!(next, 8);
}

#[test]
fn decode_reads_header_lengths() {
    let bytes = vec![2, 0, 0, 0, 1, 0, 0, 0, b'a', b'b', b'c', 9];
    let (kv, next) = decode_at(&bytes, 0).unwrap();
    assert_eq!(kv.key, b"ab".to_vec());
    assert_eq!(kv.value, b"c".to_vec());
    assert_eq!(next, 11);
}

#[test]
fn decode_at_end_is_end_of_log() {
    let bytes = encode(b"k", b"v").unwrap();
    assert_eq!(decode_at(&bytes, bytes.len() as u64).err(), Some(Error::EndOfLog));
    assert_eq!(decode_at(&bytes, 1000).err(), Some(Error::EndOfLog));
    assert_eq!(decode_at(&[], 0).err(), Some(Error::EndOfLog));
}

#[test]
fn decode_partial_is_truncated() {
    let bytes = encode(b"k", b"value").unwrap();
    assert_eq!(decode_at(&bytes[..5], 0).err(), Some(Error::Truncated));
    assert_eq!(decode_at(&bytes[..bytes.len() - 1], 0).err(), Some(Error::Truncated));
}

#[test]
fn bytes_eq_compares_contents() {
    assert!(bytes_eq(b"abc", b"abc"));
    assert!(!bytes_eq(b"abc", b"abd"));
    assert!(!bytes_eq(b"abc", b"ab"));
    assert!(bytes_eq(b"", b""));
}

#[test]
fn index_insert_get_remove() {
    let mut idx = Index::new();
    assert_eq!(idx.get(b"a"), None);
    idx.insert(b"a".to_vec(), 5);
    idx.insert(b"b".to_vec(), 9);
    idx.insert(b"a".to_vec(), 12);
    assert_eq!(idx.len(), 2);
    assert_eq!(idx.get(b"a"), Some(12));
    assert_eq!(idx.get(b"b"), Some(9));
    idx.remove(b"a");
    assert_eq!(idx.get(b"a"), None);
    assert_eq!(idx.len(), 1);
    idx.remove(b"zzz");
    assert_eq!(idx.len(), 1);
}

#[test]
fn replay_gives_last_offsets() {
    let mut t = Table::open(Vec::new());
    t.insert(b"a", b"1").unwrap();
    t.insert(b"b", b"22").unwrap();
    t.insert(b"a", b"333").unwrap();
    let mut r = loaded(t.log.clone());
    assert_eq!(r.index.get(b"a"), Some(10 + 11));
    assert_eq!(r.index.get(b"b"), Some(10));
    assert_eq!(r.index.len(), 2);
    r.load().unwrap();
    assert_eq!(r.index.get(b"a"), Some(21));
    assert_eq!(r.index.get(b"b"), Some(10));
    assert_eq!(r.index.len(), 2);
}

#[test]
fn insert_appends_record_and_indexes_it() {
    let mut t = Table::open(Vec::new());
    t.insert(b"x", b"1").unwrap();
    assert_eq!(t.log, vec![1, 0, 0, 0, 1, 0, 0, 0, b'x', b'1']);
    assert_eq!(t.index.get(b"x"), Some(0));
    t.insert(b"y", b"2").unwrap();
    assert_eq!(t.index.get(b"y"), Some(10));
    assert_eq!(t.log.len(), 20);
}

#[test]
fn last_write_wins_after_reload() {
    let mut t = Table::open(Vec::new());
    t.insert(b"k", b"v1").unwrap();
    t.insert(b"k", b"v2").unwrap();
    let r = loaded(t.log.clone());
    assert_eq!(r.get(b"k").unwrap(), Some(b"v2".to_vec()));
    let old = r.get_at(0).unwrap();
    assert_eq!(old.key, b"k".to_vec());
    assert_eq!(old.value, b"v1".to_vec());
}

#[test]
fn truncated_tail_is_ignored_by_load() {
    let mut t = Table::open(Vec::new());
    t.insert(b"a", b"1").unwrap();
    t.insert(b"b", b"2").unwrap();
    let before = t.log.clone();
    t.insert(b"c", b"value").unwrap();
    let mut cut = t.log.clone();
    cut.pop();
    let r_cut = loaded(cut);
    let r_before = loaded(before);
    assert_eq!(r_cut.index.len(), r_before.index.len());
    assert_eq!(r_cut.index.get(b"a"), r_before.index.get(b"a"));
    assert_eq!(r_cut.index.get(b"b"), r_before.index.get(b"b"));
    assert_eq!(r_cut.index.get(b"c"), None);
}

#[test]
fn truncated_header_is_ignored_by_load() {
    let mut t = Table::open(Vec::new());
    t.insert(b"a", b"1").unwrap();
    let mut log = t.log.clone();
    log.extend_from_slice(&[3, 0, 0]);
    let r = loaded(log);
    assert_eq!(r.index.len(), 1);
    assert_eq!(r.get(b"a").unwrap(), Some(b"1".to_vec()));
}

#[test]
fn load_replaces_previous_index() {
    let mut t = Table::open(Vec::new());
    t.insert(b"a", b"1").unwrap();
    let mut other = Table::open(Vec::new());
    other.insert(b"z", b"9").unwrap();
    t.index = other.index;
    t.load().unwrap();
    assert_eq!(t.index.get(b"z"), None);
    assert_eq!(t.index.get(b"a"), Some(0));
}

#[test]
fn get_absent_key_is_none() {
    let mut t = Table::open(Vec::new());
    assert_eq!(t.get(b"missing").unwrap(), None);
    t.insert(b"present", b"1").unwrap();
    assert_eq!(t.get(b"missing").unwrap(), None);
}

#[test]
fn get_table_absent_is_none() {
    let db = Database::open();
    assert!(db.get_table("never").is_none());
}

#[test]
fn get_at_past_end_is_end_of_log() {
    let mut t = Table::open(Vec::new());
    t.insert(b"a", b"1").unwrap();
    assert_eq!(t.get_at(10).err(), Some(Error::EndOfLog));
    assert_eq!(t.get_at(3).err(), Some(Error::Truncated));
}

#[test]
fn list_skips_unreadable_offsets() {
    let mut t = Table::open(Vec::new());
    t.insert(b"a", b"1").unwrap();
    t.index.insert(b"ghost".to_vec(), 500);
    let items = t.list();
    assert_eq!(items.len(), 1);
    assert_eq!(items[0].key, b"a".to_vec());
    assert_eq!(items[0].value, b"1".to_vec());
}

#[test]
fn snapshot_leaves_only_reserved_key() {
    let mut t = Table::open(Vec::new());
    t.insert(b"a", b"1").unwrap();
    t.insert(b"b", b"2").unwrap();
    let key = reserved_key();
    assert_eq!(key, b"+index".to_vec());
    t.store_index_on_disk(&key).unwrap();
    assert_eq!(t.index.len(), 1);
    assert_eq!(t.index.get(&key), Some(20));
    assert_eq!(t.index.get(b"a"), None);
    assert_eq!(t.get(b"a").unwrap(), None);
    t.load().unwrap();
    assert_eq!(t.index.len(), 3);
    assert_eq!(t.index.get(b"a"), Some(0));
    assert_eq!(t.index.get(b"b"), Some(10));
    assert_eq!(t.index.get(&key), Some(20));
}

#[test]
fn snapshot_value_is_bincode_of_index() {
    let mut t = Table::open(Vec::new());
    t.insert(b"a", b"1").unwrap();
    t.store_index_on_disk(b"+index").unwrap();
    let kv = t.get_at(10).unwrap();
    assert_eq!(kv.key, b"+index".to_vec());
    let mut expected = vec![1u8, 0, 0, 0, 0, 0, 0, 0];
    expected.extend_from_slice(&[1, 0, 0, 0, 0, 0, 0, 0]);
    expected.push(b'a');
    expected.extend_from_slice(&[0, 0, 0, 0, 0, 0, 0, 0]);
    assert_eq!(kv.value, expected);
}

#[test]
fn snapshot_excludes_previous_snapshot() {
    let mut t = Table::open(Vec::new());
    t.insert(b"a", b"1").unwrap();
    t.store_index_on_disk(b"+index").unwrap();
    t.load().unwrap();
    t.store_index_on_disk(b"+index").unwrap();
    let position = t.index.get(b"+index").unwrap();
    let kv = t.get_at(position).unwrap();
    let mut expected = vec![1u8, 0, 0, 0, 0, 0, 0, 0];
    expected.extend_from_slice(&[1, 0, 0, 0, 0, 0, 0, 0]);
    expected.push(b'a');
    expected.extend_from_slice(&[0, 0, 0, 0, 0, 0, 0, 0]);
    assert_eq!(kv.value, expected);
}

#[test]
fn end_to_end_scenario() {
    let mut t = Table::open(Vec::new());
    t.insert(b"x", b"1").unwrap();
    t.insert(b"y", b"2").unwrap();
    t.insert(b"x", b"3").unwrap();
    t.load().unwrap();
    assert_eq!(t.get(b"x").unwrap(), Some(b"3".to_vec()));
    assert_eq!(t.get(b"y").unwrap(), Some(b"2".to_vec()));
    let mut items: Vec<(Vec<u8>, Vec<u8>)> = t.list().into_iter().map(|kv| (kv.key, kv.value)).collect();
    items.sort();
    assert_eq!(items, vec![(b"x".to_vec(), b"3".to_vec()), (b"y".to_vec(), b"2".to_vec())]);
}

#[test]
fn database_create_and_replace_table() {
    let mut db = Database::open();
    let mut t = Table::open(Vec::new());
    t.insert(b"a", b"1").unwrap();
    db.create_table("one", t);
    assert_eq!(db.get_table("one").unwrap().log.len(), 10);
    db.create_table("two", Table::open(Vec::new()));
    db.create_table("one", Table::open(vec![0u8; 8]));
    assert_eq!(db.get_table("one").unwrap().log, vec![0u8; 8]);
    assert!(db.get_table("two").unwrap().log.is_empty());
}

#[test]
fn database_get_table_mut_changes_in_place() {
    let mut db = Database::open();
    db.create_table("t", Table::open(Vec::new()));
    assert!(db.get_table_mut("nope").is_none());
    db.get_table_mut("t").unwrap().insert(b"k", b"v").unwrap();
    assert_eq!(db.get_table("t").unwrap().get(b"k").unwrap(), Some(b"v".to_vec()));
}

#[test]
fn routes_table() {
    let r = routes();
    assert_eq!(r.len(), 3);
    assert_eq!((r[0].method, r[0].path, r[0].handler), (Method::Get, "/<table>/<key>", Handler::GetValue));
    assert_eq!((r[1].method, r[1].path, r[1].handler), (Method::Get, "/<table>", Handler::ListValues));
    assert_eq!((r[2].method, r[2].path, r[2].handler), (Method::Post, "/<table>", Handler::SetValue));
}

#[test]
fn set_then_get_and_list() {
    let mut t = Table::open(Vec::new());
    set_value(&mut t, b"x", b"1").unwrap();
    set_value(&mut t, b"y", b"2").unwrap();
    set_value(&mut t, b"x", b"3").unwrap();
    assert_eq!(t.index.len(), 1);
    assert_eq!(get_value(&mut t, b"x").unwrap(), Some(b"3".to_vec()));
    assert_eq!(get_value(&mut t, b"y").unwrap(), Some(b"2".to_vec()));
    assert_eq!(get_value(&mut t, b"z").unwrap(), None);
    let items = list_values(&mut t).unwrap();
    let mut keys: Vec<Vec<u8>> = items.into_iter().map(|kv| kv.key).collect();
    keys.sort();
    assert_eq!(keys, vec![b"+index".to_vec(), b"x".to_vec(), b"y".to_vec()]);
}

#[test]
fn set_value_writes_record_then_snapshot() {
    let mut t = Table::open(Vec::new());
    set_value(&mut t, b"x", b"1").unwrap();
    let mut expected = vec![1u8, 0, 0, 0, 1, 0, 0, 0, b'x', b'1'];
    expected.extend_from_slice(&[6, 0, 0, 0, 25, 0, 0, 0]);
    expected.extend_from_slice(b"+index");
    expected.extend_from_slice(&[1, 0, 0, 0, 0, 0, 0, 0]);
    expected.extend_from_slice(&[1, 0, 0, 0, 0, 0, 0, 0]);
    expected.push(b'x');
    expected.extend_from_slice(&[0, 0, 0, 0, 0, 0, 0, 0]);
    assert_eq!(t.log, expected);
    assert_eq!(t.index.len(), 1);
    assert_eq!(t.index.get(b"+index"), Some(10));
    assert_eq!(t.get(b"+index").unwrap(), Some(expected[24..].to_vec()));
}
