//! What the request layer decides: its routes, and the table operations
//! behind each of them. Text conversion and I/O stay with the caller.
use vstd::prelude::*;
use crate::codec::{encode_spec, read_at_spec, Error, KeyValuePair};
use crate::index::{keys_distinct, map_of};
use crate::log::replay;
use crate::table::{index_bytes, insertable, listing, Table};

verus! {

/// The key under which a table stores snapshots of its index.
pub open spec fn reserved_key_spec() -> Seq<u8> {
    seq![43u8, 105u8, 110u8, 100u8, 101u8, 120u8]
}

/// The reserved key `+index`.
pub fn reserved_key() -> (r: Vec<u8>)
    ensures
        r@ == reserved_key_spec(),
{
    let r: Vec<u8> = vec![43u8, 105u8, 110u8, 100u8, 101u8, 120u8];
    assert(r@ =~= reserved_key_spec());
    r
}

/// The request methods that the routes answer.
#[derive(Debug, Clone, Copy, PartialEq, Eq, Structural)]
pub enum Method {
    Get,
    Post,
}

/// The operation behind a route.
#[derive(Debug, Clone, Copy, PartialEq, Eq, Structural)]
pub enum Handler {
    /// `GET /<table>/<key>`: the value of one key.
    GetValue,
    /// `GET /<table>`: every key with its value.
    ListValues,
    /// `POST /<table>`: store one key and value.
    SetValue,
}

/// One route: a method, a path template and the operation behind it.
pub struct Route {
    pub method: Method,
    pub path: &'static str,
    pub handler: Handler,
}

/// The routes of the request layer.
pub fn routes() -> (r: Vec<Route>)
    ensures
        r@.len() == 3,
        r@[0].method == Method::Get && r@[0].path@ == "/<table>/<key>"@ && r@[0].handler == Handler::GetValue,
        r@[1].method == Method::Get && r@[1].path@ == "/<table>"@ && r@[1].handler == Handler::ListValues,
        r@[2].method == Method::Post && r@[2].path@ == "/<table>"@ && r@[2].handler == Handler::SetValue,
{
    let mut r: Vec<Route> = Vec::new();
    r.push(Route { method: Method::Get, path: "/<table>/<key>", handler: Handler::GetValue });
    r.push(Route { method: Method::Get, path: "/<table>", handler: Handler::ListValues });
    r.push(Route { method: Method::Post, path: "/<table>", handler: Handler::SetValue });
    r
}

/// Reloads the table and reads the latest value of `key`.
pub fn get_value(table: &mut Table, key: &[u8]) -> (r: Result<Option<Vec<u8>>, Error>)
    requires
        old(table).wf(),
    ensures
        final(table).wf(),
        final(table).log == old(table).log,
        match replay(old(table).log@) {
            None => r == Err::<Option<Vec<u8>>, Error>(Error::Corrupt),
            Some(m) => final(table).index@ == m && match m.get(key@) {
                None => r == Ok::<Option<Vec<u8>>, Error>(None),
                Some(p) => match (r, read_at_spec(old(table).log@, p as int)) {
                    (Ok(Some(v)), Ok((k, w, e))) => v@ == w,
                    (Err(x), Err(y)) => x == y,
                    _ => false,
                },
            },
        },
{
    match table.load() {
        Ok(()) => table.get(key),
        Err(e) => Err(e),
    }
}

/// Reloads the table and lists every key with its latest value.
pub fn list_values(table: &mut Table) -> (r: Result<Vec<KeyValuePair>, Error>)
    requires
        old(table).wf(),
    ensures
        final(table).wf(),
        final(table).log == old(table).log,
        match replay(old(table).log@) {
            None => r == Err::<Vec<KeyValuePair>, Error>(Error::Corrupt),
            Some(m) => final(table).index@ == m && (r matches Ok(v)
                && v@.map_values(|kv: KeyValuePair| kv@) == listing(old(table).log@, final(table).index.entries_view())),
        },
{
    match table.load() {
        Ok(()) => Ok(table.list()),
        Err(e) => Err(e),
    }
}

/// Reloads the table, appends `(key, value)`, then stores a snapshot of the
/// index under the reserved key. Afterwards the index holds the reserved key
/// alone.
pub fn set_value(table: &mut Table, key: &[u8], value: &[u8]) -> (r: Result<(), Error>)
    requires
        old(table).wf(),
    ensures
        final(table).wf(),
        replay(old(table).log@) is None ==> r == Err::<(), Error>(Error::Corrupt) && final(table).log == old(table).log,
        replay(old(table).log@) is Some && !insertable(old(table).log@, key@, value@) ==>
            r == Err::<(), Error>(Error::InvalidRecord) && final(table).log == old(table).log,
        replay(old(table).log@) is Some && insertable(old(table).log@, key@, value@) ==> ({
            let n = old(table).log@.len();
            let grown = old(table).log@ + encode_spec(key@, value@);
            exists|s: Seq<(Seq<u8>, u64)>| keys_distinct(s)
                && #[trigger] map_of(s) == replay(old(table).log@)->Some_0.insert(key@, n as u64).remove(reserved_key_spec())
                && (insertable(grown, reserved_key_spec(), index_bytes(s)) ==> r == Ok::<(), Error>(())
                    && final(table).index@ == map![reserved_key_spec() => grown.len() as u64]
                    && final(table).log@ == grown + encode_spec(reserved_key_spec(), index_bytes(s)))
                && (!insertable(grown, reserved_key_spec(), index_bytes(s)) ==> r == Err::<(), Error>(Error::InvalidRecord)
                    && final(table).log@ == grown
                    && final(table).index@ == Map::<Seq<u8>, u64>::empty())
        }),
{
    match table.load() {
        Ok(()) => {},
        Err(e) => return Err(e),
    }
    match table.insert(key, value) {
        Ok(()) => {},
        Err(e) => return Err(e),
    }
    let reserved = reserved_key();
    table.store_index_on_disk(reserved.as_slice())
}

} // verus!
