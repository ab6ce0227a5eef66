//! The store's view of the outside world: the embedded ordered key-value
//! database, the commit channel, and the UTF-8 decoders of std that vstd
//! leaves unspecified. Every item here is trusted: Verus believes the
//! stated contracts without reading the bodies.

use vstd::prelude::*;

use crate::bytes::lex_lt;
use crate::types::StoreKvEvent;

verus! {

#[verifier::external_type_specification]
#[verifier::external_body]
pub struct ExDb(sled::Db);

#[verifier::external_type_specification]
#[verifier::external_body]
pub struct ExConfig(sled::Config);

#[verifier::external_type_specification]
#[verifier::external_body]
pub struct ExSledError(sled::Error);

#[verifier::external_type_specification]
#[verifier::external_body]
#[verifier::reject_recursive_types(T)]
pub struct ExUnboundedSender<T>(futures::channel::mpsc::UnboundedSender<T>);

/// The entries a database handle holds: a map from byte key to byte value.
pub uninterp spec fn db_entries(db: sled::Db) -> Map<Seq<u8>, Seq<u8>>;

/// What `String::from_utf8_lossy` makes of a byte sequence. The result
/// depends on the bytes alone.
pub uninterp spec fn lossy_utf8(bytes: Seq<u8>) -> Seq<char>;

/// Relies on sled::Config::open: opens the database that the configuration
/// describes. The entries are whatever the underlying storage holds, so
/// nothing is promised of them.
#[verifier::external_body]
pub(crate) fn db_open(config: &sled::Config) -> Result<sled::Db, sled::Error> {
    config.open()
}

/// Relies on sled::Tree::get: returns the value stored under the key, if
/// any.
#[verifier::external_body]
pub(crate) fn db_get(db: &sled::Db, key: &Vec<u8>) -> (r: Result<Option<Vec<u8>>, sled::Error>)
    ensures
        r matches Ok(o) ==> match o {
            Some(v) => db_entries(*db).contains_key(key@) && db_entries(*db)[key@] == v@,
            None => !db_entries(*db).contains_key(key@),
        },
{
    match db.get(key.as_slice()) {
        Ok(Some(v)) => Ok(Some(v.to_vec())),
        Ok(None) => Ok(None),
        Err(e) => Err(e),
    }
}

/// Relies on sled::Tree::insert: sets the key to the value.
#[verifier::external_body]
pub(crate) fn db_insert(db: &mut sled::Db, key: &Vec<u8>, value: Vec<u8>) -> (r: Result<
    (),
    sled::Error,
>)
    ensures
        r is Ok ==> db_entries(*final(db)) == db_entries(*old(db)).insert(key@, value@),
{
    match db.insert(key.as_slice(), value) {
        Ok(_) => Ok(()),
        Err(e) => Err(e),
    }
}

/// Relies on sled::Tree::remove: deletes the key.
#[verifier::external_body]
pub(crate) fn db_remove(db: &mut sled::Db, key: &Vec<u8>) -> (r: Result<(), sled::Error>)
    ensures
        r is Ok ==> db_entries(*final(db)) == db_entries(*old(db)).remove(key@),
{
    match db.remove(key.as_slice()) {
        Ok(_) => Ok(()),
        Err(e) => Err(e),
    }
}

/// Relies on sled::Tree::range: walking `[lo] .. [hi]` yields exactly the
/// entries whose key's first byte lies in `lo..hi` (one-byte bounds under
/// lexicographic key order), in ascending key order.
#[verifier::external_body]
pub(crate) fn db_scan(db: &sled::Db, lo: u8, hi: u8) -> (r: Result<
    Vec<(Vec<u8>, Vec<u8>)>,
    sled::Error,
>)
    ensures
        r matches Ok(v) ==> {
            &&& forall|i: int|
                0 <= i < v@.len() ==> {
                    &&& (#[trigger] v@[i]).0@.len() > 0
                    &&& lo <= v@[i].0@[0] < hi
                    &&& db_entries(*db).contains_key(v@[i].0@)
                    &&& db_entries(*db)[v@[i].0@] == v@[i].1@
                }
            &&& forall|k: Seq<u8>|
                #[trigger] db_entries(*db).contains_key(k) && k.len() > 0 && lo <= k[0] < hi
                    ==> exists|i: int| 0 <= i < v@.len() && (#[trigger] v@[i]).0@ == k
            &&& forall|i: int, j: int|
                0 <= i < j < v@.len() ==> lex_lt((#[trigger] v@[i]).0@, (#[trigger] v@[j]).0@)
        },
{
    let mut out = Vec::new();
    for item in db.range([lo]..[hi]) {
        match item {
            Ok((k, v)) => out.push((k.to_vec(), v.to_vec())),
            Err(e) => return Err(e),
        }
    }
    Ok(out)
}

/// Relies on sled::Tree::flush: writes pending data durably without
/// changing the entries.
#[verifier::external_body]
pub(crate) fn db_flush(db: &mut sled::Db) -> (r: Result<usize, sled::Error>)
    ensures
        db_entries(*final(db)) == db_entries(*old(db)),
{
    db.flush()
}

/// Relies on futures' UnboundedSender::unbounded_send: queues the event if
/// the channel is open. The result reports whether the event was accepted;
/// nothing more is promised, so callers treat delivery as best-effort.
#[verifier::external_body]
pub(crate) fn send_store_event(
    ch: &futures::channel::mpsc::UnboundedSender<StoreKvEvent>,
    event: StoreKvEvent,
) -> bool {
    ch.unbounded_send(event).is_ok()
}

/// Relies on String::from_utf8: succeeds exactly on valid UTF-8 and decodes
/// the bytes it was given.
#[verifier::external_body]
pub(crate) fn string_from_utf8(bytes: Vec<u8>) -> (r: Option<String>)
    ensures
        r matches Some(s) ==> bytes@ == vstd::utf8::encode_utf8(s@),
        vstd::utf8::valid_utf8(bytes@) ==> r is Some,
{
    String::from_utf8(bytes).ok()
}

/// Relies on String::from_utf8_lossy: the result depends on the bytes
/// alone, and valid UTF-8 decodes exactly.
#[verifier::external_body]
pub(crate) fn string_from_utf8_lossy(bytes: &Vec<u8>) -> (r: String)
    ensures
        r@ == lossy_utf8(bytes@),
        vstd::utf8::valid_utf8(bytes@) ==> r@ == vstd::utf8::decode_utf8(bytes@),
{
    String::from_utf8_lossy(bytes.as_slice()).to_string()
}

} // verus!
