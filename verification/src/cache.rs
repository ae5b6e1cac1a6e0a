//! Cached responses, and their rows in the durable store.
//!
//! A row's key is the record type, two bytes, and the name. Its value is the
//! expiry, eight bytes, the TTL, four bytes, and the response. Numbers are
//! big-endian.

use std::sync::Arc;

use vstd::prelude::*;
use vstd::seq_lib::*;
use vstd::string::*;
use vstd::utf8::*;

use crate::bigendian;
use crate::bigendian::{copy_from, decode_be, encode_be};
use crate::clock;
use crate::config::CacheConfig;

verus! {

/// What a cached response answers.
#[derive(Clone, PartialEq, Eq, Hash)]
pub struct CacheKey {
    pub name: String,
    pub rtype: u16,
}

/// A response as it is cached.
#[derive(Clone)]
pub struct CachedResponse {
    /// Raw DNS wire response; the transaction id is set for each client.
    pub wire: Vec<u8>,
    /// Effective TTL used for expiry in memory.
    pub ttl_secs: u32,
    /// Absolute expiry in Unix seconds, stored so that stale rows can be dropped.
    pub expires_unix: u64,
}

/// The values of a cache key.
#[verifier::ext_equal]
pub struct KeyModel {
    pub name: Seq<char>,
    pub rtype: u16,
}

/// The values of a cached response.
#[verifier::ext_equal]
pub struct ResponseModel {
    pub wire: Seq<u8>,
    pub ttl_secs: u32,
    pub expires_unix: u64,
}

impl View for CacheKey {
    type V = KeyModel;

    open spec fn view(&self) -> KeyModel {
        KeyModel { name: self.name@, rtype: self.rtype }
    }
}

impl View for CachedResponse {
    type V = ResponseModel;

    open spec fn view(&self) -> ResponseModel {
        ResponseModel {
            wire: self.wire@,
            ttl_secs: self.ttl_secs,
            expires_unix: self.expires_unix,
        }
    }
}

/// Seconds that a response stays in memory: its TTL, but at least one.
pub fn lifetime_secs(value: &CachedResponse) -> (r: u64)
    ensures
        r == if value.ttl_secs == 0 {
            1
        } else {
            value.ttl_secs
        },
{
    if value.ttl_secs == 0 {
        1
    } else {
        value.ttl_secs as u64
    }
}

/// Entries at which a batch is written to the store.
pub const BATCH_MAX: usize = 256;

/// Capacity of the channel to the store's writer. If it falls behind, entries
/// are dropped rather than memory growing without bound under load.
pub const PERSIST_CHANNEL_CAP: usize = 100_000;

/// Milliseconds after which a batch is written: as configured, at least 50.
pub fn flush_interval_ms(flush_ms: u64) -> (r: u64)
    ensures
        r == if flush_ms < 50 {
            50
        } else {
            flush_ms
        },
{
    if flush_ms < 50 {
        50
    } else {
        flush_ms
    }
}

/// Seconds between purges: as configured, at least one.
pub fn purge_interval_secs(cfg: &CacheConfig) -> (r: u64)
    ensures
        r == if cfg.purge_interval_secs == 0 {
            1
        } else {
            cfg.purge_interval_secs
        },
{
    if cfg.purge_interval_secs == 0 {
        1
    } else {
        cfg.purge_interval_secs
    }
}

/// Seconds since the Unix epoch on the system clock, zero where it stands
/// before it.
pub fn now_unix() -> (r: u64)
    ensures
        exists|since: Option<(u64, u32)>| r == #[trigger] clock::seconds_of(since),
{
    clock::unix_seconds(clock::read())
}

// ---------------------------------------------------------------------------
// Row format
// ---------------------------------------------------------------------------

/// The key bytes of a row.
pub open spec fn key_bytes(k: KeyModel) -> Seq<u8> {
    bigendian::be_bytes(k.rtype as nat, 2) + encode_utf8(k.name)
}

/// The cache key that a row's key bytes hold.
pub open spec fn key_of_bytes(b: Seq<u8>) -> Option<KeyModel> {
    if b.len() >= 2 && valid_utf8(b.skip(2)) {
        Some(
            KeyModel {
                name: decode_utf8(b.skip(2)),
                rtype: bigendian::be_value(b.take(2)) as u16,
            },
        )
    } else {
        None
    }
}

/// The value bytes of a row.
pub open spec fn value_bytes(v: ResponseModel) -> Seq<u8> {
    bigendian::be_bytes(v.expires_unix as nat, 8) + bigendian::be_bytes(v.ttl_secs as nat, 4)
        + v.wire
}

/// The response that a row's value bytes hold.
pub open spec fn value_of_bytes(b: Seq<u8>) -> Option<ResponseModel> {
    if b.len() >= 12 {
        Some(
            ResponseModel {
                wire: b.skip(12),
                ttl_secs: bigendian::be_value(b.subrange(8, 12)) as u32,
                expires_unix: bigendian::be_value(b.take(8)) as u64,
            },
        )
    } else {
        None
    }
}

/// `String::from_utf8` accepts valid UTF-8 and gives the text it encodes.
#[verifier::external_body]
fn utf8_text(bytes: Vec<u8>) -> (r: Option<String>)
    ensures
        r is Some <==> valid_utf8(bytes@),
        r matches Some(s) ==> s@ == decode_utf8(bytes@),
{
    String::from_utf8(bytes).ok()
}

/// The key bytes of a row.
pub fn enc_key(k: &CacheKey) -> (r: Vec<u8>)
    ensures
        r@ == key_bytes(k@),
{
    let mut b: Vec<u8> = encode_be(k.rtype as u64, 2);
    let mut name: Vec<u8> = k.name.as_str().as_bytes_vec();
    b.append(&mut name);
    b
}

/// The cache key that a row's key bytes hold.
pub fn dec_key(b: &[u8]) -> (r: Option<CacheKey>)
    ensures
        match r {
            Some(k) => key_of_bytes(b@) == Some(k@),
            None => key_of_bytes(b@) is None,
        },
{
    if b.len() < 2 {
        return None;
    }
    let rtype: u64 = decode_be(b, 0, 2);
    proof {
        assert(b@.subrange(0, 2) == b@.take(2));
        bigendian::lemma_bytes_of_value(b@.take(2));
        bigendian::lemma_pow256();
    }
    match utf8_text(copy_from(b, 2)) {
        Some(name) => Some(CacheKey { name, rtype: rtype as u16 }),
        None => None,
    }
}

/// The value bytes of a row.
pub fn enc_val(v: &CachedResponse) -> (r: Vec<u8>)
    ensures
        r@ == value_bytes(v@),
{
    let mut b: Vec<u8> = encode_be(v.expires_unix, 8);
    let mut ttl: Vec<u8> = encode_be(v.ttl_secs as u64, 4);
    b.append(&mut ttl);
    let mut wire: Vec<u8> = copy_from(v.wire.as_slice(), 0);
    assert(v.wire@.skip(0) == v.wire@);
    b.append(&mut wire);
    b
}

/// The response that a row's value bytes hold.
pub fn dec_val(b: &[u8]) -> (r: Option<CachedResponse>)
    ensures
        match r {
            Some(v) => value_of_bytes(b@) == Some(v@),
            None => value_of_bytes(b@) is None,
        },
{
    if b.len() < 12 {
        return None;
    }
    let expires_unix: u64 = decode_be(b, 0, 8);
    let ttl: u64 = decode_be(b, 8, 4);
    proof {
        assert(b@.subrange(0, 8) == b@.take(8));
        bigendian::lemma_bytes_of_value(b@.take(8));
        bigendian::lemma_bytes_of_value(b@.subrange(8, 12));
        bigendian::lemma_pow256();
    }
    Some(CachedResponse { wire: copy_from(b, 12), ttl_secs: ttl as u32, expires_unix })
}

// ---------------------------------------------------------------------------
// Batches of rows
// ---------------------------------------------------------------------------

/// A row: its key and value bytes.
pub type Row = (Vec<u8>, Vec<u8>);

/// The bytes of each row.
pub open spec fn row_bytes(rows: Seq<Row>) -> Seq<(Seq<u8>, Seq<u8>)> {
    rows.map_values(|r: Row| (r.0@, r.1@))
}

/// The values of each entry.
pub open spec fn entry_values(
    items: Seq<(CacheKey, Arc<CachedResponse>)>,
) -> Seq<(KeyModel, ResponseModel)> {
    items.map_values(|e: (CacheKey, Arc<CachedResponse>)| (e.0@, e.1@))
}

/// The row of an entry.
pub open spec fn row_of(e: (KeyModel, ResponseModel)) -> (Seq<u8>, Seq<u8>) {
    (key_bytes(e.0), value_bytes(e.1))
}

/// The entry that a row holds at time `now`, with the lifetime that is left;
/// none where it is expired or cannot be read.
pub open spec fn live_entry(row: (Seq<u8>, Seq<u8>), now: u64) -> Option<
    (KeyModel, ResponseModel),
> {
    match (key_of_bytes(row.0), value_of_bytes(row.1)) {
        (Some(k), Some(v)) => if v.expires_unix > now {
            Some((k, ResponseModel { ttl_secs: (v.expires_unix - now) as u64 as u32, ..v }))
        } else {
            None
        },
        _ => None,
    }
}

/// Whether a row's value can be read and is expired at time `now`.
pub open spec fn is_expired(row: (Seq<u8>, Seq<u8>), now: u64) -> bool {
    value_of_bytes(row.1) matches Some(v) && v.expires_unix <= now
}

/// The key of a row that is expired at time `now`.
pub open spec fn expired_key(row: (Seq<u8>, Seq<u8>), now: u64) -> Option<Seq<u8>> {
    if is_expired(row, now) {
        Some(row.0)
    } else {
        None
    }
}

/// The rows that a batch of entries writes, in order.
pub fn batch_rows(items: &Vec<(CacheKey, Arc<CachedResponse>)>) -> (rows: Vec<Row>)
    ensures
        row_bytes(rows@) == entry_values(items@).map_values(
            |e: (KeyModel, ResponseModel)| row_of(e),
        ),
        rows@.len() == items@.len(),
        forall|i: int|
            0 <= i < items@.len() ==> (#[trigger] rows@[i]).0@ == key_bytes(items@[i].0@)
                && rows@[i].1@ == value_bytes(items@[i].1@),
{
    let ghost f = |e: (KeyModel, ResponseModel)| row_of(e);
    let mut rows: Vec<Row> = Vec::new();
    let mut i: usize = 0;
    while i < items.len()
        invariant
            i <= items@.len(),
            f == (|e: (KeyModel, ResponseModel)| row_of(e)),
            row_bytes(rows@) == entry_values(items@).take(i as int).map_values(f),
        decreases items@.len() - i,
    {
        let row: Row = (enc_key(&items[i].0), enc_val(&items[i].1));
        assert(row_bytes(rows@.push(row)) == row_bytes(rows@).push((row.0@, row.1@)));
        rows.push(row);
        assert(entry_values(items@).take(i + 1).map_values(f) == entry_values(items@).take(
            i as int,
        ).map_values(f).push(row_of(entry_values(items@)[i as int])));
        i = i + 1;
    }
    assert(entry_values(items@).take(i as int) == entry_values(items@));
    proof {
        let all = entry_values(items@).map_values(f);
        assert(row_bytes(rows@).len() == all.len());
        assert forall|k: int| 0 <= k < items@.len() implies (#[trigger] rows@[k]).0@ == key_bytes(
            items@[k].0@,
        ) && rows@[k].1@ == value_bytes(items@[k].1@) by {
            assert(row_bytes(rows@)[k] == (rows@[k].0@, rows@[k].1@));
            assert(all[k] == row_of((items@[k].0@, items@[k].1@)));
        }
    }
    rows
}

/// Every entry that is not expired at time `now`, with `ttl_secs` set to the
/// lifetime that is left.
pub fn valid_entries(rows: &Vec<Row>, now: u64) -> (r: Vec<(CacheKey, CachedResponse)>)
    ensures
        r@.map_values(|e: (CacheKey, CachedResponse)| (e.0@, e.1@)) == row_bytes(rows@).filter_map(
            |row: (Seq<u8>, Seq<u8>)| live_entry(row, now),
        ),
{
    let ghost all = row_bytes(rows@);
    let ghost f = |row: (Seq<u8>, Seq<u8>)| live_entry(row, now);
    let ghost view = |e: (CacheKey, CachedResponse)| (e.0@, e.1@);
    let mut out: Vec<(CacheKey, CachedResponse)> = Vec::new();
    let mut i: usize = 0;
    assert(out@.map_values(view) == all.take(0).filter_map(f));
    while i < rows.len()
        invariant
            i <= rows@.len(),
            all == row_bytes(rows@),
            f == (|row: (Seq<u8>, Seq<u8>)| live_entry(row, now)),
            view == (|e: (CacheKey, CachedResponse)| (e.0@, e.1@)),
            out@.map_values(view) == all.take(i as int).filter_map(f),
        decreases rows@.len() - i,
    {
        proof {
            all.lemma_filter_map_take_succ(f, i as int);
        }
        match (dec_key(rows[i].0.as_slice()), dec_val(rows[i].1.as_slice())) {
            (Some(key), Some(val)) => {
                if val.expires_unix > now {
                    let left: u64 = val.expires_unix - now;
                    let entry: (CacheKey, CachedResponse) = (
                        key,
                        CachedResponse {
                            wire: val.wire,
                            ttl_secs: left as u32,
                            expires_unix: val.expires_unix,
                        },
                    );
                    assert(f(all[i as int]) == Some(view(entry)));
                    assert(out@.push(entry).map_values(view) == out@.map_values(view).push(
                        view(entry),
                    ));
                    out.push(entry);
                }
            },
            _ => {},
        }
        i = i + 1;
    }
    assert(all.take(i as int) == all);
    out
}

/// The keys of the rows that are expired at time `now`.
pub fn expired_keys(rows: &Vec<Row>, now: u64) -> (r: Vec<Vec<u8>>)
    ensures
        r@.map_values(|k: Vec<u8>| k@) == row_bytes(rows@).filter_map(
            |row: (Seq<u8>, Seq<u8>)| expired_key(row, now),
        ),
{
    let ghost all = row_bytes(rows@);
    let ghost f = |row: (Seq<u8>, Seq<u8>)| expired_key(row, now);
    let ghost view = |k: Vec<u8>| k@;
    let mut out: Vec<Vec<u8>> = Vec::new();
    let mut i: usize = 0;
    assert(out@.map_values(view) == all.take(0).filter_map(f));
    while i < rows.len()
        invariant
            i <= rows@.len(),
            all == row_bytes(rows@),
            f == (|row: (Seq<u8>, Seq<u8>)| expired_key(row, now)),
            view == (|k: Vec<u8>| k@),
            out@.map_values(view) == all.take(i as int).filter_map(f),
        decreases rows@.len() - i,
    {
        proof {
            all.lemma_filter_map_take_succ(f, i as int);
        }
        if let Some(val) = dec_val(rows[i].1.as_slice()) {
            if val.expires_unix <= now {
                let key: Vec<u8> = copy_from(rows[i].0.as_slice(), 0);
                assert(rows@[i as int].0@.skip(0) == rows@[i as int].0@);
                assert(f(all[i as int]) == Some(view(key)));
                assert(out@.push(key).map_values(view) == out@.map_values(view).push(view(key)));
                out.push(key);
            }
        }
        i = i + 1;
    }
    assert(all.take(i as int) == all);
    out
}

// ---------------------------------------------------------------------------
// The store
// ---------------------------------------------------------------------------

/// A store after rows were written to it in order.
pub open spec fn written(
    store: Map<Seq<u8>, Seq<u8>>,
    rows: Seq<(Seq<u8>, Seq<u8>)>,
) -> Map<Seq<u8>, Seq<u8>>
    decreases rows.len(),
{
    if rows.len() == 0 {
        store
    } else {
        written(store, rows.drop_last()).insert(rows.last().0, rows.last().1)
    }
}

/// Whether `rows` are the rows of a store.
pub open spec fn lists(rows: Seq<(Seq<u8>, Seq<u8>)>, store: Map<Seq<u8>, Seq<u8>>) -> bool {
    forall|k: Seq<u8>, v: Seq<u8>| #[trigger]
        rows.contains((k, v)) <==> store.dom().contains(k) && store[k] == v
}

/// A key is read back from its bytes.
pub proof fn law_key_reads_back(k: KeyModel)
    ensures
        key_of_bytes(key_bytes(k)) == Some(k),
{
    bigendian::lemma_pow256();
    bigendian::lemma_value_of_bytes(k.rtype as nat, 2);
    encode_utf8_valid_utf8(k.name);
    encode_utf8_decode_utf8(k.name);
    assert(key_bytes(k).skip(2) == encode_utf8(k.name));
    assert(key_bytes(k).take(2) == bigendian::be_bytes(k.rtype as nat, 2));
}

/// A response is read back from its bytes.
pub proof fn law_value_reads_back(v: ResponseModel)
    ensures
        value_of_bytes(value_bytes(v)) == Some(v),
{
    bigendian::lemma_pow256();
    bigendian::lemma_value_of_bytes(v.expires_unix as nat, 8);
    bigendian::lemma_value_of_bytes(v.ttl_secs as nat, 4);
    assert(value_bytes(v).skip(12) == v.wire);
    assert(value_bytes(v).take(8) == bigendian::be_bytes(v.expires_unix as nat, 8));
    assert(value_bytes(v).subrange(8, 12) == bigendian::be_bytes(v.ttl_secs as nat, 4));
}

/// Different keys have different bytes.
pub proof fn law_keys_do_not_collide(a: KeyModel, b: KeyModel)
    requires
        key_bytes(a) == key_bytes(b),
    ensures
        a == b,
{
    law_key_reads_back(a);
    law_key_reads_back(b);
}

/// Bytes that are read as a key are the bytes of that key, so a name and type
/// are stored under one key only.
pub proof fn law_key_bytes_are_unique(b: Seq<u8>)
    requires
        key_of_bytes(b) is Some,
    ensures
        key_bytes(key_of_bytes(b)->0) == b,
{
    bigendian::lemma_pow256();
    bigendian::lemma_bytes_of_value(b.take(2));
    decode_utf8_encode_utf8(b.skip(2));
    assert(b == b.take(2) + b.skip(2));
}

/// What a store holds under a key after rows were written: the last row with
/// that key, or what it held before.
proof fn lemma_written(
    store: Map<Seq<u8>, Seq<u8>>,
    rows: Seq<(Seq<u8>, Seq<u8>)>,
    key: Seq<u8>,
    last: int,
)
    requires
        -1 <= last < rows.len(),
        last >= 0 ==> rows[last].0 == key,
        forall|j: int| last < j < rows.len() ==> (#[trigger] rows[j]).0 != key,
    ensures
        last >= 0 ==> written(store, rows).dom().contains(key) && written(store, rows)[key]
            == rows[last].1,
        last < 0 ==> (written(store, rows).dom().contains(key) <==> store.dom().contains(key))
            && written(store, rows)[key] == store[key],
    decreases rows.len(),
{
    if rows.len() > 0 && last < rows.len() - 1 {
        assert(rows.last().0 != key);
        lemma_written(store, rows.drop_last(), key, last);
    }
}

/// The last entry written for a key comes back after a restart as long as it
/// has not expired, with the lifetime that is left.
pub proof fn law_written_entry_comes_back(
    store: Map<Seq<u8>, Seq<u8>>,
    items: Seq<(KeyModel, ResponseModel)>,
    i: int,
    rows: Seq<(Seq<u8>, Seq<u8>)>,
    now: u64,
)
    requires
        0 <= i < items.len(),
        forall|j: int| i < j < items.len() ==> (#[trigger] items[j]).0 != items[i].0,
        items[i].1.expires_unix > now,
        lists(rows, written(store, items.map_values(|e: (KeyModel, ResponseModel)| row_of(e)))),
    ensures
        rows.filter_map(|row: (Seq<u8>, Seq<u8>)| live_entry(row, now)).contains(
            (
                items[i].0,
                ResponseModel {
                    ttl_secs: (items[i].1.expires_unix - now) as u64 as u32,
                    ..items[i].1
                },
            ),
        ),
{
    let f = |row: (Seq<u8>, Seq<u8>)| live_entry(row, now);
    let all = items.map_values(|e: (KeyModel, ResponseModel)| row_of(e));
    let row = row_of(items[i]);
    assert forall|j: int| i < j < all.len() implies (#[trigger] all[j]).0 != row.0 by {
        if all[j].0 == row.0 {
            law_keys_do_not_collide(items[j].0, items[i].0);
        }
    }
    lemma_written(store, all, row.0, i);
    law_key_reads_back(items[i].0);
    law_value_reads_back(items[i].1);
    assert(rows.contains((row.0, row.1)));
    let at = choose|at: int| 0 <= at < rows.len() && rows[at] == (row.0, row.1);
    lemma_filter_map_has(rows, f, at);
}

/// The image of an element is among the images.
proof fn lemma_filter_map_has<A, B>(s: Seq<A>, f: spec_fn(A) -> Option<B>, i: int)
    requires
        0 <= i < s.len(),
        f(s[i]) is Some,
    ensures
        s.filter_map(f).contains(f(s[i])->0),
    decreases s.len(),
{
    let rest = s.drop_last();
    if i == s.len() - 1 {
        assert(s.filter_map(f).last() == f(s[i])->0);
    } else {
        lemma_filter_map_has(rest, f, i);
        let k = choose|k: int|
            0 <= k < rest.filter_map(f).len() && rest.filter_map(f)[k] == f(s[i])->0;
        assert(s.filter_map(f)[k] == f(s[i])->0);
    }
}

/// Entries of other keys are left as they were by a write.
pub proof fn law_write_keeps_other_keys(
    store: Map<Seq<u8>, Seq<u8>>,
    items: Seq<(KeyModel, ResponseModel)>,
    key: KeyModel,
)
    requires
        forall|j: int| 0 <= j < items.len() ==> (#[trigger] items[j]).0 != key,
    ensures
        ({
            let after = written(
                store,
                items.map_values(|e: (KeyModel, ResponseModel)| row_of(e)),
            );
            &&& after.dom().contains(key_bytes(key)) <==> store.dom().contains(key_bytes(key))
            &&& after[key_bytes(key)] == store[key_bytes(key)]
        }),
{
    let all = items.map_values(|e: (KeyModel, ResponseModel)| row_of(e));
    assert forall|j: int| -1 < j < all.len() implies (#[trigger] all[j]).0 != key_bytes(key) by {
        if all[j].0 == key_bytes(key) {
            law_keys_do_not_collide(items[j].0, key);
        }
    }
    lemma_written(store, all, key_bytes(key), -1);
}

/// A purge deletes the expired rows and no others, so that no entry is lost
/// that could still be read.
pub proof fn law_purge_deletes_expired_rows_only(
    store: Map<Seq<u8>, Seq<u8>>,
    rows: Seq<(Seq<u8>, Seq<u8>)>,
    now: u64,
    key: Seq<u8>,
)
    requires
        lists(rows, store),
        store.dom().contains(key),
    ensures
        ({
            let keys = rows.filter_map(|row: (Seq<u8>, Seq<u8>)| expired_key(row, now));
            let purged = store.remove_keys(keys.to_set());
            &&& purged.dom().contains(key) <==> !is_expired((key, store[key]), now)
            &&& purged.dom().contains(key) ==> purged[key] == store[key]
            &&& live_entry((key, store[key]), now) is Some ==> purged.dom().contains(key)
        }),
{
    let f = |row: (Seq<u8>, Seq<u8>)| expired_key(row, now);
    let keys = rows.filter_map(f);
    assert(rows.contains((key, store[key])));
    if is_expired((key, store[key]), now) {
        let at = choose|at: int| 0 <= at < rows.len() && rows[at] == (key, store[key]);
        lemma_filter_map_has(rows, f, at);
    } else if keys.contains(key) {
        rows.lemma_filter_map_contains(f, key);
        let t = choose|t: (Seq<u8>, Seq<u8>)| #[trigger] rows.contains(t) && f(t) == Some(key);
        assert(rows.contains((t.0, t.1)));
    }
}

/// A key's bytes are the record type, the higher byte first, and the name in
/// UTF-8. Bytes are read as a key where they are at least two and the rest is
/// UTF-8, and then as the key that has them.
pub proof fn law_key_format(k: KeyModel, b: Seq<u8>)
    ensures
        key_bytes(k) == seq![(k.rtype / 256) as u8, (k.rtype % 256) as u8] + encode_utf8(k.name),
        key_of_bytes(b) is Some <==> b.len() >= 2 && valid_utf8(b.skip(2)),
        key_of_bytes(b) matches Some(r) ==> r.rtype == b[0] * 256 + b[1] && encode_utf8(r.name)
            == b.skip(2),
{
    bigendian::law_highest_byte_first(k.rtype as nat, b.take(2));
    assert(k.rtype as nat / 256 % 256 == k.rtype / 256);
    if key_of_bytes(b) is Some {
        decode_utf8_encode_utf8(b.skip(2));
        assert(b.take(2)[0] == b[0] && b.take(2)[1] == b[1]);
    }
}

/// A value's bytes are the expiry in eight bytes and the TTL in four, the
/// highest first, and the response. Bytes are read as a value where they are at
/// least twelve, and then as the value that has them.
pub proof fn law_value_format(v: ResponseModel, b: Seq<u8>)
    ensures
        value_bytes(v) == seq![
            (v.expires_unix / 0x100_0000_0000_0000) as u8,
            (v.expires_unix / 0x1_0000_0000_0000 % 256) as u8,
            (v.expires_unix / 0x100_0000_0000 % 256) as u8,
            (v.expires_unix / 0x1_0000_0000 % 256) as u8,
            (v.expires_unix / 0x100_0000 % 256) as u8,
            (v.expires_unix / 0x1_0000 % 256) as u8,
            (v.expires_unix / 0x100 % 256) as u8,
            (v.expires_unix % 256) as u8,
            (v.ttl_secs / 0x100_0000) as u8,
            (v.ttl_secs / 0x1_0000 % 256) as u8,
            (v.ttl_secs / 0x100 % 256) as u8,
            (v.ttl_secs % 256) as u8,
        ] + v.wire,
        value_of_bytes(b) is Some <==> b.len() >= 12,
        value_of_bytes(b) matches Some(r) ==> value_bytes(r) == b && r.wire == b.skip(12),
{
    bigendian::law_highest_byte_first(v.expires_unix as nat, Seq::empty());
    bigendian::law_highest_byte_first(v.ttl_secs as nat, Seq::empty());
    assert(v.expires_unix as nat / 0x100_0000_0000_0000 % 256 == v.expires_unix
        / 0x100_0000_0000_0000);
    assert(v.ttl_secs as nat / 0x100_0000 % 256 == v.ttl_secs / 0x100_0000);
    if b.len() >= 12 {
        bigendian::lemma_pow256();
        bigendian::lemma_bytes_of_value(b.take(8));
        bigendian::lemma_bytes_of_value(b.subrange(8, 12));
        assert(b == b.take(8) + b.subrange(8, 12) + b.skip(12));
    }
}

/// A row is live where its expiry lies after now, and then holds its key and its
/// response with the lifetime that is left. It is expired where its expiry does
/// not lie after now. A row that cannot be read is neither.
pub proof fn law_rows_live_until_they_expire(
    k: KeyModel,
    v: ResponseModel,
    row: (Seq<u8>, Seq<u8>),
    now: u64,
)
    ensures
        live_entry((key_bytes(k), value_bytes(v)), now) == if v.expires_unix > now {
            Some(
                (
                    k,
                    ResponseModel {
                        wire: v.wire,
                        ttl_secs: (v.expires_unix - now) as u64 as u32,
                        expires_unix: v.expires_unix,
                    },
                ),
            )
        } else {
            None
        },
        is_expired((row.0, value_bytes(v)), now) <==> v.expires_unix <= now,
        expired_key((row.0, value_bytes(v)), now) == if v.expires_unix <= now {
            Some(row.0)
        } else {
            None
        },
        row.1.len() < 12 ==> live_entry(row, now) is None && !is_expired(row, now) && expired_key(
            row,
            now,
        ) is None,
        row.0.len() < 2 || !valid_utf8(row.0.skip(2)) ==> live_entry(row, now) is None,
{
    law_key_reads_back(k);
    law_value_reads_back(v);
}

/// What comes back at a start was stored and has not expired: its row is among
/// the rows, with the same key, response and expiry, and the lifetime is what is
/// left of it.
pub proof fn law_only_stored_entries_come_back(
    rows: Seq<(Seq<u8>, Seq<u8>)>,
    now: u64,
    e: (KeyModel, ResponseModel),
)
    requires
        rows.filter_map(|row: (Seq<u8>, Seq<u8>)| live_entry(row, now)).contains(e),
    ensures
        e.1.expires_unix > now,
        e.1.ttl_secs == (e.1.expires_unix - now) as u64 as u32,
        exists|ttl: u32|
            rows.contains(
                (
                    key_bytes(e.0),
                    #[trigger] value_bytes(ResponseModel { ttl_secs: ttl, ..e.1 }),
                ),
            ),
{
    let f = |row: (Seq<u8>, Seq<u8>)| live_entry(row, now);
    rows.lemma_filter_map_contains(f, e);
    let row = choose|t: (Seq<u8>, Seq<u8>)| #[trigger] rows.contains(t) && f(t) == Some(e);
    law_key_bytes_are_unique(row.0);
    let v = value_of_bytes(row.1)->0;
    law_value_format(v, row.1);
    assert(ResponseModel { ttl_secs: v.ttl_secs, ..e.1 } == v);
    assert(value_bytes(ResponseModel { ttl_secs: v.ttl_secs, ..e.1 }) == row.1);
    assert(row == (row.0, row.1));
}

/// A purge deletes just the rows whose expiry does not lie after now.
pub proof fn law_purge_goes_by_the_expiry(
    store: Map<Seq<u8>, Seq<u8>>,
    rows: Seq<(Seq<u8>, Seq<u8>)>,
    now: u64,
    key: Seq<u8>,
    v: ResponseModel,
)
    requires
        lists(rows, store),
        store.dom().contains(key),
        store[key] == value_bytes(v),
    ensures
        ({
            let keys = rows.filter_map(|row: (Seq<u8>, Seq<u8>)| expired_key(row, now));
            store.remove_keys(keys.to_set()).dom().contains(key) <==> v.expires_unix > now
        }),
{
    law_purge_deletes_expired_rows_only(store, rows, now, key);
    law_value_reads_back(v);
}

/// Rows, entries, keys and responses are taken as they are, in order.
pub proof fn law_rows_are_taken_as_they_are(
    rows: Seq<Row>,
    items: Seq<(CacheKey, Arc<CachedResponse>)>,
    i: int,
)
    ensures
        row_bytes(rows).len() == rows.len(),
        entry_values(items).len() == items.len(),
        0 <= i < rows.len() ==> row_bytes(rows)[i] == (rows[i].0@, rows[i].1@),
        0 <= i < items.len() ==> {
            let e = entry_values(items)[i];
            &&& e.0.name == items[i].0.name@ && e.0.rtype == items[i].0.rtype
            &&& e.1.wire == items[i].1.wire@ && e.1.ttl_secs == items[i].1.ttl_secs
            &&& e.1.expires_unix == items[i].1.expires_unix
        },
{
}

} // verus!
