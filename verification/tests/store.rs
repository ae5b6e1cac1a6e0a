use std::sync::Arc;

use rust_dns::batch::Batcher;
use rust_dns::cache::{
    batch_rows, dec_key, dec_val, enc_key, enc_val, expired_keys, flush_interval_ms,
    lifetime_secs, now_unix, purge_interval_secs, valid_entries, CacheKey, CachedResponse,
    BATCH_MAX,
};
use rust_dns::clock::{unix_millis, unix_seconds};
use rust_dns::config::Config;
use rust_dns::qlog::now_ms;

fn key(name: &str, rtype: u16) -> CacheKey {
    CacheKey { name: name.to_string(), rtype }
}

fn value(wire: &[u8], ttl_secs: u32, expires_unix: u64) -> CachedResponse {
    CachedResponse { wire: wire.to_vec(), ttl_secs, expires_unix }
}

#[test]
fn keys_have_a_fixed_format() {
    assert_eq!(enc_key(&key("ab", 0x0102)), vec![1, 2, b'a', b'b']);
    let k = dec_key(&[1, 2, b'a', b'b']).unwrap();
    assert_eq!((k.name.as_str(), k.rtype), ("ab", 0x0102));
    assert!(dec_key(&[1]).is_none());
    assert!(dec_key(&[0, 1, 0xff]).is_none());
    assert_eq!(dec_key(&[0, 1]).unwrap().name, "");
}

#[test]
fn keys_read_back() {
    for k in [key("", 0), key("example.com", 1), key("\u{e4}.\u{1f600}", 65535)] {
        assert!(dec_key(&enc_key(&k)).unwrap() == k);
    }
    assert_ne!(enc_key(&key("a", 1)), enc_key(&key("a", 2)));
}

#[test]
fn values_have_a_fixed_format() {
    let bytes = enc_val(&value(&[9, 8], 0x0a0b_0c0d, 0x0102_0304_0506_0708));
    assert_eq!(bytes, vec![1, 2, 3, 4, 5, 6, 7, 8, 10, 11, 12, 13, 9, 8]);
    let v = dec_val(&bytes).unwrap();
    assert_eq!((v.wire, v.ttl_secs, v.expires_unix), (vec![9, 8], 0x0a0b_0c0d, 0x0102_0304_0506_0708));
    assert!(dec_val(&bytes[..11]).is_none());
    assert!(dec_val(&bytes[..12]).unwrap().wire.is_empty());
}

#[test]
fn written_entries_come_back_until_they_expire() {
    let items = vec![
        (key("a", 1), Arc::new(value(&[1], 60, 1000))),
        (key("b", 1), Arc::new(value(&[2], 60, 500))),
    ];
    let mut rows = batch_rows(&items);
    rows.push((vec![0], enc_val(&value(&[3], 1, 9999))));
    rows.push((enc_key(&key("c", 1)), vec![1, 2]));
    let back = valid_entries(&rows, 500);
    assert_eq!(back.len(), 1);
    assert!(back[0].0 == key("a", 1));
    assert_eq!((back[0].1.wire.clone(), back[0].1.ttl_secs, back[0].1.expires_unix), (vec![1], 500, 1000));
    assert_eq!(valid_entries(&rows, 499).len(), 2);
}

#[test]
fn purge_finds_expired_rows_only() {
    let items = vec![
        (key("a", 1), Arc::new(value(&[1], 60, 1000))),
        (key("b", 1), Arc::new(value(&[2], 60, 500))),
        (key("c", 1), Arc::new(value(&[2], 60, 499))),
    ];
    let mut rows = batch_rows(&items);
    rows.push((vec![7], vec![1, 2]));
    assert_eq!(expired_keys(&rows, 500), vec![enc_key(&key("b", 1)), enc_key(&key("c", 1))]);
    assert!(expired_keys(&rows, 10).is_empty());
}

#[test]
fn entries_live_at_least_a_second() {
    assert_eq!(lifetime_secs(&value(&[], 0, 0)), 1);
    assert_eq!(lifetime_secs(&value(&[], 77, 0)), 77);
}

#[test]
fn intervals_have_floors() {
    assert_eq!(flush_interval_ms(0), 50);
    assert_eq!(flush_interval_ms(500), 500);
    let mut cfg = Config::default().cache;
    assert_eq!(purge_interval_secs(&cfg), 300);
    cfg.purge_interval_secs = 0;
    assert_eq!(purge_interval_secs(&cfg), 1);
    assert_eq!(BATCH_MAX, 256);
}

#[test]
fn batches_are_written_when_full_or_flushed() {
    let mut b: Batcher<u32> = Batcher::new(3);
    assert!(b.flush().is_none());
    assert!(b.push(1).is_none());
    assert!(b.push(2).is_none());
    assert_eq!(b.push(3), Some(vec![1, 2, 3]));
    assert!(b.push(4).is_none());
    assert_eq!(b.flush(), Some(vec![4]));
    assert!(b.flush().is_none());
    let mut one: Batcher<u32> = Batcher::new(0);
    assert_eq!(one.push(5), Some(vec![5]));
}

#[test]
fn clock_readings_are_converted() {
    assert_eq!(unix_seconds(Some((12, 999_999_999))), 12);
    assert_eq!(unix_seconds(None), 0);
    assert_eq!(unix_millis(Some((12, 345_999_999))), 12_345);
    assert_eq!(unix_millis(None), 0);
}

#[test]
fn clock_runs() {
    // 2023-11-14
    assert!(now_unix() > 1_700_000_000);
    let ms = now_ms();
    let secs = now_unix();
    assert!(ms / 1000 <= secs as i64 && secs as i64 - ms / 1000 < 20);
}
