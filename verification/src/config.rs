//! Configuration: what `config.toml` holds, and its defaults.

use vstd::prelude::*;
use vstd::seq_lib::*;
use vstd::string::*;

verus! {

/// The whole configuration.
#[derive(Clone, Debug)]
pub struct Config {
    pub dns: DnsConfig,
    pub upstream: UpstreamConfig,
    pub cache: CacheConfig,
    pub web: WebConfig,
    pub qlog: QlogConfig,
}

/// The query log.
#[derive(Clone, Debug)]
pub struct QlogConfig {
    /// Turn query logging on/off.
    pub enabled: bool,
    /// Directory holding the Parquet log segments.
    pub dir: String,
    /// Hard size cap for the log directory (bytes). Oldest segments are dropped.
    pub max_bytes: u64,
    /// Flush a Parquet segment at least this often (seconds).
    pub flush_secs: u64,
    /// ...or once this many rows have buffered, whichever comes first.
    pub flush_rows: usize,
    /// Record the client IP. Turn off for privacy.
    pub log_client_ip: bool,
    /// Hard memory ceiling (MB) for a single query.
    pub mem_limit_mb: u64,
}

/// The DNS listeners and the answers to blocked queries.
#[derive(Clone, Debug)]
pub struct DnsConfig {
    /// Address the DNS server listens on (UDP + TCP). Port 53 needs privileges.
    pub bind: String,
    /// Number of receive loops, one socket each. 0 = number of CPU cores.
    pub workers: usize,
    /// How blocked domains are answered: "zero_ip" or "nxdomain".
    pub sinkhole_mode: String,
    /// IPv4 address returned for blocked A queries, as a number.
    pub sinkhole_ipv4: u32,
    /// IPv6 address returned for blocked AAAA queries, as a number.
    pub sinkhole_ipv6: u128,
    /// TTL (seconds) put on sinkhole answers.
    pub sinkhole_ttl: u32,
    /// Cap on queries handled at one time. Packets over it are dropped.
    pub max_inflight: usize,
}

/// The upstream resolvers and the limits toward them.
#[derive(Clone, Debug)]
pub struct UpstreamConfig {
    /// Upstream resolvers, tried in order. e.g. ["1.1.1.1:53", "8.8.8.8:53"].
    pub servers: Vec<String>,
    /// Per-query timeout in milliseconds.
    pub timeout_ms: u64,
    /// Max concurrent in-flight queries toward upstream (burst guard).
    pub max_concurrent: usize,
    /// Hard ceiling on queries-per-second toward upstream.
    pub max_qps: u32,
}

/// The cache and its store.
#[derive(Clone, Debug)]
pub struct CacheConfig {
    /// Max number of in-RAM cached entries (bounds memory well under 1 GB).
    pub max_entries: u64,
    /// Path to the embedded durability store.
    pub db_path: String,
    /// Write-behind flush interval (ms). Lower = less loss on a hard crash.
    pub flush_ms: u64,
    /// How often (seconds) to purge expired rows from the store.
    pub purge_interval_secs: u64,
    /// TTL floor applied to upstream answers (seconds).
    pub min_ttl: u32,
    /// TTL ceiling applied to upstream answers (seconds).
    pub max_ttl: u32,
    /// TTL used for negative answers (NXDOMAIN / empty).
    pub negative_ttl: u32,
}

/// The admin portal.
#[derive(Clone, Debug)]
pub struct WebConfig {
    /// Address the admin web UI / API listens on.
    pub bind: String,
    /// Shared admin token, sent in a header. Empty disables auth; at startup an
    /// empty token is replaced by a generated one.
    pub admin_token: String,
    /// Path to the blocklist file (one domain per line).
    pub blocklist_path: String,
}

/// Path of the store where none is configured.
pub fn default_db_path() -> (r: String)
    ensures
        r@ == "cache.redb"@,
{
    "cache.redb".to_owned()
}

/// Flush interval (ms) where none is configured.
pub fn default_flush_ms() -> (r: u64)
    ensures
        r == 500,
{
    500
}

/// Purge interval (seconds) where none is configured.
pub fn default_purge_interval_secs() -> (r: u64)
    ensures
        r == 300,
{
    300
}

/// Cap on queries handled at one time where none is configured.
pub fn default_max_inflight() -> (r: usize)
    ensures
        r == 8192,
{
    8192
}

/// Whether a query log has the defaults.
pub open spec fn is_default_qlog(q: QlogConfig) -> bool {
    &&& q.enabled
    &&& q.dir@ == "logs"@
    &&& q.max_bytes == 2 * 1024 * 1024 * 1024
    &&& q.flush_secs == 5
    &&& q.flush_rows == 10_000
    &&& q.log_client_ip
    &&& q.mem_limit_mb == 128
}

impl Default for QlogConfig {
    fn default() -> (r: Self)
        ensures
            is_default_qlog(r),
            r.enabled && r.log_client_ip,
            r.dir@ == "logs"@,
            r.max_bytes == 2_147_483_648,
            r.flush_secs == 5 && r.flush_rows == 10_000,
            r.mem_limit_mb == 128,
    {
        QlogConfig {
            enabled: true,
            dir: "logs".to_owned(),
            max_bytes: 2 * 1024 * 1024 * 1024,
            flush_secs: 5,
            flush_rows: 10_000,
            log_client_ip: true,
            mem_limit_mb: 128,
        }
    }
}

impl Default for Config {
    fn default() -> (r: Self)
        ensures
            r.dns.bind@ == "0.0.0.0:53"@,
            r.dns.workers == 0,
            r.dns.sinkhole_mode@ == "zero_ip"@,
            r.dns.sinkhole_ipv4 == 0,
            r.dns.sinkhole_ipv6 == 0,
            r.dns.sinkhole_ttl == 60,
            r.dns.max_inflight == 8192,
            r.upstream.servers@.len() == 2,
            r.upstream.servers@[0]@ == "1.1.1.1:53"@,
            r.upstream.servers@[1]@ == "8.8.8.8:53"@,
            r.upstream.timeout_ms == 2000,
            r.upstream.max_concurrent == 256,
            r.upstream.max_qps == 2000,
            r.cache.max_entries == 500_000,
            r.cache.db_path@ == "cache.redb"@,
            r.cache.flush_ms == 500,
            r.cache.purge_interval_secs == 300,
            r.cache.min_ttl == 30,
            r.cache.max_ttl == 86_400,
            r.cache.negative_ttl == 60,
            r.web.bind@ == "127.0.0.1:8080"@,
            r.web.admin_token@ == ""@,
            r.web.blocklist_path@ == "blocklist.txt"@,
            is_default_qlog(r.qlog),
            r.qlog.enabled && r.qlog.log_client_ip,
            r.qlog.dir@ == "logs"@,
            r.qlog.max_bytes == 2_147_483_648,
            r.qlog.flush_secs == 5 && r.qlog.flush_rows == 10_000,
            r.qlog.mem_limit_mb == 128,
    {
        let mut servers: Vec<String> = Vec::new();
        servers.push("1.1.1.1:53".to_owned());
        servers.push("8.8.8.8:53".to_owned());
        Config {
            dns: DnsConfig {
                bind: "0.0.0.0:53".to_owned(),
                workers: 0,
                sinkhole_mode: "zero_ip".to_owned(),
                sinkhole_ipv4: 0,
                sinkhole_ipv6: 0,
                sinkhole_ttl: 60,
                max_inflight: default_max_inflight(),
            },
            upstream: UpstreamConfig {
                servers,
                timeout_ms: 2000,
                max_concurrent: 256,
                max_qps: 2000,
            },
            cache: CacheConfig {
                max_entries: 500_000,
                db_path: default_db_path(),
                flush_ms: default_flush_ms(),
                purge_interval_secs: default_purge_interval_secs(),
                min_ttl: 30,
                max_ttl: 86_400,
                negative_ttl: 60,
            },
            web: WebConfig {
                bind: "127.0.0.1:8080".to_owned(),
                admin_token: "".to_owned(),
                blocklist_path: "blocklist.txt".to_owned(),
            },
            qlog: QlogConfig::default(),
        }
    }
}

/// The digits of hexadecimal numbers.
pub open spec fn hex_digit(d: int) -> char {
    if d < 10 {
        ('0' as int + d) as char
    } else {
        ('a' as int + d - 10) as char
    }
}

/// Two hexadecimal digits for each byte.
pub open spec fn hex(bytes: Seq<u8>) -> Seq<char>
    decreases bytes.len(),
{
    if bytes.len() == 0 {
        Seq::empty()
    } else {
        hex(bytes.drop_last()).push(hex_digit(bytes.last() as int / 16)).push(
            hex_digit(bytes.last() as int % 16),
        )
    }
}

/// A digit of a hexadecimal number.
fn hex_char(d: u8) -> (r: char)
    requires
        d < 16,
    ensures
        r == hex_digit(d as int),
{
    if d < 10 {
        (48 + d) as char
    } else {
        (87 + d) as char
    }
}

/// A token with two hexadecimal digits for each random byte.
pub fn token_of(random: &[u8]) -> (r: String)
    ensures
        r@ == hex(random@),
{
    let mut s: String = "".to_owned();
    proof {
        reveal_strlit("");
    }
    let mut i: usize = 0;
    while i < random.len()
        invariant
            i <= random@.len(),
            s@ == hex(random@.take(i as int)),
        decreases random@.len() - i,
    {
        proof {
            assert(random@.take(i + 1).drop_last() == random@.take(i as int));
        }
        s.push(hex_char(random[i] / 16));
        s.push(hex_char(random[i] % 16));
        i = i + 1;
    }
    assert(random@.take(i as int) == random@);
    s
}

impl Config {
    /// Socket addresses of the upstream servers, in order. `parsed` holds what
    /// each configured text was read as; texts that are no address are skipped.
    pub fn upstream_addrs<A: Copy>(&self, parsed: &Vec<Option<A>>) -> (r: Vec<A>)
        requires
            parsed@.len() == self.upstream.servers@.len(),
        ensures
            r@ == parsed@.filter_map(|a: Option<A>| a),
    {
        let ghost f = |a: Option<A>| a;
        let mut out: Vec<A> = Vec::new();
        let mut i: usize = 0;
        assert(out@ == parsed@.take(0).filter_map(f));
        while i < parsed.len()
            invariant
                i <= parsed@.len(),
                f == (|a: Option<A>| a),
                out@ == parsed@.take(i as int).filter_map(f),
            decreases parsed@.len() - i,
        {
            proof {
                parsed@.lemma_filter_map_take_succ(f, i as int);
            }
            if let Some(a) = parsed[i] {
                out.push(a);
            }
            i = i + 1;
        }
        assert(parsed@.take(i as int) == parsed@);
        out
    }

    /// Replaces an empty admin token by one made of random bytes, and says
    /// whether it did.
    pub fn ensure_token(&mut self, random: &[u8]) -> (generated: bool)
        ensures
            generated <==> old(self).web.admin_token@.len() == 0,
            final(self).web.admin_token@ == if generated {
                hex(random@)
            } else {
                old(self).web.admin_token@
            },
            *final(self) == (Config {
                web: WebConfig {
                    admin_token: final(self).web.admin_token,
                    ..old(self).web
                },
                ..*old(self)
            }),
    {
        if self.web.admin_token.as_str().unicode_len() == 0 {
            self.web.admin_token = token_of(random);
            true
        } else {
            false
        }
    }
}

/// Path of the configuration file: the first argument, else the environment's,
/// else `config.toml`.
pub fn config_path(arg: Option<String>, env: Option<String>) -> (r: String)
    ensures
        r@ == match (arg, env) {
            (Some(path), _) => path@,
            (None, Some(path)) => path@,
            (None, None) => "config.toml"@,
        },
{
    match arg {
        Some(path) => path,
        None => match env {
            Some(path) => path,
            None => "config.toml".to_owned(),
        },
    }
}

/// Different random bytes make different tokens, of two digits for each byte.
pub proof fn law_tokens_keep_all_randomness(a: Seq<u8>, b: Seq<u8>)
    ensures
        hex(a).len() == 2 * a.len(),
        hex(a) == hex(b) ==> a == b,
    decreases a.len() + b.len(),
{
    if a.len() > 0 && b.len() > 0 {
        law_tokens_keep_all_randomness(a.drop_last(), b.drop_last());
        if hex(a) == hex(b) {
            let (x, y) = (a.last() as int, b.last() as int);
            assert(hex(a).drop_last().drop_last() == hex(a.drop_last()));
            assert(hex(b).drop_last().drop_last() == hex(b.drop_last()));
            assert(hex(a)[hex(a).len() - 2] == hex_digit(x / 16));
            assert(hex(b)[hex(b).len() - 2] == hex_digit(y / 16));
            assert(hex(a).last() == hex_digit(x % 16));
            assert(x / 16 == y / 16 && x % 16 == y % 16);
            assert(a == a.drop_last().push(a.last()));
            assert(b == b.drop_last().push(b.last()));
        }
    } else if a.len() > 0 {
        law_tokens_keep_all_randomness(a.drop_last(), b);
    } else if b.len() > 0 {
        assert(hex(b).len() > 0);
    }
}

/// A token is each byte's two hexadecimal digits, the higher first, in the order
/// of the bytes.
pub proof fn law_token_is_the_bytes_in_hex(bytes: Seq<u8>, i: int)
    requires
        0 <= i < bytes.len(),
    ensures
        hex(bytes).len() == 2 * bytes.len(),
        hex(bytes)[2 * i] == "0123456789abcdef"@[bytes[i] as int / 16],
        hex(bytes)[2 * i + 1] == "0123456789abcdef"@[bytes[i] as int % 16],
    decreases bytes.len(),
{
    reveal_strlit("0123456789abcdef");
    law_tokens_keep_all_randomness(bytes, bytes);
    let rest = bytes.drop_last();
    law_tokens_keep_all_randomness(rest, rest);
    if i < bytes.len() - 1 {
        law_token_is_the_bytes_in_hex(rest, i);
        assert(hex(bytes)[2 * i] == hex(rest)[2 * i]);
        assert(hex(bytes)[2 * i + 1] == hex(rest)[2 * i + 1]);
    }
}

} // verus!
