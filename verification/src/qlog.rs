//! Query logging: the rows of the log, the names of its segments, which
//! segments are kept, and the query that searches them.

use vstd::multiset::*;
use vstd::prelude::*;
use vstd::seq_lib::*;
use vstd::string::*;
use vstd::utf8::*;

use crate::bigendian::copy_from;
use crate::clock;
use crate::config::QlogConfig;
use crate::decimal;
use crate::decimal::{to_decimal, to_padded, to_padded_signed};
use crate::dns::Request;
use crate::message;
use crate::order;
use crate::order::{sort, Ranked};
use crate::stats::Action;
use crate::text;

verus! {

/// A query as it is logged.
pub struct LogRecord {
    pub ts_ms: i64,
    pub client: String,
    pub domain: String,
    pub qtype: String,
    pub action: &'static str,
    pub latency_ms: u32,
}

/// Capacity of the channel to the log writer. If logging falls behind, records
/// are dropped rather than memory growing without bound under load.
pub const LOG_CHANNEL_CAP: usize = 100_000;

/// Milliseconds since the Unix epoch on the system clock, zero where it stands
/// before it.
pub fn now_ms() -> (r: i64)
    ensures
        exists|since: Option<(u64, u32)>| r == #[trigger] clock::millis_of(since),
{
    clock::unix_millis(clock::read())
}

/// The record of a query that was answered. The client is left out where it is
/// not known, and where the configuration says so.
pub fn log_record(
    cfg: &QlogConfig,
    client: Option<String>,
    request: &Request,
    action: Action,
    ts_ms: i64,
    elapsed_ms: u128,
) -> (r: LogRecord)
    ensures
        r.ts_ms == ts_ms,
        r.client@ == match client {
            Some(c) => if cfg.log_client_ip {
                c@
            } else {
                Seq::empty()
            },
            None => Seq::empty(),
        },
        r.domain@ == request@.name,
        r.qtype@ == message::record_type_name(request@.question.rtype),
        r.action@ == action.name(),
        r.action@ == match action {
            Action::Blocked => "blocked"@,
            Action::Cached => "cached"@,
            Action::Forwarded => "forwarded"@,
            Action::Error => "error"@,
        },
        r.latency_ms == elapsed_ms as u32,
{
    proof {
        reveal_strlit("");
        assert(""@ == Seq::<char>::empty());
    }
    let client: String = match client {
        Some(c) => if cfg.log_client_ip {
            c
        } else {
            "".to_owned()
        },
        None => "".to_owned(),
    };
    LogRecord {
        ts_ms,
        client,
        domain: request.name.as_str().to_owned(),
        qtype: message::rtype_text(request.question.rtype),
        action: action.as_str(),
        latency_ms: elapsed_ms as u32,
    }
}

// ---------------------------------------------------------------------------
// Columns
// ---------------------------------------------------------------------------

/// What a column holds.
#[derive(Clone, Copy, Debug, PartialEq, Eq, Structural)]
pub enum ColumnKind {
    /// Milliseconds since the epoch, without a time zone.
    TimestampMillis,
    /// Text.
    Utf8,
    /// A number of 32 bits.
    UInt32,
}

/// A column of the log.
#[derive(Clone, Copy)]
pub struct Column {
    pub name: &'static str,
    pub kind: ColumnKind,
    pub nullable: bool,
}

/// The columns of the log, in order.
pub fn schema() -> (r: Vec<Column>)
    ensures
        r@.len() == 6,
        r@[0].name@ == "ts"@ && r@[0].kind == ColumnKind::TimestampMillis && !r@[0].nullable,
        r@[1].name@ == "client"@ && r@[1].kind == ColumnKind::Utf8 && r@[1].nullable,
        r@[2].name@ == "domain"@ && r@[2].kind == ColumnKind::Utf8 && !r@[2].nullable,
        r@[3].name@ == "qtype"@ && r@[3].kind == ColumnKind::Utf8 && !r@[3].nullable,
        r@[4].name@ == "action"@ && r@[4].kind == ColumnKind::Utf8 && !r@[4].nullable,
        r@[5].name@ == "latency_ms"@ && r@[5].kind == ColumnKind::UInt32 && !r@[5].nullable,
{
    let mut v: Vec<Column> = Vec::new();
    v.push(Column { name: "ts", kind: ColumnKind::TimestampMillis, nullable: false });
    v.push(Column { name: "client", kind: ColumnKind::Utf8, nullable: true });
    v.push(Column { name: "domain", kind: ColumnKind::Utf8, nullable: false });
    v.push(Column { name: "qtype", kind: ColumnKind::Utf8, nullable: false });
    v.push(Column { name: "action", kind: ColumnKind::Utf8, nullable: false });
    v.push(Column { name: "latency_ms", kind: ColumnKind::UInt32, nullable: false });
    v
}

/// Records by columns.
pub struct Batch {
    pub ts: Vec<i64>,
    pub client: Vec<String>,
    pub domain: Vec<String>,
    pub qtype: Vec<String>,
    pub action: Vec<&'static str>,
    pub latency_ms: Vec<u32>,
}

impl Batch {
    /// Whether the columns hold the records, in order.
    pub open spec fn holds(self, recs: Seq<LogRecord>) -> bool {
        &&& self.ts@ == recs.map_values(|r: LogRecord| r.ts_ms)
        &&& text::views(self.client@) == recs.map_values(|r: LogRecord| r.client@)
        &&& text::views(self.domain@) == recs.map_values(|r: LogRecord| r.domain@)
        &&& text::views(self.qtype@) == recs.map_values(|r: LogRecord| r.qtype@)
        &&& self.action@ == recs.map_values(|r: LogRecord| r.action)
        &&& self.latency_ms@ == recs.map_values(|r: LogRecord| r.latency_ms)
    }
}

/// Records by columns, in order.
pub fn build_batch(recs: &Vec<LogRecord>) -> (r: Batch)
    ensures
        r.holds(recs@),
        r.ts@.len() == recs@.len() && r.client@.len() == recs@.len(),
        r.domain@.len() == recs@.len() && r.qtype@.len() == recs@.len(),
        r.action@.len() == recs@.len() && r.latency_ms@.len() == recs@.len(),
        forall|i: int|
            0 <= i < recs@.len() ==> {
                &&& r.ts@[i] == (#[trigger] recs@[i]).ts_ms
                &&& r.client@[i]@ == recs@[i].client@
                &&& r.domain@[i]@ == recs@[i].domain@
                &&& r.qtype@[i]@ == recs@[i].qtype@
                &&& r.action@[i]@ == recs@[i].action@
                &&& r.latency_ms@[i] == recs@[i].latency_ms
            },
{
    let mut ts: Vec<i64> = Vec::new();
    let mut client: Vec<String> = Vec::new();
    let mut domain: Vec<String> = Vec::new();
    let mut qtype: Vec<String> = Vec::new();
    let mut action: Vec<&'static str> = Vec::new();
    let mut latency_ms: Vec<u32> = Vec::new();
    let mut i: usize = 0;
    while i < recs.len()
        invariant
            i <= recs@.len(),
            ts@.len() == client@.len() == domain@.len() == i,
            qtype@.len() == action@.len() == latency_ms@.len() == i,
            forall|k: int| 0 <= k < i ==> ts@[k] == (#[trigger] recs@[k]).ts_ms,
            forall|k: int| 0 <= k < i ==> client@[k]@ == (#[trigger] recs@[k]).client@,
            forall|k: int| 0 <= k < i ==> domain@[k]@ == (#[trigger] recs@[k]).domain@,
            forall|k: int| 0 <= k < i ==> qtype@[k]@ == (#[trigger] recs@[k]).qtype@,
            forall|k: int| 0 <= k < i ==> action@[k] == (#[trigger] recs@[k]).action,
            forall|k: int| 0 <= k < i ==> latency_ms@[k] == (#[trigger] recs@[k]).latency_ms,
        decreases recs@.len() - i,
    {
        ts.push(recs[i].ts_ms);
        client.push(recs[i].client.as_str().to_owned());
        domain.push(recs[i].domain.as_str().to_owned());
        qtype.push(recs[i].qtype.as_str().to_owned());
        action.push(recs[i].action);
        latency_ms.push(recs[i].latency_ms);
        i = i + 1;
    }
    let r: Batch = Batch { ts, client, domain, qtype, action, latency_ms };
    proof {
        assert(r.ts@ == recs@.map_values(|r: LogRecord| r.ts_ms));
        assert(text::views(r.client@) == recs@.map_values(|r: LogRecord| r.client@));
        assert(text::views(r.domain@) == recs@.map_values(|r: LogRecord| r.domain@));
        assert(text::views(r.qtype@) == recs@.map_values(|r: LogRecord| r.qtype@));
        assert(r.action@ == recs@.map_values(|r: LogRecord| r.action));
        assert(r.latency_ms@ == recs@.map_values(|r: LogRecord| r.latency_ms));
    }
    r
}

/// Rows at which a segment is written: as configured, at least one.
pub fn flush_rows(cfg: &QlogConfig) -> (r: usize)
    ensures
        r == if cfg.flush_rows == 0 {
            1
        } else {
            cfg.flush_rows
        },
{
    if cfg.flush_rows == 0 {
        1
    } else {
        cfg.flush_rows
    }
}

/// Seconds after which a segment is written: as configured, at least one.
pub fn flush_secs(cfg: &QlogConfig) -> (r: u64)
    ensures
        r == if cfg.flush_secs == 0 {
            1
        } else {
            cfg.flush_secs
        },
{
    if cfg.flush_secs == 0 {
        1
    } else {
        cfg.flush_secs
    }
}

// ---------------------------------------------------------------------------
// Segments
// ---------------------------------------------------------------------------

/// The file name of a segment, by the time at which it is written and its
/// number.
pub open spec fn segment_text(ts_ms: i64, seq: u64) -> Seq<char> {
    "qlog-"@ + decimal::padded_signed(ts_ms as int, 14) + "-"@ + decimal::padded(seq as nat, 6)
        + ".parquet"@
}

/// The file name of a segment.
pub fn segment_name(ts_ms: i64, seq: u64) -> (r: String)
    ensures
        r@ == segment_text(ts_ms, seq),
        r@ == "qlog-"@ + decimal::padded_signed(ts_ms as int, 14) + "-"@ + decimal::padded(
            seq as nat,
            6,
        ) + ".parquet"@,
{
    let mut s: String = "qlog-".to_owned();
    s.append(to_padded_signed(ts_ms, 14).as_str());
    s.append("-");
    s.append(to_padded(seq, 6).as_str());
    s.append(".parquet");
    s
}

/// A file in the log directory.
pub struct Segment {
    /// The bytes of its name.
    pub name: Vec<u8>,
    pub size: u64,
}

/// The bytes of the extension of segments, with its dot.
pub open spec fn extension() -> Seq<u8> {
    seq![46u8, 112u8, 97u8, 114u8, 113u8, 117u8, 101u8, 116u8]
}

/// Whether a file name has the extension of segments. A name that is nothing
/// else has none.
pub open spec fn is_segment(name: Seq<u8>) -> bool {
    name.len() > 8 && name.skip(name.len() - 8) == extension()
}

/// Whether a file name has the extension of segments.
pub fn is_segment_name(name: &[u8]) -> (r: bool)
    ensures
        r == is_segment(name@),
        r <==> {
            let n = name@.len();
            &&& n > 8
            &&& name@[n - 8] == 0x2e && name@[n - 7] == 0x70 && name@[n - 6] == 0x61
            &&& name@[n - 5] == 0x72 && name@[n - 4] == 0x71 && name@[n - 3] == 0x75
            &&& name@[n - 2] == 0x65 && name@[n - 1] == 0x74
        },
{
    let n: usize = name.len();
    let r: bool = n > 8 && name[n - 8] == 46 && name[n - 7] == 112 && name[n - 6] == 97 && name[n
        - 5] == 114 && name[n - 4] == 113 && name[n - 3] == 117 && name[n - 2] == 101 && name[n
        - 1] == 116;
    proof {
        if n > 8 {
            let tail = name@.skip(n - 8);
            if r {
                assert(tail == extension());
            } else if tail == extension() {
                assert(name@[n - 8] == tail[0] && name@[n - 7] == tail[1]);
                assert(name@[n - 6] == tail[2] && name@[n - 5] == tail[3]);
                assert(name@[n - 4] == tail[4] && name@[n - 3] == tail[5]);
                assert(name@[n - 2] == tail[6] && name@[n - 1] == tail[7]);
            }
        }
    }
    r
}

/// Whether some of these file names is a segment's.
pub open spec fn some_segment(names: Seq<Vec<u8>>) -> bool {
    exists|i: int| 0 <= i < names.len() && is_segment((#[trigger] names[i])@)
}

/// Whether a directory with these file names holds a segment.
pub fn has_segments(names: &Vec<Vec<u8>>) -> (r: bool)
    ensures
        r == some_segment(names@),
        r <==> exists|i: int| 0 <= i < names@.len() && is_segment((#[trigger] names@[i])@),
{
    let mut i: usize = 0;
    while i < names.len()
        invariant
            i <= names@.len(),
            forall|k: int| 0 <= k < i ==> !is_segment((#[trigger] names@[k])@),
        decreases names@.len() - i,
    {
        if is_segment_name(names[i].as_slice()) {
            assert(is_segment(names@[i as int]@));
            return true;
        }
        i = i + 1;
    }
    false
}

// ---------------------------------------------------------------------------
// Retention
// ---------------------------------------------------------------------------

impl Ranked for Segment {
    open spec fn rank(&self) -> Seq<int> {
        order::byte_values(self.name@)
    }

    fn at_most(&self, other: &Self) -> (r: bool) {
        order::bytes_at_most(&self.name, &other.name)
    }
}

/// The size of some segments together.
pub open spec fn total_size(s: Seq<Segment>) -> nat
    decreases s.len(),
{
    if s.len() == 0 {
        0
    } else {
        s[0].size as nat + total_size(s.drop_first())
    }
}

/// Whether a file is a segment.
pub open spec fn counts(s: Segment) -> bool {
    is_segment(s.name@)
}

/// How far the deletion of old segments has come.
pub struct Retention {
    files: Vec<Segment>,
    done: usize,
    total: u128,
    max_bytes: u64,
}

impl Retention {
    #[verifier::type_invariant]
    spec fn covers_the_rest(self) -> bool {
        &&& self.done <= self.files@.len()
        &&& self.total >= total_size(self.files@.skip(self.done as int))
    }

    /// The segments, oldest name first.
    pub closed spec fn files(self) -> Seq<Segment> {
        self.files@
    }

    /// Number of segments whose deletion was tried.
    pub closed spec fn done(self) -> nat {
        self.done as nat
    }

    /// Bytes that the segments still take.
    pub closed spec fn total(self) -> nat {
        self.total as nat
    }

    /// The size cap.
    pub closed spec fn cap(self) -> nat {
        self.max_bytes as nat
    }

    /// Whether a segment is to be deleted: some are left, and the size cap is
    /// exceeded.
    pub open spec fn is_over(self) -> bool {
        self.done() < self.files().len() && self.total() > self.cap()
    }

    /// Starts from the files in the log directory. Files that are no segments
    /// are left alone.
    pub fn new(listing: Vec<Segment>, max_bytes: u64) -> (r: Retention)
        ensures
            order::ascending(r.files()),
            r.files().to_multiset() == listing@.filter(|s: Segment| counts(s)).to_multiset(),
            r.files().to_multiset() == listing@.filter(
                |s: Segment| is_segment(s.name@),
            ).to_multiset(),
            r.done() == 0,
            r.total() == total_size(r.files()),
            r.cap() == max_bytes,
    {
        let ghost all = listing@;
        let ghost keep = |s: Segment| counts(s);
        let mut rest: Vec<Segment> = listing;
        let mut kept: Vec<Segment> = Vec::new();
        assert(rest@ + Seq::<Segment>::empty() == all);
        assert(all.skip(rest@.len() as int).filter(keep) == Seq::<Segment>::empty()) by {
            assert(all.skip(rest@.len() as int) == Seq::<Segment>::empty());
            reveal(Seq::filter);
        }
        proof {
            Seq::<Segment>::empty().to_multiset_ensures();
        }
        while rest.len() > 0
            invariant
                rest@.len() <= all.len(),
                rest@ == all.take(rest@.len() as int),
                keep == (|s: Segment| counts(s)),
                kept@.to_multiset() == all.skip(rest@.len() as int).filter(keep).to_multiset(),
            decreases rest@.len(),
        {
            let ghost n = rest@.len() - 1;
            let ghost tail = all.skip(n + 1);
            proof {
                assert(all.skip(n) == seq![all[n]] + tail);
                tail.lemma_filter_prepend(all[n], keep);
                lemma_multiset_commutative(seq![all[n]], tail.filter(keep));
                assert(rest@[n] == all[n]);
            }
            if let Some(s) = rest.pop() {
                if is_segment_name(s.name.as_slice()) {
                    proof {
                        lemma_multiset_commutative(kept@, seq![s]);
                        assert(kept@.push(s) == kept@ + seq![s]);
                    }
                    kept.push(s);
                } else {
                    assert(all.skip(n).filter(keep) == tail.filter(keep));
                }
                assert(rest@ == all.take(n));
                assert(kept@.to_multiset() == all.skip(n).filter(keep).to_multiset());
            }
        }
        assert(all.skip(0) == all);
        assert(keep =~= (|s: Segment| is_segment(s.name@)));
        let files: Vec<Segment> = sort(kept);
        let total: u128 = sum_sizes(&files);
        assert(files@.skip(0) == files@);
        Retention { files, done: 0, total, max_bytes }
    }

    /// The segment to delete now, none where the rest may stay.
    pub fn next(&self) -> (r: Option<Vec<u8>>)
        ensures
            match r {
                Some(name) => self.is_over() && name@ == self.files()[self.done() as int].name@,
                None => !self.is_over(),
            },
            r is Some <==> self.done() < self.files().len() && self.total() > self.cap(),
    {
        proof {
            use_type_invariant(self);
        }
        if self.done < self.files.len() && self.total > self.max_bytes as u128 {
            let name: Vec<u8> = copy_from(self.files[self.done].name.as_slice(), 0);
            assert(name@ == self.files@[self.done as int].name@);
            Some(name)
        } else {
            None
        }
    }

    /// Takes whether the segment was deleted. One that could not be is passed
    /// over, and its bytes still count.
    pub fn advance(&mut self, deleted: bool)
        requires
            old(self).is_over(),
        ensures
            final(self).files() == old(self).files(),
            final(self).cap() == old(self).cap(),
            final(self).done() == old(self).done() + 1,
            final(self).total() == if deleted {
                old(self).total() - old(self).files()[old(self).done() as int].size
            } else {
                old(self).total() as int
            },
    {
        proof {
            use_type_invariant(&*self);
            lemma_total_skip(self.files@, self.done as int);
        }
        let n: usize = self.files.len();
        assert(self.done < n);
        let size: u64 = self.files[self.done].size;
        let total: u128 = if deleted {
            self.total - size as u128
        } else {
            self.total
        };
        self.done = self.done + 1;
        self.total = total;
    }
}

/// The size of some segments together.
fn sum_sizes(files: &Vec<Segment>) -> (r: u128)
    ensures
        r == total_size(files@),
{
    let n: usize = files.len();
    let mut total: u128 = 0;
    let mut i: usize = n;
    assert(files@.skip(n as int) == Seq::<Segment>::empty());
    while i > 0
        invariant
            i <= n,
            n == files@.len(),
            total == total_size(files@.skip(i as int)),
            total <= (n - i) * 0xffff_ffff_ffff_ffff,
        decreases i,
    {
        i = i - 1;
        proof {
            lemma_total_skip(files@, i as int);
            assert((n - i - 1) * 0xffff_ffff_ffff_ffff + 0xffff_ffff_ffff_ffff == (n - i)
                * 0xffff_ffff_ffff_ffff) by (nonlinear_arith);
            assert((n - i) * 0xffff_ffff_ffff_ffff <= 0xffff_ffff_ffff_ffff
                * 0xffff_ffff_ffff_ffff) by (nonlinear_arith)
                requires
                    0 <= n - i <= 0xffff_ffff_ffff_ffff,
            ;
        }
        total = total + files[i].size as u128;
    }
    assert(files@.skip(0) == files@);
    total
}

/// The segments from one place on are that one and the others.
proof fn lemma_total_skip(s: Seq<Segment>, i: int)
    requires
        0 <= i < s.len(),
    ensures
        total_size(s.skip(i)) == s[i].size + total_size(s.skip(i + 1)),
{
    assert(s.skip(i).drop_first() == s.skip(i + 1));
}

// ---------------------------------------------------------------------------
// Search
// ---------------------------------------------------------------------------

/// What a search of the log takes.
pub enum Search {
    /// There is nothing to search: an empty JSON array.
    Nothing,
    /// This query, within so many bytes of memory.
    Run { sql: String, memory: usize },
}

/// The query that searches the log, newest first.
pub open spec fn search_sql(where_sql: Seq<char>, limit: nat) -> Seq<char> {
    "SELECT CAST(ts AS VARCHAR) AS ts, client, domain, qtype, action, latency_ms FROM logs "@
        + where_sql + " ORDER BY ts DESC LIMIT "@ + decimal::digits(limit)
}

/// Megabytes of memory for a search: as configured, at least 16.
pub open spec fn search_megabytes(mem_limit_mb: u64) -> u64 {
    if mem_limit_mb < 16 {
        16
    } else {
        mem_limit_mb
    }
}

/// A search of the log with a complete `WHERE ...` clause (or an empty one), in
/// a directory with these file names.
pub fn query(names: &Vec<Vec<u8>>, mem_limit_mb: u64, where_sql: &str, limit: usize) -> (r: Search)
    requires
        some_segment(names@) ==> search_megabytes(mem_limit_mb) * 1024 * 1024 <= usize::MAX,
    ensures
        match r {
            Search::Nothing => !some_segment(names@),
            Search::Run { sql, memory } => {
                &&& some_segment(names@)
                &&& memory == 16 * 1024 * 1024 || memory == mem_limit_mb * 1024 * 1024
                &&& memory >= 16 * 1024 * 1024 && memory >= mem_limit_mb * 1024 * 1024
                &&& sql@
                    == "SELECT CAST(ts AS VARCHAR) AS ts, client, domain, qtype, action, latency_ms FROM logs "@
                    + where_sql@ + " ORDER BY ts DESC LIMIT "@ + decimal::digits(limit as nat)
                &&& sql@ == search_sql(where_sql@, limit as nat)
                &&& memory == search_megabytes(mem_limit_mb) * 1024 * 1024
            },
        },
{
    if !has_segments(names) {
        return Search::Nothing;
    }
    let megabytes: u64 = if mem_limit_mb < 16 {
        16
    } else {
        mem_limit_mb
    };
    let mut sql: String =
        "SELECT CAST(ts AS VARCHAR) AS ts, client, domain, qtype, action, latency_ms FROM logs ".to_owned();
    sql.append(where_sql);
    sql.append(" ORDER BY ts DESC LIMIT ");
    sql.append(to_decimal(limit as u64).as_str());
    Search::Run { sql, memory: megabytes as usize * 1024 * 1024 }
}

// ---------------------------------------------------------------------------
// Laws
// ---------------------------------------------------------------------------

/// Bytes that segments take once the deletion of the first ones was tried.
pub open spec fn size_after(files: Seq<Segment>, deleted: Seq<bool>) -> int
    decreases deleted.len(),
{
    if deleted.len() == 0 {
        total_size(files) as int
    } else {
        size_after(files, deleted.drop_last()) - if deleted.last() {
            files[deleted.len() - 1].size as int
        } else {
            0
        }
    }
}

/// The number of bytes that is kept track of is that of the segments that are
/// there.
proof fn lemma_size_after(files: Seq<Segment>, deleted: Seq<bool>)
    requires
        deleted.len() <= files.len(),
        forall|i: int| 0 <= i < deleted.len() ==> deleted[i],
    ensures
        size_after(files, deleted) == total_size(files.skip(deleted.len() as int)),
    decreases deleted.len(),
{
    if deleted.len() == 0 {
        assert(files.skip(0) == files);
    } else {
        let n = deleted.len() - 1;
        assert(deleted[n]);
        lemma_size_after(files, deleted.drop_last());
        lemma_total_skip(files, n);
    }
}

/// Where deletions succeed, the oldest segments go until the rest is within the
/// size cap, and no segment more than that needs: what stays when nothing is
/// left to delete fits, and did not fit before the last deletion.
pub proof fn law_oldest_segments_go_first(files: Seq<Segment>, deleted: Seq<bool>, cap: nat)
    requires
        order::ascending(files),
        deleted.len() <= files.len(),
        forall|i: int| 0 <= i < deleted.len() ==> deleted[i],
        forall|k: int|
            0 <= k < deleted.len() ==> #[trigger] size_after(files, deleted.take(k)) > cap,
        deleted.len() == files.len() || size_after(files, deleted) <= cap,
    ensures
        total_size(files.skip(deleted.len() as int)) <= cap,
        deleted.len() > 0 ==> total_size(files.skip(deleted.len() - 1)) > cap,
        forall|i: int, j: int|
            #![trigger files[i].rank(), files[j].rank()]
            0 <= i < deleted.len() <= j < files.len() ==> order::lex_le(
                files[i].rank(),
                files[j].rank(),
            ),
{
    let n = deleted.len() as int;
    lemma_size_after(files, deleted);
    if n > 0 {
        let before = deleted.take(n - 1);
        assert(size_after(files, before) > cap);
        lemma_size_after(files, before);
    }
}

/// A segment that cannot be deleted still counts, and only what is deleted is
/// taken off.
pub proof fn law_undeleted_segments_still_count(files: Seq<Segment>, deleted: Seq<bool>)
    requires
        deleted.len() < files.len(),
    ensures
        size_after(files, deleted.push(false)) == size_after(files, deleted),
        size_after(files, deleted.push(true)) == size_after(files, deleted)
            - files[deleted.len() as int].size,
{
    assert(deleted.push(false).drop_last() == deleted);
    assert(deleted.push(true).drop_last() == deleted);
}

/// The name of a segment of a time in the usual range.
proof fn lemma_segment_text(ts_ms: i64, seq: u64)
    requires
        0 <= ts_ms < decimal::pow10(14),
    ensures
        segment_text(ts_ms, seq) == "qlog-"@ + (decimal::low_digits(ts_ms as nat, 14) + ("-"@
            + (decimal::padded(seq as nat, 6) + ".parquet"@))),
{
    decimal::lemma_padded(ts_ms as nat, 14);
    assert(segment_text(ts_ms, seq) =~= "qlog-"@ + (decimal::low_digits(ts_ms as nat, 14) + ("-"@
        + (decimal::padded(seq as nat, 6) + ".parquet"@))));
}

/// Digits are ASCII.
proof fn lemma_digits_ascii(n: nat)
    ensures
        is_ascii_chars(decimal::digits(n)),
    decreases n,
{
    if n >= 10 {
        lemma_digits_ascii(n / 10);
    }
    let d = decimal::digits(n);
    assert forall|i: int| 0 <= i < d.len() implies '\0' <= #[trigger] d[i] <= '\u{7f}' by {
        if n >= 10 && i < d.len() - 1 {
            assert(d[i] == decimal::digits(n / 10)[i]);
        }
    }
}

/// Padded numbers are ASCII.
proof fn lemma_padded_ascii(n: nat, width: nat)
    ensures
        is_ascii_chars(decimal::padded(n, width)),
{
    lemma_digits_ascii(n);
    let p = decimal::padded(n, width);
    let d = decimal::digits(n);
    assert forall|i: int| 0 <= i < p.len() implies '\0' <= #[trigger] p[i] <= '\u{7f}' by {
        if d.len() < width {
            if i >= width - d.len() {
                assert(p[i] == d[i - (width - d.len())]);
            }
        } else {
            assert(p[i] == d[i]);
        }
    }
}

/// Texts in ASCII make a text in ASCII.
proof fn lemma_concat_ascii(a: Seq<char>, b: Seq<char>)
    requires
        is_ascii_chars(a),
        is_ascii_chars(b),
    ensures
        is_ascii_chars(a + b),
{
    let s = a + b;
    assert forall|i: int| 0 <= i < s.len() implies '\0' <= #[trigger] s[i] <= '\u{7f}' by {
        if i < a.len() {
            assert(s[i] == a[i]);
        } else {
            assert(s[i] == b[i - a.len()]);
        }
    }
}

/// Segment names are ASCII, and their bytes are their characters.
proof fn lemma_segment_bytes(ts_ms: i64, seq: u64)
    ensures
        is_ascii_chars(segment_text(ts_ms, seq)),
        order::byte_values(encode_utf8(segment_text(ts_ms, seq))) == order::code_points(
            segment_text(ts_ms, seq),
        ),
{
    reveal_strlit("qlog-");
    reveal_strlit("-");
    reveal_strlit(".parquet");
    let ts = decimal::padded_signed(ts_ms as int, 14);
    let number = decimal::padded(seq as nat, 6);
    if ts_ms < 0 {
        lemma_padded_ascii((-ts_ms) as nat, 13);
        lemma_concat_ascii(seq!['-'], decimal::padded((-ts_ms) as nat, 13));
    } else {
        lemma_padded_ascii(ts_ms as nat, 14);
    }
    lemma_padded_ascii(seq as nat, 6);
    lemma_concat_ascii("qlog-"@, ts);
    lemma_concat_ascii("qlog-"@ + ts, "-"@);
    lemma_concat_ascii("qlog-"@ + ts + "-"@, number);
    lemma_concat_ascii("qlog-"@ + ts + "-"@ + number, ".parquet"@);
    let t = segment_text(ts_ms, seq);
    lemma_ascii_bytes(t);
}

/// The bytes of ASCII text are its characters.
proof fn lemma_ascii_bytes(t: Seq<char>)
    requires
        is_ascii_chars(t),
    ensures
        encode_utf8(t) == t.map_values(|c: char| c as u8),
        order::byte_values(encode_utf8(t)) == order::code_points(t),
{
    is_ascii_chars_encode_utf8(t);
    let b = encode_utf8(t);
    assert forall|i: int| 0 <= i < t.len() implies b[i] == t[i] as u8 && b[i] as int
        == t[i] as int by {
        assert('\0' <= t[i] <= '\u{7f}');
    }
    assert(b == t.map_values(|c: char| c as u8));
    assert(order::byte_values(b) == order::code_points(t));
}

/// A shared start does not matter to the order.
proof fn lemma_shared_start(p: Seq<char>, x: Seq<char>, y: Seq<char>)
    ensures
        order::lex_le(order::code_points(p + x), order::code_points(p + y)) <==> order::lex_le(
            order::code_points(x),
            order::code_points(y),
        ),
    decreases p.len(),
{
    if p.len() == 0 {
        assert(p + x == x);
        assert(p + y == y);
    } else {
        lemma_shared_start(p.drop_first(), x, y);
        assert(order::code_points(p + x).drop_first() == order::code_points(p.drop_first() + x));
        assert(order::code_points(p + y).drop_first() == order::code_points(p.drop_first() + y));
        assert(order::code_points(p + x)[0] == p[0] as int);
        assert(order::code_points(p + y)[0] == p[0] as int);
    }
}

/// Whether a segment's name comes no later than another's in byte order.
pub open spec fn sorts_up_to(t1: i64, n1: u64, t2: i64, n2: u64) -> bool {
    order::lex_le(
        order::byte_values(encode_utf8(segment_text(t1, n1))),
        order::byte_values(encode_utf8(segment_text(t2, n2))),
    )
}

/// The byte order of segment names is the order in which segments are written:
/// by time, whatever their numbers, and within a millisecond by number, as long
/// as that has no more than six digits.
pub proof fn law_segment_names_are_chronological(t1: i64, n1: u64, t2: i64, n2: u64)
    requires
        0 <= t1 < decimal::pow10(14),
        0 <= t2 < decimal::pow10(14),
    ensures
        t1 < t2 ==> sorts_up_to(t1, n1, t2, n2) && !sorts_up_to(t2, n2, t1, n1),
        t1 == t2 && n1 < decimal::pow10(6) && n2 < decimal::pow10(6) ==> (sorts_up_to(
            t1,
            n1,
            t2,
            n2,
        ) <==> n1 <= n2),
{
    lemma_segment_bytes(t1, n1);
    lemma_segment_bytes(t2, n2);
    lemma_segment_text(t1, n1);
    lemma_segment_text(t2, n2);
    let (x, y) = (
        decimal::padded(n1 as nat, 6) + ".parquet"@,
        decimal::padded(n2 as nat, 6) + ".parquet"@,
    );
    let (a, b) = (
        decimal::low_digits(t1 as nat, 14) + ("-"@ + x),
        decimal::low_digits(t2 as nat, 14) + ("-"@ + y),
    );
    lemma_shared_start("qlog-"@, a, b);
    lemma_shared_start("qlog-"@, b, a);
    decimal::lemma_low_digits_order(t1 as nat, t2 as nat, 14, "-"@ + x, "-"@ + y);
    decimal::lemma_low_digits_order(t2 as nat, t1 as nat, 14, "-"@ + y, "-"@ + x);
    if n1 < decimal::pow10(6) && n2 < decimal::pow10(6) {
        decimal::lemma_padded(n1 as nat, 6);
        decimal::lemma_padded(n2 as nat, 6);
        lemma_shared_start("-"@, x, y);
        decimal::lemma_low_digits_order(n1 as nat, n2 as nat, 6, ".parquet"@, ".parquet"@);
        order::lemma_lex_refl(order::code_points(".parquet"@));
    }
}

/// A segment's name is recognised as one. The name under which it is written
/// before it is complete is not, so that no search reads half a segment.
pub proof fn law_only_complete_segments_are_read(ts_ms: i64, seq: u64)
    ensures
        is_segment(encode_utf8(segment_text(ts_ms, seq))),
        !is_segment(encode_utf8(segment_text(ts_ms, seq) + ".tmp"@)),
{
    reveal_strlit(".parquet");
    reveal_strlit("qlog-");
    reveal_strlit(".tmp");
    let t = segment_text(ts_ms, seq);
    lemma_segment_bytes(ts_ms, seq);
    lemma_ascii_bytes(t);
    let b = encode_utf8(t);
    let tail = b.skip(b.len() - 8);
    assert(t.skip(t.len() - 8) == ".parquet"@);
    assert forall|i: int| 0 <= i < 8 implies tail[i] == ".parquet"@[i] as u8 by {
        assert(tail[i] == t[t.len() - 8 + i] as u8);
        assert(t[t.len() - 8 + i] == t.skip(t.len() - 8)[i]);
    }
    assert(tail == extension());
    let u = t + ".tmp"@;
    lemma_concat_ascii(t, ".tmp"@);
    lemma_ascii_bytes(u);
    let c = encode_utf8(u);
    assert(c[c.len() - 1] == 'p' as u8);
    if is_segment(c) {
        assert(c.skip(c.len() - 8)[7] == extension()[7]);
    }
}

/// A file is a segment where its name is something and then `.parquet`, and in
/// no other case.
pub proof fn law_segments_end_in_their_extension(stem: Seq<u8>, name: Seq<u8>)
    ensures
        is_segment(stem + encode_utf8(".parquet"@)) <==> stem.len() > 0,
        is_segment(name) ==> name.len() > 8 && name == name.take(name.len() - 8) + encode_utf8(
            ".parquet"@,
        ),
{
    reveal_strlit(".parquet");
    let t = ".parquet"@;
    lemma_ascii_bytes(t);
    let e = encode_utf8(t);
    assert(e == extension()) by {
        assert(e[0] == '.' as u8 && e[1] == 'p' as u8 && e[2] == 'a' as u8 && e[3] == 'r' as u8);
        assert(e[4] == 'q' as u8 && e[5] == 'u' as u8 && e[6] == 'e' as u8 && e[7] == 't' as u8);
    }
    let s = stem + e;
    if stem.len() > 0 {
        assert(s.skip(s.len() - 8) == e);
    }
    if is_segment(name) {
        assert(name == name.take(name.len() - 8) + name.skip(name.len() - 8));
    }
}

/// The size of segments together is the sum over them, none left out.
pub proof fn law_sizes_add_up(a: Seq<Segment>, s: Segment, b: Seq<Segment>)
    ensures
        total_size(Seq::<Segment>::empty()) == 0,
        total_size(seq![s]) == s.size,
        total_size(a + b) == total_size(a) + total_size(b),
    decreases a.len(),
{
    assert(seq![s].drop_first() == Seq::<Segment>::empty());
    if a.len() > 0 {
        law_sizes_add_up(a.drop_first(), s, b);
        assert((a + b).drop_first() == a.drop_first() + b);
    } else {
        assert(a + b == b);
    }
}

/// A search has the memory that is set for it, but at least 16 megabytes.
pub proof fn law_searches_have_their_memory(mb: u64)
    ensures
        mb >= 16 ==> search_megabytes(mb) == mb,
        mb < 16 ==> search_megabytes(mb) == 16,
{
}

/// Segments are ordered by the bytes of their names.
pub proof fn law_segments_are_ordered_by_name(s: Segment, i: int)
    ensures
        s.rank().len() == s.name@.len(),
        0 <= i < s.name@.len() ==> s.rank()[i] == s.name@[i],
{
}

/// A segment is deleted only while the segments take more than the cap, and
/// while there is one whose deletion was not tried. Every segment counts,
/// whatever its size.
pub proof fn law_deletion_goes_by_the_cap(r: Retention, s: Segment)
    ensures
        r.is_over() <==> r.done() < r.files().len() && r.total() > r.cap(),
        counts(s) <==> is_segment(s.name@),
{
}

/// A search selects all columns, from the rows that meet its conditions, newest
/// first, and no more rows than it is limited to.
pub proof fn law_searches_give_the_newest_rows(conditions: Seq<char>, limit: nat)
    ensures
        search_sql(conditions, limit)
            == "SELECT CAST(ts AS VARCHAR) AS ts, client, domain, qtype, action, latency_ms FROM logs "@
            + conditions + " ORDER BY ts DESC LIMIT "@ + decimal::digits(limit),
{
}

} // verus!
