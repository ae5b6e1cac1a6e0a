//! Rules of the admin API: who may use it, what it shows, which edits it
//! accepts, and how log searches are built.

use vstd::prelude::*;
use vstd::seq_lib::*;
use vstd::string::*;

use crate::blocklist;
use crate::blocklist::Blocklist;
use crate::config::{Config, DnsConfig, QlogConfig, UpstreamConfig};
use crate::qlog;
use crate::qlog::{query, Search};
use crate::text;

verus! {

/// Why a request is refused.
pub struct AppError {
    pub message: String,
}

impl AppError {
    /// An error with a message.
    pub fn msg(m: &str) -> (r: AppError)
        ensures
            r.message@ == m@,
    {
        AppError { message: m.to_owned() }
    }
}

// ---------------------------------------------------------------------------
// Token
// ---------------------------------------------------------------------------

/// Whether a request may pass. Paths outside `/api` are open to all. Others
/// need the admin token: the `Authorization` header is `Bearer ` and the token,
/// or the `X-Admin-Token` header is the token. An empty token lets all pass.
pub open spec fn authorized(
    path: Seq<char>,
    token: Seq<char>,
    authorization: Option<Seq<char>>,
    x_admin_token: Option<Seq<char>>,
) -> bool {
    ||| !text::begins_with(path, "/api"@)
    ||| token.len() == 0
    ||| authorization == Some("Bearer "@ + token)
    ||| x_admin_token == Some(token)
}

/// The text of a header.
pub open spec fn header_text(h: Option<&str>) -> Option<Seq<char>> {
    match h {
        Some(s) => Some(s@),
        None => None,
    }
}

/// Whether a request may pass.
pub fn auth(
    path: &str,
    token: &str,
    authorization: Option<&str>,
    x_admin_token: Option<&str>,
) -> (r: bool)
    ensures
        r == authorized(path@, token@, header_text(authorization), header_text(x_admin_token)),
        r <==> {
            ||| path@.len() < 4
            ||| path@.take(4) != "/api"@
            ||| token@.len() == 0
            ||| authorization is Some && authorization->0@ == "Bearer "@ + token@
            ||| x_admin_token is Some && x_admin_token->0@ == token@
        },
{
    proof {
        reveal_strlit("/api");
    }
    if !text::starts_with(path, "/api") || token.unicode_len() == 0 {
        return true;
    }
    let bearer: bool = match authorization {
        Some(s) => {
            let mut expected: String = "Bearer ".to_owned();
            expected.append(token);
            text::same(s, expected.as_str())
        },
        None => false,
    };
    let header: bool = match x_admin_token {
        Some(s) => text::same(s, token),
        None => false,
    };
    bearer || header
}

// ---------------------------------------------------------------------------
// Blocklist
// ---------------------------------------------------------------------------

/// The blocklist as it is shown.
pub struct BlocklistResponse {
    pub count: usize,
    pub domains: Vec<String>,
}

impl BlocklistResponse {
    /// Whether this shows a blocklist.
    pub open spec fn shows(self, m: blocklist::BlocklistModel) -> bool {
        &&& self.count == m.exact.len() + m.wildcard.len()
        &&& blocklist::is_listing(m, text::views(self.domains@))
    }
}

/// A new blocklist.
pub struct BlocklistUpdate {
    /// Raw textarea contents, one domain per line.
    pub text: String,
}

/// The blocklist as it is shown.
pub fn get_blocklist(list: &Blocklist) -> (r: BlocklistResponse)
    ensures
        r.shows(list@),
        r.count == list@.exact.len() + list@.wildcard.len(),
        blocklist::is_listing(list@, text::views(r.domains@)),
{
    BlocklistResponse { count: list.len(), domains: list.to_sorted_vec() }
}

/// The blocklist that an update makes, the text of its file, and the response.
pub fn set_blocklist(body: &BlocklistUpdate) -> (r: (Blocklist, String, BlocklistResponse))
    ensures
        r.0@ == blocklist::parsed(body.text@),
        blocklist::is_file_text(r.0@, r.1@),
        r.2.shows(r.0@),
        r.2.count == r.0@.exact.len() + r.0@.wildcard.len(),
        blocklist::is_listing(r.0@, text::views(r.2.domains@)),
{
    let list: Blocklist = Blocklist::from_text(body.text.as_str());
    let file: String = list.to_file_text();
    let response: BlocklistResponse = get_blocklist(&list);
    (list, file, response)
}

// ---------------------------------------------------------------------------
// Configuration
// ---------------------------------------------------------------------------

/// The note that goes with the configuration.
pub const CONFIG_NOTE: &'static str = "Upstream servers + sinkhole apply live. Other fields persist and take effect on restart.";

/// The configuration as it is shown.
pub struct ConfigView {
    pub upstream_servers: Vec<String>,
    pub timeout_ms: u64,
    pub max_qps: u32,
    pub max_concurrent: usize,
    pub sinkhole_mode: String,
    pub sinkhole_ipv4: String,
    pub sinkhole_ipv6: String,
    pub dns_bind: String,
    pub web_bind: String,
    pub qlog_enabled: bool,
    pub note: &'static str,
}

/// An edit of the configuration.
pub struct ConfigUpdate {
    pub upstream_servers: Vec<String>,
    pub timeout_ms: u64,
    pub max_qps: u32,
    pub max_concurrent: usize,
    pub sinkhole_mode: String,
    pub sinkhole_ipv4: String,
    pub sinkhole_ipv6: String,
}

/// What the addresses in an edit were read as.
pub struct ParsedUpdate {
    /// Of each server that is kept, whether it is a socket address.
    pub servers: Vec<bool>,
    /// The IPv4 address as a number, if it is one.
    pub sinkhole_ipv4: Option<u32>,
    /// The IPv6 address as a number, if it is one.
    pub sinkhole_ipv6: Option<u128>,
}

/// A copy of some texts.
fn copy_texts(v: &Vec<String>) -> (r: Vec<String>)
    ensures
        text::views(r@) == text::views(v@),
{
    let mut out: Vec<String> = Vec::new();
    let mut i: usize = 0;
    while i < v.len()
        invariant
            i <= v@.len(),
            out@.len() == i,
            forall|k: int| 0 <= k < i ==> (#[trigger] out@[k])@ == v@[k]@,
        decreases v@.len() - i,
    {
        out.push(v[i].as_str().to_owned());
        i = i + 1;
    }
    assert(text::views(out@) == text::views(v@));
    out
}

/// The configuration as it is shown, with the sinkhole addresses as they are
/// written.
pub fn get_config(cfg: &Config, sinkhole_ipv4: String, sinkhole_ipv6: String) -> (r: ConfigView)
    ensures
        text::views(r.upstream_servers@) == text::views(cfg.upstream.servers@),
        r.timeout_ms == cfg.upstream.timeout_ms,
        r.max_qps == cfg.upstream.max_qps,
        r.max_concurrent == cfg.upstream.max_concurrent,
        r.sinkhole_mode@ == cfg.dns.sinkhole_mode@,
        r.sinkhole_ipv4@ == sinkhole_ipv4@,
        r.sinkhole_ipv6@ == sinkhole_ipv6@,
        r.dns_bind@ == cfg.dns.bind@,
        r.web_bind@ == cfg.web.bind@,
        r.qlog_enabled == cfg.qlog.enabled,
        r.note@ == CONFIG_NOTE@,
        r.note@
            == "Upstream servers + sinkhole apply live. Other fields persist and take effect on restart."@,
{
    ConfigView {
        upstream_servers: copy_texts(&cfg.upstream.servers),
        timeout_ms: cfg.upstream.timeout_ms,
        max_qps: cfg.upstream.max_qps,
        max_concurrent: cfg.upstream.max_concurrent,
        sinkhole_mode: cfg.dns.sinkhole_mode.as_str().to_owned(),
        sinkhole_ipv4,
        sinkhole_ipv6,
        dns_bind: cfg.dns.bind.as_str().to_owned(),
        web_bind: cfg.web.bind.as_str().to_owned(),
        qlog_enabled: cfg.qlog.enabled,
        note: CONFIG_NOTE,
    }
}

/// A server in an edit, trimmed; none where nothing is left.
pub open spec fn kept_server(s: Seq<char>) -> Option<Seq<char>> {
    if text::trimmed(s).len() == 0 {
        None
    } else {
        Some(text::trimmed(s))
    }
}

/// The servers of an edit: trimmed, without empty ones, in order.
pub open spec fn kept(servers: Seq<Seq<char>>) -> Seq<Seq<char>> {
    servers.filter_map(|s: Seq<char>| kept_server(s))
}

/// The servers of an edit: trimmed, without empty ones, in order.
pub fn kept_servers(servers: &Vec<String>) -> (r: Vec<String>)
    ensures
        text::views(r@) == kept(text::views(servers@)),
{
    let ghost all = text::views(servers@);
    let ghost f = |s: Seq<char>| kept_server(s);
    let mut out: Vec<String> = Vec::new();
    let mut i: usize = 0;
    assert(text::views(out@) == all.take(0).filter_map(f));
    while i < servers.len()
        invariant
            i <= servers@.len(),
            all == text::views(servers@),
            f == (|s: Seq<char>| kept_server(s)),
            text::views(out@) == all.take(i as int).filter_map(f),
        decreases servers@.len() - i,
    {
        proof {
            all.lemma_filter_map_take_succ(f, i as int);
        }
        let s: &str = text::trim(servers[i].as_str());
        if s.unicode_len() > 0 {
            let owned: String = s.to_owned();
            assert(text::views(out@.push(owned)) == text::views(out@).push(owned@));
            out.push(owned);
        }
        i = i + 1;
    }
    assert(all.take(i as int) == all);
    out
}

/// The first place that holds `false`.
pub open spec fn first_false(flags: Seq<bool>) -> Option<int>
    decreases flags.len(),
{
    if flags.len() == 0 {
        None
    } else {
        match first_false(flags.drop_last()) {
            Some(i) => Some(i),
            None => if flags.last() {
                None
            } else {
                Some(flags.len() - 1)
            },
        }
    }
}

/// Why an edit is refused, if it is: there has to be a server, each server has
/// to be a socket address, and the sinkhole addresses have to be addresses.
pub open spec fn update_error(servers: Seq<Seq<char>>, parsed: ParsedUpdate) -> Option<Seq<char>> {
    if servers.len() == 0 {
        Some("at least one upstream server is required"@)
    } else {
        match first_false(parsed.servers@) {
            Some(i) => Some("invalid upstream '"@ + servers[i] + "' (expected host:port)"@),
            None => if parsed.sinkhole_ipv4 is None {
                Some("invalid sinkhole_ipv4"@)
            } else if parsed.sinkhole_ipv6 is None {
                Some("invalid sinkhole_ipv6"@)
            } else {
                None
            },
        }
    }
}

/// Applies an edit to the configuration, or refuses it. `parsed` holds what the
/// addresses were read as, the servers as [`kept_servers`] gives them.
pub fn set_config(cfg: Config, body: ConfigUpdate, parsed: &ParsedUpdate) -> (r: Result<
    Config,
    AppError,
>)
    requires
        parsed.servers@.len() == kept(text::views(body.upstream_servers@)).len(),
    ensures
        match update_error(kept(text::views(body.upstream_servers@)), *parsed) {
            Some(message) => r is Err && r->Err_0.message@ == message,
            None => {
                &&& r is Ok
                &&& text::views(r->Ok_0.upstream.servers@) == kept(
                    text::views(body.upstream_servers@),
                )
                &&& r->Ok_0 == (Config {
                    upstream: UpstreamConfig {
                        servers: r->Ok_0.upstream.servers,
                        timeout_ms: body.timeout_ms,
                        max_qps: body.max_qps,
                        max_concurrent: body.max_concurrent,
                    },
                    dns: DnsConfig {
                        sinkhole_mode: body.sinkhole_mode,
                        sinkhole_ipv4: parsed.sinkhole_ipv4->0,
                        sinkhole_ipv6: parsed.sinkhole_ipv6->0,
                        ..cfg.dns
                    },
                    ..cfg
                })
            },
        },
        r is Ok <==> {
            &&& kept(text::views(body.upstream_servers@)).len() > 0
            &&& forall|i: int| 0 <= i < parsed.servers@.len() ==> #[trigger] parsed.servers@[i]
            &&& parsed.sinkhole_ipv4 is Some
            &&& parsed.sinkhole_ipv6 is Some
        },
{
    proof {
        law_first_bad_server_is_named(parsed.servers@, 0);
    }
    let servers: Vec<String> = kept_servers(&body.upstream_servers);
    let ghost names = kept(text::views(body.upstream_servers@));
    assert(names.len() == servers@.len());
    if servers.len() == 0 {
        return Err(AppError::msg("at least one upstream server is required"));
    }
    let mut i: usize = 0;
    while i < servers.len()
        invariant
            i <= servers@.len(),
            servers@.len() == parsed.servers@.len(),
            names == text::views(servers@),
            names == kept(text::views(body.upstream_servers@)),
            servers@.len() > 0,
            first_false(parsed.servers@.take(i as int)) is None,
        decreases servers@.len() - i,
    {
        assert(parsed.servers@.take(i + 1).drop_last() == parsed.servers@.take(i as int));
        if !parsed.servers[i] {
            let mut message: String = "invalid upstream '".to_owned();
            message.append(servers[i].as_str());
            message.append("' (expected host:port)");
            proof {
                assert(first_false(parsed.servers@.take(i + 1)) == Some(i as int));
                lemma_first_false(parsed.servers@, i + 1);
                assert(names[i as int] == servers@[i as int]@);
            }
            return Err(AppError { message });
        }
        i = i + 1;
    }
    assert(parsed.servers@.take(i as int) == parsed.servers@);
    let ipv4: u32 = match parsed.sinkhole_ipv4 {
        Some(a) => a,
        None => {
            return Err(AppError::msg("invalid sinkhole_ipv4"));
        },
    };
    let ipv6: u128 = match parsed.sinkhole_ipv6 {
        Some(a) => a,
        None => {
            return Err(AppError::msg("invalid sinkhole_ipv6"));
        },
    };
    let mut cfg: Config = cfg;
    cfg.upstream.servers = servers;
    cfg.upstream.timeout_ms = body.timeout_ms;
    cfg.upstream.max_qps = body.max_qps;
    cfg.upstream.max_concurrent = body.max_concurrent;
    cfg.dns.sinkhole_mode = body.sinkhole_mode;
    cfg.dns.sinkhole_ipv4 = ipv4;
    cfg.dns.sinkhole_ipv6 = ipv6;
    Ok(cfg)
}

/// The first place of a start is the first place of all.
proof fn lemma_first_false(flags: Seq<bool>, n: int)
    requires
        0 <= n <= flags.len(),
        first_false(flags.take(n)) is Some,
    ensures
        first_false(flags) == first_false(flags.take(n)),
    decreases flags.len(),
{
    if n < flags.len() {
        assert(flags.drop_last().take(n) == flags.take(n));
        lemma_first_false(flags.drop_last(), n);
    } else {
        assert(flags.take(n) == flags);
    }
}

// ---------------------------------------------------------------------------
// Query log
// ---------------------------------------------------------------------------

/// A search of the query log.
pub struct LogQuery {
    pub limit: Option<usize>,
    pub domain: Option<String>,
    pub client: Option<String>,
    pub action: Option<String>,
}

/// What a character becomes inside an SQL literal: a statement break or a
/// backslash is dropped, and a quote is doubled.
pub open spec fn escaped_char(c: char) -> Seq<char> {
    if c == ';' || c == '\\' {
        Seq::empty()
    } else if c == '\'' {
        seq!['\'', '\'']
    } else {
        seq![c]
    }
}

/// A text as it stands inside an SQL literal.
pub open spec fn escaped(s: Seq<char>) -> Seq<char>
    decreases s.len(),
{
    if s.len() == 0 {
        Seq::empty()
    } else {
        escaped(s.drop_last()) + escaped_char(s.last())
    }
}

/// Escapes a value for inlining into the generated SQL.
pub fn sql_escape(s: &str) -> (r: String)
    ensures
        r@ == escaped(s@),
{
    let chars: Vec<char> = text::chars_of(s);
    let mut out: String = String::new();
    let mut i: usize = 0;
    while i < chars.len()
        invariant
            i <= chars@.len(),
            out@ == escaped(chars@.take(i as int)),
        decreases chars@.len() - i,
    {
        let c: char = chars[i];
        proof {
            assert(chars@.take(i + 1).drop_last() == chars@.take(i as int));
        }
        if c == '\'' {
            out.push('\'');
            out.push('\'');
        } else if c != ';' && c != '\\' {
            out.push(c);
        }
        i = i + 1;
        assert(out@ == escaped(chars@.take(i as int)));
    }
    assert(chars@.take(i as int) == chars@);
    out
}

/// A condition on a field that is searched for: none where nothing is given.
pub open spec fn condition(
    value: Option<String>,
    before: Seq<char>,
    after: Seq<char>,
) -> Seq<Seq<char>> {
    match value {
        Some(v) => if v@.len() == 0 {
            Seq::empty()
        } else {
            seq![before + escaped(v@) + after]
        },
        None => Seq::empty(),
    }
}

/// The conditions of a search.
pub open spec fn conditions(q: LogQuery) -> Seq<Seq<char>> {
    condition(q.domain, "domain LIKE '%"@, "%'"@) + condition(q.client, "client = '"@, "'"@)
        + condition(q.action, "action = '"@, "'"@)
}

/// The `WHERE` clause of a search, empty where it has no conditions.
pub open spec fn where_clause(q: LogQuery) -> Seq<char> {
    if conditions(q).len() == 0 {
        Seq::empty()
    } else {
        "WHERE "@ + text::joined(conditions(q), " AND "@)
    }
}

/// The number of rows of a search: 200 where none is given, from 1 to 5000.
pub open spec fn row_limit(q: LogQuery) -> usize {
    match q.limit {
        None => 200,
        Some(n) => if n < 1 {
            1
        } else if n > 5000 {
            5000
        } else {
            n
        },
    }
}

/// Adds a condition on a field that is searched for.
fn add_condition(clauses: &mut Vec<String>, value: &Option<String>, before: &str, after: &str)
    ensures
        text::views(final(clauses)@) == text::views(old(clauses)@) + condition(
            *value,
            before@,
            after@,
        ),
{
    if let Some(v) = value {
        if v.as_str().unicode_len() > 0 {
            let mut clause: String = before.to_owned();
            clause.append(sql_escape(v.as_str()).as_str());
            clause.append(after);
            let ghost old_views = text::views(clauses@);
            let ghost added = clause@;
            clauses.push(clause);
            assert(text::views(clauses@) == old_views + seq![added]);
        }
    }
    assert(text::views(clauses@) == text::views(old(clauses)@) + condition(
        *value,
        before@,
        after@,
    ));
}

/// The `WHERE` clause of a search.
pub fn log_where(q: &LogQuery) -> (r: String)
    ensures
        r@ == where_clause(*q),
{
    let mut clauses: Vec<String> = Vec::new();
    add_condition(&mut clauses, &q.domain, "domain LIKE '%", "%'");
    add_condition(&mut clauses, &q.client, "client = '", "'");
    add_condition(&mut clauses, &q.action, "action = '", "'");
    assert(text::views(clauses@) == conditions(*q));
    if clauses.len() == 0 {
        String::new()
    } else {
        let mut out: String = "WHERE ".to_owned();
        out.append(text::join(&clauses, " AND ").as_str());
        out
    }
}

/// The number of rows of a search.
pub fn log_limit(q: &LogQuery) -> (r: usize)
    ensures
        r == row_limit(*q),
        q.limit is None ==> r == 200,
        q.limit matches Some(n) ==> {
            &&& n < 1 ==> r == 1
            &&& 1 <= n <= 5000 ==> r == n
            &&& n > 5000 ==> r == 5000
        },
{
    match q.limit {
        None => 200,
        Some(n) => if n < 1 {
            1
        } else if n > 5000 {
            5000
        } else {
            n
        },
    }
}

/// A search of the query log, in a directory with these file names. Nothing is
/// searched where logging is off.
pub fn get_logs(cfg: &QlogConfig, q: &LogQuery, names: &Vec<Vec<u8>>) -> (r: Search)
    requires
        cfg.enabled && qlog::some_segment(names@) ==> qlog::search_megabytes(cfg.mem_limit_mb)
            * 1024 * 1024 <= usize::MAX,
    ensures
        match r {
            Search::Nothing => !cfg.enabled || !qlog::some_segment(names@),
            Search::Run { sql, memory } => {
                &&& cfg.enabled
                &&& qlog::some_segment(names@)
                &&& sql@ == qlog::search_sql(where_clause(*q), row_limit(*q) as nat)
                &&& memory == qlog::search_megabytes(cfg.mem_limit_mb) * 1024 * 1024
                &&& memory == 16 * 1024 * 1024 || memory == cfg.mem_limit_mb * 1024 * 1024
                &&& memory >= 16 * 1024 * 1024 && memory >= cfg.mem_limit_mb * 1024 * 1024
            },
        },
        r is Nothing <==> !cfg.enabled || !exists|i: int|
            0 <= i < names@.len() && qlog::is_segment((#[trigger] names@[i])@),
{
    if !cfg.enabled {
        return Search::Nothing;
    }
    query(names, cfg.mem_limit_mb, log_where(q).as_str(), log_limit(q))
}

// ---------------------------------------------------------------------------
// Laws
// ---------------------------------------------------------------------------

/// With a token set, a request to the API passes only where one of its two
/// headers holds the token: nothing in its path lets it pass.
pub proof fn law_api_needs_the_token(
    path: Seq<char>,
    token: Seq<char>,
    authorization: Option<Seq<char>>,
    x_admin_token: Option<Seq<char>>,
)
    requires
        token.len() > 0,
        text::begins_with(path, "/api"@),
    ensures
        authorized(path, token, None, None) == false,
        authorized(path, token, authorization, x_admin_token) ==> {
            ||| x_admin_token == Some(token)
            ||| authorization == Some("Bearer "@ + token)
        },
{
}

/// Whatever the token, a request passes that sends it after `Bearer ` in the
/// one header, or as it is in the other.
pub proof fn law_bearer_token_passes(path: Seq<char>, token: Seq<char>, other: Option<Seq<char>>)
    ensures
        authorized(path, token, Some("Bearer "@ + token), other),
        authorized(path, token, other, Some(token)),
{
}

/// An edit is refused where no server is left, and where one is no address. So
/// the servers of a configuration that was edited are never empty.
pub proof fn law_bad_upstreams_are_refused(servers: Seq<Seq<char>>, parsed: ParsedUpdate, i: int)
    requires
        parsed.servers@.len() == servers.len(),
        servers.len() == 0 || 0 <= i < servers.len() && !parsed.servers@[i],
    ensures
        update_error(servers, parsed) is Some,
{
    if servers.len() > 0 {
        lemma_some_false(parsed.servers@, i);
    }
}

/// A `false` is found.
proof fn lemma_some_false(flags: Seq<bool>, i: int)
    requires
        0 <= i < flags.len(),
        !flags[i],
    ensures
        first_false(flags) is Some,
    decreases flags.len(),
{
    if i < flags.len() - 1 {
        lemma_some_false(flags.drop_last(), i);
    }
}

/// The text without the characters that are dropped.
pub open spec fn stripped(s: Seq<char>) -> Seq<char>
    decreases s.len(),
{
    if s.len() == 0 {
        Seq::empty()
    } else if s[0] == ';' || s[0] == '\\' {
        stripped(s.drop_first())
    } else {
        seq![s[0]] + stripped(s.drop_first())
    }
}

/// What SQL reads of a literal, from after its opening quote on: its value, and
/// what follows the closing quote. Two quotes in a row stand for one.
pub open spec fn literal(t: Seq<char>) -> Option<(Seq<char>, Seq<char>)>
    decreases t.len(),
{
    if t.len() == 0 {
        None
    } else if t[0] == '\'' {
        if t.len() > 1 && t[1] == '\'' {
            match literal(t.skip(2)) {
                Some((value, rest)) => Some((seq!['\''] + value, rest)),
                None => None,
            }
        } else {
            Some((Seq::empty(), t.skip(1)))
        }
    } else {
        match literal(t.skip(1)) {
            Some((value, rest)) => Some((seq![t[0]] + value, rest)),
            None => None,
        }
    }
}

/// An escaped text is its first character escaped, and the rest escaped.
proof fn lemma_escaped_front(s: Seq<char>)
    requires
        s.len() > 0,
    ensures
        escaped(s) == escaped_char(s[0]) + escaped(s.drop_first()),
    decreases s.len(),
{
    if s.len() == 1 {
        assert(s.drop_last() == Seq::<char>::empty());
        assert(s.drop_first() == Seq::<char>::empty());
        reveal_with_fuel(escaped, 2);
        assert(escaped(s) == escaped_char(s[0]) + escaped(s.drop_first()));
    } else {
        lemma_escaped_front(s.drop_last());
        assert(s.drop_last().drop_first() == s.drop_first().drop_last());
        assert(escaped(s) == escaped_char(s[0]) + escaped(s.drop_first()));
    }
}

/// A value that is searched for stays inside its literal: whatever it holds,
/// the literal ends at the quote that closes it, and its value is the text
/// without statement breaks and backslashes.
pub proof fn law_values_stay_inside_their_literal(s: Seq<char>, rest: Seq<char>)
    requires
        rest.len() == 0 || rest[0] != '\'',
    ensures
        literal(escaped(s) + seq!['\''] + rest) == Some((stripped(s), rest)),
    decreases s.len(),
{
    let t = escaped(s) + seq!['\''] + rest;
    if s.len() == 0 {
        assert(t == seq!['\''] + rest);
        assert(t.skip(1) == rest);
    } else {
        let tail = escaped(s.drop_first()) + seq!['\''] + rest;
        lemma_escaped_front(s);
        law_values_stay_inside_their_literal(s.drop_first(), rest);
        if s[0] == ';' || s[0] == '\\' {
            assert(t == tail);
        } else if s[0] == '\'' {
            assert(t == seq!['\'', '\''] + tail);
            assert(t.skip(2) == tail);
        } else {
            assert(t == seq![s[0]] + tail);
            assert(t.skip(1) == tail);
        }
    }
}

/// A search is for 1 to 5000 rows.
pub proof fn law_searches_are_bounded(q: LogQuery)
    ensures
        1 <= row_limit(q) <= 5000,
{
}

/// Paths that begin with `/api` are guarded, whatever follows, and no others. An
/// empty token guards nothing.
pub proof fn law_only_the_api_is_guarded(
    rest: Seq<char>,
    path: Seq<char>,
    token: Seq<char>,
    authorization: Option<Seq<char>>,
    x_admin_token: Option<Seq<char>>,
)
    ensures
        authorized("/api"@ + rest, token, authorization, x_admin_token) <==> {
            ||| token.len() == 0
            ||| authorization == Some("Bearer "@ + token)
            ||| x_admin_token == Some(token)
        },
        (path.len() < 4 || path.take(4) != "/api"@) ==> authorized(
            path,
            token,
            authorization,
            x_admin_token,
        ),
        authorized(path, Seq::<char>::empty(), authorization, x_admin_token),
{
    reveal_strlit("/api");
    assert(("/api"@ + rest).take(4) == "/api"@);
}

/// Of the servers of an edit, each is trimmed and stays in its place; those of
/// which nothing is left are dropped, and only those.
pub proof fn law_servers_are_trimmed_and_kept_in_order(
    a: Seq<Seq<char>>,
    s: Seq<char>,
    b: Seq<Seq<char>>,
)
    ensures
        kept(Seq::<Seq<char>>::empty()) == Seq::<Seq<char>>::empty(),
        text::trimmed(s).len() > 0 ==> kept(seq![s]) == seq![text::trimmed(s)],
        text::trimmed(s).len() == 0 ==> kept(seq![s]) == Seq::<Seq<char>>::empty(),
        kept(a + b) == kept(a) + kept(b),
    decreases b.len(),
{
    let f = |t: Seq<char>| kept_server(t);
    Seq::<Seq<char>>::lemma_filter_map_singleton(s, f);
    if b.len() == 0 {
        assert(a + b == a);
        assert(kept(a + b) == kept(a) + kept(b));
    } else {
        law_servers_are_trimmed_and_kept_in_order(a, s, b.drop_last());
        let n = (a + b).len() - 1;
        (a + b).lemma_filter_map_take_succ(f, n);
        assert((a + b).take(n + 1) == a + b);
        assert((a + b).take(n) == a + b.drop_last());
        b.lemma_filter_map_take_succ(f, b.len() - 1);
        assert(b.take(b.len() as int) == b);
        assert(b.take(b.len() - 1) == b.drop_last());
        assert(kept(a + b) == kept(a) + kept(b));
    }
}

/// The first server that is no address is the one that is found, and none is
/// found where all are addresses.
pub proof fn law_first_bad_server_is_named(flags: Seq<bool>, i: int)
    ensures
        first_false(flags) == Some(i) <==> {
            &&& 0 <= i < flags.len()
            &&& !flags[i]
            &&& forall|j: int| 0 <= j < i ==> #[trigger] flags[j]
        },
        first_false(flags) is None <==> forall|j: int|
            0 <= j < flags.len() ==> #[trigger] flags[j],
{
    lemma_first_place(flags);
    if 0 <= i < flags.len() && !flags[i] && first_false(flags) is Some {
        let k = first_false(flags)->0;
        assert(k <= i);
        assert(k < i ==> !flags[k]);
    }
}

/// What is found is the first place that holds `false`.
proof fn lemma_first_place(flags: Seq<bool>)
    ensures
        match first_false(flags) {
            Some(k) => {
                &&& 0 <= k < flags.len()
                &&& !flags[k]
                &&& forall|j: int| 0 <= j < k ==> #[trigger] flags[j]
            },
            None => forall|j: int| 0 <= j < flags.len() ==> #[trigger] flags[j],
        },
    decreases flags.len(),
{
    if flags.len() > 0 {
        let head = flags.drop_last();
        lemma_first_place(head);
        assert forall|j: int| 0 <= j < head.len() implies head[j] == #[trigger] flags[j] by {}
    }
}

/// What an edit is refused for: that no server is left; else the first server
/// that is no address, by name; else the IPv4 address; else the IPv6 address.
pub proof fn law_refusals_say_what_is_wrong(
    servers: Seq<Seq<char>>,
    parsed: ParsedUpdate,
    i: int,
)
    requires
        parsed.servers@.len() == servers.len(),
    ensures
        servers.len() == 0 ==> update_error(servers, parsed) == Some(
            "at least one upstream server is required"@,
        ),
        (0 <= i < servers.len() && !parsed.servers@[i] && forall|j: int|
            0 <= j < i ==> #[trigger] parsed.servers@[j]) ==> update_error(servers, parsed) == Some(
            "invalid upstream '"@ + servers[i] + "' (expected host:port)"@,
        ),
        (servers.len() > 0 && forall|j: int|
            0 <= j < servers.len() ==> #[trigger] parsed.servers@[j]) ==> update_error(
            servers,
            parsed,
        ) == (if parsed.sinkhole_ipv4 is None {
            Some("invalid sinkhole_ipv4"@)
        } else if parsed.sinkhole_ipv6 is None {
            Some("invalid sinkhole_ipv6"@)
        } else {
            None
        }),
{
    law_first_bad_server_is_named(parsed.servers@, i);
}

/// Escaping works on each character by itself: statement breaks and backslashes
/// go, a quote becomes two, and every other character stays.
pub proof fn law_escaping_goes_by_characters(a: Seq<char>, c: char, b: Seq<char>)
    ensures
        escaped(Seq::<char>::empty()) == Seq::<char>::empty(),
        c == ';' || c == '\\' ==> escaped(seq![c]) == Seq::<char>::empty(),
        c == '\'' ==> escaped(seq![c]) == seq!['\'', '\''],
        c != ';' && c != '\\' && c != '\'' ==> escaped(seq![c]) == seq![c],
        escaped(a + b) == escaped(a) + escaped(b),
    decreases b.len(),
{
    reveal_with_fuel(escaped, 2);
    assert(seq![c].drop_last() == Seq::<char>::empty());
    if b.len() == 0 {
        assert(a + b == a);
        assert(escaped(a + b) == escaped(a) + escaped(b));
    } else {
        law_escaping_goes_by_characters(a, c, b.drop_last());
        assert((a + b).drop_last() == a + b.drop_last());
        assert((a + b).last() == b.last());
        assert(escaped(a + b) == escaped(a) + escaped(b));
    }
}

/// The text that a literal stands for is the value without its statement breaks
/// and backslashes, the rest in order.
pub proof fn law_stripping_drops_two_characters(s: Seq<char>)
    ensures
        stripped(s) == s.filter(|c: char| c != ';' && c != '\\'),
    decreases s.len(),
{
    let p = |c: char| c != ';' && c != '\\';
    if s.len() > 0 {
        let first = seq![s[0]];
        let rest = s.drop_first();
        law_stripping_drops_two_characters(rest);
        assert(s == first + rest);
        Seq::filter_distributes_over_add(first, rest, p);
        assert(first.drop_last() == Seq::<char>::empty());
        reveal_with_fuel(Seq::filter, 2);
        assert(stripped(s) == s.filter(p));
    } else {
        reveal(Seq::filter);
    }
}

/// A search has a condition for each field that is given and not empty, with
/// the value escaped, in the order of domain, client and action, and joined by
/// `AND` after one `WHERE`.
pub proof fn law_every_given_field_is_searched(q: LogQuery)
    ensures
        ({
            let by_domain = q.domain is Some && q.domain->0@.len() > 0;
            let by_client = q.client is Some && q.client->0@.len() > 0;
            let by_action = q.action is Some && q.action->0@.len() > 0;
            let d = "domain LIKE '%"@ + escaped(q.domain->0@) + "%'"@;
            let c = "client = '"@ + escaped(q.client->0@) + "'"@;
            let a = "action = '"@ + escaped(q.action->0@) + "'"@;
            where_clause(q) == if by_domain && by_client && by_action {
                "WHERE "@ + (d + " AND "@ + c + " AND "@ + a)
            } else if by_domain && by_client {
                "WHERE "@ + (d + " AND "@ + c)
            } else if by_domain && by_action {
                "WHERE "@ + (d + " AND "@ + a)
            } else if by_client && by_action {
                "WHERE "@ + (c + " AND "@ + a)
            } else if by_domain {
                "WHERE "@ + d
            } else if by_client {
                "WHERE "@ + c
            } else if by_action {
                "WHERE "@ + a
            } else {
                Seq::<char>::empty()
            }
        }),
{
    reveal_with_fuel(text::joined, 3);
    let d = "domain LIKE '%"@ + escaped(q.domain->0@) + "%'"@;
    let c = "client = '"@ + escaped(q.client->0@) + "'"@;
    let a = "action = '"@ + escaped(q.action->0@) + "'"@;
    let none = Seq::<Seq<char>>::empty();
    assert(seq![d] + seq![c] + seq![a] == seq![d, c, a]);
    assert(seq![d] + seq![c] + none == seq![d, c]);
    assert(seq![d] + none + seq![a] == seq![d, a]);
    assert(none + seq![c] + seq![a] == seq![c, a]);
    assert(seq![d] + none + none == seq![d]);
    assert(none + seq![c] + none == seq![c]);
    assert(none + none + seq![a] == seq![a]);
    assert(none + none + none == none);
    assert(seq![d, c, a].drop_last() == seq![d, c]);
    assert(seq![d, c].drop_last() == seq![d]);
    assert(seq![d, a].drop_last() == seq![d]);
    assert(seq![c, a].drop_last() == seq![c]);
}

/// A search is for as many rows as it asks for where that is 1 to 5000, for the
/// nearer bound where it is not, and for 200 where it does not say.
pub proof fn law_rows_are_as_many_as_asked(q: LogQuery)
    ensures
        q.limit is None ==> row_limit(q) == 200,
        q.limit matches Some(n) ==> {
            &&& n == 0 ==> row_limit(q) == 1
            &&& 1 <= n <= 5000 ==> row_limit(q) == n
            &&& n > 5000 ==> row_limit(q) == 5000
        },
{
}

} // verus!
