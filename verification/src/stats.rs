//! Runtime counters, read by the web UI.

use vstd::prelude::*;

verus! {

/// How a query was answered.
#[derive(Clone, Copy, Debug, PartialEq, Eq, Structural)]
pub enum Action {
    /// With the sinkhole answer.
    Blocked,
    /// From the cache.
    Cached,
    /// By an upstream server.
    Forwarded,
    /// With a failure, since no upstream server answered.
    Error,
}

impl Action {
    /// The action's name in the query log.
    pub open spec fn name(self) -> Seq<char> {
        match self {
            Action::Blocked => "blocked"@,
            Action::Cached => "cached"@,
            Action::Forwarded => "forwarded"@,
            Action::Error => "error"@,
        }
    }

    /// The action's name in the query log.
    pub fn as_str(self) -> (r: &'static str)
        ensures
            r@ == self.name(),
            self is Blocked ==> r@ == "blocked"@,
            self is Cached ==> r@ == "cached"@,
            self is Forwarded ==> r@ == "forwarded"@,
            self is Error ==> r@ == "error"@,
    {
        match self {
            Action::Blocked => "blocked",
            Action::Cached => "cached",
            Action::Forwarded => "forwarded",
            Action::Error => "error",
        }
    }
}

/// Counters since the start. They wrap around at the end of their range.
#[derive(Clone, Copy, Debug, PartialEq, Eq, Structural)]
pub struct Stats {
    pub queries: u64,
    pub blocked: u64,
    pub cache_hits: u64,
    pub forwarded: u64,
    pub upstream_errors: u64,
    pub dropped: u64,
}

/// The counters at one moment, with the figures that go with them.
#[derive(Clone, Copy, Debug, PartialEq, Eq, Structural)]
pub struct StatsSnapshot {
    pub queries: u64,
    pub blocked: u64,
    pub cache_hits: u64,
    pub forwarded: u64,
    pub upstream_errors: u64,
    pub dropped: u64,
    /// Lookups that the cache or an upstream server answered. The hit rate is
    /// `cache_hits` over this, or zero where this is zero.
    pub lookups: u128,
    pub uptime_secs: u64,
    pub cache_entries: u64,
}

impl Default for Stats {
    fn default() -> (r: Self)
        ensures
            r == (Stats {
                queries: 0,
                blocked: 0,
                cache_hits: 0,
                forwarded: 0,
                upstream_errors: 0,
                dropped: 0,
            }),
    {
        Stats {
            queries: 0,
            blocked: 0,
            cache_hits: 0,
            forwarded: 0,
            upstream_errors: 0,
            dropped: 0,
        }
    }
}

/// A counter's next value.
pub open spec fn next(n: u64) -> u64 {
    if n == u64::MAX {
        0
    } else {
        (n + 1) as u64
    }
}

impl Stats {
    /// The counters once a query has come in.
    pub open spec fn with_query(self) -> Stats {
        Stats { queries: next(self.queries), ..self }
    }

    /// The counters once a query has been answered.
    pub open spec fn with_action(self, action: Action) -> Stats {
        match action {
            Action::Blocked => Stats { blocked: next(self.blocked), ..self },
            Action::Cached => Stats { cache_hits: next(self.cache_hits), ..self },
            Action::Forwarded => Stats { forwarded: next(self.forwarded), ..self },
            Action::Error => Stats { upstream_errors: next(self.upstream_errors), ..self },
        }
    }

    /// The counters once something has been dropped.
    pub open spec fn with_drop(self) -> Stats {
        Stats { dropped: next(self.dropped), ..self }
    }

    /// Queries answered so far, in every way.
    pub open spec fn answered(self) -> int {
        self.blocked + self.cache_hits + self.forwarded + self.upstream_errors
    }

    /// Counts a query that came in.
    pub fn count_query(&mut self)
        ensures
            *final(self) == old(self).with_query(),
            *final(self) == (Stats { queries: final(self).queries, ..*old(self) }),
            final(self).queries == (old(self).queries + 1) % 0x1_0000_0000_0000_0000,
    {
        self.queries = self.queries.wrapping_add(1);
    }

    /// Counts how a query was answered.
    pub fn count_action(&mut self, action: Action)
        ensures
            *final(self) == old(self).with_action(action),
            final(self).queries == old(self).queries,
            final(self).dropped == old(self).dropped,
            final(self).blocked == (old(self).blocked + if action is Blocked {
                1int
            } else {
                0
            }) % 0x1_0000_0000_0000_0000,
            final(self).cache_hits == (old(self).cache_hits + if action is Cached {
                1int
            } else {
                0
            }) % 0x1_0000_0000_0000_0000,
            final(self).forwarded == (old(self).forwarded + if action is Forwarded {
                1int
            } else {
                0
            }) % 0x1_0000_0000_0000_0000,
            final(self).upstream_errors == (old(self).upstream_errors + if action is Error {
                1int
            } else {
                0
            }) % 0x1_0000_0000_0000_0000,
    {
        match action {
            Action::Blocked => {
                self.blocked = self.blocked.wrapping_add(1);
            },
            Action::Cached => {
                self.cache_hits = self.cache_hits.wrapping_add(1);
            },
            Action::Forwarded => {
                self.forwarded = self.forwarded.wrapping_add(1);
            },
            Action::Error => {
                self.upstream_errors = self.upstream_errors.wrapping_add(1);
            },
        }
    }

    /// Counts a packet, a cache entry or a log record that was dropped.
    pub fn count_drop(&mut self)
        ensures
            *final(self) == old(self).with_drop(),
            *final(self) == (Stats { dropped: final(self).dropped, ..*old(self) }),
            final(self).dropped == (old(self).dropped + 1) % 0x1_0000_0000_0000_0000,
    {
        self.dropped = self.dropped.wrapping_add(1);
    }

    /// The counters at this moment.
    pub fn snapshot(&self, cache_entries: u64, uptime_secs: u64) -> (r: StatsSnapshot)
        ensures
            r == (StatsSnapshot {
                queries: self.queries,
                blocked: self.blocked,
                cache_hits: self.cache_hits,
                forwarded: self.forwarded,
                upstream_errors: self.upstream_errors,
                dropped: self.dropped,
                lookups: (self.cache_hits + self.forwarded) as u128,
                uptime_secs,
                cache_entries,
            }),
    {
        StatsSnapshot {
            queries: self.queries,
            blocked: self.blocked,
            cache_hits: self.cache_hits,
            forwarded: self.forwarded,
            upstream_errors: self.upstream_errors,
            dropped: self.dropped,
            lookups: self.cache_hits as u128 + self.forwarded as u128,
            uptime_secs,
            cache_entries,
        }
    }
}

/// The counters after queries were answered one after another.
pub open spec fn after_queries(s: Stats, actions: Seq<Action>) -> Stats
    decreases actions.len(),
{
    if actions.len() == 0 {
        s
    } else {
        after_queries(s, actions.drop_last()).with_query().with_action(actions.last())
    }
}

/// How often an action was taken.
pub open spec fn times(actions: Seq<Action>, a: Action) -> int
    decreases actions.len(),
{
    if actions.len() == 0 {
        0
    } else {
        times(actions.drop_last(), a) + if actions.last() == a {
            1int
        } else {
            0
        }
    }
}

/// Each query is counted once when it comes in and once when it is answered,
/// under the way it was answered. Nothing counts as dropped for it.
pub proof fn law_each_query_counts_once(actions: Seq<Action>)
    requires
        actions.len() <= u64::MAX,
    ensures
        ({
            let zero = Stats {
                queries: 0,
                blocked: 0,
                cache_hits: 0,
                forwarded: 0,
                upstream_errors: 0,
                dropped: 0,
            };
            let s = after_queries(zero, actions);
            &&& s.queries == actions.len()
            &&& s.answered() == actions.len()
            &&& s.blocked == times(actions, Action::Blocked)
            &&& s.cache_hits == times(actions, Action::Cached)
            &&& s.forwarded == times(actions, Action::Forwarded)
            &&& s.upstream_errors == times(actions, Action::Error)
            &&& s.dropped == 0
        }),
    decreases actions.len(),
{
    if actions.len() > 0 {
        law_each_query_counts_once(actions.drop_last());
    }
}

/// The cache hits are among the lookups, so the hit rate lies between 0 and 1.
pub proof fn law_hits_are_lookups(s: Stats)
    ensures
        s.cache_hits <= (s.cache_hits + s.forwarded) as u128,
        (s.cache_hits + s.forwarded) as u128 == s.cache_hits + s.forwarded,
{
}

/// A query, an answer and a drop each add one to their own counter, which wraps
/// around at the end of its range, and change no other.
pub proof fn law_each_event_moves_one_counter(s: Stats)
    ensures
        s.with_query() == (Stats { queries: s.with_query().queries, ..s }),
        s.with_query().queries == (s.queries + 1) % 0x1_0000_0000_0000_0000,
        s.with_drop() == (Stats { dropped: s.with_drop().dropped, ..s }),
        s.with_drop().dropped == (s.dropped + 1) % 0x1_0000_0000_0000_0000,
        s.with_action(Action::Blocked) == (Stats {
            blocked: s.with_action(Action::Blocked).blocked,
            ..s
        }),
        s.with_action(Action::Blocked).blocked == (s.blocked + 1) % 0x1_0000_0000_0000_0000,
        s.with_action(Action::Cached) == (Stats {
            cache_hits: s.with_action(Action::Cached).cache_hits,
            ..s
        }),
        s.with_action(Action::Cached).cache_hits == (s.cache_hits + 1) % 0x1_0000_0000_0000_0000,
        s.with_action(Action::Forwarded) == (Stats {
            forwarded: s.with_action(Action::Forwarded).forwarded,
            ..s
        }),
        s.with_action(Action::Forwarded).forwarded == (s.forwarded + 1)
            % 0x1_0000_0000_0000_0000,
        s.with_action(Action::Error) == (Stats {
            upstream_errors: s.with_action(Action::Error).upstream_errors,
            ..s
        }),
        s.with_action(Action::Error).upstream_errors == (s.upstream_errors + 1)
            % 0x1_0000_0000_0000_0000,
{
}

/// The log names each action by its own word.
pub proof fn law_actions_have_their_names()
    ensures
        Action::Blocked.name() == "blocked"@,
        Action::Cached.name() == "cached"@,
        Action::Forwarded.name() == "forwarded"@,
        Action::Error.name() == "error"@,
{
}

} // verus!
