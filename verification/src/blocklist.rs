//! Blocked-domain matching.
//!
//! Two kinds of entries:
//!   * a plain domain (`facebook.com`) blocks the apex and every subdomain
//!     (`www.facebook.com`, `m.facebook.com`, ...).
//!   * a wildcard (`*.example.com`) blocks subdomains only: the apex
//!     `example.com` keeps resolving.

use vstd::hash_set::StringHashSet;
use vstd::prelude::*;
use vstd::seq_lib::*;
use vstd::string::*;
use vstd::utf8::*;

use crate::order;
use crate::order::Ranked;
use crate::text;

verus! {

/// The list that is written where no blocklist file exists yet.
pub const DEFAULT_BLOCKLIST: &'static str = "# rust-dns blocklist — one domain per line.\n# A plain domain blocks the apex and all subdomains:\n#   facebook.com   -> blocks facebook.com, www.facebook.com, m.facebook.com, …\n# A wildcard blocks subdomains only (apex still resolves):\n#   *.example.com  -> blocks www.example.com but NOT example.com\n# Lines starting with # are comments.\nfacebook.com\n";

// ---------------------------------------------------------------------------
// Models
// ---------------------------------------------------------------------------

/// The domains that a blocklist names.
#[verifier::ext_equal]
pub struct BlocklistModel {
    /// Domains blocked with all their subdomains.
    pub exact: Set<Seq<char>>,
    /// Domains of which the subdomains are blocked.
    pub wildcard: Set<Seq<char>>,
}

/// What one line of a blocklist says.
pub enum Entry {
    /// A blank line, a comment, or a line that names no domain.
    Nothing,
    /// A domain with all its subdomains.
    Exact(Seq<char>),
    /// The subdomains of a domain.
    Wildcard(Seq<char>),
}

/// The domain in a line or a pasted URL: lower case, without scheme, path,
/// port and trailing dots.
pub open spec fn normalized(raw: Seq<char>) -> Seq<char> {
    let text = text::lowercase(text::trimmed(raw));
    let host = text::before(text::before(text::after(text, seq![':', '/', '/']), '/'), ':');
    text::trimmed(text::without_trailing(host, '.'))
}

/// What one line of a blocklist says.
pub open spec fn line_entry(line: Seq<char>) -> Entry {
    let l = text::trimmed(line);
    if l.len() == 0 || l[0] == '#' {
        Entry::Nothing
    } else if text::begins_with(l, seq!['*', '.']) {
        let d = normalized(l.skip(2));
        if d.len() > 0 {
            Entry::Wildcard(d)
        } else {
            Entry::Nothing
        }
    } else {
        let d = normalized(l);
        if d.len() > 0 {
            Entry::Exact(d)
        } else {
            Entry::Nothing
        }
    }
}

/// Whether one of the lines says `e`.
pub open spec fn some_line_says(lines: Seq<Seq<char>>, e: Entry) -> bool {
    exists|i: int| 0 <= i < lines.len() && #[trigger] line_entry(lines[i]) == e
}

/// The domains that some lines name.
pub open spec fn listed_by(lines: Seq<Seq<char>>) -> BlocklistModel {
    BlocklistModel {
        exact: Set::new(|d: Seq<char>| some_line_says(lines, Entry::Exact(d))),
        wildcard: Set::new(|d: Seq<char>| some_line_says(lines, Entry::Wildcard(d))),
    }
}

/// The domains that a blocklist's text names.
pub open spec fn parsed(text: Seq<char>) -> BlocklistModel {
    listed_by(text::pieces(text, '\n'))
}

/// Whether `name` ends in a dot and `domain`.
pub open spec fn is_subdomain(name: Seq<char>, domain: Seq<char>) -> bool {
    &&& name.len() > domain.len()
    &&& name[name.len() - domain.len() - 1] == '.'
    &&& name.skip(name.len() - domain.len()) == domain
}

/// Whether a blocklist blocks `name`.
pub open spec fn blocks(m: BlocklistModel, name: Seq<char>) -> bool {
    ||| exists|d: Seq<char>| #[trigger] m.exact.contains(d) && (name == d || is_subdomain(name, d))
    ||| exists|d: Seq<char>| #[trigger] m.wildcard.contains(d) && is_subdomain(name, d)
}

/// A wildcard entry as it is written.
pub open spec fn wildcard_line(domain: Seq<char>) -> Seq<char> {
    seq!['*', '.'] + domain
}

/// How often a blocklist's listing holds `line`.
pub open spec fn listed_times(m: BlocklistModel, line: Seq<char>) -> nat {
    (if m.exact.contains(line) {
        1nat
    } else {
        0nat
    }) + (if text::begins_with(line, seq!['*', '.']) && m.wildcard.contains(line.skip(2)) {
        1nat
    } else {
        0nat
    })
}

/// Whether the lines are in ascending order of their code points.
pub open spec fn sorted_lines(v: Seq<Seq<char>>) -> bool {
    forall|i: int, j: int|
        #![trigger v[i], v[j]]
        0 <= i < j < v.len() ==> order::lex_le(order::code_points(v[i]), order::code_points(v[j]))
}

/// Whether `v` is the sorted listing of a blocklist.
pub open spec fn is_listing(m: BlocklistModel, v: Seq<Seq<char>>) -> bool {
    &&& sorted_lines(v)
    &&& forall|line: Seq<char>| #[trigger] v.to_multiset().count(line) == listed_times(m, line)
}

/// Whether `text` is the file of a blocklist: its listing, each line ended.
pub open spec fn is_file_text(m: BlocklistModel, text: Seq<char>) -> bool {
    exists|v: Seq<Seq<char>>| #[trigger]
        is_listing(m, v) && text == text::joined(v, seq!['\n']) + seq!['\n']
}

// ---------------------------------------------------------------------------
// The blocklist
// ---------------------------------------------------------------------------

/// A set of blocked domains.
pub struct Blocklist {
    /// Apex and all subdomains.
    exact: StringHashSet,
    /// Strict subdomains only, stored without the `*.` prefix.
    wildcard: StringHashSet,
    /// The members of `exact`.
    exact_names: Vec<String>,
    /// The members of `wildcard`.
    wildcard_names: Vec<String>,
}

/// Whether the names are the members of the set, each once.
spec fn enumerates(names: Seq<Seq<char>>, set: Set<Seq<char>>) -> bool {
    &&& names.no_duplicates()
    &&& forall|d: Seq<char>| names.contains(d) <==> #[trigger] set.contains(d)
}

impl View for Blocklist {
    type V = BlocklistModel;

    closed spec fn view(&self) -> BlocklistModel {
        BlocklistModel { exact: self.exact@, wildcard: self.wildcard@ }
    }
}

impl Default for Blocklist {
    /// A blocklist that blocks nothing.
    fn default() -> (r: Self)
        ensures
            r@.exact == Set::<Seq<char>>::empty(),
            r@.wildcard == Set::<Seq<char>>::empty(),
    {
        Blocklist {
            exact: StringHashSet::new(),
            wildcard: StringHashSet::new(),
            exact_names: Vec::new(),
            wildcard_names: Vec::new(),
        }
    }
}

impl Blocklist {
    #[verifier::type_invariant]
    spec fn inv(self) -> bool {
        &&& enumerates(text::views(self.exact_names@), self.exact@)
        &&& enumerates(text::views(self.wildcard_names@), self.wildcard@)
        &&& self.exact_names@.len() + self.wildcard_names@.len() <= usize::MAX
    }

    /// Reads a blocklist: one domain per line, `#` begins a comment, `*.` a
    /// wildcard, and a pasted URL counts as its host.
    pub fn from_text(text: &str) -> (r: Blocklist)
        ensures
            r@ == parsed(text@),
    {
        let lines: Vec<String> = text::split(text, '\n');
        let ghost all = text::views(lines@);
        let mut exact: StringHashSet = StringHashSet::new();
        let mut wildcard: StringHashSet = StringHashSet::new();
        let mut exact_names: Vec<String> = Vec::new();
        let mut wildcard_names: Vec<String> = Vec::new();
        let mut i: usize = 0;
        while i < lines.len()
            invariant
                i <= lines@.len(),
                all == text::views(lines@),
                exact@ == listed_by(all.take(i as int)).exact,
                wildcard@ == listed_by(all.take(i as int)).wildcard,
                enumerates(text::views(exact_names@), exact@),
                enumerates(text::views(wildcard_names@), wildcard@),
                exact_names@.len() + wildcard_names@.len() <= i,
            decreases lines@.len() - i,
        {
            let ghost exact0 = exact@;
            let ghost wildcard0 = wildcard@;
            proof {
                assert(all[i as int] == lines@[i as int]@);
                lemma_listed_by_next(all, i as int);
            }
            match read_line(lines[i].as_str()) {
                Line::Exact(d) => {
                    if !exact.contains(d.as_str()) {
                        proof {
                            lemma_enumerates_push(exact_names@, exact@, d);
                        }
                        exact_names.push(d.clone());
                        exact.insert(d);
                    }
                    assert(exact@ == exact0.insert(d@));
                },
                Line::Wildcard(d) => {
                    if !wildcard.contains(d.as_str()) {
                        proof {
                            lemma_enumerates_push(wildcard_names@, wildcard@, d);
                        }
                        wildcard_names.push(d.clone());
                        wildcard.insert(d);
                    }
                    assert(wildcard@ == wildcard0.insert(d@));
                },
                Line::Nothing => {},
            }
            i = i + 1;
        }
        assert(all.take(i as int) == all);
        Blocklist { exact, wildcard, exact_names, wildcard_names }
    }

    /// Whether `name`, in lower case and without a trailing dot, is blocked.
    pub fn is_blocked(&self, name: &str) -> (r: bool)
        ensures
            r == blocks(self@, name@),
    {
        if self.exact.contains(name) {
            assert(self@.exact.contains(name@));
            return true;
        }
        let v: Vec<char> = text::chars_of(name);
        let n: usize = v.len();
        let mut i: usize = 0;
        while i < n
            invariant
                i <= n,
                n == v@.len(),
                v@ == name@,
                !self@.exact.contains(name@),
                forall|k: int|
                    0 <= k < i && #[trigger] name@[k] == '.' ==> !self@.exact.contains(
                        name@.skip(k + 1),
                    ) && !self@.wildcard.contains(name@.skip(k + 1)),
            decreases n - i,
        {
            if v[i] == '.' {
                let ancestor: &str = name.substring_char(i + 1, n);
                assert(ancestor@ == name@.skip(i + 1));
                assert(name@.skip(name@.len() - ancestor@.len()) == ancestor@);
                if self.exact.contains(ancestor) {
                    assert(self@.exact.contains(ancestor@));
                    return true;
                }
                if self.wildcard.contains(ancestor) {
                    assert(self@.wildcard.contains(ancestor@));
                    return true;
                }
            }
            i = i + 1;
        }
        proof {
            assert forall|d: Seq<char>| is_subdomain(name@, d) implies !(
            #[trigger] self@.exact.contains(d)) && !self@.wildcard.contains(d) by {
                let k = name@.len() - d.len() - 1;
                assert(name@[k] == '.');
                assert(name@.skip(k + 1) == d);
            }
        }
        false
    }

    /// Number of entries.
    pub fn len(&self) -> (r: usize)
        ensures
            r == self@.exact.len() + self@.wildcard.len(),
    {
        proof {
            use_type_invariant(self);
            lemma_enumerates_len(text::views(self.exact_names@), self.exact@);
            lemma_enumerates_len(text::views(self.wildcard_names@), self.wildcard@);
        }
        self.exact.len() + self.wildcard.len()
    }

    /// Sorted list for display and storage. Wildcard entries keep their `*.`
    /// prefix.
    pub fn to_sorted_vec(&self) -> (r: Vec<String>)
        ensures
            is_listing(self@, text::views(r@)),
    {
        proof {
            use_type_invariant(self);
        }
        let ghost plain = text::views(self.exact_names@);
        let ghost wild = text::views(self.wildcard_names@);
        let mut lines: Vec<String> = Vec::new();
        let mut i: usize = 0;
        while i < self.exact_names.len()
            invariant
                i <= self.exact_names@.len(),
                plain == text::views(self.exact_names@),
                text::views(lines@) == plain.take(i as int),
            decreases self.exact_names@.len() - i,
        {
            let line: String = self.exact_names[i].clone();
            assert(text::views(lines@.push(line)) == text::views(lines@).push(plain[i as int]));
            lines.push(line);
            i = i + 1;
            assert(text::views(lines@) == plain.take(i as int));
        }
        assert(plain.take(i as int) == plain);
        proof {
            reveal_strlit("*.");
            assert("*."@ == seq!['*', '.']);
        }
        let mut j: usize = 0;
        assert(text::views(lines@) == plain + wildcard_lines(wild.take(0)));
        while j < self.wildcard_names.len()
            invariant
                j <= self.wildcard_names@.len(),
                "*."@ == seq!['*', '.'],
                wild == text::views(self.wildcard_names@),
                text::views(lines@) == plain + wildcard_lines(wild.take(j as int)),
            decreases self.wildcard_names@.len() - j,
        {
            let mut line: String = "*.".to_owned();
            line.append(self.wildcard_names[j].as_str());
            assert(line@ == wildcard_line(wild[j as int]));
            assert(text::views(lines@.push(line)) == text::views(lines@).push(line@));
            assert(wildcard_lines(wild.take(j + 1)) == wildcard_lines(wild.take(j as int)).push(
                line@,
            ));
            lines.push(line);
            j = j + 1;
        }
        assert(wild.take(j as int) == wild);
        let ghost before_sort = lines@;
        let r: Vec<String> = order::sort(lines);
        proof {
            lemma_listing_counts(plain, self.exact@, wild, self.wildcard@);
            let f = |s: String| s@;
            order::lemma_same_images(r@, before_sort, f);
            assert(text::views(r@) == r@.map_values(f));
            assert(text::views(before_sort) == before_sort.map_values(f));
            let v = text::views(r@);
            assert forall|line: Seq<char>| #[trigger]
                v.to_multiset().count(line) == listed_times(self@, line) by {
                assert(v.to_multiset().count(line) == (plain + wildcard_lines(
                    wild,
                )).to_multiset().count(line));
            }
            assert forall|a: int, b: int|
                #![trigger v[a], v[b]]
                0 <= a < b < v.len() implies order::lex_le(
                order::code_points(v[a]),
                order::code_points(v[b]),
            ) by {
                assert(order::lex_le(r@[a].rank(), r@[b].rank()));
            }
        }
        r
    }

    /// The text of the blocklist's file.
    pub fn to_file_text(&self) -> (r: String)
        ensures
            is_file_text(self@, r@),
    {
        let lines: Vec<String> = self.to_sorted_vec();
        proof {
            reveal_strlit("\n");
            assert("\n"@ == seq!['\n']);
        }
        let mut out: String = text::join(&lines, "\n");
        out.push('\n');
        proof {
            let v = text::views(lines@);
            assert(is_listing(self@, v));
            assert(out@ == text::joined(v, seq!['\n']) + seq!['\n']);
        }
        out
    }
}

/// The wildcard entries as they are written.
spec fn wildcard_lines(domains: Seq<Seq<char>>) -> Seq<Seq<char>> {
    domains.map_values(|d: Seq<char>| wildcard_line(d))
}

/// An enumeration is as long as its set.
proof fn lemma_enumerates_len(names: Seq<Seq<char>>, set: Set<Seq<char>>)
    requires
        enumerates(names, set),
    ensures
        set.len() == names.len(),
{
    names.unique_seq_to_set();
    assert(names.to_set() == set);
}

/// How often a sequence without duplicates holds a value.
proof fn lemma_count_once<A>(s: Seq<A>, x: A)
    requires
        s.no_duplicates(),
    ensures
        s.to_multiset().count(x) == if s.contains(x) {
            1nat
        } else {
            0nat
        },
{
    s.lemma_multiset_has_no_duplicates();
    s.to_multiset_ensures();
    if s.contains(x) {
        assert(s.to_multiset().contains(x));
    }
}

/// The plain names followed by the wildcard lines are a listing, but for order.
proof fn lemma_listing_counts(
    plain: Seq<Seq<char>>,
    exact: Set<Seq<char>>,
    wild: Seq<Seq<char>>,
    wildcard: Set<Seq<char>>,
)
    requires
        enumerates(plain, exact),
        enumerates(wild, wildcard),
    ensures
        forall|line: Seq<char>| #[trigger]
            (plain + wildcard_lines(wild)).to_multiset().count(line) == listed_times(
                BlocklistModel { exact, wildcard },
                line,
            ),
{
    let lines = wildcard_lines(wild);
    assert forall|i: int, j: int|
        0 <= i < lines.len() && 0 <= j < lines.len() && i != j implies lines[i] != lines[j] by {
        assert(lines[i].skip(2) == wild[i]);
        assert(lines[j].skip(2) == wild[j]);
    }
    lemma_multiset_commutative(plain, lines);
    assert forall|line: Seq<char>| #[trigger]
        (plain + lines).to_multiset().count(line) == listed_times(
            BlocklistModel { exact, wildcard },
            line,
        ) by {
        lemma_count_once(plain, line);
        lemma_count_once(lines, line);
        if lines.contains(line) {
            let k = choose|k: int| 0 <= k < lines.len() && lines[k] == line;
            assert(line.take(2) == seq!['*', '.']);
            assert(line.skip(2) == wild[k]);
            assert(wild.contains(wild[k]));
        }
        if text::begins_with(line, seq!['*', '.']) && wildcard.contains(line.skip(2)) {
            let k = choose|k: int| 0 <= k < wild.len() && wild[k] == line.skip(2);
            assert(line == line.take(2) + line.skip(2));
            assert(lines[k] == line);
        }
    }
}

/// What one line of a blocklist says.
enum Line {
    Nothing,
    Exact(String),
    Wildcard(String),
}

impl Line {
    /// The entry that the line stands for.
    spec fn entry(self) -> Entry {
        match self {
            Line::Nothing => Entry::Nothing,
            Line::Exact(d) => Entry::Exact(d@),
            Line::Wildcard(d) => Entry::Wildcard(d@),
        }
    }
}

/// Lower case, without scheme, path, port and trailing dots, where a URL was
/// pasted.
pub fn normalize(raw: &str) -> (r: String)
    ensures
        r@ == normalized(raw@),
{
    proof {
        reveal_strlit("://");
        assert("://"@ == seq![':', '/', '/']);
    }
    let text: String = text::to_lowercase(text::trim(raw));
    let host: &str = text::up_to(text::up_to(text::beyond(text.as_str(), "://"), '/'), ':');
    text::trim(text::trim_end_char(host, '.')).to_owned()
}

/// Reads one line of a blocklist.
fn read_line(line: &str) -> (r: Line)
    ensures
        r.entry() == line_entry(line@),
{
    proof {
        reveal_strlit("#");
        reveal_strlit("*.");
        assert("#"@ == seq!['#']);
        assert("*."@ == seq!['*', '.']);
    }
    let l: &str = text::trim(line);
    if l.is_empty() {
        return Line::Nothing;
    }
    if text::starts_with(l, "#") {
        assert(l@.take(1)[0] == l@[0]);
        return Line::Nothing;
    }
    proof {
        if l@[0] == '#' {
            assert(l@.take(1) == seq!['#']);
        }
    }
    match text::strip_prefix(l, "*.") {
        Some(rest) => {
            let d: String = normalize(rest);
            if d.as_str().is_empty() {
                Line::Nothing
            } else {
                Line::Wildcard(d)
            }
        },
        None => {
            let d: String = normalize(l);
            if d.as_str().is_empty() {
                Line::Nothing
            } else {
                Line::Exact(d)
            }
        },
    }
}

/// One more line adds what it says.
proof fn lemma_listed_by_next(lines: Seq<Seq<char>>, i: int)
    requires
        0 <= i < lines.len(),
    ensures
        ({
            let m = listed_by(lines.take(i));
            let n = listed_by(lines.take(i + 1));
            match line_entry(lines[i]) {
                Entry::Nothing => n == m,
                Entry::Exact(d) => n.exact == m.exact.insert(d) && n.wildcard == m.wildcard,
                Entry::Wildcard(d) => n.exact == m.exact && n.wildcard == m.wildcard.insert(d),
            }
        }),
{
    let old_lines = lines.take(i);
    let new_lines = lines.take(i + 1);
    let m = listed_by(old_lines);
    let n = listed_by(new_lines);
    assert forall|d: Seq<char>|
        n.exact.contains(d) <==> m.exact.contains(d) || line_entry(lines[i]) == Entry::Exact(d) by {
        if m.exact.contains(d) {
            let k = choose|k: int|
                0 <= k < old_lines.len() && #[trigger] line_entry(old_lines[k]) == Entry::Exact(d);
            assert(line_entry(new_lines[k]) == Entry::Exact(d));
        }
        if line_entry(lines[i]) == Entry::Exact(d) {
            assert(line_entry(new_lines[i]) == Entry::Exact(d));
        }
        if n.exact.contains(d) && line_entry(lines[i]) != Entry::Exact(d) {
            let k = choose|k: int|
                0 <= k < new_lines.len() && #[trigger] line_entry(new_lines[k]) == Entry::Exact(d);
            assert(line_entry(old_lines[k]) == Entry::Exact(d));
        }
    }
    assert forall|d: Seq<char>|
        n.wildcard.contains(d) <==> m.wildcard.contains(d) || line_entry(lines[i])
            == Entry::Wildcard(d) by {
        if m.wildcard.contains(d) {
            let k = choose|k: int|
                0 <= k < old_lines.len() && #[trigger] line_entry(old_lines[k]) == Entry::Wildcard(
                    d,
                );
            assert(line_entry(new_lines[k]) == Entry::Wildcard(d));
        }
        if line_entry(lines[i]) == Entry::Wildcard(d) {
            assert(line_entry(new_lines[i]) == Entry::Wildcard(d));
        }
        if n.wildcard.contains(d) && line_entry(lines[i]) != Entry::Wildcard(d) {
            let k = choose|k: int|
                0 <= k < new_lines.len() && #[trigger] line_entry(new_lines[k]) == Entry::Wildcard(
                    d,
                );
            assert(line_entry(old_lines[k]) == Entry::Wildcard(d));
        }
    }
    match line_entry(lines[i]) {
        Entry::Nothing => {
            assert(n.exact == m.exact);
            assert(n.wildcard == m.wildcard);
        },
        Entry::Exact(d) => {
            assert(n.exact == m.exact.insert(d));
            assert(n.wildcard == m.wildcard);
        },
        Entry::Wildcard(d) => {
            assert(n.exact == m.exact);
            assert(n.wildcard == m.wildcard.insert(d));
        },
    }
}

/// A new member keeps an enumeration one.
proof fn lemma_enumerates_push(names: Seq<String>, set: Set<Seq<char>>, d: String)
    requires
        enumerates(text::views(names), set),
        !set.contains(d@),
    ensures
        enumerates(text::views(names.push(d)), set.insert(d@)),
{
    let old_views = text::views(names);
    let new_views = text::views(names.push(d));
    assert(new_views == old_views.push(d@));
    assert(!old_views.contains(d@));
    assert forall|x: Seq<char>| new_views.contains(x) <==> #[trigger] set.insert(d@).contains(x) by {
        if new_views.contains(x) {
            let k = choose|k: int| 0 <= k < new_views.len() && new_views[k] == x;
            if k < old_views.len() {
                assert(old_views[k] == x);
                assert(old_views.contains(x));
            }
        }
        if set.contains(x) {
            let k = choose|k: int| 0 <= k < old_views.len() && old_views[k] == x;
            assert(new_views[k] == x);
        }
        if x == d@ {
            assert(new_views[old_views.len() as int] == x);
        }
    }
    assert forall|i: int, j: int|
        0 <= i < new_views.len() && 0 <= j < new_views.len() && i != j implies new_views[i]
        != new_views[j] by {
        if i < old_views.len() {
            assert(old_views.contains(old_views[i]));
        }
        if j < old_views.len() {
            assert(old_views.contains(old_views[j]));
        }
    }
}

// ---------------------------------------------------------------------------
// Reloading
// ---------------------------------------------------------------------------

/// What tells one state of a file from another.
#[derive(Clone, Copy, Debug, PartialEq, Eq, Structural)]
pub struct FileStamp {
    /// Time of the last change, in seconds since the epoch.
    pub secs: u64,
    /// Nanoseconds of the second begun.
    pub nanos: u32,
    /// Length in bytes.
    pub len: u64,
}

/// The state in which the blocklist's file was read last.
#[derive(Clone, Copy, Debug, PartialEq, Eq, Structural)]
pub struct Watch {
    pub seen: Option<FileStamp>,
}

impl Watch {
    /// Takes the file's state, and says whether the file is to be read again:
    /// where it is there and its state is a new one.
    pub fn changed(&mut self, now: Option<FileStamp>) -> (r: bool)
        ensures
            r <==> now is Some && now != old(self).seen,
            final(self).seen == if r {
                now
            } else {
                old(self).seen
            },
    {
        match now {
            Some(stamp) => {
                let is_new: bool = match self.seen {
                    Some(seen) => seen != stamp,
                    None => true,
                };
                if is_new {
                    self.seen = now;
                }
                is_new
            },
            None => false,
        }
    }
}

// ---------------------------------------------------------------------------
// Laws
// ---------------------------------------------------------------------------

/// A plain entry blocks its domain and every subdomain of it.
pub proof fn law_plain_entry_blocks_apex_and_subdomains(
    m: BlocklistModel,
    domain: Seq<char>,
    prefix: Seq<char>,
)
    requires
        m.exact.contains(domain),
    ensures
        blocks(m, domain),
        blocks(m, prefix + seq!['.'] + domain),
{
    lemma_is_subdomain(prefix, domain);
}

/// A wildcard entry blocks every subdomain of its domain, and does not itself
/// block the domain: whether that is blocked rests on the other entries.
pub proof fn law_wildcard_entry_blocks_subdomains_only(
    m: BlocklistModel,
    domain: Seq<char>,
    prefix: Seq<char>,
)
    requires
        m.wildcard.contains(domain),
    ensures
        blocks(m, prefix + seq!['.'] + domain),
        blocks(m, domain) <==> blocks(
            (BlocklistModel { exact: m.exact, wildcard: m.wildcard.remove(domain) }),
            domain,
        ),
{
    lemma_is_subdomain(prefix, domain);
    let rest = BlocklistModel { exact: m.exact, wildcard: m.wildcard.remove(domain) };
    assert forall|d: Seq<char>| is_subdomain(domain, d) implies m.wildcard.contains(d)
        == #[trigger] rest.wildcard.contains(d) by {
        assert(d.len() < domain.len());
    }
    if exists|d: Seq<char>| #[trigger] m.wildcard.contains(d) && is_subdomain(domain, d) {
        let d = choose|d: Seq<char>| #[trigger]
            m.wildcard.contains(d) && is_subdomain(domain, d);
        assert(rest.wildcard.contains(d));
    }
    if exists|d: Seq<char>| #[trigger] rest.wildcard.contains(d) && is_subdomain(domain, d) {
        let d = choose|d: Seq<char>| #[trigger]
            rest.wildcard.contains(d) && is_subdomain(domain, d);
        assert(m.wildcard.contains(d));
    }
    assert(m.exact == rest.exact);
}

/// A blocked name is an entry's domain or ends in a dot and an entry's domain:
/// a name that merely ends in the same letters is not blocked.
pub proof fn law_blocked_names_end_in_an_entry(m: BlocklistModel, name: Seq<char>)
    requires
        blocks(m, name),
    ensures
        m.exact.contains(name) || exists|i: int|
            0 <= i < name.len() && #[trigger] name[i] == '.' && (m.exact.contains(name.skip(i + 1))
                || m.wildcard.contains(name.skip(i + 1))),
{
    if !m.exact.contains(name) {
        let d = if exists|d: Seq<char>| #[trigger] m.exact.contains(d) && is_subdomain(name, d) {
            choose|d: Seq<char>| #[trigger] m.exact.contains(d) && is_subdomain(name, d)
        } else {
            choose|d: Seq<char>| #[trigger] m.wildcard.contains(d) && is_subdomain(name, d)
        };
        let i = name.len() - d.len() - 1;
        assert(name[i] == '.');
        assert(name.skip(i + 1) == d);
    }
}

/// Lines may be added, repeated and reordered freely: appending one text to
/// another names the domains of both.
pub proof fn law_texts_combine(a: Seq<char>, b: Seq<char>)
    ensures
        parsed(a + seq!['\n'] + b).exact == parsed(a).exact.union(parsed(b).exact),
        parsed(a + seq!['\n'] + b).wildcard == parsed(a).wildcard.union(parsed(b).wildcard),
{
    text::lemma_pieces_concat(a, b, '\n');
    let x = text::pieces(a, '\n');
    let y = text::pieces(b, '\n');
    assert forall|e: Entry| #[trigger]
        some_line_says(x + y, e) <==> some_line_says(x, e) || some_line_says(y, e) by {
        if some_line_says(x + y, e) {
            let i = choose|i: int| 0 <= i < (x + y).len() && #[trigger] line_entry((x + y)[i]) == e;
            if i < x.len() {
                assert(line_entry(x[i]) == e);
            } else {
                assert(line_entry(y[i - x.len()]) == e);
            }
        }
        if some_line_says(x, e) {
            let i = choose|i: int| 0 <= i < x.len() && #[trigger] line_entry(x[i]) == e;
            assert(line_entry((x + y)[i]) == e);
        }
        if some_line_says(y, e) {
            let i = choose|i: int| 0 <= i < y.len() && #[trigger] line_entry(y[i]) == e;
            assert(line_entry((x + y)[i + x.len()]) == e);
        }
    }
    assert(listed_by(x + y).exact == listed_by(x).exact.union(listed_by(y).exact));
    assert(listed_by(x + y).wildcard == listed_by(x).wildcard.union(listed_by(y).wildcard));
}

/// Whether a plain entry's line is read as that entry.
pub open spec fn reads_as_exact(domain: Seq<char>) -> bool {
    !domain.contains('\n') && line_entry(domain) == Entry::Exact(domain)
}

/// Whether a wildcard entry's line is read as that entry.
pub open spec fn reads_as_wildcard(domain: Seq<char>) -> bool {
    !domain.contains('\n') && line_entry(wildcard_line(domain)) == Entry::Wildcard(domain)
}

/// A blocklist's file is read back as the same blocklist, where each entry's
/// own line is.
pub proof fn law_file_reads_back(m: BlocklistModel, file: Seq<char>)
    requires
        is_file_text(m, file),
        forall|d: Seq<char>| #[trigger] m.exact.contains(d) ==> reads_as_exact(d),
        forall|d: Seq<char>| #[trigger] m.wildcard.contains(d) ==> reads_as_wildcard(d),
    ensures
        parsed(file) == m,
{
    let v = choose|v: Seq<Seq<char>>| #[trigger]
        is_listing(m, v) && file == text::joined(v, seq!['\n']) + seq!['\n'];
    let nl = '\n';
    let empty = Seq::<char>::empty();
    v.to_multiset_ensures();
    assert forall|i: int| 0 <= i < v.len() implies !(#[trigger] v[i]).contains(nl) && (
    (m.exact.contains(v[i]) && line_entry(v[i]) == Entry::Exact(v[i])) || (m.wildcard.contains(
        v[i].skip(2),
    ) && line_entry(v[i]) == Entry::Wildcard(v[i].skip(2)))) by {
        assert(v.contains(v[i]));
        assert(v.to_multiset().count(v[i]) > 0);
        assert(listed_times(m, v[i]) > 0);
        if !m.exact.contains(v[i]) {
            let w = v[i].skip(2);
            assert(v[i] == v[i].take(2) + w);
            assert(v[i] == wildcard_line(w));
            assert forall|k: int| 0 <= k < v[i].len() implies v[i][k] != nl by {
                if k >= 2 {
                    assert(w.contains(w[k - 2]));
                }
            }
        }
    }
    text::lemma_no_char(empty, nl);
    assert(text::pieces(empty, nl) == seq![empty]);
    text::lemma_pieces_concat(text::joined(v, seq![nl]), empty, nl);
    assert(text::joined(v, seq![nl]) + seq![nl] + empty == file);
    if v.len() > 0 {
        text::lemma_pieces_of_joined(v, nl);
    }
    let lines = text::pieces(file, nl);
    assert(line_entry(empty) == Entry::Nothing);
    assert(lines == v + seq![empty] || (v.len() == 0 && lines == seq![empty, empty]));
    assert forall|i: int| 0 <= i < lines.len() implies (#[trigger] lines[i] == empty || (0 <= i
        < v.len() && lines[i] == v[i])) by {}
    assert forall|d: Seq<char>| listed_by(lines).exact.contains(d) <==> m.exact.contains(d) by {
        if listed_by(lines).exact.contains(d) {
            let i = choose|i: int|
                0 <= i < lines.len() && #[trigger] line_entry(lines[i]) == Entry::Exact(d);
            assert(lines[i] == v[i]);
        }
        if m.exact.contains(d) {
            assert(listed_times(m, d) > 0);
            assert(v.to_multiset().count(d) > 0);
            let k = v.lemma_contains_to_index(d);
            assert(lines[k] == v[k]);
            assert(line_entry(lines[k]) == Entry::Exact(d));
        }
    }
    assert forall|d: Seq<char>| listed_by(lines).wildcard.contains(d) <==> m.wildcard.contains(
        d,
    ) by {
        if listed_by(lines).wildcard.contains(d) {
            let i = choose|i: int|
                0 <= i < lines.len() && #[trigger] line_entry(lines[i]) == Entry::Wildcard(d);
            assert(lines[i] == v[i]);
        }
        if m.wildcard.contains(d) {
            let line = wildcard_line(d);
            assert(line.take(2) == seq!['*', '.']);
            assert(line.skip(2) == d);
            assert(listed_times(m, line) > 0);
            assert(v.to_multiset().count(line) > 0);
            let k = v.lemma_contains_to_index(line);
            assert(lines[k] == v[k]);
            assert(line_entry(lines[k]) == Entry::Wildcard(d));
        }
    }
    assert(listed_by(lines).exact == m.exact);
    assert(listed_by(lines).wildcard == m.wildcard);
}

/// A name that ends in a dot and the domain is a subdomain of it.
proof fn lemma_is_subdomain(prefix: Seq<char>, domain: Seq<char>)
    ensures
        is_subdomain(prefix + seq!['.'] + domain, domain),
{
    let name = prefix + seq!['.'] + domain;
    assert(name.skip(name.len() - domain.len()) == domain);
}

/// Whether `domain` is ASCII text in the form that normalizing leaves: no
/// capitals, slashes, colons or line ends, and no white space at either end.
spec fn is_tidy(domain: Seq<char>) -> bool {
    &&& domain.len() > 0
    &&& is_ascii_chars(domain)
    &&& forall|i: int| 0 <= i < domain.len() ==> !('A' <= #[trigger] domain[i] <= 'Z')
    &&& !domain.contains('/')
    &&& !domain.contains(':')
    &&& !domain.contains('\n')
    &&& !text::is_white(domain[0])
    &&& !text::is_white(domain.last())
}

/// Normalizing ASCII text leaves tidy text or none.
proof fn lemma_normalized_is_tidy(raw: Seq<char>)
    requires
        is_ascii_chars(raw),
        !raw.contains('\n'),
    ensures
        normalized(raw).len() > 0 ==> is_tidy(normalized(raw)),
{
    let t = text::trimmed(raw);
    text::lemma_trimmed(raw);
    text::lemma_drawn_ascii(t, raw);
    let l = text::lowercase(t);
    text::lemma_ascii_lowercase(t);
    let a = text::after(l, seq![':', '/', '/']);
    text::lemma_after(l, seq![':', '/', '/']);
    let b = text::before(a, '/');
    text::lemma_before(a, '/');
    let c = text::before(b, ':');
    text::lemma_before(b, ':');
    let d = text::without_trailing(c, '.');
    text::lemma_without_trailing(c, '.');
    let e = text::trimmed(d);
    text::lemma_trimmed(d);
    assert(text::drawn_from(e, l));
    text::lemma_drawn_ascii(e, l);
    assert forall|i: int| 0 <= i < e.len() implies !('A' <= #[trigger] e[i] <= 'Z') by {
        assert(e.contains(e[i]));
        let k = choose|k: int| 0 <= k < l.len() && l[k] == e[i];
        assert(!('A' <= l[k] <= 'Z'));
    }
}

/// Tidy text that does not end in a dot is left alone by normalizing.
proof fn lemma_tidy_is_normal(d: Seq<char>)
    requires
        is_tidy(d),
        d.last() != '.',
    ensures
        normalized(d) == d,
{
    text::lemma_trimmed(d);
    text::lemma_ascii_lowercase(d);
    text::lemma_no_pattern(d, seq![':', '/', '/']);
    text::lemma_before(d, '/');
    text::lemma_before(d, ':');
    text::lemma_without_trailing(d, '.');
}

/// Whether the lines that name a domain are ASCII text. Comments need not be.
pub open spec fn has_ascii_entries(t: Seq<char>) -> bool {
    forall|i: int|
        0 <= i < text::pieces(t, '\n').len() && !(#[trigger] line_entry(
            text::pieces(t, '\n')[i],
        ) is Nothing) ==> is_ascii_chars(text::pieces(t, '\n')[i])
}

/// Where the lines that name a domain are ASCII text, every entry is read back
/// from its own line, but for one that still ends in a dot, and a plain one that
/// looks like a comment or a wildcard.
pub proof fn law_ascii_entries_read_back(t: Seq<char>)
    requires
        has_ascii_entries(t),
    ensures
        forall|d: Seq<char>| #[trigger]
            parsed(t).exact.contains(d) && d.last() != '.' && d[0] != '#' && !text::begins_with(
                d,
                seq!['*', '.'],
            ) ==> reads_as_exact(d),
        forall|d: Seq<char>| #[trigger]
            parsed(t).wildcard.contains(d) && d.last() != '.' ==> reads_as_wildcard(d),
{
    let lines = text::pieces(t, '\n');
    text::lemma_pieces_parts(t, '\n');
    assert forall|d: Seq<char>| #[trigger]
        parsed(t).exact.contains(d) && d.last() != '.' && d[0] != '#' && !text::begins_with(
            d,
            seq!['*', '.'],
        ) implies reads_as_exact(d) by {
        let i = choose|i: int|
            0 <= i < lines.len() && #[trigger] line_entry(lines[i]) == Entry::Exact(d);
        let l = text::trimmed(lines[i]);
        text::lemma_trimmed(lines[i]);
        assert(!(line_entry(lines[i]) is Nothing));
        text::lemma_drawn_ascii(l, lines[i]);
        lemma_normalized_is_tidy(l);
        lemma_tidy_is_normal(d);
        text::lemma_trimmed(d);
    }
    assert forall|d: Seq<char>| #[trigger]
        parsed(t).wildcard.contains(d) && d.last() != '.' implies reads_as_wildcard(d) by {
        let i = choose|i: int|
            0 <= i < lines.len() && #[trigger] line_entry(lines[i]) == Entry::Wildcard(d);
        let l = text::trimmed(lines[i]);
        text::lemma_trimmed(lines[i]);
        let rest = l.skip(2);
        text::lemma_part(l, 2, l.len() as int);
        assert(rest == l.subrange(2, l.len() as int));
        assert(!(line_entry(lines[i]) is Nothing));
        text::lemma_drawn_ascii(rest, lines[i]);
        lemma_normalized_is_tidy(rest);
        lemma_tidy_is_normal(d);
        let w = wildcard_line(d);
        text::lemma_trimmed(w);
        assert(w.take(2) == seq!['*', '.']);
        assert(w.skip(2) == d);
    }
}

/// Reading a blocklist, writing its file and reading that gives the same
/// blocklist, where the lines that name a domain are ASCII text and none of the
/// entries is one that does not read back.
pub proof fn law_text_survives_the_file(t: Seq<char>, file: Seq<char>)
    requires
        has_ascii_entries(t),
        is_file_text(parsed(t), file),
        forall|d: Seq<char>| #[trigger]
            parsed(t).exact.contains(d) ==> d.last() != '.' && d[0] != '#' && !text::begins_with(
                d,
                seq!['*', '.'],
            ),
        forall|d: Seq<char>| #[trigger] parsed(t).wildcard.contains(d) ==> d.last() != '.',
    ensures
        parsed(file) == parsed(t),
{
    law_ascii_entries_read_back(t);
    law_file_reads_back(parsed(t), file);
}

/// Of a pasted URL the host stays, in lower case: scheme, port and path go,
/// whatever the path holds.
#[verifier::rlimit(40)]
pub proof fn law_pasted_url_becomes_its_host(
    scheme: Seq<char>,
    host: Seq<char>,
    tail: Seq<char>,
)
    requires
        scheme.len() > 0,
        is_ascii_chars(scheme),
        !scheme.contains(':'),
        !text::is_white(scheme[0]),
        host.len() > 0,
        is_ascii_chars(host),
        !host.contains('/'),
        !host.contains(':'),
        !text::is_white(host[0]),
        !text::is_white(host.last()),
        host.last() != '.',
        tail.len() == 0 || tail[0] == '/' || tail[0] == ':',
    ensures
        normalized(scheme + seq![':', '/', '/'] + host + tail) == text::lowercase(host),
{
    let pat = seq![':', '/', '/'];
    let start = scheme + pat + host;
    let raw = start + tail;
    let (m, h) = (scheme.len() as int, host.len() as int);
    assert(start.last() == host.last());
    assert(raw[0] == scheme[0]);
    assert(text::trim_front(raw) == raw);
    let k = text::lemma_trim_back_start(start, tail);
    let t = tail.take(k);
    assert(text::trimmed(raw) == start + t);
    let low = text::lowercase(start + t);
    assert forall|i: int| 0 <= i < start.len() implies '\0' <= #[trigger] start[i] <= '\u{7f}' by {
        if i < m {
            assert(start[i] == scheme[i]);
        } else if i >= m + 3 {
            assert(start[i] == host[i - m - 3]);
        }
    }
    text::lemma_lowercase_start(start, t);
    let lows = text::lowercase(start);
    assert forall|i: int| 0 <= i < start.len() implies #[trigger] low[i] == text::ascii_lower(
        start[i],
    ) by {
        assert(low.take(start.len() as int)[i] == low[i]);
        assert(lows[i] == text::ascii_lower(start[i]));
    }
    if t.len() > 0 {
        let more = start.push(t[0]);
        assert(t[0] == tail[0]);
        assert forall|i: int| 0 <= i < more.len() implies '\0' <= #[trigger] more[i] <= '\u{7f}' by {
            if i < start.len() {
                assert(more[i] == start[i]);
            }
        }
        assert(start + t == more + t.drop_first());
        text::lemma_lowercase_start(more, t.drop_first());
        assert(low.take(more.len() as int)[start.len() as int] == low[start.len() as int]);
        assert(text::lowercase(more)[start.len() as int] == text::ascii_lower(t[0]));
    }
    assert forall|j: int| 0 <= j < m implies low[j] != ':' by {
        assert(start[j] == scheme[j]);
        assert(scheme.contains(scheme[j]));
    }
    assert(low.subrange(m, m + 3) == pat) by {
        assert(start[m] == ':' && start[m + 1] == '/' && start[m + 2] == '/');
        assert(low[m] == ':' && low[m + 1] == '/' && low[m + 2] == '/');
    }
    text::lemma_first_pattern(low, pat, 0, m);
    let rest = text::after(low, pat);
    assert(rest == low.skip(m + 3));
    let want = text::lowercase(host);
    assert forall|i: int| 0 <= i < h implies #[trigger] rest[i] == want[i] && rest[i] != '/'
        && rest[i] != ':' by {
        assert(rest[i] == low[i + m + 3]);
        assert(start[i + m + 3] == host[i]);
        assert(want[i] == text::ascii_lower(host[i]));
        assert(host.contains(host[i]));
    }
    let path_off = text::before(rest, '/');
    if t.len() > 0 {
        assert(rest[h] == low[start.len() as int]);
        if rest[h] == '/' {
            text::lemma_first_char(rest, '/', h);
            assert(path_off == rest.take(h));
            text::lemma_before(path_off, ':');
            assert(!path_off.contains(':'));
        } else {
            if rest.contains('/') {
                let j = text::lemma_some_char(rest, '/');
                assert(j > h);
                assert(path_off == rest.take(j));
            } else {
                text::lemma_no_char(rest, '/');
            }
            assert forall|i: int| 0 <= i <= h implies #[trigger] path_off[i] == rest[i] by {}
            text::lemma_first_char(path_off, ':', h);
        }
    } else {
        assert(rest.len() == h);
        assert(rest == rest.take(h));
        text::lemma_before(rest, '/');
        text::lemma_before(rest, ':');
    }
    let name = text::before(path_off, ':');
    assert(name == want);
    assert(want.last() == text::ascii_lower(host.last()));
    assert(want[0] == text::ascii_lower(host[0]));
    text::lemma_without_trailing(want, '.');
    text::lemma_trimmed(want);
}

/// A domain is listed where a line names it: a line that is not blank, no
/// comment and no wildcard names the domain that it normalizes to, and a
/// wildcard the one that its rest normalizes to. No other domain is listed.
pub proof fn law_every_line_lists_its_domain(t: Seq<char>, d: Seq<char>)
    ensures
        parsed(t).exact.contains(d) <==> d.len() > 0 && exists|i: int|
            0 <= i < text::pieces(t, '\n').len() && {
                let l = text::trimmed(#[trigger] text::pieces(t, '\n')[i]);
                &&& l.len() > 0 && l[0] != '#' && !(l.len() > 1 && l[0] == '*' && l[1] == '.')
                &&& normalized(l) == d
            },
        parsed(t).wildcard.contains(d) <==> d.len() > 0 && exists|i: int|
            0 <= i < text::pieces(t, '\n').len() && {
                let l = text::trimmed(#[trigger] text::pieces(t, '\n')[i]);
                &&& l.len() > 1 && l[0] == '*' && l[1] == '.'
                &&& normalized(l.skip(2)) == d
            },
{
    let lines = text::pieces(t, '\n');
    assert forall|i: int| 0 <= i < lines.len() implies {
        let l = text::trimmed(lines[i]);
        (text::begins_with(l, seq!['*', '.']) <==> l.len() > 1 && l[0] == '*' && l[1] == '.')
            && #[trigger] line_entry(lines[i]) == line_entry(lines[i])
    } by {
        let l = text::trimmed(lines[i]);
        if text::begins_with(l, seq!['*', '.']) {
            assert(l.take(2)[0] == l[0] && l.take(2)[1] == l[1]);
        } else if l.len() > 1 && l[0] == '*' && l[1] == '.' {
            assert(l.take(2) == seq!['*', '.']);
        }
    }
    if parsed(t).exact.contains(d) {
        let i = choose|i: int|
            0 <= i < lines.len() && #[trigger] line_entry(lines[i]) == Entry::Exact(d);
        assert(lines[i] == text::pieces(t, '\n')[i]);
    }
    if parsed(t).wildcard.contains(d) {
        let i = choose|i: int|
            0 <= i < lines.len() && #[trigger] line_entry(lines[i]) == Entry::Wildcard(d);
        assert(lines[i] == text::pieces(t, '\n')[i]);
    }
    if d.len() > 0 {
        assert forall|i: int| 0 <= i < lines.len() && ({
            let l = text::trimmed(#[trigger] lines[i]);
            l.len() > 0 && l[0] != '#' && !(l.len() > 1 && l[0] == '*' && l[1] == '.')
                && normalized(l) == d
        }) implies parsed(t).exact.contains(d) by {
            assert(line_entry(lines[i]) == Entry::Exact(d));
            assert(some_line_says(lines, Entry::Exact(d)));
        }
        assert forall|i: int| 0 <= i < lines.len() && ({
            let l = text::trimmed(#[trigger] lines[i]);
            l.len() > 1 && l[0] == '*' && l[1] == '.' && normalized(l.skip(2)) == d
        }) implies parsed(t).wildcard.contains(d) by {
            assert(line_entry(lines[i]) == Entry::Wildcard(d));
            assert(some_line_says(lines, Entry::Wildcard(d)));
        }
    }
}

/// Trimming twice is trimming once.
proof fn lemma_trimmed_twice(s: Seq<char>)
    ensures
        text::trimmed(text::trimmed(s)) == text::trimmed(s),
{
    text::lemma_trimmed(s);
    text::lemma_trimmed(text::trimmed(s));
}

/// A pasted URL on a line of its own lists its host, in lower case, so that the
/// host and its subdomains are blocked, whatever the other lines say.
pub proof fn law_pasted_url_blocks_its_host(
    t: Seq<char>,
    i: int,
    scheme: Seq<char>,
    host: Seq<char>,
    tail: Seq<char>,
    prefix: Seq<char>,
)
    requires
        0 <= i < text::pieces(t, '\n').len(),
        text::pieces(t, '\n')[i] == scheme + seq![':', '/', '/'] + host + tail,
        scheme.len() > 0,
        is_ascii_chars(scheme),
        !scheme.contains(':'),
        !text::is_white(scheme[0]),
        scheme[0] != '#',
        !(scheme.len() > 1 && scheme[0] == '*' && scheme[1] == '.'),
        host.len() > 0,
        is_ascii_chars(host),
        !host.contains('/'),
        !host.contains(':'),
        !text::is_white(host[0]),
        !text::is_white(host.last()),
        host.last() != '.',
        tail.len() == 0 || tail[0] == '/' || tail[0] == ':',
    ensures
        parsed(t).exact.contains(text::lowercase(host)),
        blocks(parsed(t), text::lowercase(host)),
        blocks(parsed(t), prefix + seq!['.'] + text::lowercase(host)),
{
    let d = text::lowercase(host);
    let start = scheme + seq![':', '/', '/'] + host;
    let raw = start + tail;
    law_pasted_url_becomes_its_host(scheme, host, tail);
    assert(start.last() == host.last());
    assert(raw[0] == scheme[0]);
    assert(text::trim_front(raw) == raw);
    let k = text::lemma_trim_back_start(start, tail);
    let l = text::trimmed(raw);
    assert(l == start + tail.take(k));
    assert(l[0] == scheme[0]);
    if scheme.len() > 1 {
        assert(l[1] == scheme[1]);
    } else {
        assert(l[1] == ':');
    }
    lemma_trimmed_twice(raw);
    assert(normalized(l) == normalized(raw));
    text::law_lower_case(host);
    assert(d.len() == host.len());
    law_every_line_lists_its_domain(t, d);
    assert(text::trimmed(text::pieces(t, '\n')[i]) == l);
    law_plain_entry_blocks_apex_and_subdomains(parsed(t), d, prefix);
}

/// Normalizing takes the text in lower case, without white space at its ends:
/// what follows the first `://`, of that what precedes the first `/`, of that
/// what precedes the first `:`, without dots and then white space at its ends.
pub proof fn law_normalizing_cuts_in_order(raw: Seq<char>, a: Seq<char>, b: Seq<char>, c: Seq<char>)
    requires
        a == text::after(text::lowercase(text::trimmed(raw)), seq![':', '/', '/']),
        b == text::before(a, '/'),
        c == text::before(b, ':'),
    ensures
        normalized(raw) == text::trimmed(text::without_trailing(c, '.')),
        !normalized(raw).contains('/'),
        !normalized(raw).contains(':'),
{
    text::lemma_before(a, '/');
    text::lemma_before(b, ':');
    text::lemma_without_trailing(c, '.');
    text::lemma_trimmed(text::without_trailing(c, '.'));
}

/// A host without a scheme stays as well, without its port and path, as long as
/// the text holds no `://`.
pub proof fn law_bare_host_stays(host: Seq<char>, tail: Seq<char>)
    requires
        host.len() > 0,
        is_ascii_chars(host + tail),
        !host.contains('/'),
        !host.contains(':'),
        !text::is_white(host[0]),
        !text::is_white(host.last()),
        host.last() != '.',
        tail.len() == 0 || tail[0] == '/' || tail[0] == ':',
        forall|j: int|
            0 <= j < (host + tail).len() - 2 ==> #[trigger] (host + tail).subrange(j, j + 3)
                != seq![':', '/', '/'],
    ensures
        normalized(host + tail) == text::lowercase(host),
{
    let raw = host + tail;
    let pat = seq![':', '/', '/'];
    let h = host.len() as int;
    assert(raw[0] == host[0]);
    assert(text::trim_front(raw) == raw);
    let k = text::lemma_trim_back_start(host, tail);
    let s = text::trimmed(raw);
    assert(s == host + tail.take(k));
    assert(s == raw.take(h + k));
    assert forall|i: int| 0 <= i < s.len() implies '\0' <= #[trigger] s[i] <= '\u{7f}' by {
        assert(s[i] == raw[i]);
    }
    assert forall|i: int| 0 <= i < host.len() implies '\0' <= #[trigger] host[i] <= '\u{7f}' by {
        assert(host[i] == raw[i]);
    }
    let low = text::lowercase(s);
    let want = text::lowercase(host);
    assert forall|j: int| 0 <= j && j + pat.len() <= low.len() implies #[trigger] low.subrange(
        j,
        j + pat.len(),
    ) != pat by {
        if low.subrange(j, j + pat.len()) == pat {
            let q = low.subrange(j, j + 3);
            assert(q[0] == low[j] && q[1] == low[j + 1] && q[2] == low[j + 2]);
            assert(low[j] == text::ascii_lower(s[j]));
            assert(low[j + 1] == text::ascii_lower(s[j + 1]));
            assert(low[j + 2] == text::ascii_lower(s[j + 2]));
            assert(raw.subrange(j, j + 3) == pat);
        }
    }
    text::law_after_starts_behind_the_first(low, pat, 0);
    assert(text::after(low, pat) == low);
    assert forall|i: int| 0 <= i < h implies #[trigger] want[i] == low[i] && want[i] != '/'
        && want[i] != ':' by {
        assert(want[i] == text::ascii_lower(host[i]));
        assert(low[i] == text::ascii_lower(s[i]));
        assert(host.contains(host[i]));
    }
    assert(!want.contains('/'));
    assert(!want.contains(':'));
    let b = text::before(low, '/');
    if k == 0 {
        assert(low == want);
        text::lemma_before(want, '/');
        text::lemma_before(want, ':');
    } else {
        assert(low[h] == tail[0]);
        if low[h] == '/' {
            assert(low == want + seq!['/'] + low.skip(h + 1));
            text::law_before_stops_at_the_first(want, '/', low.skip(h + 1));
            text::lemma_before(want, ':');
        } else {
            if low.contains('/') {
                let j = text::lemma_some_char(low, '/');
                assert(j > h);
                assert(b == low.take(j));
            } else {
                text::lemma_no_char(low, '/');
            }
            assert(b == want + seq![':'] + b.skip(h + 1));
            text::law_before_stops_at_the_first(want, ':', b.skip(h + 1));
        }
    }
    assert(text::before(b, ':') == want);
    assert(want.last() == text::ascii_lower(host.last()));
    assert(want[0] == text::ascii_lower(host[0]));
    text::lemma_without_trailing(want, '.');
    text::lemma_trimmed(want);
}

/// Just those names are blocked that are a plain entry, or end in a dot and a
/// plain or wildcard entry.
pub proof fn law_blocked_are_entries_and_what_ends_in_them(m: BlocklistModel, name: Seq<char>)
    ensures
        blocks(m, name) <==> m.exact.contains(name) || exists|p: Seq<char>, d: Seq<char>|
            #![trigger p + seq!['.'] + d]
            name == p + seq!['.'] + d && (m.exact.contains(d) || m.wildcard.contains(d)),
{
    assert forall|d: Seq<char>| is_subdomain(name, d) implies name == name.take(
        name.len() - d.len() - 1,
    ) + seq!['.'] + d by {
        assert(name == name.take(name.len() - d.len() - 1) + seq!['.'] + d);
    }
    if blocks(m, name) && !m.exact.contains(name) {
        let d = if exists|d: Seq<char>| #[trigger]
            m.exact.contains(d) && (name == d || is_subdomain(name, d)) {
            choose|d: Seq<char>| #[trigger]
                m.exact.contains(d) && (name == d || is_subdomain(name, d))
        } else {
            choose|d: Seq<char>| #[trigger] m.wildcard.contains(d) && is_subdomain(name, d)
        };
        let p = name.take(name.len() - d.len() - 1);
        assert(name == p + seq!['.'] + d);
    }
    if exists|p: Seq<char>, d: Seq<char>|
        #![trigger p + seq!['.'] + d]
        name == p + seq!['.'] + d && (m.exact.contains(d) || m.wildcard.contains(d)) {
        let (p, d) = choose|p: Seq<char>, d: Seq<char>|
            #![trigger p + seq!['.'] + d]
            name == p + seq!['.'] + d && (m.exact.contains(d) || m.wildcard.contains(d));
        lemma_is_subdomain(p, d);
    }
}

/// A listing holds each plain entry, and each wildcard entry after `*.`, once,
/// and nothing else, in the order of code points.
pub proof fn law_listing_holds_every_entry_once(
    m: BlocklistModel,
    v: Seq<Seq<char>>,
    line: Seq<char>,
    i: int,
    j: int,
)
    requires
        is_listing(m, v),
    ensures
        v.to_multiset().count(line) == (if m.exact.contains(line) {
            1nat
        } else {
            0nat
        }) + (if line.len() >= 2 && line[0] == '*' && line[1] == '.' && m.wildcard.contains(
            line.skip(2),
        ) {
            1nat
        } else {
            0nat
        }),
        0 <= i < j < v.len() ==> order::lex_le(order::code_points(v[i]), order::code_points(v[j])),
{
    assert(v.to_multiset().count(line) == listed_times(m, line));
    if text::begins_with(line, seq!['*', '.']) {
        assert(line.take(2)[0] == line[0] && line.take(2)[1] == line[1]);
    } else if line.len() >= 2 && line[0] == '*' && line[1] == '.' {
        assert(line.take(2) == seq!['*', '.']);
    }
}

/// A blocklist's file is a listing of it with a line end after each line; the
/// file of an empty blocklist is one line end.
pub proof fn law_file_is_the_listing(m: BlocklistModel, file: Seq<char>)
    requires
        is_file_text(m, file),
    ensures
        exists|v: Seq<Seq<char>>| #[trigger]
            is_listing(m, v) && file == if v.len() == 0 {
                seq!['\n']
            } else {
                v.map_values(|l: Seq<char>| l + seq!['\n']).flatten()
            },
{
    let v = choose|v: Seq<Seq<char>>| #[trigger]
        is_listing(m, v) && file == text::joined(v, seq!['\n']) + seq!['\n'];
    text::law_joining_keeps_every_part(v, seq!['\n']);
    assert(Seq::<char>::empty() + seq!['\n'] == seq!['\n']);
}

} // verus!
