//! Text as sequences of characters: trimming, searching, splitting, joining
//! and lower case.

use vstd::prelude::*;
use vstd::seq_lib::*;
use vstd::string::*;
use vstd::utf8::*;

verus! {

// ---------------------------------------------------------------------------
// Models
// ---------------------------------------------------------------------------

/// Characters with the Unicode `White_Space` property.
pub open spec fn is_white(c: char) -> bool {
    ||| 0x9 <= c as u32 <= 0xd
    ||| c as u32 == 0x20
    ||| c as u32 == 0x85
    ||| c as u32 == 0xa0
    ||| c as u32 == 0x1680
    ||| 0x2000 <= c as u32 <= 0x200a
    ||| c as u32 == 0x2028
    ||| c as u32 == 0x2029
    ||| c as u32 == 0x202f
    ||| c as u32 == 0x205f
    ||| c as u32 == 0x3000
}

/// `s` without its leading white space.
pub open spec fn trim_front(s: Seq<char>) -> Seq<char>
    decreases s.len(),
{
    if s.len() > 0 && is_white(s[0]) {
        trim_front(s.drop_first())
    } else {
        s
    }
}

/// `s` without its trailing white space.
pub open spec fn trim_back(s: Seq<char>) -> Seq<char>
    decreases s.len(),
{
    if s.len() > 0 && is_white(s.last()) {
        trim_back(s.drop_last())
    } else {
        s
    }
}

/// `s` without white space at either end.
pub open spec fn trimmed(s: Seq<char>) -> Seq<char> {
    trim_back(trim_front(s))
}

/// `s` without the run of `c` at its end.
pub open spec fn without_trailing(s: Seq<char>, c: char) -> Seq<char>
    decreases s.len(),
{
    if s.len() > 0 && s.last() == c {
        without_trailing(s.drop_last(), c)
    } else {
        s
    }
}

/// Whether `s` begins with `prefix`.
pub open spec fn begins_with(s: Seq<char>, prefix: Seq<char>) -> bool {
    prefix.len() <= s.len() && s.take(prefix.len() as int) == prefix
}

/// Position at or after `from` where `pat` first occurs in `s`.
pub open spec fn first_at(s: Seq<char>, pat: Seq<char>, from: int) -> Option<int>
    decreases s.len() - from + 1,
{
    if from < 0 || from + pat.len() > s.len() {
        None
    } else if s.subrange(from, from + pat.len()) == pat {
        Some(from)
    } else {
        first_at(s, pat, from + 1)
    }
}

/// `s` up to the first `c`, or all of it.
pub open spec fn before(s: Seq<char>, c: char) -> Seq<char> {
    match first_at(s, seq![c], 0) {
        Some(i) => s.take(i),
        None => s,
    }
}

/// `s` after the first occurrence of `pat`, or all of it.
pub open spec fn after(s: Seq<char>, pat: Seq<char>) -> Seq<char> {
    match first_at(s, pat, 0) {
        Some(i) => s.skip(i + pat.len()),
        None => s,
    }
}

/// The pieces of `s` between the occurrences of `sep`.
pub open spec fn pieces(s: Seq<char>, sep: char) -> Seq<Seq<char>>
    decreases s.len(),
{
    match first_at(s, seq![sep], 0) {
        Some(i) => if 0 <= i < s.len() {
            seq![s.take(i)] + pieces(s.skip(i + 1), sep)
        } else {
            seq![s]
        },
        None => seq![s],
    }
}

/// The parts in order, with `sep` between neighbours.
pub open spec fn joined(parts: Seq<Seq<char>>, sep: Seq<char>) -> Seq<char>
    decreases parts.len(),
{
    if parts.len() == 0 {
        Seq::empty()
    } else if parts.len() == 1 {
        parts[0]
    } else {
        joined(parts.drop_last(), sep) + sep + parts.last()
    }
}

/// The characters of each string.
pub open spec fn views(v: Seq<String>) -> Seq<Seq<char>> {
    v.map_values(|s: String| s@)
}

/// The lower case of an ASCII letter, and any other character itself.
pub open spec fn ascii_lower(c: char) -> char {
    if 'A' <= c <= 'Z' {
        (c as u32 + 32) as char
    } else {
        c
    }
}

/// Number of ASCII characters before the first other one.
pub open spec fn ascii_run(s: Seq<char>) -> nat
    decreases s.len(),
{
    if s.len() > 0 && '\0' <= s[0] <= '\u{7f}' {
        1 + ascii_run(s.drop_first())
    } else {
        0
    }
}

/// Number of ASCII characters after the last other one.
pub open spec fn ascii_tail(s: Seq<char>) -> nat
    decreases s.len(),
{
    if s.len() > 0 && '\0' <= s.last() <= '\u{7f}' {
        1 + ascii_tail(s.drop_last())
    } else {
        0
    }
}

/// What `str::to_lowercase` gives for text that is not all ASCII, between what
/// its leading and its trailing ASCII characters become.
pub uninterp spec fn unicode_lowercase(s: Seq<char>) -> Seq<char>;

/// The text in lower case.
pub open spec fn lowercase(s: Seq<char>) -> Seq<char> {
    if is_ascii_chars(s) {
        s.map_values(|c: char| ascii_lower(c))
    } else {
        s.take(ascii_run(s) as int).map_values(|c: char| ascii_lower(c)) + unicode_lowercase(s)
            + s.skip(s.len() - ascii_tail(s)).map_values(|c: char| ascii_lower(c))
    }
}

// ---------------------------------------------------------------------------
// What the standard library provides
// ---------------------------------------------------------------------------

/// `char::is_whitespace` tells the Unicode property `White_Space`.
pub assume_specification[ char::is_whitespace ](c: char) -> (b: bool)
    ensures
        b == is_white(c),
;

/// `String::push` appends one character.
pub assume_specification[ String::push ](s: &mut String, c: char)
    ensures
        final(s)@ == old(s)@.push(c),
;

/// `str::to_lowercase`: in ASCII text, and in ASCII characters that other text
/// starts or ends with, letters are mapped one by one. What stands between is a
/// function of the whole text.
#[verifier::external_body]
pub(crate) fn lower(s: &str) -> (r: String)
    ensures
        r@ == if is_ascii_chars(s@) {
            s@.map_values(|c: char| ascii_lower(c))
        } else {
            s@.take(ascii_run(s@) as int).map_values(|c: char| ascii_lower(c)) + unicode_lowercase(
                s@,
            ) + s@.skip(s@.len() - ascii_tail(s@)).map_values(|c: char| ascii_lower(c))
        },
{
    s.to_lowercase()
}

// ---------------------------------------------------------------------------
// Functions
// ---------------------------------------------------------------------------

/// The characters of a text.
pub fn chars_of(s: &str) -> (v: Vec<char>)
    ensures
        v@ == s@,
{
    let mut v: Vec<char> = Vec::new();
    for c in it: s.chars()
        invariant
            it.seq() == s@,
            v@ == s@.take(it.index()),
    {
        v.push(c);
    }
    v
}

/// The text made of these characters.
pub fn text_of(v: &[char]) -> (s: String)
    ensures
        s@ == v@,
{
    let mut s: String = String::new();
    let mut i: usize = 0;
    while i < v.len()
        invariant
            i <= v@.len(),
            s@ == v@.take(i as int),
        decreases v@.len() - i,
    {
        s.push(v[i]);
        i = i + 1;
        assert(v@.take(i as int) == v@.take(i - 1).push(v@[i - 1]));
    }
    assert(v@.take(i as int) == v@);
    s
}

/// Whether two texts are the same.
pub fn same(a: &str, b: &str) -> (r: bool)
    ensures
        r == (a@ == b@),
{
    let x: Vec<char> = chars_of(a);
    let y: Vec<char> = chars_of(b);
    if x.len() != y.len() {
        return false;
    }
    let mut i: usize = 0;
    while i < x.len()
        invariant
            i <= x@.len() == y@.len(),
            x@ == a@,
            y@ == b@,
            forall|j: int| 0 <= j < i ==> x@[j] == y@[j],
        decreases x@.len() - i,
    {
        if x[i] != y[i] {
            return false;
        }
        i = i + 1;
    }
    assert(x@ == y@);
    true
}

/// The text without white space at either end.
pub fn trim(s: &str) -> (r: &str)
    ensures
        r@ == trimmed(s@),
{
    let v: Vec<char> = chars_of(s);
    let mut a: usize = 0;
    assert(v@.skip(0) == v@);
    while a < v.len() && v[a].is_whitespace()
        invariant
            a <= v@.len(),
            trim_front(v@) == trim_front(v@.skip(a as int)),
        decreases v@.len() - a,
    {
        assert(v@.skip(a as int).drop_first() == v@.skip(a + 1));
        a = a + 1;
    }
    let ghost front = v@.skip(a as int);
    let mut b: usize = v.len();
    assert(v@.subrange(a as int, b as int) == front);
    while b > a && v[b - 1].is_whitespace()
        invariant
            a <= b <= v@.len(),
            trim_back(front) == trim_back(v@.subrange(a as int, b as int)),
        decreases b,
    {
        assert(v@.subrange(a as int, b as int).drop_last() == v@.subrange(a as int, b - 1));
        b = b - 1;
    }
    s.substring_char(a, b)
}

/// The text without the run of `c` at its end.
pub fn trim_end_char(s: &str, c: char) -> (r: &str)
    ensures
        r@ == without_trailing(s@, c),
{
    let v: Vec<char> = chars_of(s);
    let mut b: usize = v.len();
    assert(v@.take(b as int) == v@);
    while b > 0 && v[b - 1] == c
        invariant
            b <= v@.len(),
            without_trailing(v@, c) == without_trailing(v@.take(b as int), c),
        decreases b,
    {
        assert(v@.take(b as int).drop_last() == v@.take(b - 1));
        b = b - 1;
    }
    assert(s@.subrange(0, b as int) == v@.take(b as int));
    s.substring_char(0, b)
}

/// Whether `pat` stands in `v` at position `from`.
fn occurs_at(v: &Vec<char>, pat: &Vec<char>, from: usize) -> (r: bool)
    requires
        from + pat@.len() <= v@.len(),
    ensures
        r == (v@.subrange(from as int, from + pat@.len()) == pat@),
{
    let n: usize = v.len();
    let mut i: usize = 0;
    while i < pat.len()
        invariant
            i <= pat@.len(),
            n == v@.len(),
            from + pat@.len() <= n,
            forall|j: int| 0 <= j < i ==> v@[from + j] == pat@[j],
        decreases pat@.len() - i,
    {
        if v[from + i] != pat[i] {
            assert(v@.subrange(from as int, from + pat@.len())[i as int] != pat@[i as int]);
            return false;
        }
        i = i + 1;
    }
    assert(v@.subrange(from as int, from + pat@.len()) == pat@);
    true
}

/// Whether the text begins with `prefix`.
pub fn starts_with(s: &str, prefix: &str) -> (r: bool)
    ensures
        r == begins_with(s@, prefix@),
{
    let v: Vec<char> = chars_of(s);
    let p: Vec<char> = chars_of(prefix);
    if p.len() > v.len() {
        return false;
    }
    assert(v@.subrange(0, p@.len() as int) == v@.take(p@.len() as int));
    occurs_at(&v, &p, 0)
}

/// The text after `prefix`, where it begins with it.
pub fn strip_prefix<'a>(s: &'a str, prefix: &str) -> (r: Option<&'a str>)
    ensures
        r is Some <==> begins_with(s@, prefix@),
        r matches Some(rest) ==> rest@ == s@.skip(prefix@.len() as int),
{
    if !starts_with(s, prefix) {
        return None;
    }
    let n: usize = s.unicode_len();
    let k: usize = prefix.unicode_len();
    assert(s@.subrange(k as int, n as int) == s@.skip(k as int));
    Some(s.substring_char(k, n))
}

/// Where `pat` first occurs, counted in characters.
pub fn find(s: &str, pat: &str) -> (r: Option<usize>)
    ensures
        match first_at(s@, pat@, 0) {
            Some(i) => r is Some && r->0 == i && i + pat@.len() <= s@.len(),
            None => r is None,
        },
{
    let v: Vec<char> = chars_of(s);
    let p: Vec<char> = chars_of(pat);
    let n: usize = v.len();
    let mut i: usize = 0;
    while p.len() <= n - i
        invariant
            i <= n,
            n == v@.len(),
            v@ == s@,
            p@ == pat@,
            first_at(v@, p@, 0) == first_at(v@, p@, i as int),
        decreases n - i,
    {
        if occurs_at(&v, &p, i) {
            return Some(i);
        }
        if i == n {
            assert(first_at(v@, p@, i + 1) is None);
            return None;
        }
        i = i + 1;
    }
    None
}

/// The text up to the first `c`, or all of it.
pub fn up_to<'a>(s: &'a str, c: char) -> (r: &'a str)
    ensures
        r@ == before(s@, c),
{
    let mut pat: String = String::new();
    pat.push(c);
    assert(pat@ == seq![c]);
    match find(s, pat.as_str()) {
        Some(i) => {
            assert(s@.subrange(0, i as int) == s@.take(i as int));
            s.substring_char(0, i)
        },
        None => s,
    }
}

/// The text after the first `pat`, or all of it.
pub fn beyond<'a>(s: &'a str, pat: &str) -> (r: &'a str)
    ensures
        r@ == after(s@, pat@),
{
    match find(s, pat) {
        Some(i) => {
            let k: usize = pat.unicode_len();
            let n: usize = s.unicode_len();
            assert(s@.subrange(i + k, n as int) == s@.skip(i + k));
            s.substring_char(i + k, n)
        },
        None => s,
    }
}

/// The text in lower case.
pub fn to_lowercase(s: &str) -> (r: String)
    ensures
        r@ == lowercase(s@),
{
    lower(s)
}

/// The pieces of the text between the occurrences of `sep`.
pub fn split(s: &str, sep: char) -> (r: Vec<String>)
    ensures
        views(r@) == pieces(s@, sep),
{
    let v: Vec<char> = chars_of(s);
    let n: usize = v.len();
    let mut out: Vec<String> = Vec::new();
    let mut a: usize = 0;
    let mut i: usize = 0;
    assert(v@.skip(0) == v@);
    assert(views(out@) + pieces(v@.skip(0), sep) == pieces(s@, sep));
    while i < n
        invariant
            a <= i <= n,
            n == v@.len(),
            v@ == s@,
            forall|j: int| a <= j < i ==> v@[j] != sep,
            views(out@) + pieces(v@.skip(a as int), sep) == pieces(s@, sep),
        decreases n - i,
    {
        if v[i] == sep {
            let ghost rest = v@.skip(a as int);
            let piece: String = text_of(slice_of(&v, a, i));
            proof {
                lemma_first_char(rest, sep, i - a);
                assert(rest.take(i - a) == v@.subrange(a as int, i as int));
                assert(rest.skip(i - a + 1) == v@.skip(i + 1));
                assert(views(out@.push(piece)) == views(out@).push(piece@));
                assert(views(out@).push(piece@) + pieces(v@.skip(i + 1), sep) == views(out@)
                    + pieces(rest, sep));
            }
            out.push(piece);
            a = i + 1;
        }
        i = i + 1;
    }
    let ghost rest = v@.skip(a as int);
    let last: String = text_of(slice_of(&v, a, n));
    proof {
        lemma_no_char(rest, sep);
        assert(rest == last@);
        assert(views(out@.push(last)) == views(out@) + pieces(rest, sep));
    }
    out.push(last);
    out
}

/// The characters from `a` up to `b`.
fn slice_of(v: &Vec<char>, a: usize, b: usize) -> (r: &[char])
    requires
        a <= b <= v@.len(),
    ensures
        r@ == v@.subrange(a as int, b as int),
{
    vstd::slice::slice_subrange(v.as_slice(), a, b)
}

/// The parts in order, with `sep` between neighbours.
pub fn join(parts: &Vec<String>, sep: &str) -> (r: String)
    ensures
        r@ == joined(views(parts@), sep@),
{
    let ghost all = views(parts@);
    let mut out: String = String::new();
    let mut i: usize = 0;
    while i < parts.len()
        invariant
            i <= parts@.len(),
            all == views(parts@),
            out@ == joined(all.take(i as int), sep@),
        decreases parts@.len() - i,
    {
        proof {
            assert(all.take(i + 1).drop_last() == all.take(i as int));
            assert(all.take(i + 1).last() == parts@[i as int]@);
        }
        if i > 0 {
            out.append(sep);
        }
        out.append(parts[i].as_str());
        proof {
            if i == 0 {
                assert(out@ == all.take(1)[0]);
            }
        }
        i = i + 1;
    }
    assert(all.take(i as int) == all);
    out
}

// ---------------------------------------------------------------------------
// Facts
// ---------------------------------------------------------------------------

/// The first occurrence of a character is found where it stands.
pub proof fn lemma_first_char(s: Seq<char>, c: char, i: int)
    requires
        0 <= i < s.len(),
        s[i] == c,
        forall|j: int| 0 <= j < i ==> s[j] != c,
    ensures
        first_at(s, seq![c], 0) == Some(i),
{
    lemma_first_char_from(s, c, 0, i);
}

proof fn lemma_first_char_from(s: Seq<char>, c: char, from: int, i: int)
    requires
        0 <= from <= i < s.len(),
        s[i] == c,
        forall|j: int| from <= j < i ==> s[j] != c,
    ensures
        first_at(s, seq![c], from) == Some(i),
    decreases i - from,
{
    assert(s.subrange(from, from + 1)[0] == s[from]);
    if from < i {
        lemma_first_char_from(s, c, from + 1, i);
    } else {
        assert(s.subrange(from, from + 1) == seq![c]);
    }
}

/// A character that does not occur is not found.
pub proof fn lemma_no_char(s: Seq<char>, c: char)
    requires
        !s.contains(c),
    ensures
        first_at(s, seq![c], 0) is None,
{
    lemma_no_char_from(s, c, 0);
}

proof fn lemma_no_char_from(s: Seq<char>, c: char, from: int)
    requires
        !s.contains(c),
        0 <= from <= s.len(),
    ensures
        first_at(s, seq![c], from) is None,
    decreases s.len() - from,
{
    if from < s.len() {
        assert(s.subrange(from, from + 1)[0] == s[from]);
        assert(s.contains(s[from]));
        lemma_no_char_from(s, c, from + 1);
    }
}

/// The position of the first `c` in a text that holds one.
pub proof fn lemma_some_char(s: Seq<char>, c: char) -> (i: int)
    requires
        s.contains(c),
    ensures
        0 <= i < s.len(),
        s[i] == c,
        forall|j: int| 0 <= j < i ==> s[j] != c,
        first_at(s, seq![c], 0) == Some(i),
{
    s.index_of_first_ensures(c);
    let i = s.index_of_first(c)->0;
    lemma_first_char(s, c, i);
    i
}

/// Splitting at a separator that stands between two texts splits each of them.
pub proof fn lemma_pieces_concat(a: Seq<char>, b: Seq<char>, sep: char)
    ensures
        pieces(a + seq![sep] + b, sep) == pieces(a, sep) + pieces(b, sep),
    decreases a.len(),
{
    let whole = a + seq![sep] + b;
    if a.contains(sep) {
        let i = lemma_some_char(a, sep);
        lemma_first_char(whole, sep, i);
        assert(whole.take(i) == a.take(i));
        assert(whole.skip(i + 1) == a.skip(i + 1) + seq![sep] + b);
        lemma_pieces_concat(a.skip(i + 1), b, sep);
        assert(pieces(whole, sep) == seq![a.take(i)] + (pieces(a.skip(i + 1), sep) + pieces(b, sep)));
    } else {
        assert forall|j: int| 0 <= j < a.len() implies whole[j] != sep by {
            assert(a.contains(a[j]));
        }
        lemma_first_char(whole, sep, a.len() as int);
        lemma_no_char(a, sep);
        assert(whole.take(a.len() as int) == a);
        assert(whole.skip(a.len() as int + 1) == b);
    }
}

/// Texts without the separator are given back by splitting what joining them made.
pub proof fn lemma_pieces_of_joined(parts: Seq<Seq<char>>, sep: char)
    requires
        parts.len() > 0,
        forall|i: int| 0 <= i < parts.len() ==> !(#[trigger] parts[i]).contains(sep),
    ensures
        pieces(joined(parts, seq![sep]), sep) == parts,
    decreases parts.len(),
{
    lemma_no_char(parts.last(), sep);
    if parts.len() == 1 {
        assert(parts == seq![parts[0]]);
    } else {
        let head = parts.drop_last();
        assert forall|i: int| 0 <= i < head.len() implies !(#[trigger] head[i]).contains(sep) by {
            assert(head[i] == parts[i]);
        }
        lemma_pieces_of_joined(head, sep);
        lemma_pieces_concat(joined(head, seq![sep]), parts.last(), sep);
        assert(parts == head.push(parts.last()));
    }
}

/// Whether every character of `s` occurs in `t`.
pub open spec fn drawn_from(s: Seq<char>, t: Seq<char>) -> bool {
    forall|c: char| #[trigger] s.contains(c) ==> t.contains(c)
}

/// A part of a text is drawn from it.
pub proof fn lemma_part(t: Seq<char>, a: int, b: int)
    requires
        0 <= a <= b <= t.len(),
    ensures
        drawn_from(t.subrange(a, b), t),
{
    assert forall|c: char| #[trigger] t.subrange(a, b).contains(c) implies t.contains(c) by {
        let i = choose|i: int| 0 <= i < b - a && t.subrange(a, b)[i] == c;
        assert(t[a + i] == c);
    }
}

/// Trimming keeps a part of the text that neither begins nor ends with white
/// space, and leaves such a text alone.
pub proof fn lemma_trimmed(s: Seq<char>)
    ensures
        drawn_from(trimmed(s), s),
        trimmed(s).len() > 0 ==> !is_white(trimmed(s)[0]) && !is_white(trimmed(s).last()),
        s.len() > 0 && !is_white(s[0]) && !is_white(s.last()) ==> trimmed(s) == s,
{
    lemma_trim_front(s);
    lemma_trim_back(trim_front(s));
}

proof fn lemma_trim_front(s: Seq<char>)
    ensures
        drawn_from(trim_front(s), s),
        trim_front(s).len() > 0 ==> !is_white(trim_front(s)[0]),
    decreases s.len(),
{
    if s.len() > 0 && is_white(s[0]) {
        lemma_trim_front(s.drop_first());
        lemma_part(s, 1, s.len() as int);
        assert(s.drop_first() == s.subrange(1, s.len() as int));
    }
}

proof fn lemma_trim_back(s: Seq<char>)
    ensures
        drawn_from(trim_back(s), s),
        trim_back(s).len() > 0 ==> trim_back(s)[0] == s[0] && !is_white(trim_back(s).last()),
    decreases s.len(),
{
    if s.len() > 0 && is_white(s.last()) {
        lemma_trim_back(s.drop_last());
        lemma_part(s, 0, s.len() - 1);
        assert(s.drop_last() == s.subrange(0, s.len() - 1));
    }
}

/// Removing trailing characters keeps a part of the text.
pub proof fn lemma_without_trailing(s: Seq<char>, c: char)
    ensures
        drawn_from(without_trailing(s, c), s),
        s.len() == 0 || s.last() != c ==> without_trailing(s, c) == s,
    decreases s.len(),
{
    if s.len() > 0 && s.last() == c {
        lemma_without_trailing(s.drop_last(), c);
        lemma_part(s, 0, s.len() - 1);
        assert(s.drop_last() == s.subrange(0, s.len() - 1));
    }
}

/// What stands before a character is a part of the text without it.
pub proof fn lemma_before(s: Seq<char>, c: char)
    ensures
        drawn_from(before(s, c), s),
        !before(s, c).contains(c),
        !s.contains(c) ==> before(s, c) == s,
{
    if s.contains(c) {
        let i = lemma_some_char(s, c);
        lemma_part(s, 0, i);
        assert(s.take(i) == s.subrange(0, i));
        assert forall|k: int| 0 <= k < s.take(i).len() implies s.take(i)[k] != c by {}
    } else {
        lemma_no_char(s, c);
    }
}

/// What stands after a pattern is a part of the text.
pub proof fn lemma_after(s: Seq<char>, pat: Seq<char>)
    ensures
        drawn_from(after(s, pat), s),
{
    lemma_first_at(s, pat, 0);
    if let Some(i) = first_at(s, pat, 0) {
        let k = i + pat.len();
        lemma_part(s, k, s.len() as int);
        assert(s.skip(k) == s.subrange(k, s.len() as int));
    }
}

/// A pattern that is found stands where it is found.
pub proof fn lemma_first_at(s: Seq<char>, pat: Seq<char>, from: int)
    requires
        0 <= from,
    ensures
        first_at(s, pat, from) matches Some(i) ==> from <= i && i + pat.len() <= s.len()
            && s.subrange(i, i + pat.len()) == pat,
    decreases s.len() - from + 1,
{
    if from + pat.len() <= s.len() && s.subrange(from, from + pat.len()) != pat {
        lemma_first_at(s, pat, from + 1);
    }
}

/// A pattern with a character that does not occur is not found.
pub proof fn lemma_no_pattern(s: Seq<char>, pat: Seq<char>)
    requires
        pat.len() > 0,
        !s.contains(pat[0]),
    ensures
        first_at(s, pat, 0) is None,
{
    lemma_first_at(s, pat, 0);
    if let Some(i) = first_at(s, pat, 0) {
        assert(s.subrange(i, i + pat.len())[0] == s[i]);
        assert(s.contains(pat[0]));
    }
}

/// Lower case maps ASCII text to ASCII text without capitals, and leaves such
/// text alone.
pub proof fn lemma_ascii_lowercase(s: Seq<char>)
    requires
        is_ascii_chars(s),
    ensures
        is_ascii_chars(lowercase(s)),
        forall|i: int| 0 <= i < lowercase(s).len() ==> !('A' <= #[trigger] lowercase(s)[i] <= 'Z'),
        s.contains('\n') <==> lowercase(s).contains('\n'),
        (forall|i: int| 0 <= i < s.len() ==> !('A' <= #[trigger] s[i] <= 'Z')) ==> lowercase(s)
            == s,
{
    let l = lowercase(s);
    assert forall|i: int| 0 <= i < l.len() implies !('A' <= #[trigger] l[i] <= 'Z') && (l[i] as nat)
        < 128 && (l[i] == '\n' <==> s[i] == '\n') by {
        let c = s[i];
        assert(l[i] == ascii_lower(c));
    }
    if s.contains('\n') {
        let i = choose|i: int| 0 <= i < s.len() && s[i] == '\n';
        assert(l[i] == '\n');
    }
    if l.contains('\n') {
        let i = choose|i: int| 0 <= i < l.len() && l[i] == '\n';
        assert(s[i] == '\n');
    }
    if forall|i: int| 0 <= i < s.len() ==> !('A' <= #[trigger] s[i] <= 'Z') {
        assert forall|i: int| 0 <= i < s.len() implies l[i] == s[i] by {
            assert(!('A' <= s[i] <= 'Z'));
        }
        assert(l == s);
    }
}

/// ASCII characters that a text starts with are mapped one by one.
pub proof fn lemma_lowercase_start(p: Seq<char>, t: Seq<char>)
    requires
        is_ascii_chars(p),
    ensures
        lowercase(p + t).len() >= p.len(),
        lowercase(p + t).take(p.len() as int) == lowercase(p),
        t.len() == 0 ==> lowercase(p + t) == lowercase(p),
{
    let s = p + t;
    let f = |c: char| ascii_lower(c);
    if t.len() == 0 {
        assert(s == p);
        assert(lowercase(p).take(p.len() as int) == lowercase(p));
    } else if is_ascii_chars(s) {
        assert(s.map_values(f).take(p.len() as int) == p.map_values(f));
    } else {
        lemma_ascii_run(p, t);
        let k = ascii_run(s) as int;
        let low = s.take(k).map_values(f) + unicode_lowercase(s) + s.skip(
            s.len() - ascii_tail(s),
        ).map_values(f);
        assert(low.take(p.len() as int) == p.map_values(f));
    }
}

/// ASCII characters that a text starts with belong to its run.
proof fn lemma_ascii_run(p: Seq<char>, t: Seq<char>)
    requires
        is_ascii_chars(p),
    ensures
        p.len() <= ascii_run(p + t) <= p.len() + t.len(),
    decreases p.len() + t.len(),
{
    let s = p + t;
    if p.len() > 0 {
        let rest = p.drop_first();
        assert(s.drop_first() == rest + t);
        assert('\0' <= p[0] <= '\u{7f}');
        assert forall|i: int| 0 <= i < rest.len() implies '\0' <= #[trigger] rest[i] <= '\u{7f}' by {
            assert(rest[i] == p[i + 1]);
        }
        lemma_ascii_run(rest, t);
    } else if t.len() > 0 && '\0' <= t[0] <= '\u{7f}' {
        assert(s.drop_first() == p + t.drop_first());
        lemma_ascii_run(p, t.drop_first());
    }
}

/// ASCII characters that a text ends with are mapped one by one.
pub proof fn lemma_lowercase_end(t: Seq<char>, p: Seq<char>)
    requires
        is_ascii_chars(p),
    ensures
        lowercase(t + p).len() >= p.len(),
        lowercase(t + p).skip(lowercase(t + p).len() - p.len()) == lowercase(p),
{
    let s = t + p;
    let f = |c: char| ascii_lower(c);
    if is_ascii_chars(s) {
        assert(s.map_values(f).skip(t.len() as int) == p.map_values(f));
    } else {
        lemma_ascii_tail(t, p);
        let end = s.skip(s.len() - ascii_tail(s)).map_values(f);
        let low = s.take(ascii_run(s) as int).map_values(f) + unicode_lowercase(s) + end;
        assert(low.skip(low.len() - p.len()) == p.map_values(f));
    }
}

/// ASCII characters that a text ends with belong to its tail.
proof fn lemma_ascii_tail(t: Seq<char>, p: Seq<char>)
    requires
        is_ascii_chars(p),
    ensures
        p.len() <= ascii_tail(t + p) <= t.len() + p.len(),
    decreases t.len() + p.len(),
{
    let s = t + p;
    if p.len() > 0 {
        let rest = p.drop_last();
        assert(s.drop_last() == t + rest);
        assert('\0' <= p[p.len() - 1] <= '\u{7f}');
        assert forall|i: int| 0 <= i < rest.len() implies '\0' <= #[trigger] rest[i] <= '\u{7f}' by {
            assert(rest[i] == p[i]);
        }
        lemma_ascii_tail(t, rest);
    } else if t.len() > 0 && '\0' <= t.last() <= '\u{7f}' {
        assert(s.last() == t.last());
        assert(s.drop_last() == t.drop_last() + p);
        lemma_ascii_tail(t.drop_last(), p);
    } else {
        assert(s == t);
    }
}

/// A text drawn from ASCII text is ASCII text.
pub proof fn lemma_drawn_ascii(s: Seq<char>, t: Seq<char>)
    requires
        is_ascii_chars(t),
        drawn_from(s, t),
    ensures
        is_ascii_chars(s),
{
    assert forall|i: int| 0 <= i < s.len() implies '\0' <= #[trigger] s[i] <= '\u{7f}' by {
        assert(s.contains(s[i]));
        let k = choose|k: int| 0 <= k < t.len() && t[k] == s[i];
        assert('\0' <= t[k] <= '\u{7f}');
    }
}

/// Removing a run at the end leaves what stands before a text that is not all
/// that run.
pub proof fn lemma_without_trailing_end(h: Seq<char>, p: Seq<char>, c: char)
    requires
        without_trailing(p, c).len() > 0,
    ensures
        without_trailing(h + p, c) == h + without_trailing(p, c),
    decreases p.len(),
{
    assert((h + p).last() == p.last());
    if p.last() == c {
        assert((h + p).drop_last() == h + p.drop_last());
        lemma_without_trailing_end(h, p.drop_last(), c);
    }
}

/// A pattern is found where it stands, if its first character does not occur
/// before.
pub proof fn lemma_first_pattern(s: Seq<char>, pat: Seq<char>, from: int, i: int)
    requires
        0 <= from <= i,
        pat.len() > 0,
        i + pat.len() <= s.len(),
        s.subrange(i, i + pat.len()) == pat,
        forall|j: int| from <= j < i ==> s[j] != pat[0],
    ensures
        first_at(s, pat, from) == Some(i),
    decreases i - from,
{
    if from < i {
        assert(s.subrange(from, from + pat.len())[0] == s[from]);
        lemma_first_pattern(s, pat, from + 1, i);
    }
}

/// Trimming the end of a text leaves a start that does not end in white space.
pub proof fn lemma_trim_back_start(p: Seq<char>, t: Seq<char>) -> (k: int)
    requires
        p.len() > 0,
        !is_white(p.last()),
    ensures
        0 <= k <= t.len(),
        trim_back(p + t) == p + t.take(k),
    decreases t.len(),
{
    let s = p + t;
    if t.len() == 0 {
        assert(s == p);
        assert(p + t.take(0) == p);
        0
    } else if is_white(t.last()) {
        let k = lemma_trim_back_start(p, t.drop_last());
        assert(s.drop_last() == p + t.drop_last());
        assert(t.drop_last().take(k) == t.take(k));
        k
    } else {
        assert(t.take(t.len() as int) == t);
        t.len() as int
    }
}

/// No piece holds the separator, and each is drawn from the text.
pub proof fn lemma_pieces_parts(s: Seq<char>, sep: char)
    ensures
        forall|i: int|
            0 <= i < pieces(s, sep).len() ==> !(#[trigger] pieces(s, sep)[i]).contains(sep)
                && drawn_from(pieces(s, sep)[i], s),
    decreases s.len(),
{
    if s.contains(sep) {
        let i = lemma_some_char(s, sep);
        let rest = s.skip(i + 1);
        lemma_pieces_parts(rest, sep);
        lemma_part(s, 0, i);
        lemma_part(s, i + 1, s.len() as int);
        assert(s.take(i) == s.subrange(0, i));
        assert(rest == s.subrange(i + 1, s.len() as int));
        assert forall|k: int| 0 <= k < pieces(s, sep).len() implies !(#[trigger] pieces(
            s,
            sep,
        )[k]).contains(sep) && drawn_from(pieces(s, sep)[k], s) by {
            if k == 0 {
                assert forall|j: int| 0 <= j < i implies s.take(i)[j] != sep by {}
            } else {
                assert(pieces(s, sep)[k] == pieces(rest, sep)[k - 1]);
            }
        }
    } else {
        lemma_no_char(s, sep);
    }
}

// ---------------------------------------------------------------------------
// Laws
// ---------------------------------------------------------------------------

/// Trimming cuts all white space off at both ends, and nothing else.
pub proof fn law_trimming_cuts_white_space_only(s: Seq<char>) -> (r: (int, int))
    ensures
        0 <= r.0 <= r.1 <= s.len(),
        trimmed(s) == s.subrange(r.0, r.1),
        forall|i: int| 0 <= i < r.0 ==> is_white(#[trigger] s[i]),
        forall|i: int| r.1 <= i < s.len() ==> is_white(#[trigger] s[i]),
        r.0 < r.1 ==> !is_white(s[r.0]) && !is_white(s[r.1 - 1]),
    decreases s.len(),
{
    if s.len() > 0 && is_white(s[0]) {
        let (a, b) = law_trimming_cuts_white_space_only(s.drop_first());
        assert(s.drop_first().subrange(a, b) == s.subrange(a + 1, b + 1));
        assert forall|i: int| 0 <= i < a + 1 implies is_white(#[trigger] s[i]) by {
            if i > 0 {
                assert(s[i] == s.drop_first()[i - 1]);
            }
        }
        assert forall|i: int| b + 1 <= i < s.len() implies is_white(#[trigger] s[i]) by {
            assert(s[i] == s.drop_first()[i - 1]);
        }
        (a + 1, b + 1)
    } else {
        let b = lemma_trim_back_at(s);
        assert(s.take(b) == s.subrange(0, b));
        (0, b)
    }
}

/// Where trimming the end cuts.
proof fn lemma_trim_back_at(s: Seq<char>) -> (b: int)
    ensures
        0 <= b <= s.len(),
        trim_back(s) == s.take(b),
        forall|i: int| b <= i < s.len() ==> is_white(#[trigger] s[i]),
        b > 0 ==> !is_white(s[b - 1]),
    decreases s.len(),
{
    if s.len() > 0 && is_white(s.last()) {
        let b = lemma_trim_back_at(s.drop_last());
        assert(s.drop_last().take(b) == s.take(b));
        assert forall|i: int| b <= i < s.len() implies is_white(#[trigger] s[i]) by {
            if i < s.len() - 1 {
                assert(s[i] == s.drop_last()[i]);
            }
        }
        b
    } else {
        assert(s.take(s.len() as int) == s);
        s.len() as int
    }
}

/// Removing a trailing character removes every one at the end, and nothing else.
pub proof fn law_trailing_run_goes(s: Seq<char>, c: char) -> (n: int)
    ensures
        0 <= n <= s.len(),
        without_trailing(s, c) == s.take(n),
        forall|i: int| n <= i < s.len() ==> #[trigger] s[i] == c,
        n > 0 ==> s[n - 1] != c,
    decreases s.len(),
{
    if s.len() > 0 && s.last() == c {
        let n = law_trailing_run_goes(s.drop_last(), c);
        assert(s.drop_last().take(n) == s.take(n));
        assert forall|i: int| n <= i < s.len() implies #[trigger] s[i] == c by {
            if i < s.len() - 1 {
                assert(s[i] == s.drop_last()[i]);
            }
        }
        n
    } else {
        assert(s.take(s.len() as int) == s);
        s.len() as int
    }
}

/// A text begins with what stands first in it, and with nothing else.
pub proof fn law_beginning_is_what_stands_first(p: Seq<char>, q: Seq<char>, t: Seq<char>)
    ensures
        begins_with(p + t, p),
        begins_with(p + t, q) && q.len() == p.len() ==> q == p,
        q.len() > p.len() + t.len() ==> !begins_with(p + t, q),
{
    assert((p + t).take(p.len() as int) == p);
}

/// A search finds the first place where the pattern stands, and fails only
/// where it stands nowhere.
pub proof fn law_search_finds_the_first_place(s: Seq<char>, pat: Seq<char>, i: int)
    ensures
        first_at(s, pat, 0) == Some(i) <==> {
            &&& 0 <= i && i + pat.len() <= s.len() && s.subrange(i, i + pat.len()) == pat
            &&& forall|j: int| 0 <= j < i ==> #[trigger] s.subrange(j, j + pat.len()) != pat
        },
        first_at(s, pat, 0) is None ==> 0 <= i && i + pat.len() <= s.len() ==> s.subrange(
            i,
            i + pat.len(),
        ) != pat,
{
    lemma_search(s, pat, 0, i);
    lemma_first_at(s, pat, 0);
}

proof fn lemma_search(s: Seq<char>, pat: Seq<char>, from: int, i: int)
    requires
        0 <= from,
    ensures
        first_at(s, pat, from) == Some(i) ==> forall|j: int|
            from <= j < i ==> #[trigger] s.subrange(j, j + pat.len()) != pat,
        from <= i && i + pat.len() <= s.len() && s.subrange(i, i + pat.len()) == pat && (forall|
            j: int,
        |
            from <= j < i ==> #[trigger] s.subrange(j, j + pat.len()) != pat) ==> first_at(
            s,
            pat,
            from,
        ) == Some(i),
        first_at(s, pat, from) is None && from <= i && i + pat.len() <= s.len() ==> s.subrange(
            i,
            i + pat.len(),
        ) != pat,
    decreases s.len() - from + 1,
{
    if from + pat.len() <= s.len() && s.subrange(from, from + pat.len()) != pat {
        lemma_search(s, pat, from + 1, i);
    }
}

/// What stands before a character is all up to its first place, and the whole
/// text where it does not occur.
pub proof fn law_before_stops_at_the_first(a: Seq<char>, c: char, b: Seq<char>)
    requires
        !a.contains(c),
    ensures
        before(a + seq![c] + b, c) == a,
        before(a, c) == a,
{
    let s = a + seq![c] + b;
    assert forall|j: int| 0 <= j < a.len() implies s[j] != c by {
        assert(a.contains(a[j]));
    }
    lemma_first_char(s, c, a.len() as int);
    assert(s.take(a.len() as int) == a);
    lemma_no_char(a, c);
}

/// What stands after a pattern begins behind its first place, and is the whole
/// text where it does not occur.
pub proof fn law_after_starts_behind_the_first(s: Seq<char>, pat: Seq<char>, i: int)
    ensures
        0 <= i && i + pat.len() <= s.len() && s.subrange(i, i + pat.len()) == pat && (forall|
            j: int,
        |
            0 <= j < i ==> #[trigger] s.subrange(j, j + pat.len()) != pat) ==> after(s, pat)
            == s.skip(i + pat.len()),
        (forall|j: int|
            0 <= j && j + pat.len() <= s.len() ==> #[trigger] s.subrange(j, j + pat.len()) != pat)
            ==> after(s, pat) == s,
{
    law_search_finds_the_first_place(s, pat, i);
    lemma_first_at(s, pat, 0);
}

/// The pieces of a text hold no separator, and with a separator after each they
/// make the text again.
pub proof fn law_pieces_make_the_text(s: Seq<char>, sep: char)
    ensures
        pieces(s, sep).map_values(|p: Seq<char>| p.push(sep)).flatten() == s.push(sep),
        forall|i: int|
            0 <= i < pieces(s, sep).len() ==> !(#[trigger] pieces(s, sep)[i]).contains(sep),
    decreases s.len(),
{
    let f = |p: Seq<char>| p.push(sep);
    lemma_pieces_parts(s, sep);
    if s.contains(sep) {
        let i = lemma_some_char(s, sep);
        let rest = s.skip(i + 1);
        law_pieces_make_the_text(rest, sep);
        let tail = pieces(rest, sep).map_values(f);
        assert(pieces(s, sep).map_values(f) == seq![s.take(i).push(sep)] + tail);
        assert((seq![s.take(i).push(sep)] + tail).drop_first() == tail);
        assert(s.push(sep) == s.take(i).push(sep) + rest.push(sep));
    } else {
        lemma_no_char(s, sep);
        assert(pieces(s, sep).map_values(f) == seq![s.push(sep)]);
        assert(seq![s.push(sep)].drop_first() == Seq::<Seq<char>>::empty());
        assert(seq![s.push(sep)].flatten() == s.push(sep) + Seq::<Seq<char>>::empty().flatten());
        assert(Seq::<Seq<char>>::empty().flatten() == Seq::<char>::empty());
    }
}

/// Joined texts stand one after another with the separator between them, none
/// left out.
pub proof fn law_joining_keeps_every_part(parts: Seq<Seq<char>>, sep: Seq<char>)
    ensures
        parts.len() == 0 ==> joined(parts, sep) == Seq::<char>::empty(),
        parts.len() > 0 ==> joined(parts, sep) + sep == parts.map_values(
            |p: Seq<char>| p + sep,
        ).flatten(),
    decreases parts.len(),
{
    let f = |p: Seq<char>| p + sep;
    if parts.len() > 0 {
        let head = parts.drop_last();
        law_joining_keeps_every_part(head, sep);
        assert(parts.map_values(f) == head.map_values(f).push(parts.last() + sep));
        head.map_values(f).lemma_flatten_push(parts.last() + sep);
        if parts.len() == 1 {
            assert(head.map_values(f) == Seq::<Seq<char>>::empty());
            assert(Seq::<Seq<char>>::empty().flatten() == Seq::<char>::empty());
        }
        assert(joined(parts, sep) + sep == parts.map_values(f).flatten());
    }
}

/// The strings are taken as they are, in order.
pub proof fn law_views_are_the_strings(v: Seq<String>, i: int)
    ensures
        views(v).len() == v.len(),
        0 <= i < v.len() ==> views(v)[i] == v[i]@,
{
}

/// Lower case maps capital ASCII letters to small ones and leaves the other
/// ASCII characters alone. Of other text it does so at both ends, and between
/// them has what the standard library gives.
pub proof fn law_lower_case(s: Seq<char>)
    ensures
        (forall|i: int| 0 <= i < s.len() ==> '\0' <= #[trigger] s[i] <= '\u{7f}') ==> {
            &&& lowercase(s).len() == s.len()
            &&& forall|i: int|
                0 <= i < s.len() ==> #[trigger] lowercase(s)[i] == if 'A' <= s[i] <= 'Z' {
                    (s[i] as u32 + 32) as char
                } else {
                    s[i]
                }
        },
        !(forall|i: int| 0 <= i < s.len() ==> '\0' <= #[trigger] s[i] <= '\u{7f}') ==> lowercase(s)
            == s.take(ascii_run(s) as int).map_values(|c: char| ascii_lower(c))
            + unicode_lowercase(s) + s.skip(s.len() - ascii_tail(s)).map_values(
            |c: char| ascii_lower(c),
        ),
{
    if forall|i: int| 0 <= i < s.len() ==> '\0' <= #[trigger] s[i] <= '\u{7f}' {
        assert(is_ascii_chars(s));
    }
}

} // verus!
