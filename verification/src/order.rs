//! Lexicographic order and a merge sort over it.

use vstd::multiset::*;
use vstd::prelude::*;
use vstd::seq_lib::*;

use crate::text::chars_of;

verus! {

/// Lexicographic order on sequences of numbers.
pub open spec fn lex_le(a: Seq<int>, b: Seq<int>) -> bool
    decreases a.len(),
{
    if a.len() == 0 {
        true
    } else if b.len() == 0 {
        false
    } else {
        a[0] < b[0] || (a[0] == b[0] && lex_le(a.drop_first(), b.drop_first()))
    }
}

/// The code points of a text.
pub open spec fn code_points(s: Seq<char>) -> Seq<int> {
    s.map_values(|c: char| c as int)
}

/// The values of some bytes.
pub open spec fn byte_values(s: Seq<u8>) -> Seq<int> {
    s.map_values(|b: u8| b as int)
}

/// Values that are ordered by a rank.
pub trait Ranked: Sized {
    /// What the value is ordered by.
    spec fn rank(&self) -> Seq<int>;

    /// Whether the value's rank is at most the other's.
    fn at_most(&self, other: &Self) -> (r: bool)
        ensures
            r == lex_le(self.rank(), other.rank()),
    ;
}

impl Ranked for String {
    open spec fn rank(&self) -> Seq<int> {
        code_points(self@)
    }

    fn at_most(&self, other: &Self) -> (r: bool) {
        let a: Vec<char> = chars_of(self.as_str());
        let b: Vec<char> = chars_of(other.as_str());
        let ghost x = code_points(a@);
        let ghost y = code_points(b@);
        let mut i: usize = 0;
        assert(x.skip(0) == x);
        assert(y.skip(0) == y);
        while i < a.len() && i < b.len()
            invariant
                i <= a@.len(),
                i <= b@.len(),
                x == code_points(a@),
                y == code_points(b@),
                x == self.rank(),
                y == other.rank(),
                lex_le(x, y) == lex_le(x.skip(i as int), y.skip(i as int)),
            decreases a@.len() - i,
        {
            if a[i] != b[i] {
                return a[i] < b[i];
            }
            assert(x.skip(i as int).drop_first() == x.skip(i + 1));
            assert(y.skip(i as int).drop_first() == y.skip(i + 1));
            i = i + 1;
        }
        i == a.len()
    }
}

/// Whether some bytes come before or tie with others.
pub fn bytes_at_most(a: &Vec<u8>, b: &Vec<u8>) -> (r: bool)
    ensures
        r == lex_le(byte_values(a@), byte_values(b@)),
{
    let ghost x = byte_values(a@);
    let ghost y = byte_values(b@);
    let mut i: usize = 0;
    assert(x.skip(0) == x);
    assert(y.skip(0) == y);
    while i < a.len() && i < b.len()
        invariant
            i <= a@.len(),
            i <= b@.len(),
            x == byte_values(a@),
            y == byte_values(b@),
            lex_le(x, y) == lex_le(x.skip(i as int), y.skip(i as int)),
        decreases a@.len() - i,
    {
        if a[i] != b[i] {
            return a[i] < b[i];
        }
        assert(x.skip(i as int).drop_first() == x.skip(i + 1));
        assert(y.skip(i as int).drop_first() == y.skip(i + 1));
        i = i + 1;
    }
    i == a.len()
}

/// Whether no value comes after a later one.
pub open spec fn ascending<T: Ranked>(s: Seq<T>) -> bool {
    forall|i: int, j: int|
        #![trigger s[i].rank(), s[j].rank()]
        0 <= i < j < s.len() ==> lex_le(s[i].rank(), s[j].rank())
}

/// Whether every value of `s` is at most `bound`.
spec fn all_at_most<T: Ranked>(s: Seq<T>, bound: T) -> bool {
    forall|i: int| 0 <= i < s.len() ==> lex_le(#[trigger] s[i].rank(), bound.rank())
}

/// Whether no value comes before a later one.
spec fn descending<T: Ranked>(s: Seq<T>) -> bool {
    forall|i: int, j: int|
        #![trigger s[i].rank(), s[j].rank()]
        0 <= i < j < s.len() ==> lex_le(s[j].rank(), s[i].rank())
}

/// The order is reflexive.
pub proof fn lemma_lex_refl(a: Seq<int>)
    ensures
        lex_le(a, a),
    decreases a.len(),
{
    if a.len() > 0 {
        lemma_lex_refl(a.drop_first());
    }
}

/// The order is total.
pub proof fn lemma_lex_total(a: Seq<int>, b: Seq<int>)
    ensures
        lex_le(a, b) || lex_le(b, a),
    decreases a.len(),
{
    if a.len() > 0 && b.len() > 0 {
        lemma_lex_total(a.drop_first(), b.drop_first());
    }
}

/// The order is transitive.
pub proof fn lemma_lex_trans(a: Seq<int>, b: Seq<int>, c: Seq<int>)
    requires
        lex_le(a, b),
        lex_le(b, c),
    ensures
        lex_le(a, c),
    decreases a.len(),
{
    if a.len() > 0 && b.len() > 0 && c.len() > 0 && a[0] == b[0] && b[0] == c[0] {
        lemma_lex_trans(a.drop_first(), b.drop_first(), c.drop_first());
    }
}

/// The order is antisymmetric.
pub proof fn lemma_lex_antisym(a: Seq<int>, b: Seq<int>)
    requires
        lex_le(a, b),
        lex_le(b, a),
    ensures
        a == b,
    decreases a.len(),
{
    if a.len() > 0 && b.len() > 0 {
        lemma_lex_antisym(a.drop_first(), b.drop_first());
        assert(a == seq![a[0]] + a.drop_first());
        assert(b == seq![b[0]] + b.drop_first());
    }
}

/// Removing the last value of a sequence removes it from the multiset.
proof fn lemma_pop_multiset<T>(s: Seq<T>)
    requires
        s.len() > 0,
    ensures
        s.to_multiset() == s.drop_last().to_multiset().insert(s.last()),
{
    assert(s == s.drop_last().push(s.last()));
    s.drop_last().to_multiset_ensures();
}

/// Takes the values of two ascending sequences, the largest first.
fn merge_down<T: Ranked>(a0: Vec<T>, b0: Vec<T>) -> (out: Vec<T>)
    requires
        ascending(a0@),
        ascending(b0@),
    ensures
        descending(out@),
        out@.to_multiset() == a0@.to_multiset().add(b0@.to_multiset()),
{
    let mut a: Vec<T> = a0;
    let mut b: Vec<T> = b0;
    let mut out: Vec<T> = Vec::new();
    let ghost total = a@.to_multiset().add(b@.to_multiset());
    proof {
        out@.to_multiset_ensures();
    }
    while a.len() > 0 || b.len() > 0
        invariant
            ascending(a@),
            ascending(b@),
            descending(out@),
            out@.len() > 0 ==> all_at_most(a@, out@.last()) && all_at_most(b@, out@.last()),
            a@.to_multiset().add(b@.to_multiset()).add(out@.to_multiset()) == total,
        decreases a@.len() + b@.len(),
    {
        let ghost a1 = a@;
        let ghost b1 = b@;
        let ghost out1 = out@;
        let from_b: bool = if a.len() == 0 {
            true
        } else if b.len() == 0 {
            false
        } else {
            a[a.len() - 1].at_most(&b[b.len() - 1])
        };
        let next: T = if from_b {
            b.pop().unwrap()
        } else {
            a.pop().unwrap()
        };
        proof {
            if from_b {
                lemma_pop_multiset(b1);
            } else {
                lemma_pop_multiset(a1);
            }
            out1.to_multiset_ensures();
            assert(a@.to_multiset().add(b@.to_multiset()).add(out1.push(next).to_multiset())
                == total);
            assert forall|i: int| 0 <= i < a@.len() implies lex_le(
                #[trigger] a@[i].rank(),
                next.rank(),
            ) by {
                if from_b {
                    lemma_lex_refl(a1.last().rank());
                    assert(lex_le(a1[i].rank(), a1[a1.len() - 1].rank()));
                    lemma_lex_trans(a1[i].rank(), a1.last().rank(), next.rank());
                } else {
                    assert(lex_le(a1[i].rank(), a1[a1.len() - 1].rank()));
                }
            }
            assert forall|i: int| 0 <= i < b@.len() implies lex_le(
                #[trigger] b@[i].rank(),
                next.rank(),
            ) by {
                if from_b {
                    assert(lex_le(b1[i].rank(), b1[b1.len() - 1].rank()));
                } else {
                    lemma_lex_total(a1.last().rank(), b1.last().rank());
                    lemma_lex_refl(b1.last().rank());
                    assert(lex_le(b1[i].rank(), b1[b1.len() - 1].rank()));
                    lemma_lex_trans(b1[i].rank(), b1.last().rank(), next.rank());
                }
            }
            assert forall|i: int, j: int|
                #![trigger out1.push(next)[i].rank(), out1.push(next)[j].rank()]
                0 <= i < j < out1.push(next).len() implies lex_le(
                out1.push(next)[j].rank(),
                out1.push(next)[i].rank(),
            ) by {
                if j == out1.len() {
                    if from_b {
                        assert(lex_le(b1[b1.len() - 1].rank(), out1.last().rank()));
                    } else {
                        assert(lex_le(a1[a1.len() - 1].rank(), out1.last().rank()));
                    }
                    lemma_lex_refl(out1.last().rank());
                    assert(lex_le(out1[out1.len() - 1].rank(), out1[i].rank()));
                    lemma_lex_trans(next.rank(), out1.last().rank(), out1[i].rank());
                } else {
                    assert(lex_le(out1[j].rank(), out1[i].rank()));
                }
            }
            assert(a@ == a1 || a@ == a1.drop_last());
            assert(b@ == b1 || b@ == b1.drop_last());
        }
        out.push(next);
    }
    proof {
        a@.to_multiset_ensures();
        b@.to_multiset_ensures();
        assert(a@.to_multiset() == Multiset::<T>::empty());
        assert(b@.to_multiset() == Multiset::<T>::empty());
        assert(out@.to_multiset() == total);
    }
    out
}

/// The values in the opposite order.
fn reversed<T>(v: Vec<T>) -> (r: Vec<T>)
    ensures
        r@ == v@.reverse(),
{
    let ghost all = v@;
    let mut rest: Vec<T> = v;
    let mut out: Vec<T> = Vec::new();
    while rest.len() > 0
        invariant
            rest@.len() + out@.len() == all.len(),
            rest@ == all.take(rest@.len() as int),
            out@ == all.reverse().take(out@.len() as int),
        decreases rest@.len(),
    {
        let ghost n = out@.len();
        let x: T = rest.pop().unwrap();
        out.push(x);
        assert(out@ == all.reverse().take(n as int + 1));
    }
    out
}

/// The values in ascending order.
pub fn sort<T: Ranked>(v: Vec<T>) -> (r: Vec<T>)
    ensures
        ascending(r@),
        r@.to_multiset() == v@.to_multiset(),
    decreases v@.len(),
{
    if v.len() <= 1 {
        return v;
    }
    let ghost all = v@;
    let mut left: Vec<T> = v;
    let mid: usize = left.len() / 2;
    let right: Vec<T> = left.split_off(mid);
    proof {
        assert(all == left@ + right@);
        lemma_multiset_commutative(left@, right@);
    }
    let a: Vec<T> = sort(left);
    let b: Vec<T> = sort(right);
    let down: Vec<T> = merge_down(a, b);
    proof {
        down@.lemma_reverse_to_multiset();
    }
    reversed(down)
}

/// Sequences with the same members have the same images.
pub proof fn lemma_same_images<A, B>(a: Seq<A>, b: Seq<A>, f: spec_fn(A) -> B)
    requires
        a.to_multiset() == b.to_multiset(),
    ensures
        a.map_values(f).to_multiset() == b.map_values(f).to_multiset(),
    decreases a.len(),
{
    a.to_multiset_ensures();
    b.to_multiset_ensures();
    if a.len() == 0 {
        assert(a.map_values(f) == b.map_values(f));
    } else {
        let x = a.last();
        lemma_pop_multiset(a);
        assert(b.to_multiset().count(x) > 0);
        let k = b.lemma_contains_to_index(x);
        assert(b.remove(k).to_multiset() == b.to_multiset().remove(x));
        assert(a.drop_last().to_multiset() == b.remove(k).to_multiset());
        lemma_same_images(a.drop_last(), b.remove(k), f);
        let bm = b.map_values(f);
        bm.to_multiset_ensures();
        assert(b.remove(k).map_values(f) == bm.remove(k));
        assert(bm.remove(k).to_multiset() == bm.to_multiset().remove(bm[k]));
        lemma_pop_multiset(a.map_values(f));
        assert(a.map_values(f).drop_last() == a.drop_last().map_values(f));
        assert(bm.contains(bm[k]));
        assert(bm.to_multiset().count(f(x)) > 0);
        assert(bm.to_multiset().remove(f(x)).insert(f(x)) == bm.to_multiset());
    }
}

// ---------------------------------------------------------------------------
// Laws
// ---------------------------------------------------------------------------

/// The first difference decides, the smaller number first; a sequence comes
/// before every longer one that starts with it.
pub proof fn law_first_difference_decides(p: Seq<int>, x: int, y: int, a: Seq<int>, b: Seq<int>)
    requires
        x < y,
    ensures
        lex_le(p.push(x) + a, p.push(y) + b),
        !lex_le(p.push(y) + b, p.push(x) + a),
        lex_le(p, p + a),
        a.len() > 0 ==> !lex_le(p + a, p),
    decreases p.len(),
{
    let (s, t) = (p.push(x) + a, p.push(y) + b);
    if p.len() > 0 {
        let q = p.drop_first();
        law_first_difference_decides(q, x, y, a, b);
        assert(s.drop_first() == q.push(x) + a);
        assert(t.drop_first() == q.push(y) + b);
        assert((p + a).drop_first() == q + a);
        assert(s[0] == p[0] && t[0] == p[0] && (p + a)[0] == p[0]);
    } else {
        assert(s[0] == x && t[0] == y);
        assert(p + a == a);
    }
}

/// Characters are ordered by their code points, and bytes by their values.
pub proof fn law_ranks_are_the_values(s: Seq<char>, b: Seq<u8>, i: int)
    ensures
        code_points(s).len() == s.len(),
        byte_values(b).len() == b.len(),
        0 <= i < s.len() ==> code_points(s)[i] == s[i] as int,
        0 <= i < b.len() ==> byte_values(b)[i] == b[i],
{
}

/// Of values in ascending order none comes after a later one.
pub proof fn law_ascending_is_in_order<T: Ranked>(s: Seq<T>, i: int, j: int)
    requires
        ascending(s),
        0 <= i < j < s.len(),
    ensures
        lex_le(s[i].rank(), s[j].rank()),
{
}

} // verus!
