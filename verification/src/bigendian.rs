//! Bytes: big-endian numbers, and copies.

use vstd::prelude::*;

verus! {

/// The `n` low bytes of `x`, the highest first.
pub open spec fn be_bytes(x: nat, n: nat) -> Seq<u8>
    decreases n,
{
    if n == 0 {
        Seq::empty()
    } else {
        be_bytes(x / 256, (n - 1) as nat).push((x % 256) as u8)
    }
}

/// The number that some bytes make, the highest first.
pub open spec fn be_value(s: Seq<u8>) -> nat
    decreases s.len(),
{
    if s.len() == 0 {
        0
    } else {
        be_value(s.drop_last()) * 256 + s.last() as nat
    }
}

/// Numbers that `n` bytes can hold.
pub open spec fn pow256(n: nat) -> nat
    decreases n,
{
    if n == 0 {
        1
    } else {
        pow256((n - 1) as nat) * 256
    }
}

/// The bytes of a number that fits make that number.
pub proof fn lemma_value_of_bytes(x: nat, n: nat)
    requires
        x < pow256(n),
    ensures
        be_bytes(x, n).len() == n,
        be_value(be_bytes(x, n)) == x,
    decreases n,
{
    if n > 0 {
        lemma_value_of_bytes(x / 256, (n - 1) as nat);
        assert(be_bytes(x, n).drop_last() == be_bytes(x / 256, (n - 1) as nat));
    }
}

/// There are `n` bytes.
pub proof fn lemma_be_bytes_len(x: nat, n: nat)
    ensures
        be_bytes(x, n).len() == n,
    decreases n,
{
    if n > 0 {
        lemma_be_bytes_len(x / 256, (n - 1) as nat);
    }
}

/// The number that some bytes make fits them, and has those bytes.
pub proof fn lemma_bytes_of_value(s: Seq<u8>)
    ensures
        be_value(s) < pow256(s.len()),
        be_bytes(be_value(s), s.len()) == s,
    decreases s.len(),
{
    if s.len() > 0 {
        lemma_bytes_of_value(s.drop_last());
        assert(s == s.drop_last().push(s.last()));
    }
}

/// The sizes in use.
pub proof fn lemma_pow256()
    ensures
        pow256(2) == 0x1_0000,
        pow256(4) == 0x1_0000_0000,
        pow256(8) == 0x1_0000_0000_0000_0000,
{
    reveal_with_fuel(pow256, 9);
}

/// The `n` low bytes of `x`, the highest first.
pub fn encode_be(x: u64, n: usize) -> (r: Vec<u8>)
    ensures
        r@ == be_bytes(x as nat, n as nat),
    decreases n,
{
    if n == 0 {
        Vec::new()
    } else {
        let mut v: Vec<u8> = encode_be(x / 256, n - 1);
        v.push((x % 256) as u8);
        v
    }
}

/// The number that the `n` bytes from `from` on make.
pub fn decode_be(b: &[u8], from: usize, n: usize) -> (r: u64)
    requires
        n <= 8,
        from + n <= b@.len(),
    ensures
        r == be_value(b@.subrange(from as int, from + n)),
{
    let len: usize = b.len();
    let mut acc: u64 = 0;
    let mut i: usize = 0;
    while i < n
        invariant
            i <= n <= 8,
            len == b@.len(),
            from + n <= len,
            acc == be_value(b@.subrange(from as int, from + i)),
        decreases n - i,
    {
        let ghost head = b@.subrange(from as int, from + i);
        proof {
            lemma_bytes_of_value(head);
            assert(b@.subrange(from as int, from + i + 1).drop_last() == head);
            reveal_with_fuel(pow256, 9);
        }
        acc = acc * 256 + b[from + i] as u64;
        i = i + 1;
    }
    acc
}

/// The bytes from `from` on.
pub fn copy_from(b: &[u8], from: usize) -> (r: Vec<u8>)
    requires
        from <= b@.len(),
    ensures
        r@ == b@.skip(from as int),
{
    let mut v: Vec<u8> = Vec::new();
    let mut i: usize = from;
    while i < b.len()
        invariant
            from <= i <= b@.len(),
            v@ == b@.subrange(from as int, i as int),
        decreases b@.len() - i,
    {
        v.push(b[i]);
        i = i + 1;
        assert(v@ == b@.subrange(from as int, i as int));
    }
    assert(v@ == b@.skip(from as int));
    v
}

// ---------------------------------------------------------------------------
// Laws
// ---------------------------------------------------------------------------

/// Bytes come in the order of their weight, the highest first.
pub proof fn law_highest_byte_first(x: nat, s: Seq<u8>)
    ensures
        be_bytes(x, 2) == seq![(x / 0x100 % 0x100) as u8, (x % 0x100) as u8],
        be_bytes(x, 4) == seq![
            (x / 0x100_0000 % 0x100) as u8,
            (x / 0x1_0000 % 0x100) as u8,
            (x / 0x100 % 0x100) as u8,
            (x % 0x100) as u8,
        ],
        be_bytes(x, 8) == seq![
            (x / 0x100_0000_0000_0000 % 0x100) as u8,
            (x / 0x1_0000_0000_0000 % 0x100) as u8,
            (x / 0x100_0000_0000 % 0x100) as u8,
            (x / 0x1_0000_0000 % 0x100) as u8,
            (x / 0x100_0000 % 0x100) as u8,
            (x / 0x1_0000 % 0x100) as u8,
            (x / 0x100 % 0x100) as u8,
            (x % 0x100) as u8,
        ],
        s.len() == 2 ==> be_value(s) == s[0] * 0x100 + s[1],
        s.len() == 4 ==> be_value(s) == s[0] * 0x100_0000 + s[1] * 0x1_0000 + s[2] * 0x100 + s[3],
        s.len() == 8 ==> be_value(s) == s[0] * 0x100_0000_0000_0000 + s[1] * 0x1_0000_0000_0000
            + s[2] * 0x100_0000_0000 + s[3] * 0x1_0000_0000 + s[4] * 0x100_0000 + s[5] * 0x1_0000
            + s[6] * 0x100 + s[7],
{
    reveal_with_fuel(be_bytes, 9);
    reveal_with_fuel(be_value, 9);
    assert(x / 256 / 256 == x / 0x1_0000);
    assert(x / 256 / 256 / 256 == x / 0x100_0000);
    assert(x / 0x100_0000 / 256 == x / 0x1_0000_0000);
    assert(x / 0x1_0000_0000 / 256 == x / 0x100_0000_0000);
    assert(x / 0x100_0000_0000 / 256 == x / 0x1_0000_0000_0000);
    assert(x / 0x1_0000_0000_0000 / 256 == x / 0x100_0000_0000_0000);
}

} // verus!
