//! Big-endian integers.

use vstd::prelude::*;

verus! {

/// The number that a run of bytes stands for, most significant byte first.
pub open spec fn be_value(s: Seq<u8>) -> nat
    decreases s.len(),
{
    if s.len() == 0 {
        0
    } else {
        be_value(s.drop_last()) * 256 + s.last() as nat
    }
}

/// The last `k` bytes of a number, most significant byte first.
pub open spec fn be_bytes(n: nat, k: nat) -> Seq<u8>
    decreases k,
{
    if k == 0 {
        Seq::empty()
    } else {
        be_bytes(n / 256, (k - 1) as nat).push((n % 256) as u8)
    }
}

/// `be_bytes` gives as many bytes as it is asked for.
pub proof fn lemma_be_bytes_len(n: nat, k: nat)
    ensures
        be_bytes(n, k).len() == k,
    decreases k,
{
    if k > 0 {
        lemma_be_bytes_len(n / 256, (k - 1) as nat);
    }
}

/// `256` to the power of `k`.
pub open spec fn pow256(k: nat) -> nat
    decreases k,
{
    if k == 0 {
        1
    } else {
        pow256((k - 1) as nat) * 256
    }
}

/// A number that fits into `k` bytes is read back from them.
pub proof fn lemma_be_round_trip(n: nat, k: nat)
    requires
        n < pow256(k),
    ensures
        be_value(be_bytes(n, k)) == n,
    decreases k,
{
    if k > 0 {
        let rest = be_bytes(n / 256, (k - 1) as nat);
        lemma_be_round_trip(n / 256, (k - 1) as nat);
        assert(be_bytes(n, k).drop_last() =~= rest);
    }
}

/// Bytes are written back as they were read.
pub proof fn lemma_be_round_trip_back(s: Seq<u8>)
    ensures
        be_bytes(be_value(s), s.len()) == s,
        be_value(s) < pow256(s.len()),
    decreases s.len(),
{
    if s.len() > 0 {
        lemma_be_round_trip_back(s.drop_last());
        assert(s.drop_last().push(s.last()) =~= s);
    }
}

/// The powers that the widths in use need.
pub proof fn lemma_pow256_values()
    ensures
        pow256(1) == 0x100,
        pow256(2) == 0x1_0000,
        pow256(4) == 0x1_0000_0000,
        pow256(8) == 0x1_0000_0000_0000_0000,
{
    reveal_with_fuel(pow256, 9);
}

/// Reads two bytes as a number.
pub fn be_u16(a: u8, b: u8) -> (r: u16)
    ensures
        r == be_value(seq![a, b]),
{
    proof {
        lemma_be_value_2(a, b);
    }
    a as u16 * 256 + b as u16
}

/// Two bytes, written out.
pub proof fn lemma_be_value_2(a: u8, b: u8)
    ensures
        be_value(seq![a, b]) == a as nat * 256 + b as nat,
{
    reveal_with_fuel(be_value, 3);
    assert(seq![a, b].drop_last() =~= seq![a]);
    assert(seq![a].drop_last() =~= Seq::empty());
}

/// Reads the eight bytes or fewer from `from` to `to` as a number.
pub fn be_read(s: &[u8], from: usize, to: usize) -> (r: u64)
    requires
        from <= to <= s@.len(),
        to - from <= 8,
    ensures
        r == be_value(s@.subrange(from as int, to as int)),
{
    let mut r: u64 = 0;
    let mut i: usize = from;
    assert(s@.subrange(from as int, from as int) =~= Seq::empty());
    while i < to
        invariant
            from <= i <= to <= s@.len(),
            to - from <= 8,
            r == be_value(s@.subrange(from as int, i as int)),
        decreases to - i,
    {
        proof {
            let read = s@.subrange(from as int, i as int);
            let next = s@.subrange(from as int, i + 1);
            assert(next.drop_last() =~= read);
            lemma_be_round_trip_back(next);
            lemma_pow256_le(next.len(), 8);
            lemma_pow256_values();
        }
        r = r * 256 + s[i] as u64;
        i = i + 1;
    }
    r
}

proof fn lemma_pow256_le(a: nat, b: nat)
    requires
        a <= b,
    ensures
        pow256(a) <= pow256(b),
    decreases b,
{
    if a < b {
        lemma_pow256_le(a, (b - 1) as nat);
    }
}

} // verus!
