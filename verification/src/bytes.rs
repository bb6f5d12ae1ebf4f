//! Big-endian integer fields of the descriptor encoding, and small byte
//! utilities shared by the pipeline.

use vstd::arithmetic::div_mod::lemma_fundamental_div_mod;
use vstd::prelude::*;

verus! {

/// 256 to the power `k`: the number of values a `k`-byte field can take.
pub open spec fn pow256(k: nat) -> int
    decreases k,
{
    if k == 0 {
        1
    } else {
        256 * pow256((k - 1) as nat)
    }
}

pub proof fn lemma_pow256_increases(j: nat, k: nat)
    requires
        j <= k,
    ensures
        pow256(j) <= pow256(k),
        pow256(j) >= 1,
    decreases k,
{
    if k > 0 {
        if j < k {
            lemma_pow256_increases(j, (k - 1) as nat);
        } else {
            lemma_pow256_increases((j - 1) as nat, (k - 1) as nat);
        }
    }
}

pub proof fn lemma_pow256_values()
    ensures
        pow256(2) == 0x1_0000,
        pow256(4) == 0x1_0000_0000,
        pow256(8) == 0x1_0000_0000_0000_0000,
{
    assert(pow256(0) == 1);
    assert(pow256(1) == 256);
    assert(pow256(2) == 0x1_0000);
    assert(pow256(3) == 0x100_0000);
    assert(pow256(4) == 0x1_0000_0000);
    assert(pow256(5) == 0x100_0000_0000);
    assert(pow256(6) == 0x1_0000_0000_0000);
    assert(pow256(7) == 0x100_0000_0000_0000);
}

/// The big-endian encoding of `v` in `k` bytes, most significant byte first.
pub open spec fn be_bytes(v: int, k: nat) -> Seq<u8>
    decreases k,
{
    if k == 0 {
        Seq::empty()
    } else {
        be_bytes(v / 256, (k - 1) as nat).push((v % 256) as u8)
    }
}

/// The integer a big-endian byte string denotes.
pub open spec fn be_val(s: Seq<u8>) -> int
    decreases s.len(),
{
    if s.len() == 0 {
        0
    } else {
        256 * be_val(s.drop_last()) + s.last()
    }
}

pub proof fn lemma_be_bytes_len(v: int, k: nat)
    ensures
        be_bytes(v, k).len() == k,
    decreases k,
{
    if k > 0 {
        lemma_be_bytes_len(v / 256, (k - 1) as nat);
    }
}

pub proof fn lemma_be_val_bound(s: Seq<u8>)
    ensures
        0 <= be_val(s) < pow256(s.len()),
    decreases s.len(),
{
    if s.len() > 0 {
        lemma_be_val_bound(s.drop_last());
    }
}

/// A `k`-byte big-endian field decodes back to the value it was written from.
pub proof fn lemma_be_roundtrip(v: int, k: nat)
    requires
        0 <= v < pow256(k),
    ensures
        be_val(be_bytes(v, k)) == v,
    decreases k,
{
    if k == 0 {
    } else {
        let rest = be_bytes(v / 256, (k - 1) as nat);
        assert(rest.push((v % 256) as u8).drop_last() =~= rest);
        assert(v / 256 < pow256((k - 1) as nat)) by {
            lemma_pow256_increases(0, (k - 1) as nat);
            lemma_fundamental_div_mod(v, 256);
        }
        lemma_be_roundtrip(v / 256, (k - 1) as nat);
        lemma_fundamental_div_mod(v, 256);
    }
}

/// Appends the `k`-byte big-endian encoding of `v` to `out`.
pub fn push_be_bytes(out: &mut Vec<u8>, v: u64, k: usize)
    requires
        k <= 8,
        (v as int) < pow256(k as nat),
    ensures
        final(out)@ == old(out)@ + be_bytes(v as int, k as nat),
    decreases k,
{
    if k == 0 {
        assert(final(out)@ =~= old(out)@ + be_bytes(v as int, 0));
    } else {
        proof {
            lemma_pow256_increases(0, (k - 1) as nat);
            lemma_fundamental_div_mod(v as int, 256);
        }
        push_be_bytes(out, v / 256, k - 1);
        out.push((v % 256) as u8);
        assert(final(out)@ =~= old(out)@ + be_bytes(v as int, k as nat));
    }
}

/// Reads the `k`-byte big-endian field of `b` that starts at `start`.
pub fn read_be_u64(b: &Vec<u8>, start: usize, k: usize) -> (v: u64)
    requires
        k <= 8,
        start + k <= b.len(),
    ensures
        v as int == be_val(b@.subrange(start as int, (start + k) as int)),
{
    let mut v: u64 = 0;
    let mut i: usize = 0;
    while i < k
        invariant
            i <= k,
            k <= 8,
            start + k <= b.len(),
            v as int == be_val(b@.subrange(start as int, (start + i) as int)),
            (v as int) < pow256(i as nat),
        decreases k - i,
    {
        proof {
            lemma_pow256_increases(i as nat, 7);
            lemma_pow256_values();
            assert(b@.subrange(start as int, (start + i + 1) as int).drop_last() =~= b@.subrange(
                start as int,
                (start + i) as int,
            ));
        }
        v = v * 256 + (b[start + i] as u64);
        i = i + 1;
    }
    assert(b@.subrange(start as int, (start + i) as int) =~= b@.subrange(
        start as int,
        (start + k) as int,
    ));
    v
}

/// The bytes of `b` from `from` (inclusive) to `to` (exclusive), as a fresh
/// vector.
pub fn copy_range(b: &Vec<u8>, from: usize, to: usize) -> (r: Vec<u8>)
    requires
        from <= to <= b.len(),
    ensures
        r@ == b@.subrange(from as int, to as int),
{
    let mut r: Vec<u8> = Vec::new();
    let mut i: usize = from;
    while i < to
        invariant
            from <= i <= to <= b.len(),
            r@ == b@.subrange(from as int, i as int),
        decreases to - i,
    {
        r.push(b[i]);
        assert(r@ =~= b@.subrange(from as int, (i + 1) as int));
        i = i + 1;
    }
    r
}

/// A copy of a byte string.
pub fn clone_bytes(b: &Vec<u8>) -> (r: Vec<u8>)
    ensures
        r@ == b@,
{
    let mut r: Vec<u8> = Vec::new();
    let mut i: usize = 0;
    while i < b.len()
        invariant
            i <= b.len(),
            r@ == b@.subrange(0, i as int),
        decreases b.len() - i,
    {
        r.push(b[i]);
        assert(r@ =~= b@.subrange(0, (i + 1) as int));
        i = i + 1;
    }
    assert(r@ =~= b@);
    r
}

} // verus!
