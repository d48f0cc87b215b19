//! Byte order and the mathematical meaning of fixed-width integers on the wire.

use vstd::prelude::*;

verus! {

/// Byte order of multi-byte values in a CDR stream.
#[derive(Debug, Clone, Copy, PartialEq, Eq, Structural)]
pub enum Endianness {
    Big,
    Little,
}

/// `256^n`.
pub open spec fn pow256(n: nat) -> nat
    decreases n,
{
    if n == 0 {
        1
    } else {
        256 * pow256((n - 1) as nat)
    }
}

/// Unsigned value of `b` read least significant byte first.
pub open spec fn le_value(b: Seq<u8>) -> nat
    decreases b.len(),
{
    if b.len() == 0 {
        0
    } else {
        b[0] as nat + 256 * le_value(b.drop_first())
    }
}

/// The `n` bytes of `v` (taken modulo `256^n`), least significant first.
pub open spec fn le_bytes(v: nat, n: nat) -> Seq<u8>
    decreases n,
{
    if n == 0 {
        Seq::empty()
    } else {
        seq![(v % 256) as u8] + le_bytes(v / 256, (n - 1) as nat)
    }
}

/// Unsigned value of `b` in the given byte order.
pub open spec fn uint_value(b: Seq<u8>, e: Endianness) -> nat {
    match e {
        Endianness::Little => le_value(b),
        Endianness::Big => le_value(b.reverse()),
    }
}

/// The `n`-byte representation of `v` in the given byte order.
pub open spec fn uint_bytes(v: nat, n: nat, e: Endianness) -> Seq<u8> {
    match e {
        Endianness::Little => le_bytes(v, n),
        Endianness::Big => le_bytes(v, n).reverse(),
    }
}

pub proof fn lemma_pow256_values()
    ensures
        pow256(0) == 1,
        pow256(1) == 0x100,
        pow256(2) == 0x1_0000,
        pow256(3) == 0x100_0000,
        pow256(4) == 0x1_0000_0000,
        pow256(5) == 0x100_0000_0000,
        pow256(6) == 0x1_0000_0000_0000,
        pow256(7) == 0x100_0000_0000_0000,
        pow256(8) == 0x1_0000_0000_0000_0000,
{
    reveal_with_fuel(pow256, 9);
}

pub proof fn lemma_pow256_positive(n: nat)
    ensures
        pow256(n) >= 1,
    decreases n,
{
    if n > 0 {
        lemma_pow256_positive((n - 1) as nat);
    }
}

pub proof fn lemma_pow256_monotone(m: nat, n: nat)
    requires
        m <= n,
    ensures
        pow256(m) <= pow256(n),
    decreases n,
{
    if m < n {
        lemma_pow256_monotone(m, (n - 1) as nat);
        lemma_pow256_positive((n - 1) as nat);
    }
}

pub proof fn lemma_le_value_bound(b: Seq<u8>)
    ensures
        le_value(b) < pow256(b.len()),
    decreases b.len(),
{
    if b.len() > 0 {
        lemma_le_value_bound(b.drop_first());
    }
}

pub proof fn lemma_uint_value_bound(b: Seq<u8>, e: Endianness)
    ensures
        uint_value(b, e) < pow256(b.len()),
{
    lemma_le_value_bound(b);
    lemma_le_value_bound(b.reverse());
}

pub proof fn lemma_le_bytes_len(v: nat, n: nat)
    ensures
        le_bytes(v, n).len() == n,
    decreases n,
{
    if n > 0 {
        lemma_le_bytes_len(v / 256, (n - 1) as nat);
    }
}

pub proof fn lemma_uint_bytes_len(v: nat, n: nat, e: Endianness)
    ensures
        uint_bytes(v, n, e).len() == n,
{
    lemma_le_bytes_len(v, n);
}

/// Reading back the little-endian bytes of a value that fits gives the value.
pub proof fn lemma_le_round_trip(v: nat, n: nat)
    requires
        v < pow256(n),
    ensures
        le_value(le_bytes(v, n)) == v,
    decreases n,
{
    if n > 0 {
        let rest = le_bytes(v / 256, (n - 1) as nat);
        assert(le_bytes(v, n).drop_first() =~= rest);
        lemma_le_round_trip(v / 256, (n - 1) as nat);
    }
}

pub proof fn lemma_reverse_reverse(s: Seq<u8>)
    ensures
        s.reverse().reverse() == s,
{
    assert(s.reverse().reverse() =~= s);
}

/// Reading back the bytes of a value that fits, in either byte order, gives the value.
pub proof fn lemma_uint_round_trip(v: nat, n: nat, e: Endianness)
    requires
        v < pow256(n),
    ensures
        uint_value(uint_bytes(v, n, e), e) == v,
        uint_bytes(v, n, e).len() == n,
{
    lemma_le_round_trip(v, n);
    lemma_le_bytes_len(v, n);
    lemma_reverse_reverse(le_bytes(v, n));
}

/// Unsigned value of `bytes` in byte order `e`; at most 8 bytes.
pub fn uint_from_bytes(bytes: &[u8], e: Endianness) -> (v: u64)
    requires
        bytes@.len() <= 8,
    ensures
        v == uint_value(bytes@, e),
{
    let n = bytes.len();
    let mut v: u64 = 0;
    proof {
        lemma_pow256_values();
    }
    match e {
        Endianness::Little => {
            let mut i: usize = n;
            assert(bytes@.subrange(n as int, n as int) =~= Seq::<u8>::empty());
            while i > 0
                invariant
                    n == bytes@.len(),
                    n <= 8,
                    i <= n,
                    v == le_value(bytes@.subrange(i as int, n as int)),
                decreases i,
            {
                let ghost tail = bytes@.subrange(i as int, n as int);
                proof {
                    lemma_le_value_bound(tail);
                    lemma_pow256_monotone(tail.len(), 7);
                    lemma_pow256_values();
                    assert(bytes@.subrange(i - 1, n as int).drop_first() =~= tail);
                }
                i = i - 1;
                v = (bytes[i] as u64) + 256 * v;
            }
            assert(bytes@.subrange(0, n as int) =~= bytes@);
        },
        Endianness::Big => {
            let mut i: usize = 0;
            assert(bytes@.subrange(0, 0).reverse() =~= Seq::<u8>::empty());
            while i < n
                invariant
                    n == bytes@.len(),
                    n <= 8,
                    i <= n,
                    v == le_value(bytes@.subrange(0, i as int).reverse()),
                decreases n - i,
            {
                let ghost head = bytes@.subrange(0, i as int).reverse();
                proof {
                    lemma_le_value_bound(head);
                    lemma_pow256_monotone(head.len(), 7);
                    lemma_pow256_values();
                    assert(bytes@.subrange(0, i + 1).reverse().drop_first() =~= head);
                }
                v = (bytes[i] as u64) + 256 * v;
                i = i + 1;
            }
            assert(bytes@.subrange(0, n as int) =~= bytes@);
        },
    }
    v
}

/// The `n`-byte representation of `v` in byte order `e`.
pub fn uint_to_bytes(v: u64, n: usize, e: Endianness) -> (out: Vec<u8>)
    requires
        n <= 8,
        v < pow256(n as nat),
    ensures
        out@ == uint_bytes(v as nat, n as nat, e),
        out@.len() == n,
{
    let mut little: Vec<u8> = Vec::new();
    let mut rest: u64 = v;
    let mut i: usize = 0;
    while i < n
        invariant
            i <= n,
            little@ + le_bytes(rest as nat, (n - i) as nat) == le_bytes(v as nat, n as nat),
            little@.len() == i,
        decreases n - i,
    {
        let ghost old_little = little@;
        let ghost old_rest = rest;
        little.push((rest % 256) as u8);
        rest = rest / 256;
        i = i + 1;
        proof {
            assert(le_bytes(old_rest as nat, (n - i + 1) as nat) =~= seq![(old_rest % 256) as u8]
                + le_bytes(rest as nat, (n - i) as nat));
            assert(little@ + le_bytes(rest as nat, (n - i) as nat) =~= old_little + le_bytes(
                old_rest as nat,
                (n - i + 1) as nat,
            ));
        }
    }
    assert(little@ =~= le_bytes(v as nat, n as nat));
    proof {
        lemma_le_bytes_len(v as nat, n as nat);
    }
    match e {
        Endianness::Little => little,
        Endianness::Big => {
            let mut out: Vec<u8> = Vec::new();
            let mut j: usize = n;
            while j > 0
                invariant
                    j <= n,
                    little@.len() == n,
                    out@ == little@.subrange(j as int, n as int).reverse(),
                decreases j,
            {
                let ghost old_out = out@;
                j = j - 1;
                out.push(little[j]);
                proof {
                    assert(out@ =~= little@.subrange(j as int, n as int).reverse());
                }
            }
            assert(little@.subrange(0, n as int) =~= little@);
            out
        },
    }
}

} // verus!
