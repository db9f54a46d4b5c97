//! The varint format: an unsigned integer written seven bits per byte, low
//! group first, with the high bit of a byte set when more bytes follow.
use vstd::prelude::*;

verus! {

/// The varint of `v`.
pub open spec fn varint(v: nat) -> Seq<u8>
    decreases v,
{
    if v < 128 {
        seq![v as u8]
    } else {
        seq![(v % 128 + 128) as u8] + varint(v / 128)
    }
}

/// Reads the varint at the start of `s` within its first `groups` bytes:
/// `Some((value, bytes read))`, or `None` where `s` ends, or `groups` bytes
/// go by, before a byte with the high bit clear.
pub open spec fn read_varint(s: Seq<u8>, groups: nat) -> Option<(nat, nat)>
    decreases groups,
{
    if s.len() == 0 || groups == 0 {
        None
    } else if s[0] < 128 {
        Some((s[0] as nat, 1))
    } else {
        match read_varint(s.drop_first(), (groups - 1) as nat) {
            Some((v, n)) => Some((((s[0] - 128) + 128 * v) as nat, n + 1)),
            None => None,
        }
    }
}

/// The varint that the decoder reads at the start of `s`: it takes at most
/// nine groups, so at most 63 bits.
pub open spec fn varint_prefix(s: Seq<u8>) -> Option<(nat, nat)> {
    read_varint(s, 9)
}

/// `128` to the power `k`.
pub open spec fn pow128(k: nat) -> nat
    decreases k,
{
    if k == 0 {
        1
    } else {
        128 * pow128((k - 1) as nat)
    }
}

/// Powers of 128 grow with the exponent.
pub proof fn lemma_pow128_monotonic(a: nat, b: nat)
    requires
        a <= b,
    ensures
        1 <= pow128(a) <= pow128(b),
    decreases b,
{
    if b > a {
        lemma_pow128_monotonic(a, (b - 1) as nat);
    } else if a > 0 {
        lemma_pow128_monotonic((a - 1) as nat, (a - 1) as nat);
    }
}

/// Nine groups of seven bits hold 63 bits.
pub proof fn lemma_pow128_nine()
    ensures
        pow128(9) == 0x8000_0000_0000_0000,
{
    reveal_with_fuel(pow128, 10);
}

/// A value below `128^k` takes at most `k` bytes.
pub proof fn lemma_varint_len(v: nat, k: nat)
    requires
        1 <= k,
        v < pow128(k),
    ensures
        1 <= varint(v).len() <= k,
    decreases v,
{
    if v >= 128 {
        assert(k >= 2) by {
            if k == 1 {
                assert(pow128(1) == 128 * pow128(0));
            }
        }
        assert(v / 128 < pow128((k - 1) as nat)) by (nonlinear_arith)
            requires
                v < 128 * pow128((k - 1) as nat),
        ;
        lemma_varint_len(v / 128, (k - 1) as nat);
    }
}

/// A value below `2^32` takes at most five bytes.
pub proof fn lemma_varint_len_u32(v: nat)
    requires
        v < 0x1_0000_0000,
    ensures
        1 <= varint(v).len() <= 5,
{
    reveal_with_fuel(pow128, 6);
    lemma_varint_len(v, 5);
}

/// Reading a varint back, whatever follows it, gives the value and the
/// number of its bytes.
pub proof fn lemma_read_varint(v: nat, rest: Seq<u8>, groups: nat)
    requires
        varint(v).len() <= groups,
    ensures
        read_varint(varint(v) + rest, groups) == Some((v, varint(v).len())),
    decreases v,
{
    let s = varint(v) + rest;
    if v >= 128 {
        let b = (v % 128 + 128) as u8;
        assert(s.drop_first() =~= varint(v / 128) + rest);
        lemma_read_varint(v / 128, rest, (groups - 1) as nat);
        assert(s[0] == b);
    } else {
        assert(s[0] == v as u8);
    }
}

/// What `varint_prefix` reads where the varint stands in a buffer with
/// bytes before it.
pub proof fn lemma_varint_prefix_at(before: Seq<u8>, v: nat, rest: Seq<u8>)
    requires
        v < 0x1_0000_0000,
    ensures
        varint_prefix((before + varint(v) + rest).skip(before.len() as int)) == Some(
            (v, varint(v).len()),
        ),
{
    lemma_varint_len_u32(v);
    assert((before + varint(v) + rest).skip(before.len() as int) =~= varint(v) + rest);
    lemma_read_varint(v, rest, 9);
}

} // verus!
