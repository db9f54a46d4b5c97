//! The interface of an entropy coder based on asymmetric numeral systems
//! (ANS), for a bits-back set coder to come.
//!
//! The state-transition arithmetic of the coder is still open. These types
//! hold a 64-bit state and fix the calls: the encoder adds each symbol's
//! cumulative frequency and frequency to its state and writes the state out
//! as eight little-endian bytes; the decoder reads those bytes back and hands
//! out the state sixteen bits at a time.
use vstd::prelude::*;
use vstd::arithmetic::div_mod::lemma_breakdown;
use crate::error::CompressionError;

verus! {

/// `256` to the power `k`.
pub open spec fn pow256(k: nat) -> nat
    decreases k,
{
    if k == 0 {
        1
    } else {
        256 * pow256((k - 1) as nat)
    }
}

/// The value of the bytes `s`, least significant first.
pub open spec fn le_value(s: Seq<u8>) -> nat
    decreases s.len(),
{
    if s.len() == 0 {
        0
    } else {
        (s[0] + 256 * le_value(s.drop_first())) as nat
    }
}

/// The `n` low bytes of `x`, least significant first.
pub open spec fn le_bytes(x: nat, n: nat) -> Seq<u8>
    decreases n,
{
    if n == 0 {
        seq![]
    } else {
        seq![(x % 256) as u8] + le_bytes(x / 256, (n - 1) as nat)
    }
}

/// Powers of 256 grow with the exponent.
proof fn lemma_pow256_monotonic(a: nat, b: nat)
    requires
        a <= b,
    ensures
        1 <= pow256(a) <= pow256(b),
    decreases b,
{
    if b > a {
        lemma_pow256_monotonic(a, (b - 1) as nat);
    } else if a > 0 {
        lemma_pow256_monotonic((a - 1) as nat, (a - 1) as nat);
    }
}

/// Reading back the `n` low bytes of `x` gives `x` modulo `256^n`.
proof fn lemma_le_value_of_bytes(x: nat, n: nat)
    ensures
        le_bytes(x, n).len() == n,
        le_value(le_bytes(x, n)) == x % pow256(n),
    decreases n,
{
    if n > 0 {
        let rest = le_bytes(x / 256, (n - 1) as nat);
        lemma_le_value_of_bytes(x / 256, (n - 1) as nat);
        assert(le_bytes(x, n).drop_first() =~= rest);
        lemma_pow256_monotonic(0, (n - 1) as nat);
        lemma_breakdown(x as int, 256, pow256((n - 1) as nat) as int);
    }
}

/// A decoder made from the bytes that an encoder finished with starts at the
/// encoder's state.
pub proof fn lemma_decoder_starts_at_encoder_state(state: u64)
    ensures
        le_bytes(state as nat, 8).len() == 8,
        le_value(le_bytes(state as nat, 8).subrange(0, 8)) == state,
{
    lemma_le_value_of_bytes(state as nat, 8);
    reveal_with_fuel(pow256, 9);
    assert(pow256(8) == 0x1_0000_0000_0000_0000);
    assert(state as nat % pow256(8) == state);
    assert(le_bytes(state as nat, 8).subrange(0, 8) =~= le_bytes(state as nat, 8));
}

/// The encoding side of the coder.
pub struct AnsEncoder {
    state: u64,
    precision: u32,
}

impl AnsEncoder {
    /// The coder state.
    pub closed spec fn state(&self) -> u64 {
        self.state
    }

    /// The quantization precision that the encoder was made with.
    pub closed spec fn precision(&self) -> u32 {
        self.precision
    }

    /// An encoder whose state starts at `precision`.
    pub fn new(precision: u32) -> (r: Self)
        ensures
            r.state() == precision,
            r.precision() == precision,
    {
        AnsEncoder { state: precision as u64, precision }
    }

    /// Takes in a symbol with cumulative frequency `cum_freq` and frequency
    /// `freq`: both are added to the state, modulo `2^64`.
    pub fn encode(&mut self, cum_freq: u32, freq: u32, _total: u32) -> (r: Result<
        (),
        CompressionError,
    >)
        ensures
            r is Ok,
            final(self).state() == (old(self).state() + cum_freq + freq) % 0x1_0000_0000_0000_0000,
            final(self).precision() == old(self).precision(),
    {
        self.state = self.state.wrapping_add(cum_freq as u64 + freq as u64);
        Ok(())
    }

    /// The state as eight bytes, least significant first.
    pub fn finish(self) -> (r: Vec<u8>)
        ensures
            r@ == le_bytes(self.state() as nat, 8),
    {
        let mut out: Vec<u8> = Vec::new();
        let mut rest: u64 = self.state;
        let mut i: usize = 0;
        while i < 8
            invariant
                i <= 8,
                out@ + le_bytes(rest as nat, (8 - i) as nat) == le_bytes(self.state as nat, 8),
            decreases 8 - i,
        {
            let ghost before = out@;
            out.push((rest % 256) as u8);
            assert(out@ + le_bytes((rest / 256) as nat, (8 - i - 1) as nat) =~= before + le_bytes(
                rest as nat,
                (8 - i) as nat,
            ));
            rest = rest / 256;
            i = i + 1;
        }
        assert(out@ + Seq::<u8>::empty() =~= out@);
        out
    }
}

/// The decoding side of the coder.
pub struct AnsDecoder {
    state: u64,
    precision: u32,
}

impl AnsDecoder {
    /// The coder state.
    pub closed spec fn state(&self) -> u64 {
        self.state
    }

    /// The quantization precision that the decoder was made with.
    pub closed spec fn precision(&self) -> u32 {
        self.precision
    }

    /// A decoder whose state is read from the first eight bytes of `data`,
    /// least significant first; fewer than eight bytes are an error.
    pub fn new(data: &[u8], precision: u32) -> (r: Result<Self, CompressionError>)
        ensures
            r is Ok <==> data@.len() >= 8,
            r is Ok ==> r->Ok_0.state() == le_value(data@.subrange(0, 8)),
            r is Ok ==> r->Ok_0.precision() == precision,
            r is Err ==> r->Err_0 is DecompressionFailed,
    {
        if data.len() < 8 {
            return Err(CompressionError::malformed("ANS data too short"));
        }
        let mut state: u64 = 0;
        let mut i: usize = 8;
        assert(data@.subrange(8, 8) =~= Seq::<u8>::empty());
        while i > 0
            invariant
                i <= 8 <= data@.len(),
                state == le_value(data@.subrange(i as int, 8)),
                state < pow256((8 - i) as nat),
            decreases i,
        {
            proof {
                lemma_pow256_monotonic((9 - i) as nat, 8);
                reveal_with_fuel(pow256, 9);
                let bound = pow256((8 - i) as nat);
                assert(pow256((9 - i) as nat) == 256 * bound);
                assert(state * 256 + data@[i - 1] < 256 * bound) by (nonlinear_arith)
                    requires
                        state < bound,
                        data@[i - 1] < 256,
                ;
                assert(data@.subrange(i - 1, 8).drop_first() =~= data@.subrange(i as int, 8));
            }
            state = state * 256 + data[i - 1] as u64;
            i = i - 1;
        }
        Ok(AnsDecoder { state, precision })
    }

    /// Hands out the low sixteen bits of the state as the symbol, with
    /// cumulative frequency `0` and frequency `1`, and shifts them out of the
    /// state.
    pub fn decode(&mut self, _total: u32) -> (r: Result<(u32, u32, u32), CompressionError>)
        ensures
            r == Ok::<(u32, u32, u32), CompressionError>(
                ((old(self).state() % 0x10000) as u32, 0u32, 1u32),
            ),
            final(self).state() == old(self).state() / 0x10000,
            final(self).precision() == old(self).precision(),
    {
        let symbol = (self.state % 0x10000) as u32;
        self.state = self.state / 0x10000;
        Ok((symbol, 0, 1))
    }
}

} // verus!
