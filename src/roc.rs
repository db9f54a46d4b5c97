//! The set compressor: validation, the gap transform and the varint codec.
use vstd::prelude::*;
use crate::encoding::{
    decode_gaps, decode_set, gap_bytes, is_id_set, last_or, lemma_decoded_is_id_set,
    lemma_gap_bytes_push, lemma_id_set_len, set_encoding, strictly_increasing,
};
use crate::error::CompressionError;
use crate::varint::{
    lemma_pow128_monotonic, lemma_pow128_nine, pow128, read_varint, varint, varint_prefix,
};

verus! {

/// The ANS quantization precision of a compressor made by `new`.
pub const DEFAULT_ANS_PRECISION: u32 = 4096;

/// Compresses sets of identifiers as a count, the first identifier and the
/// gaps between successive identifiers, each as a varint.
///
/// The compressor holds no state between calls. Its one setting, an ANS
/// quantization precision, is kept for an entropy-coding backend and is not
/// used by the gap encoding.
pub struct RocCompressor {
    ans_precision: u32,
}

impl RocCompressor {
    /// The ANS quantization precision that the compressor was made with.
    pub closed spec fn precision(&self) -> u32 {
        self.ans_precision
    }

    /// A compressor with the default precision.
    pub fn new() -> (r: Self)
        ensures
            r.precision() == DEFAULT_ANS_PRECISION,
    {
        RocCompressor { ans_precision: DEFAULT_ANS_PRECISION }
    }

    /// A compressor with the given ANS precision (meant to be a power of two).
    pub fn with_precision(precision: u32) -> (r: Self)
        ensures
            r.precision() == precision,
    {
        RocCompressor { ans_precision: precision }
    }

    /// Checks that `ids` is strictly increasing, which rules out both
    /// disorder and duplicates.
    pub fn validate_ids(ids: &[u32]) -> (r: Result<(), CompressionError>)
        ensures
            r is Ok <==> strictly_increasing(ids@),
            r is Err ==> r->Err_0 is InvalidInput,
    {
        if ids.len() == 0 {
            return Ok(());
        }
        let mut i: usize = 1;
        while i < ids.len()
            invariant
                1 <= i <= ids@.len(),
                forall|a: int, b: int| 0 <= a < b < i ==> #[trigger] ids@[a] < #[trigger] ids@[b],
            decreases ids@.len() - i,
        {
            if ids[i] <= ids[i - 1] {
                assert(!(ids@[i - 1] < ids@[i as int]));
                return Err(CompressionError::out_of_order(ids[i], ids[i - 1]));
            }
            assert forall|a: int, b: int| 0 <= a < b < i + 1 implies #[trigger] ids@[a]
                < #[trigger] ids@[b] by {
                if b == i && a < i - 1 {
                    assert(ids@[a] < ids@[i - 1]);
                }
            }
            i = i + 1;
        }
        Ok(())
    }

    /// Appends the varint of `value` to `buf`.
    pub fn encode_varint(value: u64, buf: &mut Vec<u8>)
        ensures
            final(buf)@ == old(buf)@ + varint(value as nat),
    {
        let mut val = value;
        while val >= 128
            invariant
                buf@ + varint(val as nat) == old(buf)@ + varint(value as nat),
            decreases val,
        {
            let ghost before = buf@;
            buf.push(((val % 128) + 128) as u8);
            assert(buf@ + varint((val / 128) as nat) =~= before + varint(val as nat));
            val = val / 128;
        }
        let ghost before = buf@;
        buf.push(val as u8);
        assert(buf@ =~= before + varint(val as nat));
    }

    /// Compresses the identifiers `ids` of the universe `[0, universe_size)`.
    /// The empty list gives no bytes. Otherwise `ids` must be strictly
    /// increasing and every identifier below `universe_size`; the bytes are
    /// the varints of the count, of the first identifier and of each gap.
    pub fn compress_set(&self, ids: &[u32], universe_size: u32) -> (r: Result<
        Vec<u8>,
        CompressionError,
    >)
        ensures
            r is Ok <==> is_id_set(ids@, universe_size),
            r is Ok ==> r->Ok_0@ == set_encoding(ids@),
            r is Err ==> r->Err_0 is InvalidInput,
    {
        match Self::validate_ids(ids) {
            Ok(()) => {},
            Err(e) => return Err(e),
        }
        if ids.len() == 0 {
            let empty: Vec<u8> = Vec::new();
            assert(empty@ =~= set_encoding(ids@));
            return Ok(empty);
        }
        let max_id = ids[ids.len() - 1];
        if max_id >= universe_size {
            return Err(CompressionError::id_outside_universe(max_id, universe_size));
        }
        assert forall|i: int| 0 <= i < ids@.len() implies #[trigger] ids@[i] < universe_size by {
            if i < ids@.len() - 1 {
                assert(ids@[i] < ids@[ids@.len() - 1]);
            }
        }
        proof {
            lemma_id_set_len(ids@, universe_size);
        }
        let mut encoded: Vec<u8> = Vec::new();
        Self::encode_varint(ids.len() as u64, &mut encoded);
        Self::encode_varint(ids[0] as u64, &mut encoded);
        let ghost head = encoded@;
        assert(encoded@ + gap_bytes(ids@[0], ids@.subrange(1, 1)) =~= head);
        let mut i: usize = 1;
        while i < ids.len()
            invariant
                1 <= i <= ids@.len(),
                strictly_increasing(ids@),
                head == varint(ids@.len()) + varint(ids@[0] as nat),
                encoded@ == head + gap_bytes(ids@[0], ids@.subrange(1, i as int)),
            decreases ids@.len() - i,
        {
            assert(ids@[i - 1] < ids@[i as int]);
            let delta = ids[i] - ids[i - 1];
            Self::encode_varint(delta as u64, &mut encoded);
            proof {
                let done = ids@.subrange(1, i as int);
                lemma_gap_bytes_push(ids@[0], done, ids@[i as int]);
                assert(done.push(ids@[i as int]) =~= ids@.subrange(1, i + 1));
                assert(last_or(ids@[0], done) == ids@[i - 1]);
            }
            i = i + 1;
        }
        assert(ids@.subrange(1, ids@.len() as int) =~= ids@.drop_first());
        Ok(encoded)
    }

    /// Estimated size in bytes of a compressed set of `num_ids` identifiers
    /// of the universe `[0, universe_size)`. `bound_bytes` is the
    /// information-theoretic bound `num_ids * log2(universe_size / num_ids)`
    /// in whole bytes; to it come one and a half bytes per identifier for the
    /// varints. There is no estimate (zero) for no identifiers, or for more
    /// identifiers than the universe holds; where they fill the universe the
    /// bound is zero.
    pub fn estimate_size(&self, num_ids: usize, universe_size: u32, bound_bytes: usize) -> (r:
        usize)
        requires
            num_ids <= universe_size ==> bound_bytes + num_ids + num_ids / 2 <= usize::MAX,
        ensures
            r == if num_ids == 0 || num_ids > universe_size {
                0
            } else if num_ids == universe_size {
                num_ids + num_ids / 2
            } else {
                bound_bytes + num_ids + num_ids / 2
            },
            num_ids == 0 || num_ids > universe_size ==> r == 0,
            0 < num_ids <= universe_size ==> r > 0,
    {
        if num_ids == 0 || num_ids as u64 > universe_size as u64 {
            return 0;
        }
        let overhead = num_ids + num_ids / 2;
        if num_ids as u64 == universe_size as u64 {
            overhead
        } else {
            bound_bytes + overhead
        }
    }

    /// Decompresses `compressed` into the identifiers it lists, in the
    /// universe `[0, universe_size)`. No bytes give the empty set. Otherwise
    /// the bytes must hold a count of at least one, the first identifier and
    /// `count - 1` non-zero gaps, every identifier must stay below
    /// `universe_size`, and no bytes may follow.
    pub fn decompress_set(&self, compressed: &[u8], universe_size: u32) -> (r: Result<
        Vec<u32>,
        CompressionError,
    >)
        ensures
            r is Ok <==> decode_set(compressed@, universe_size) is Some,
            r is Ok ==> decode_set(compressed@, universe_size) == Some(r->Ok_0@),
            r is Ok ==> is_id_set(r->Ok_0@, universe_size),
            r is Err ==> r->Err_0 is DecompressionFailed,
    {
        let ghost s = compressed@;
        reveal(decode_set);
        if compressed.len() == 0 {
            let empty: Vec<u32> = Vec::new();
            assert(empty@ =~= Seq::<u32>::empty());
            return Ok(empty);
        }
        let mut offset: usize = 0;
        assert(s.skip(0) =~= s);
        let (num_ids, consumed) = match Self::decode_varint(compressed, offset) {
            Ok(read) => read,
            Err(e) => return Err(e),
        };
        offset = offset + consumed;
        if num_ids == 0 {
            return Err(CompressionError::malformed("A non-empty payload must hold at least one ID"));
        }
        let (first_id, consumed) = match Self::decode_varint(compressed, offset) {
            Ok(read) => read,
            Err(e) => return Err(e),
        };
        proof {
            assert(s.skip(offset as int).skip(consumed as int) =~= s.skip(offset + consumed));
        }
        offset = offset + consumed;
        if first_id >= universe_size as u64 {
            return Err(CompressionError::decoded_outside_universe(first_id, universe_size));
        }
        let ghost decoded = decode_set(s, universe_size);
        let mut ids: Vec<u32> = Vec::new();
        ids.push(first_id as u32);
        let mut last: u32 = first_id as u32;
        let mut i: u64 = 1;
        while i < num_ids
            invariant
                s == compressed@,
                decoded == decode_set(s, universe_size),
                1 <= i <= num_ids,
                offset <= s.len() <= usize::MAX,
                ids@.len() > 0,
                last == ids@.last(),
                last < universe_size,
                decoded == match decode_gaps(
                    s.skip(offset as int),
                    last,
                    (num_ids - i) as nat,
                    universe_size,
                ) {
                    Some(rest) => Some(ids@ + rest),
                    None => None,
                },
            decreases num_ids - i,
        {
            let (delta, consumed) = match Self::decode_varint(compressed, offset) {
                Ok(read) => read,
                Err(e) => return Err(e),
            };
            if delta == 0 {
                return Err(CompressionError::malformed("Zero gap between IDs"));
            }
            if delta >= (universe_size - last) as u64 {
                return Err(
                    CompressionError::decoded_outside_universe(last as u64 + delta, universe_size),
                );
            }
            let next = last + delta as u32;
            let ghost before = ids@;
            ids.push(next);
            proof {
                assert(s.skip(offset as int).skip(consumed as int) =~= s.skip(offset + consumed));
                if let Some(rest) = decode_gaps(
                    s.skip(offset + consumed),
                    next,
                    (num_ids - i - 1) as nat,
                    universe_size,
                ) {
                    assert(before + (seq![next] + rest) =~= ids@ + rest);
                }
            }
            offset = offset + consumed;
            last = next;
            i = i + 1;
        }
        if offset < compressed.len() {
            return Err(CompressionError::trailing_bytes(compressed.len() - offset));
        }
        proof {
            assert(ids@ + Seq::<u32>::empty() =~= ids@);
            lemma_decoded_is_id_set(s, universe_size);
        }
        Ok(ids)
    }

    /// Reads the varint that starts at `offset` in `buf`: its value and the
    /// number of its bytes. It fails where the bytes end, or nine bytes go
    /// by, before a byte with the high bit clear.
    pub fn decode_varint(buf: &[u8], offset: usize) -> (r: Result<(u64, usize), CompressionError>)
        requires
            offset <= buf@.len(),
        ensures
            r is Ok <==> varint_prefix(buf@.skip(offset as int)) is Some,
            r is Ok ==> varint_prefix(buf@.skip(offset as int)) == Some(
                (r->Ok_0.0 as nat, r->Ok_0.1 as nat),
            ),
            r is Ok ==> r->Ok_0.0 < 0x8000_0000_0000_0000,
            r is Ok ==> 1 <= r->Ok_0.1 && offset + r->Ok_0.1 <= buf@.len(),
            r is Err ==> r->Err_0 is DecompressionFailed,
    {
        let mut value: u64 = 0;
        let mut shift: u32 = 0;
        let mut scale: u64 = 1;
        let mut pos: usize = offset;
        loop
            invariant
                offset <= pos <= buf@.len(),
                pos - offset <= 9,
                shift == 7 * (pos - offset),
                scale == pow128((pos - offset) as nat),
                value < scale,
                varint_prefix(buf@.skip(offset as int)) == match read_varint(
                    buf@.skip(pos as int),
                    (9 - (pos - offset)) as nat,
                ) {
                    Some((v, n)) => Some(((value + scale * v) as nat, ((pos - offset) + n) as nat)),
                    None => None,
                },
            decreases buf@.len() - pos,
        {
            if pos >= buf.len() {
                return Err(CompressionError::malformed("Unexpected end of compressed data"));
            }
            if shift > 56 {
                return Err(CompressionError::malformed("Varint encoding too large"));
            }
            let byte = buf[pos];
            let ghost k = (pos - offset) as nat;
            let ghost old_value = value;
            proof {
                let t = buf@.skip(pos as int);
                assert(t[0] == byte);
                assert(t.drop_first() =~= buf@.skip(pos + 1));
                if byte < 128 {
                    assert(read_varint(t, (9 - k) as nat) == Some((byte as nat, 1nat)));
                    assert(byte % 128 == byte);
                    assert(scale * byte == byte * scale) by (nonlinear_arith);
                }
                lemma_pow128_monotonic(k + 1, 9);
                lemma_pow128_nine();
                assert(pow128(k + 1) == 128 * scale);
                assert(value + (byte % 128) * scale < 128 * scale) by (nonlinear_arith)
                    requires
                        value < scale,
                        byte % 128 < 128,
                ;
            }
            value = value + (byte % 128) as u64 * scale;
            pos = pos + 1;
            if byte < 128 {
                return Ok((value, pos - offset));
            }
            proof {
                assert(byte % 128 == byte - 128);
                if let Some((v, n)) = read_varint(buf@.skip(pos as int), (9 - k - 1) as nat) {
                    assert(old_value + scale * ((byte - 128) + 128 * v) == value + (128 * scale)
                        * v) by (nonlinear_arith)
                        requires
                            value == old_value + (byte - 128) * scale,
                    ;
                }
            }
            shift = shift + 7;
            scale = scale * 128;
        }
    }
}

impl Default for RocCompressor {
    fn default() -> (r: Self)
        ensures
            r.precision() == DEFAULT_ANS_PRECISION,
    {
        Self::new()
    }
}

} // verus!
