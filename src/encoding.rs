//! The compressed form of an identifier set, and what decoding it yields.
//!
//! ```text
//! empty set     := <no bytes>
//! non-empty set := varint(count) varint(first) varint(gap_1) ... varint(gap_{count-1})
//! ```
use vstd::prelude::*;
use crate::varint::{lemma_read_varint, lemma_varint_len_u32, read_varint, varint, varint_prefix};

verus! {

/// Every identifier is below the one after it.
pub open spec fn strictly_increasing(ids: Seq<u32>) -> bool {
    forall|i: int, j: int| 0 <= i < j < ids.len() ==> #[trigger] ids[i] < #[trigger] ids[j]
}

/// Every identifier is below `universe_size`.
pub open spec fn in_universe(ids: Seq<u32>, universe_size: u32) -> bool {
    forall|i: int| 0 <= i < ids.len() ==> #[trigger] ids[i] < universe_size
}

/// `ids` is a set of identifiers of the universe `[0, universe_size)`, listed
/// in increasing order.
pub open spec fn is_id_set(ids: Seq<u32>, universe_size: u32) -> bool {
    strictly_increasing(ids) && in_universe(ids, universe_size)
}

/// The varints of the gaps along `rest`, the first gap taken from `prev`.
pub open spec fn gap_bytes(prev: u32, rest: Seq<u32>) -> Seq<u8>
    decreases rest.len(),
{
    if rest.len() == 0 {
        seq![]
    } else {
        varint((rest[0] - prev) as nat) + gap_bytes(rest[0], rest.drop_first())
    }
}

/// The compressed form of the identifier list `ids`.
pub open spec fn set_encoding(ids: Seq<u32>) -> Seq<u8> {
    if ids.len() == 0 {
        seq![]
    } else {
        varint(ids.len()) + varint(ids[0] as nat) + gap_bytes(ids[0], ids.drop_first())
    }
}

/// Decodes `remaining` gaps from `s`, starting after the identifier `prev`,
/// and then asks that `s` be used up. A gap of zero, or an identifier that
/// reaches `universe_size`, makes it fail.
pub open spec fn decode_gaps(s: Seq<u8>, prev: u32, remaining: nat, universe_size: u32) -> Option<
    Seq<u32>,
>
    decreases remaining,
{
    if remaining == 0 {
        if s.len() == 0 {
            Some(seq![])
        } else {
            None
        }
    } else {
        match varint_prefix(s) {
            None => None,
            Some((gap, n)) => if gap == 0 || prev + gap >= universe_size {
                None
            } else {
                match decode_gaps(
                    s.skip(n as int),
                    (prev + gap) as u32,
                    (remaining - 1) as nat,
                    universe_size,
                ) {
                    Some(rest) => Some(seq![(prev + gap) as u32] + rest),
                    None => None,
                }
            },
        }
    }
}

/// What the bytes `s` decode to in the universe `[0, universe_size)`, or
/// `None` where they are not a valid compressed set.
#[verifier::opaque]
pub open spec fn decode_set(s: Seq<u8>, universe_size: u32) -> Option<Seq<u32>> {
    if s.len() == 0 {
        Some(seq![])
    } else {
        match varint_prefix(s) {
            None => None,
            Some((count, n)) => if count == 0 {
                None
            } else {
                let t = s.skip(n as int);
                match varint_prefix(t) {
                    None => None,
                    Some((first, m)) => if first >= universe_size {
                        None
                    } else {
                        match decode_gaps(
                            t.skip(m as int),
                            first as u32,
                            (count - 1) as nat,
                            universe_size,
                        ) {
                            Some(rest) => Some(seq![first as u32] + rest),
                            None => None,
                        }
                    },
                }
            },
        }
    }
}

/// The identifier before position `len` of a list that starts after `prev`.
pub open spec fn last_or(prev: u32, s: Seq<u32>) -> u32 {
    if s.len() == 0 {
        prev
    } else {
        s.last()
    }
}

/// Adding an identifier at the end adds the varint of its gap at the end.
pub proof fn lemma_gap_bytes_push(prev: u32, s: Seq<u32>, x: u32)
    ensures
        gap_bytes(prev, s.push(x)) == gap_bytes(prev, s) + varint((x - last_or(prev, s)) as nat),
    decreases s.len(),
{
    if s.len() == 0 {
        assert(s.push(x).drop_first() =~= seq![]);
        assert(gap_bytes(x, seq![]) == Seq::<u8>::empty());
        assert(gap_bytes(prev, s.push(x)) =~= varint((x - prev) as nat));
    } else {
        assert(s.push(x).drop_first() =~= s.drop_first().push(x));
        lemma_gap_bytes_push(s[0], s.drop_first(), x);
        assert(last_or(s[0], s.drop_first()) == s.last());
        assert(gap_bytes(prev, s.push(x)) =~= gap_bytes(prev, s) + varint(
            (x - last_or(prev, s)) as nat,
        ));
    }
}

/// In an increasing list the identifier at position `k` is at least `k`.
pub proof fn lemma_id_at_least_index(ids: Seq<u32>, k: int)
    requires
        strictly_increasing(ids),
        0 <= k < ids.len(),
    ensures
        ids[k] >= k,
    decreases k,
{
    if k > 0 {
        lemma_id_at_least_index(ids, k - 1);
        assert(ids[k - 1] < ids[k]);
    }
}

/// A set of the universe `[0, universe_size)` has at most `universe_size`
/// members.
pub proof fn lemma_id_set_len(ids: Seq<u32>, universe_size: u32)
    requires
        is_id_set(ids, universe_size),
    ensures
        ids.len() <= universe_size,
{
    if ids.len() > 0 {
        lemma_id_at_least_index(ids, ids.len() - 1);
        assert(ids[ids.len() - 1] < universe_size);
    }
}

/// The gap bytes of an increasing run decode back to the run, and only where
/// no bytes follow them.
pub proof fn lemma_decode_gaps(prev: u32, rest: Seq<u32>, tail: Seq<u8>, universe_size: u32)
    requires
        strictly_increasing(rest),
        forall|i: int| 0 <= i < rest.len() ==> prev < #[trigger] rest[i] < universe_size,
    ensures
        decode_gaps(gap_bytes(prev, rest) + tail, prev, rest.len(), universe_size) == if tail.len()
            == 0 {
            Some(rest)
        } else {
            None
        },
    decreases rest.len(),
{
    let s = gap_bytes(prev, rest) + tail;
    if rest.len() == 0 {
        assert(s =~= tail);
        assert(rest =~= seq![]);
    } else {
        let x = rest[0];
        let gap = (x - prev) as nat;
        let more = rest.drop_first();
        let after = gap_bytes(x, more) + tail;
        lemma_varint_len_u32(gap);
        lemma_read_varint(gap, after, 9);
        assert(s =~= varint(gap) + after);
        assert(s.skip(varint(gap).len() as int) =~= after);
        assert forall|i: int| 0 <= i < more.len() implies x < #[trigger] more[i] < universe_size by {
            assert(rest[0] < rest[i + 1]);
            assert(rest[i + 1] < universe_size);
        }
        lemma_decode_gaps(x, more, tail, universe_size);
        assert(seq![x] + more =~= rest);
    }
}

/// The compressed form of a non-empty set decodes back to the set, and only
/// where no bytes follow it.
pub proof fn lemma_decode_encoding(ids: Seq<u32>, tail: Seq<u8>, universe_size: u32)
    requires
        is_id_set(ids, universe_size),
        ids.len() > 0,
    ensures
        decode_set(set_encoding(ids) + tail, universe_size) == if tail.len() == 0 {
            Some(ids)
        } else {
            None
        },
{
    reveal(decode_set);
    lemma_id_set_len(ids, universe_size);
    let first = ids[0];
    let more = ids.drop_first();
    let gaps = gap_bytes(first, more) + tail;
    let s = set_encoding(ids) + tail;
    lemma_varint_len_u32(ids.len());
    lemma_varint_len_u32(first as nat);
    lemma_read_varint(ids.len(), varint(first as nat) + gaps, 9);
    assert(s =~= varint(ids.len()) + (varint(first as nat) + gaps));
    let t = s.skip(varint(ids.len()).len() as int);
    assert(t =~= varint(first as nat) + gaps);
    lemma_read_varint(first as nat, gaps, 9);
    assert(t.skip(varint(first as nat).len() as int) =~= gaps);
    assert forall|i: int| 0 <= i < more.len() implies first < #[trigger] more[i] < universe_size by {
        assert(ids[0] < ids[i + 1]);
        assert(ids[i + 1] < universe_size);
    }
    lemma_decode_gaps(first, more, tail, universe_size);
    assert(seq![first] + more =~= ids);
}

/// What the gap decoder yields increases from `prev` and stays below
/// `universe_size`.
pub proof fn lemma_decoded_gaps_increase(s: Seq<u8>, prev: u32, remaining: nat, universe_size: u32)
    requires
        decode_gaps(s, prev, remaining, universe_size) is Some,
    ensures
        ({
            let rest = decode_gaps(s, prev, remaining, universe_size)->Some_0;
            &&& strictly_increasing(rest)
            &&& forall|i: int| 0 <= i < rest.len() ==> prev < #[trigger] rest[i] < universe_size
        }),
    decreases remaining,
{
    if remaining > 0 {
        let (gap, n) = varint_prefix(s)->Some_0;
        let next = (prev + gap) as u32;
        lemma_decoded_gaps_increase(s.skip(n as int), next, (remaining - 1) as nat, universe_size);
        let more = decode_gaps(s.skip(n as int), next, (remaining - 1) as nat, universe_size)->Some_0;
        let rest = seq![next] + more;
        assert(decode_gaps(s, prev, remaining, universe_size)->Some_0 == rest);
        assert forall|i: int, j: int| 0 <= i < j < rest.len() implies #[trigger] rest[i]
            < #[trigger] rest[j] by {
            if i > 0 {
                assert(more[i - 1] < more[j - 1]);
            } else {
                assert(next < more[j - 1]);
            }
        }
        assert forall|i: int| 0 <= i < rest.len() implies prev < #[trigger] rest[i]
            < universe_size by {
            if i > 0 {
                assert(next < more[i - 1] < universe_size);
            }
        }
    }
}

/// Whatever the decoder yields is a set of the universe, in increasing order.
pub proof fn lemma_decoded_is_id_set(s: Seq<u8>, universe_size: u32)
    requires
        decode_set(s, universe_size) is Some,
    ensures
        is_id_set(decode_set(s, universe_size)->Some_0, universe_size),
{
    reveal(decode_set);
    if s.len() > 0 {
        let (count, n) = varint_prefix(s)->Some_0;
        let t = s.skip(n as int);
        let (first, m) = varint_prefix(t)->Some_0;
        let u = t.skip(m as int);
        lemma_decoded_gaps_increase(u, first as u32, (count - 1) as nat, universe_size);
        let more = decode_gaps(u, first as u32, (count - 1) as nat, universe_size)->Some_0;
        let ids = seq![first as u32] + more;
        assert(decode_set(s, universe_size)->Some_0 == ids);
        assert forall|i: int, j: int| 0 <= i < j < ids.len() implies #[trigger] ids[i]
            < #[trigger] ids[j] by {
            if i > 0 {
                assert(more[i - 1] < more[j - 1]);
            } else {
                assert(first < more[j - 1]);
            }
        }
        assert forall|i: int| 0 <= i < ids.len() implies #[trigger] ids[i] < universe_size by {
            if i > 0 {
                assert(more[i - 1] < universe_size);
            }
        }
    }
}

/// Round trip: the compressed form of a set decodes back to the same set.
pub proof fn lemma_round_trip(ids: Seq<u32>, universe_size: u32)
    requires
        is_id_set(ids, universe_size),
    ensures
        decode_set(set_encoding(ids), universe_size) == Some(ids),
{
    reveal(decode_set);
    if ids.len() > 0 {
        lemma_decode_encoding(ids, seq![], universe_size);
        assert(set_encoding(ids) + seq![] =~= set_encoding(ids));
    } else {
        assert(ids =~= seq![]);
    }
}

/// The empty set compresses to no bytes, and no bytes decode to the empty
/// set, whatever the universe.
pub proof fn lemma_empty_set(universe_size: u32)
    ensures
        is_id_set(seq![], universe_size),
        set_encoding(seq![]) == Seq::<u8>::empty(),
        decode_set(seq![], universe_size) == Some(Seq::<u32>::empty()),
{
    reveal(decode_set);
}

/// One byte appended to the compressed form of a set makes it invalid.
pub proof fn lemma_trailing_byte_rejected(ids: Seq<u32>, universe_size: u32, extra: u8)
    requires
        is_id_set(ids, universe_size),
    ensures
        decode_set(set_encoding(ids) + seq![extra], universe_size) is None,
{
    reveal(decode_set);
    if ids.len() > 0 {
        lemma_decode_encoding(ids, seq![extra], universe_size);
    } else {
        let s = set_encoding(ids) + seq![extra];
        assert(s =~= seq![extra]);
        assert(s.drop_first() =~= Seq::<u8>::empty());
        assert(read_varint(Seq::<u8>::empty(), 8) is None);
        if extra < 128 {
            assert(varint_prefix(s) == Some((extra as nat, 1nat)));
            assert(s.skip(1) =~= Seq::<u8>::empty());
            assert(varint_prefix(Seq::<u8>::empty()) is None);
        } else {
            assert(varint_prefix(s) is None);
        }
    }
}

/// Compression is deterministic: `compress_set` returns `set_encoding` of its
/// list, so two successful compressions of one list give the same bytes.
pub proof fn lemma_compression_deterministic(
    ids: Seq<u32>,
    universe_size: u32,
    first: Seq<u8>,
    second: Seq<u8>,
)
    requires
        is_id_set(ids, universe_size),
        first == set_encoding(ids),
        second == set_encoding(ids),
    ensures
        first == second,
{
}

} // verus!
