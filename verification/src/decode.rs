//! The multi-lane decoder: eight per-lane Viterbi decoders, one per bit
//! position of the original byte stream. Incoming byte pairs are split into
//! eight per-lane observations, the lanes decode independently, and the eight
//! decoded bit sequences are OR-ed back together into bytes.

pub mod single_bit_decode;

use vstd::prelude::*;
use crate::common::bit_set;
use crate::common::lemma_bit_set_xor;
use crate::common::lemma_bit_set_zero;
use crate::common::two_bit;
use crate::encode::first_out;
use crate::encode::second_out;
use single_bit_decode::BitDecoderState;
use single_bit_decode::lane_codes;
use single_bit_decode::saturate_bits;

verus! {

/// Bit `k` of every byte of `data`, as one lane's input bit sequence.
pub open spec fn byte_lane_bits(data: Seq<u8>, k: u8) -> Seq<bool> {
    Seq::new(data.len(), |i: int| bit_set(data[i], k))
}

/// The two-bit code lane `k` observes in the received pair `(a, b)`: the bit
/// of the second symbol high, the bit of the first symbol low.
pub open spec fn lane_pair_code(a: u8, b: u8, k: u8) -> u8 {
    two_bit(b & (1u8 << k), a & (1u8 << k))
}

/// Whether a pushed pair stream is exactly what a fresh encoder emits for
/// `data`.
pub open spec fn pairs_match(pairs: Seq<(u8, u8)>, data: Seq<u8>) -> bool {
    &&& pairs.len() == data.len()
    &&& forall|t: int|
        0 <= t < pairs.len() ==> (#[trigger] pairs[t]).0 == first_out(0, 0, data, t)
    &&& forall|t: int|
        0 <= t < pairs.len() ==> (#[trigger] pairs[t]).1 == second_out(0, 0, data, t)
}

/// The whole-byte decoder: one per-lane Viterbi decoder per bit position.
pub struct DecoderState {
    decoders: Vec<BitDecoderState>,
    /// The byte pairs consumed so far.
    pairs: Ghost<Seq<(u8, u8)>>,
}

impl DecoderState {
    /// The eight per-lane decoders, least significant bit first.
    pub closed spec fn lanes(&self) -> Seq<BitDecoderState> {
        self.decoders@
    }

    /// The byte pairs consumed so far.
    pub closed spec fn pushed_pairs(&self) -> Seq<(u8, u8)> {
        self.pairs@
    }

    /// The fixed number of pairs this decoder was sized for.
    pub open spec fn spec_len(&self) -> int {
        self.lanes()[0].spec_len()
    }

    /// The number of pairs consumed so far.
    pub open spec fn spec_level(&self) -> int {
        self.pushed_pairs().len() as int
    }

    /// Lane `k` has observed exactly its bit of every pushed pair.
    pub open spec fn lane_obs_ok(&self, k: int) -> bool {
        self.lanes()[k].observations() == Seq::new(
            self.pushed_pairs().len(),
            |t: int|
                lane_pair_code(self.pushed_pairs()[t].0, self.pushed_pairs()[t].1, k as u8),
        )
    }

    /// All eight lanes are healthy, sized alike, equally far along, and have
    /// seen exactly their own bit of the pushed pairs.
    pub open spec fn wf(&self) -> bool {
        &&& self.lanes().len() == 8
        &&& forall|k: int| 0 <= k < 8 ==> (#[trigger] self.lanes()[k]).wf()
        &&& forall|k: int|
            0 <= k < 8 ==> (#[trigger] self.lanes()[k]).spec_len() == self.spec_len()
        &&& forall|k: int|
            0 <= k < 8 ==> (#[trigger] self.lanes()[k]).spec_level() == self.spec_level()
        &&& forall|k: int| 0 <= k < 8 ==> self.lane_obs_ok(k)
    }

    /// A decoder for packets of exactly `len` byte pairs.
    pub fn new(len: usize) -> (r: Self)
        requires
            2 <= len <= 127,
        ensures
            r.wf(),
            r.spec_len() == len,
            r.spec_level() == 0,
            r.pushed_pairs() =~= Seq::<(u8, u8)>::empty(),
    {
        let mut decoders: Vec<BitDecoderState> = Vec::with_capacity(8);
        let mut k: usize = 0;
        while k < 8
            invariant
                2 <= len <= 127,
                k <= 8,
                decoders@.len() == k,
                forall|q: int| 0 <= q < k ==> (#[trigger] decoders@[q]).wf(),
                forall|q: int| 0 <= q < k ==> (#[trigger] decoders@[q]).spec_len() == len,
                forall|q: int| 0 <= q < k ==> (#[trigger] decoders@[q]).spec_level() == 0,
                forall|q: int|
                    0 <= q < k ==> (#[trigger] decoders@[q]).observations() =~= Seq::<u8>::empty(),
            decreases 8 - k,
        {
            decoders.push(BitDecoderState::new(len));
            k = k + 1;
        }
        let r = DecoderState { decoders, pairs: Ghost(Seq::empty()) };
        proof {
            assert forall|k0: int| 0 <= k0 < 8 implies r.lane_obs_ok(k0) by {
                assert(r.lanes()[k0].observations() =~= Seq::new(
                    0,
                    |t: int| lane_pair_code(r.pushed_pairs()[t].0, r.pushed_pairs()[t].1, k0 as u8),
                ));
            }
        }
        r
    }

    /// Feed one received byte pair: `byte0` is the first transmitted symbol
    /// of the pair, `byte1` the second. Each lane sees its own bit of both.
    pub fn push(&mut self, byte0: u8, byte1: u8)
        requires
            old(self).wf(),
            old(self).spec_level() < old(self).spec_len(),
        ensures
            final(self).wf(),
            final(self).spec_len() == old(self).spec_len(),
            final(self).spec_level() == old(self).spec_level() + 1,
            final(self).pushed_pairs() == old(self).pushed_pairs().push((byte0, byte1)),
    {
        let ghost cap = old(self).spec_len();
        let ghost lv = old(self).spec_level();
        let mut i: usize = 0;
        while i < 8
            invariant
                old(self).wf(),
                lv == old(self).spec_level(),
                cap == old(self).spec_len(),
                lv < cap,
                i <= 8,
                self.decoders@.len() == 8,
                self.pairs == old(self).pairs,
                forall|k: int| i <= k < 8 ==> self.decoders@[k] == old(self).decoders@[k],
                forall|k: int| 0 <= k < i ==> (#[trigger] self.decoders@[k]).wf(),
                forall|k: int| 0 <= k < i ==> (#[trigger] self.decoders@[k]).spec_len() == cap,
                forall|k: int|
                    0 <= k < i ==> (#[trigger] self.decoders@[k]).spec_level() == lv + 1,
                forall|k: int|
                    0 <= k < i ==> (#[trigger] self.decoders@[k]).observations() == old(
                        self,
                    ).decoders@[k].observations().push(lane_pair_code(byte0, byte1, k as u8)),
            decreases 8 - i,
        {
            let mask: u8 = 1u8 << (i as u8);
            self.decoders[i].push(byte1 & mask, byte0 & mask);
            i = i + 1;
        }
        proof {
            self.pairs@ = self.pairs@.push((byte0, byte1));
        }
        proof {
            assert forall|k: int| 0 <= k < 8 implies self.lane_obs_ok(k) by {
                assert(old(self).lane_obs_ok(k));
                assert(self.lanes()[k].observations() =~= Seq::new(
                    self.pushed_pairs().len(),
                    |t: int|
                        lane_pair_code(
                            self.pushed_pairs()[t].0,
                            self.pushed_pairs()[t].1,
                            k as u8,
                        ),
                ));
            }
        }
    }

    /// Feed a whole received buffer of interleaved pairs, first symbols at
    /// even offsets.
    pub fn push_slice(&mut self, arr: &[u8])
        requires
            old(self).wf(),
            old(self).spec_level() == 0,
            arr@.len() == 2 * old(self).spec_len(),
        ensures
            final(self).wf(),
            final(self).spec_len() == old(self).spec_len(),
            final(self).spec_level() == final(self).spec_len(),
            forall|t: int|
                0 <= t < final(self).spec_len() ==> #[trigger] final(self).pushed_pairs()[t] == (
                arr@[2 * t],
                arr@[2 * t + 1],
            ),
    {
        let ghost cap = old(self).spec_len();
        let total = arr.len() / 2;
        let mut t: usize = 0;
        while t < total
            invariant
                cap == old(self).spec_len(),
                arr@.len() == 2 * cap,
                total == cap,
                t <= total,
                self.wf(),
                self.spec_len() == cap,
                self.spec_level() == t,
                forall|u: int|
                    0 <= u < t ==> #[trigger] self.pushed_pairs()[u] == (
                        arr@[2 * u],
                        arr@[2 * u + 1],
                    ),
            decreases total - t,
        {
            self.push(arr[2 * t], arr[2 * t + 1]);
            t = t + 1;
        }
    }

    /// Decode: run every lane's traceback and OR the eight bit streams back
    /// into bytes. Whenever the pushed pairs are exactly what the encoder
    /// emits for some byte sequence, the result is that sequence.
    pub fn read(self) -> (ans: Vec<u8>)
        requires
            self.wf(),
            self.spec_level() == self.spec_len(),
        ensures
            ans@.len() == self.spec_len(),
            forall|data: Seq<u8>|
                data.len() == self.spec_len() && pairs_match(self.pushed_pairs(), data) ==> ans@
                    == data,
    {
        let r0 = self.decoders[0].read(1);
        let r1 = self.decoders[1].read(2);
        let r2 = self.decoders[2].read(4);
        let r3 = self.decoders[3].read(8);
        let r4 = self.decoders[4].read(16);
        let r5 = self.decoders[5].read(32);
        let r6 = self.decoders[6].read(64);
        let r7 = self.decoders[7].read(128);

        let len = r0.len();
        let mut ans: Vec<u8> = Vec::with_capacity(len);
        let mut q: usize = 0;
        while q < len
            invariant
                q <= len,
                r0@.len() == len,
                r1@.len() == len,
                r2@.len() == len,
                r3@.len() == len,
                r4@.len() == len,
                r5@.len() == len,
                r6@.len() == len,
                r7@.len() == len,
                ans@.len() == q,
                forall|u: int|
                    0 <= u < q ==> ans@[u] == (((((((r0@[u] | r1@[u]) | r2@[u]) | r3@[u]) | r4@[u])
                        | r5@[u]) | r6@[u]) | r7@[u]),
            decreases len - q,
        {
            let v = ((((((r0[q] | r1[q]) | r2[q]) | r3[q]) | r4[q]) | r5[q]) | r6[q]) | r7[q];
            ans.push(v);
            q = q + 1;
        }

        proof {
            assert(1u8 << 0 == 1 && 1u8 << 1 == 2 && 1u8 << 2 == 4 && 1u8 << 3 == 8 && 1u8 << 4
                == 16 && 1u8 << 5 == 32 && 1u8 << 6 == 64 && 1u8 << 7 == 128) by (bit_vector);
            assert forall|data: Seq<u8>|
                data.len() == self.spec_len() && pairs_match(
                    self.pushed_pairs(),
                    data,
                ) implies ans@ == data by {
                assert forall|k: int| 0 <= k < 8 implies self.lanes()[k].observations()
                    == lane_codes(byte_lane_bits(data, k as u8)) by {
                    assert(self.lane_obs_ok(k));
                    assert forall|t: int|
                        0 <= t < data.len() implies lane_pair_code(
                        self.pushed_pairs()[t].0,
                        self.pushed_pairs()[t].1,
                        k as u8,
                    ) == lane_codes(byte_lane_bits(data, k as u8))[t] by {
                        lemma_lane_of_encoding(data, k as u8, t);
                    }
                    assert(self.lanes()[k].observations() =~= lane_codes(
                        byte_lane_bits(data, k as u8),
                    ));
                }
                assert(r0@ == saturate_bits(byte_lane_bits(data, 0), 1));
                assert(r1@ == saturate_bits(byte_lane_bits(data, 1), 2));
                assert(r2@ == saturate_bits(byte_lane_bits(data, 2), 4));
                assert(r3@ == saturate_bits(byte_lane_bits(data, 3), 8));
                assert(r4@ == saturate_bits(byte_lane_bits(data, 4), 16));
                assert(r5@ == saturate_bits(byte_lane_bits(data, 5), 32));
                assert(r6@ == saturate_bits(byte_lane_bits(data, 6), 64));
                assert(r7@ == saturate_bits(byte_lane_bits(data, 7), 128));
                assert forall|u: int| 0 <= u < len implies ans@[u] == data[u] by {
                    let d = data[u];
                    let a0 = r0@[u];
                    let a1 = r1@[u];
                    let a2 = r2@[u];
                    let a3 = r3@[u];
                    let a4 = r4@[u];
                    let a5 = r5@[u];
                    let a6 = r6@[u];
                    let a7 = r7@[u];
                    assert((((((((a0 | a1) | a2) | a3) | a4) | a5) | a6) | a7) == d)
                        by (bit_vector)
                        requires
                            a0 == (if d & (1u8 << 0) != 0 {
                                1u8
                            } else {
                                0u8
                            }),
                            a1 == (if d & (1u8 << 1) != 0 {
                                2u8
                            } else {
                                0u8
                            }),
                            a2 == (if d & (1u8 << 2) != 0 {
                                4u8
                            } else {
                                0u8
                            }),
                            a3 == (if d & (1u8 << 3) != 0 {
                                8u8
                            } else {
                                0u8
                            }),
                            a4 == (if d & (1u8 << 4) != 0 {
                                16u8
                            } else {
                                0u8
                            }),
                            a5 == (if d & (1u8 << 5) != 0 {
                                32u8
                            } else {
                                0u8
                            }),
                            a6 == (if d & (1u8 << 6) != 0 {
                                64u8
                            } else {
                                0u8
                            }),
                            a7 == (if d & (1u8 << 7) != 0 {
                                128u8
                            } else {
                                0u8
                            }),
                    ;
                }
                assert(ans@ =~= data);
            }
        }

        ans
    }
}

/// Round trip: the pair stream cut from the encoder's transmit buffer for
/// `data` is exactly what `pairs_match` describes, so by `read`'s contract a
/// decoder fed that stream gives back `data`, for every byte sequence the
/// packet bounds allow.
pub proof fn lemma_encoding_matches_pairs(data: Seq<u8>, pairs: Seq<(u8, u8)>)
    requires
        pairs.len() == data.len(),
        forall|t: int|
            0 <= t < pairs.len() ==> #[trigger] pairs[t] == (
                crate::encode::encoded(data)[2 * t],
                crate::encode::encoded(data)[2 * t + 1],
            ),
    ensures
        pairs_match(pairs, data),
{
}

/// Lane `k` of the pair stream the byte encoder emits for `data` is exactly
/// the pair stream the single-bit encoder emits for bit `k` of `data`: XOR is
/// independent across bit positions.
proof fn lemma_lane_of_encoding(data: Seq<u8>, k: u8, t: int)
    requires
        k < 8,
        0 <= t < data.len(),
    ensures
        lane_pair_code(first_out(0, 0, data, t), second_out(0, 0, data, t), k) == lane_codes(
            byte_lane_bits(data, k),
        )[t],
{
    let x = byte_lane_bits(data, k);
    let nb = crate::encode::newer_before(0, data, t);
    let ob = crate::encode::older_before(0, 0, data, t);
    lemma_bit_set_zero(k);
    lemma_bit_set_xor(ob, data[t], k);
    lemma_bit_set_xor(nb, ob, k);
    lemma_bit_set_xor(nb ^ ob, data[t], k);
    assert(bit_set(first_out(0, 0, data, t), k) == (bit_set(ob, k) != bit_set(data[t], k)));
    assert(bit_set(second_out(0, 0, data, t), k) == ((bit_set(nb, k) != bit_set(ob, k))
        != bit_set(data[t], k)));
    let s = single_bit_decode::lane_state(x, t);
    assert(s % 2 == 1 <==> bit_set(nb, k));
    assert(s / 2 == 1 <==> bit_set(ob, k));
}

} // verus!
