//! The per-lane Viterbi decoder: recovers the most plausible single-bit input
//! sequence from a stream of observed two-bit symbol pairs, assuming the
//! rate-1/2, four-state code of the encoder and a known all-zero start state.
//!
//! The trellis is a flat arena of `(time step, state)` slots. Each slot holds
//! at most one `Link`: the lowest-cost way discovered to reach that state at
//! that step. The forward pass (`push`) fills one step per observed pair; the
//! backward pass (`read`) picks the cheapest final state and walks the links
//! back to the start.

use vstd::prelude::*;
use vstd::math::min;
use crate::common::combine;
use crate::common::hamming;
use crate::common::lemma_hamming_bounds;
use crate::common::lemma_hamming_self;
use crate::common::lemma_hamming_zero;
use crate::common::map_to;
use crate::common::pop_count;
use crate::common::saturated;
use crate::common::stretch;
use crate::common::two_bit;
use crate::encode::EncoderState;

verus! {

/// The trellis state of a lane encoder after consuming `bits.take(i)`:
/// the low bit is the newest input bit, the high bit the one before it.
pub open spec fn lane_state(bits: Seq<bool>, i: int) -> u8 {
    if i >= 2 && bits[i - 2] {
        if bits[i - 1] {
            3
        } else {
            2
        }
    } else {
        if i >= 1 && bits[i - 1] {
            1
        } else {
            0
        }
    }
}

/// The state a lane encoder in state `s` moves to on input bit `b`.
pub open spec fn lane_next(s: u8, b: bool) -> u8 {
    if s % 2 == 1 {
        if b {
            3
        } else {
            2
        }
    } else {
        if b {
            1
        } else {
            0
        }
    }
}

/// The two-bit pair a lane encoder in state `s` emits on input bit `b`:
/// the second output gives the high bit, the first output the low bit.
pub open spec fn branch_code(s: u8, b: bool) -> u8 {
    let n = s % 2 == 1;
    let o = s / 2 == 1;
    let out_a = o != b;
    let out_b = (n != o) != b;
    if out_b {
        if out_a {
            3
        } else {
            2
        }
    } else {
        if out_a {
            1
        } else {
            0
        }
    }
}

/// The pair stream a lane encoder started in state 0 emits for `bits`.
pub open spec fn lane_codes(bits: Seq<bool>) -> Seq<u8> {
    Seq::new(bits.len(), |i: int| branch_code(lane_state(bits, i), bits[i]))
}

/// The input bits a back-walk decodes: the low bit of each state it enters.
pub open spec fn decoded_bits(c: Seq<u8>) -> Seq<bool> {
    Seq::new((c.len() - 1) as nat, |t: int| c[t + 1] % 2 == 1)
}

/// Each bit scaled to the byte-domain value `bit`: one becomes `bit`, zero
/// stays zero.
pub open spec fn saturate_bits(x: Seq<bool>, bit: u8) -> Seq<u8> {
    Seq::new(
        x.len(),
        |i: int|
            if x[i] {
                bit
            } else {
                0u8
            },
    )
}

/// The decoder's per-(time step, state) record: the best path into this state
/// came from `prev_state` and has accumulated Hamming distance `cost`.
#[derive(Debug, Clone, Copy, PartialEq, Eq, Structural)]
pub struct Link {
    pub prev_state: u8,
    /// enough for the decoder to consume 254 bits (yielding 127 bits) no
    /// matter what
    pub cost: u8,
}

/// One lane's Viterbi decoder.
pub struct BitDecoderState {
    /// Flat arena: the slot for state `s` at time step `i` sits at `4 * i + s`.
    trellis: Vec<Option<Link>>,
    /// How many observed pairs have been consumed so far.
    level: u8,
    /// The two-bit codes of the pairs consumed so far.
    obs: Ghost<Seq<u8>>,
}

impl BitDecoderState {
    /// The fixed number of pairs this decoder was sized for.
    pub closed spec fn spec_len(&self) -> int {
        self.trellis@.len() as int / 4
    }

    /// The number of pairs consumed so far.
    pub closed spec fn spec_level(&self) -> int {
        self.level as int
    }

    /// The two-bit codes of the pairs consumed so far.
    pub closed spec fn observations(&self) -> Seq<u8> {
        self.obs@
    }

    /// The slot for state `s` at time step `i`.
    pub closed spec fn slot(&self, i: int, s: int) -> Option<Link> {
        self.trellis@[4 * i + s]
    }

    /// The arena really has four slots per time step.
    pub closed spec fn wf_arena(&self) -> bool {
        self.trellis@.len() == 4 * self.spec_len()
    }

    /// Whether the reachability schedule says the slot for state `s` at step
    /// `i` holds a link once the forward pass has passed step `i`.
    pub open spec fn scheduled(&self, i: int, s: int) -> bool {
        0 <= i < self.spec_level() && 0 <= s < 4 && (i == 0 ==> s < 2)
    }

    /// Whether the forward pass scans state `p` as a source at step `i`.
    pub open spec fn source_ok(&self, i: int, p: int) -> bool {
        0 <= p < 4 && (i == 0 ==> p == 0) && (i == 1 ==> p < 2)
    }

    /// The cost the forward pass charges for arriving from state `p` at step
    /// `i`: zero at the first step, else the cost retained at `p` one step
    /// earlier.
    pub open spec fn prev_cost_spec(&self, i: int, p: int) -> int {
        if i == 0 {
            0
        } else {
            self.slot(i - 1, p).unwrap().cost as int
        }
    }

    /// The total cost of reaching state `s` at step `i` through source `p`.
    pub open spec fn candidate_cost(&self, i: int, p: int, s: int) -> int {
        self.prev_cost_spec(i, p) + hamming(
            self.observations()[i],
            branch_code(p as u8, s % 2 == 1),
        )
    }

    /// The retained link at `(i, s)` records a real transition: a scanned
    /// source, a valid state move, and exactly the cost charged for it.
    pub open spec fn link_ok(&self, i: int, s: int) -> bool {
        self.slot(i, s) is Some ==> {
            let l = self.slot(i, s).unwrap();
            &&& self.source_ok(i, l.prev_state as int)
            &&& l.prev_state % 2 == s / 2
            &&& l.cost as int == self.candidate_cost(i, l.prev_state as int, s)
            &&& l.cost <= 2 * (i + 1)
        }
    }

    /// The retained link at `(i, s)` costs no more than any candidate the
    /// forward pass scanned for that slot.
    pub open spec fn min_ok(&self, i: int, s: int) -> bool {
        forall|p: int|
            self.source_ok(i, p) && p % 2 == s / 2 ==> self.slot(i, s).unwrap().cost as int
                <= #[trigger] self.candidate_cost(i, p, s)
    }

    /// Size, level and observation bookkeeping.
    pub open spec fn wf_basic(&self) -> bool {
        &&& 2 <= self.spec_len() <= 127
        &&& self.wf_arena()
        &&& self.spec_level() <= self.spec_len()
        &&& self.observations().len() == self.spec_level()
        &&& forall|t: int|
            0 <= t < self.observations().len() ==> #[trigger] self.observations()[t] < 4
    }

    /// The whole decoder invariant: bookkeeping, the reachability schedule,
    /// and soundness plus minimality of every retained link.
    pub open spec fn wf(&self) -> bool {
        &&& self.wf_basic()
        &&& forall|i: int, s: int|
            0 <= i < self.spec_len() && 0 <= s < 4 ==> (((#[trigger] self.slot(i, s)) is Some)
                == self.scheduled(i, s))
        &&& forall|i: int, s: int| 0 <= i < self.spec_level() && 0 <= s < 4 ==> self.link_ok(i, s)
        &&& forall|i: int, s: int| 0 <= i < self.spec_level() && 0 <= s < 4 ==> self.min_ok(i, s)
    }

    pub fn new(len: usize) -> (r: Self)
        requires
            2 <= len <= 127,
        ensures
            r.wf(),
            r.spec_len() == len,
            r.spec_level() == 0,
            r.observations() =~= Seq::<u8>::empty(),
    {
        let mut trellis: Vec<Option<Link>> = Vec::with_capacity(4 * len);
        let mut i: usize = 0;
        while i < 4 * len
            invariant
                len <= 127,
                i <= 4 * len,
                trellis@.len() == i,
                forall|j: int| 0 <= j < i ==> (#[trigger] trellis@[j]) is None,
            decreases 4 * len - i,
        {
            trellis.push(None);
            i = i + 1;
        }

        BitDecoderState { trellis, level: 0, obs: Ghost(Seq::empty()) }
    }

    /// The source states the forward pass scans at the current level: only
    /// state 0 at the first step, states 0 and 1 at the second, all four
    /// after that.
    fn states(&self) -> (r: Vec<u8>)
        ensures
            self.spec_level() == 0 ==> r@.len() == 1,
            self.spec_level() == 1 ==> r@.len() == 2,
            self.spec_level() >= 2 ==> r@.len() == 4,
            forall|j: int| 0 <= j < r@.len() ==> r@[j] == j,
            forall|j: int| 0 <= j < r@.len() ==> self.source_ok(self.spec_level(), j),
    {
        match self.level {
            0 => vec![0],
            1 => vec![0, 1],
            _ => vec![0, 1, 2, 3],
        }
    }

    /// Merge a candidate link into the slot for state `pos` at the current
    /// level, keeping the cheaper of the two; the incumbent wins ties.
    fn add_link(&mut self, new_link: Link, pos: u8)
        requires
            pos < 4,
            4 * (old(self).level as int) + 4 <= old(self).trellis@.len(),
        ensures
            final(self).level == old(self).level,
            final(self).obs == old(self).obs,
            final(self).trellis@.len() == old(self).trellis@.len(),
            final(self).trellis@ == old(self).trellis@.update(
                4 * (old(self).level as int) + pos,
                Some(merge_link(old(self).slot(old(self).level as int, pos as int), new_link)),
            ),
    {
        let idx = 4 * (self.level as usize) + (pos as usize);
        match self.trellis[idx] {
            Some(mut current_link) => {
                current_link.minimize_cost(new_link);
                self.trellis.set(idx, Some(current_link));
            },
            None => {
                self.trellis.set(idx, Some(new_link));
            },
        }
    }

    /// push a pair of symbols to be decoded: `s1` the second output symbol of
    /// the encoder, `s0` the first
    ///
    /// takes u8s instead of bools for convenience (just do a `bitwise and`
    /// between the mask and the byte)
    pub fn push(&mut self, s1: u8, s0: u8)
        requires
            old(self).wf(),
            old(self).spec_level() < old(self).spec_len(),
        ensures
            final(self).wf(),
            final(self).spec_len() == old(self).spec_len(),
            final(self).spec_level() == old(self).spec_level() + 1,
            final(self).observations() == old(self).observations().push(two_bit(s1, s0)),
    {
        let ghost lv = old(self).spec_level();
        let ghost cap = old(self).spec_len();

        let bit_pair = combine(s1, s0);
        self.obs = Ghost(self.obs@.push(bit_pair));

        let srcs = self.states();
        proof {
            assert forall|s: int| 0 <= s < 4 implies (#[trigger] self.slot(lv, s)) is None by {
                assert((old(self).slot(lv, s) is Some) == old(self).scheduled(lv, s));
                assert(self.slot(lv, s) == old(self).slot(lv, s));
            }
        }
        let mut j: usize = 0;
        while j < srcs.len()
            invariant
                old(self).wf(),
                lv == old(self).spec_level(),
                cap == old(self).spec_len(),
                lv < cap,
                bit_pair == two_bit(s1, s0),
                bit_pair < 4,
                self.level == old(self).level,
                self.wf_arena(),
                self.spec_len() == cap,
                self.observations() == old(self).observations().push(bit_pair),
                j <= srcs@.len(),
                srcs@.len() == (if lv == 0 {
                    1int
                } else if lv == 1 {
                    2int
                } else {
                    4int
                }),
                forall|q: int| 0 <= q < srcs@.len() ==> srcs@[q] == q,
                forall|i: int, s: int|
                    0 <= i < cap && 0 <= s < 4 && i != lv ==> self.slot(i, s) == old(self).slot(
                        i,
                        s,
                    ),
                forall|s: int|
                    0 <= s < 4 ==> (((#[trigger] self.slot(lv, s)) is Some) == (if s / 2 == 0 {
                        j >= 1
                    } else {
                        j >= 2
                    })),
                forall|s: int|
                    0 <= s < 4 && (#[trigger] self.slot(lv, s)) is Some ==> {
                        let l = self.slot(lv, s).unwrap();
                        &&& l.prev_state < j
                        &&& l.prev_state % 2 == s / 2
                        &&& l.cost as int == self.candidate_cost(lv, l.prev_state as int, s)
                        &&& l.cost <= 2 * (lv + 1)
                    },
                forall|s: int, p: int|
                    0 <= s < 4 && 0 <= p < j && p % 2 == s / 2
                        ==> self.slot(lv, s).unwrap().cost as int <= #[trigger] self.candidate_cost(
                        lv,
                        p,
                        s,
                    ),
            decreases srcs@.len() - j,
        {
            let p = srcs[j];
            proof {
                assert(p == j);
                if lv >= 1 {
                    assert((old(self).slot(lv - 1, p as int) is Some) == old(self).scheduled(
                        lv - 1,
                        p as int,
                    ));
                    assert(old(self).link_ok(lv - 1, p as int));
                    assert(self.slot(lv - 1, p as int) == old(self).slot(lv - 1, p as int));
                }
            }
            let pc = self.prev_cost(p);
            let ghost pre = *self;
            let cands = Link::next(p, bit_pair, pc);
            self.add_link(cands[0].0, cands[0].1);
            let ghost mid = *self;
            self.add_link(cands[1].0, cands[1].1);
            proof {
                let pi = p as int;
                let t0 = lane_next(p, false) as int;
                let t1 = lane_next(p, true) as int;
                assert(t1 == t0 + 1 && t0 % 2 == 0 && t1 % 2 == 1 && t0 / 2 == pi % 2 && t1 / 2
                    == pi % 2 && 0 <= t0 < 4 && 0 <= t1 < 4);
                lemma_hamming_bounds(bit_pair, branch_code(p, false));
                lemma_hamming_bounds(bit_pair, branch_code(p, true));

                assert forall|i: int, s: int|
                    0 <= i < cap && 0 <= s < 4 && !(i == lv && (s == t0 || s == t1)) implies #[trigger] self.slot(i, s) == pre.slot(i, s) by {
                    assert(mid.trellis@.len() == pre.trellis@.len());
                    assert(4 * i + s != 4 * lv + t0 && 4 * i + s != 4 * lv + t1);
                }
                assert(self.slot(lv, t0) == Some(merge_link(pre.slot(lv, t0), cands[0].0)));
                assert(self.slot(lv, t1) == Some(merge_link(pre.slot(lv, t1), cands[1].0)));
                assert(self.observations() == pre.observations());
                assert(self.observations()[lv] == bit_pair);

                assert forall|q: int, s: int| 0 <= q < 4 && 0 <= s < 4 implies #[trigger] self.candidate_cost(lv, q, s) == pre.candidate_cost(lv, q, s) by {
                    if lv >= 1 {
                        assert(self.slot(lv - 1, q) == pre.slot(lv - 1, q));
                    }
                }
                assert(cands[0].0.cost as int == pre.candidate_cost(lv, pi, t0));
                assert(cands[1].0.cost as int == pre.candidate_cost(lv, pi, t1));
                if lv >= 1 {
                    assert(pc <= 2 * lv);
                }
                assert(cands[0].0.cost <= 2 * (lv + 1));
                assert(cands[1].0.cost <= 2 * (lv + 1));
            }
            j = j + 1;
        }

        let ghost exitv = *self;
        self.level = self.level + 1;

        proof {
            assert forall|i: int, s: int| 0 <= i < cap && 0 <= s < 4 implies (((#[trigger] self.slot(
                i,
                s,
            )) is Some) == self.scheduled(i, s)) by {
                assert(self.slot(i, s) == exitv.slot(i, s));
                if i != lv {
                    assert(exitv.slot(i, s) == old(self).slot(i, s));
                    assert((old(self).slot(i, s) is Some) == old(self).scheduled(i, s));
                }
            }
            assert forall|i: int, s: int| 0 <= i < lv + 1 && 0 <= s < 4 implies self.link_ok(i, s)
                && self.min_ok(i, s) by {
                assert(self.slot(i, s) == exitv.slot(i, s));
                assert forall|p: int| 0 <= p < 4 implies #[trigger] self.candidate_cost(i, p, s)
                    == exitv.candidate_cost(i, p, s) by {
                    if i >= 1 {
                        assert(self.slot(i - 1, p) == exitv.slot(i - 1, p));
                    }
                }
                if i < lv {
                    assert(old(self).link_ok(i, s));
                    assert(old(self).min_ok(i, s));
                    assert(exitv.slot(i, s) == old(self).slot(i, s));
                    assert forall|p: int| 0 <= p < 4 implies #[trigger] exitv.candidate_cost(
                        i,
                        p,
                        s,
                    ) == old(self).candidate_cost(i, p, s) by {
                        if i >= 1 {
                            assert(exitv.slot(i - 1, p) == old(self).slot(i - 1, p));
                        }
                        assert(exitv.observations()[i] == old(self).observations()[i]);
                    }
                } else {
                    assert((exitv.slot(lv, s) is Some) == (if s / 2 == 0 {
                        srcs@.len() >= 1
                    } else {
                        srcs@.len() >= 2
                    }));
                }
            }
        }
    }

    /// The cost stored in the slot for state `s` at step `i`.
    pub open spec fn slot_cost(&self, i: int, s: int) -> int {
        self.slot(i, s).unwrap().cost as int
    }

    /// The cheapest cost among the four slots of the final time step.
    pub open spec fn final_min_cost(&self) -> int {
        let e = self.spec_len() - 1;
        min(
            min(self.slot_cost(e, 0), self.slot_cost(e, 1)),
            min(self.slot_cost(e, 2), self.slot_cost(e, 3)),
        )
    }

    /// A complete back-walk through the trellis: `c[t]` is the state the walk
    /// passes just before observation `t`, and every consecutive pair of
    /// states is connected by a retained link.
    pub open spec fn chain_ok(&self, c: Seq<u8>) -> bool {
        &&& c.len() == self.spec_len() + 1
        &&& forall|t: int| 0 <= t < c.len() ==> #[trigger] c[t] < 4
        &&& forall|t: int|
            0 <= t < self.spec_len() ==> (#[trigger] self.slot(t, c[t + 1] as int)) is Some
        &&& forall|t: int|
            0 <= t < self.spec_len() ==> (#[trigger] self.slot(
                t,
                c[t + 1] as int,
            )).unwrap().prev_state == c[t]
    }

    /// ouputs a vector of u8s where only the correct bits are set
    ///
    /// Picks the cheapest final state, walks the retained links back to the
    /// start, and returns the decoded bits in forward order, each scaled to
    /// `bit`. Whenever the observations are exactly what the encoder emits
    /// for some input, the cheapest final cost is zero and the decoded bits
    /// are exactly that input.
    pub fn read(&self, bit: u8) -> (ans: Vec<u8>)
        requires
            self.wf(),
            self.spec_level() == self.spec_len(),
        ensures
            ans@.len() == self.spec_len(),
            forall|q: int| 0 <= q < ans@.len() ==> ans@[q] == 0 || ans@[q] == bit,
            forall|x: Seq<bool>|
                x.len() == self.spec_len() && self.observations() == lane_codes(x) ==> ans@
                    == saturate_bits(x, bit) && self.final_min_cost() == 0,
    {
        let len = self.trellis.len() / 4;
        let last_index = len - 1;
        proof {
            assert forall|s: int| 0 <= s < 4 implies (#[trigger] self.slot(
                last_index as int,
                s,
            )) is Some by {
                assert(self.scheduled(last_index as int, s));
            }
        }

        // find the state to start from
        let mut min_cost_state: u8 = 0;
        proof {
            assert(self.slot(last_index as int, 0) is Some);
            assert(self.slot(last_index as int, 0) == self.trellis@[4 * (last_index as int)]);
        }
        let mut min_cost = self.trellis[4 * last_index].unwrap().cost;
        let mut x: usize = 1;
        while x < 4
            invariant
                self.wf(),
                self.spec_level() == self.spec_len(),
                len == self.spec_len(),
                last_index == len - 1,
                forall|s: int| 0 <= s < 4 ==> (#[trigger] self.slot(last_index as int, s)) is Some,
                1 <= x <= 4,
                min_cost_state < 4,
                min_cost as int == self.slot_cost(last_index as int, min_cost_state as int),
                forall|q: int|
                    0 <= q < x ==> min_cost as int <= #[trigger] self.slot_cost(
                        last_index as int,
                        q,
                    ),
            decreases 4 - x,
        {
            proof {
                assert(self.slot(last_index as int, x as int) is Some);
                assert(self.slot(last_index as int, x as int) == self.trellis@[4 * (
                last_index as int) + (x as int)]);
            }
            let current_cost = self.trellis[4 * last_index + x].unwrap().cost;
            if current_cost < min_cost {
                min_cost = current_cost;
                min_cost_state = x as u8;
            }
            x = x + 1;
        }

        // follow the links to the start and record what bit we think was
        // encoded, last step first
        let mut tmp: Vec<u8> = Vec::with_capacity(len);
        let mut cur: u8 = min_cost_state;
        let ghost mut chain: Seq<u8> = Seq::new((len + 1) as nat, |t: int| 0u8).update(
            len as int,
            min_cost_state,
        );
        let mut offset: usize = 0;
        while offset < len
            invariant
                self.wf(),
                self.spec_level() == self.spec_len(),
                len == self.spec_len(),
                last_index == len - 1,
                offset <= len,
                chain.len() == len + 1,
                chain[len as int] == min_cost_state,
                min_cost as int == self.slot_cost(last_index as int, min_cost_state as int),
                cur == chain[len - offset],
                forall|m: int| 0 <= m < chain.len() ==> #[trigger] chain[m] < 4,
                forall|t: int|
                    len - offset <= t < len ==> (#[trigger] self.slot(t, chain[t + 1] as int))
                        is Some,
                forall|t: int|
                    len - offset <= t < len ==> (#[trigger] self.slot(
                        t,
                        chain[t + 1] as int,
                    )).unwrap().prev_state == chain[t],
                offset < len ==> self.slot(len - 1 - offset, cur as int) is Some,
                tmp@.len() == offset,
                forall|o: int|
                    0 <= o < offset ==> tmp@[o] == (if chain[len - o] % 2 == 1 {
                        bit
                    } else {
                        0u8
                    }),
            decreases len - offset,
        {
            let i = last_index - offset;
            proof {
                assert(cur & 1 == cur % 2) by (bit_vector);
            }
            tmp.push(map_to(cur & 1, bit));
            let link = self.trellis[4 * i + (cur as usize)].unwrap();
            proof {
                assert(self.slot(i as int, cur as int) == Some(link));
                assert(self.link_ok(i as int, cur as int));
                if i >= 1 {
                    assert((self.slot(i - 1, link.prev_state as int) is Some) == self.scheduled(
                        i - 1,
                        link.prev_state as int,
                    ));
                }
                chain = chain.update(i as int, link.prev_state);
            }
            cur = link.prev_state;
            offset = offset + 1;
        }

        // restore forward chronological order
        let mut ans: Vec<u8> = Vec::with_capacity(len);
        let mut k: usize = 0;
        while k < len
            invariant
                k <= len,
                len == tmp@.len(),
                last_index == len - 1,
                ans@.len() == k,
                forall|q: int| 0 <= q < k ==> ans@[q] == tmp@[len - 1 - q],
            decreases len - k,
        {
            ans.push(tmp[last_index - k]);
            k = k + 1;
        }

        proof {
            let y = decoded_bits(chain);
            assert(self.chain_ok(chain));
            assert forall|q: int| 0 <= q < len implies ans@[q] == (if y[q] {
                bit
            } else {
                0u8
            }) by {
                assert(ans@[q] == tmp@[len - 1 - q]);
                assert(tmp@[len - 1 - q] == (if chain[q + 1] % 2 == 1 {
                    bit
                } else {
                    0u8
                }));
            }
            assert(ans@ =~= saturate_bits(y, bit));

            assert forall|x0: Seq<bool>|
                x0.len() == self.spec_len() && self.observations() == lane_codes(
                    x0,
                ) implies ans@ == saturate_bits(x0, bit) && self.final_min_cost() == 0 by {
                lemma_true_path_costs(self, x0, len - 1);
                let true_final = lane_state(x0, len as int);
                assert(min_cost as int <= self.slot_cost(len - 1, true_final as int));
                assert(min_cost == 0);
                assert(self.slot_cost(len - 1, chain[len as int] as int) == 0);
                lemma_zero_cost_chain(self, chain, len - 1);
                assert forall|t: int| 0 <= t < len implies lane_codes(y)[t]
                    == self.observations()[t] by {
                    lemma_chain_states(self, chain, t);
                    assert(self.observations()[t] == branch_code(chain[t], y[t]));
                }
                assert(lane_codes(y) =~= self.observations());
                lemma_lane_codes_injective(x0, y);
                assert(self.final_min_cost() >= 0);
                assert(self.final_min_cost() <= self.slot_cost(len - 1, true_final as int));
            }
        }

        ans
    }

    /// The cost retained for source state `state` one step back: zero when no
    /// step has been consumed yet.
    fn prev_cost(&self, state: u8) -> (r: u8)
        requires
            state < 4,
            self.wf_arena(),
            self.spec_len() <= 127,
            self.spec_level() < self.spec_len(),
            self.spec_level() >= 1 ==> self.slot(self.spec_level() - 1, state as int) is Some,
        ensures
            r as int == self.prev_cost_spec(self.spec_level(), state as int),
    {
        if self.level == 0 {
            0
        } else {
            let idx = 4 * ((self.level - 1) as usize) + (state as usize);
            self.trellis[idx].unwrap().cost
        }
    }
}

/// The link a slot holds after a candidate arrives: the incumbent unless the
/// candidate is strictly cheaper.
pub open spec fn merge_link(cur: Option<Link>, cand: Link) -> Link {
    match cur {
        Option::None => cand,
        Option::Some(l) => if l.cost > cand.cost {
            cand
        } else {
            l
        },
    }
}

impl Link {
    /// return the correct 2 links and where each should be placed: the
    /// candidate for input bit 0 first, then the one for input bit 1
    pub fn next(state: u8, bit_pair: u8, prev_cost: u8) -> (r: [(Link, u8); 2])
        requires
            state < 4,
            bit_pair < 4,
            prev_cost <= 253,
        ensures
            r[0].0.prev_state == state,
            r[0].0.cost as int == prev_cost + hamming(bit_pair, branch_code(state, false)),
            r[0].1 == lane_next(state, false),
            r[1].0.prev_state == state,
            r[1].0.cost as int == prev_cost + hamming(bit_pair, branch_code(state, true)),
            r[1].1 == lane_next(state, true),
    {
        [Self::generate(state, bit_pair, prev_cost, 0), Self::generate(state, bit_pair, prev_cost, 1)]
    }

    /// Replace this link by `other` exactly when `other` is strictly cheaper.
    pub fn minimize_cost(&mut self, other: Self)
        ensures
            *final(self) == merge_link(Some(*old(self)), other),
    {
        if self.cost > other.cost {
            *self = other;
        }
    }

    /// Build the candidate link for feeding input bit `bit` to an encoder
    /// sitting in trellis state `state`, against the observed pair
    /// `bit_pair`: the link records the source state and the accumulated
    /// cost, and the returned position is the state the move ends in.
    pub fn generate(state: u8, bit_pair: u8, prev_cost: u8, bit: u8) -> (r: (Self, u8))
        requires
            state < 4,
            bit <= 1,
            bit_pair < 4,
            prev_cost <= 253,
        ensures
            r.0.prev_state == state,
            r.0.cost as int == prev_cost + hamming(bit_pair, branch_code(state, bit == 1)),
            r.1 == lane_next(state, bit == 1),
            r.1 < 4,
    {
        let mut encoder: EncoderState = state.into();
        let hypothetical_bit_pair = encoder.input_w_bitpair_return(stretch(bit));

        proof {
            lemma_state_conversion_round_trip(state, bit == 1);
        }

        let cost_step = Self::hamming_dist(bit_pair, hypothetical_bit_pair);
        proof {
            lemma_hamming_bounds(bit_pair, hypothetical_bit_pair);
        }
        (Self { prev_state: state, cost: prev_cost + cost_step }, encoder.into())
    }

    /// The number of bit positions where `a` and `b` differ.
    pub fn hamming_dist(a: u8, b: u8) -> (r: u8)
        ensures
            r as int == hamming(a, b),
            r <= 8,
    {
        let x = a ^ b;
        proof {
            assert(((x >> 0) & 1) + ((x >> 1) & 1) + ((x >> 2) & 1) + ((x >> 3) & 1) + ((x >> 4)
                & 1) + ((x >> 5) & 1) + ((x >> 6) & 1) + ((x >> 7) & 1) == pop_count(x)
                && pop_count(x) <= 8) by (bit_vector);
        }
        ((x >> 0) & 1) + ((x >> 1) & 1) + ((x >> 2) & 1) + ((x >> 3) & 1) + ((x >> 4) & 1) + ((x
            >> 5) & 1) + ((x >> 6) & 1) + ((x >> 7) & 1)
    }
}

/// Monotonic cost accumulation: every retained link costs at least as much
/// as the predecessor link it points back to, so costs never decrease as the
/// step index grows along any retained path.
pub proof fn lemma_costs_monotonic(d: &BitDecoderState, i: int, s: int)
    requires
        d.wf(),
        1 <= i < d.spec_level(),
        0 <= s < 4,
        d.slot(i, s) is Some,
    ensures
        d.slot(i - 1, d.slot(i, s).unwrap().prev_state as int) is Some,
        d.slot(i, s).unwrap().cost >= d.slot(
            i - 1,
            d.slot(i, s).unwrap().prev_state as int,
        ).unwrap().cost,
{
    assert(d.link_ok(i, s));
    let p = d.slot(i, s).unwrap().prev_state as int;
    assert((d.slot(i - 1, p) is Some) == d.scheduled(i - 1, p));
    lemma_hamming_bounds(d.observations()[i], branch_code(p as u8, s % 2 == 1));
}

/// The reachability schedule: after the first consumed pair only states 0 and
/// 1 hold a link and both point back to the start state 0; after every later
/// pair all four states hold one.
pub proof fn lemma_reachability_schedule(d: &BitDecoderState)
    requires
        d.wf(),
    ensures
        forall|s: int|
            0 <= s < 4 && d.spec_level() > 0 ==> (((#[trigger] d.slot(0, s)) is Some) <==> s < 2),
        forall|i: int, s: int|
            1 <= i < d.spec_level() && 0 <= s < 4 ==> (#[trigger] d.slot(i, s)) is Some,
        forall|s: int|
            0 <= s < 4 && d.spec_level() > 0 && (#[trigger] d.slot(0, s)) is Some ==> d.slot(
                0,
                s,
            ).unwrap().prev_state == 0,
{
    assert forall|s: int|
        0 <= s < 4 && d.spec_level() > 0 implies (((#[trigger] d.slot(0, s)) is Some) <==> s
        < 2) by {
        assert((d.slot(0, s) is Some) == d.scheduled(0, s));
    }
    assert forall|i: int, s: int|
        1 <= i < d.spec_level() && 0 <= s < 4 implies (#[trigger] d.slot(i, s)) is Some by {
        assert((d.slot(i, s) is Some) == d.scheduled(i, s));
    }
    assert forall|s: int|
        0 <= s < 4 && d.spec_level() > 0 && (#[trigger] d.slot(0, s)) is Some implies d.slot(
        0,
        s,
    ).unwrap().prev_state == 0 by {
        assert(d.link_ok(0, s));
    }
}

/// Along the path of the true input — the one whose encoding matches every
/// observation seen so far — the forward pass retains cost zero at every
/// step, because each branch matches its observation exactly and the merge
/// keeps the cheapest candidate.
proof fn lemma_true_path_costs(d: &BitDecoderState, x: Seq<bool>, t: int)
    requires
        d.wf(),
        x.len() >= d.spec_level(),
        forall|u: int| 0 <= u < d.spec_level() ==> d.observations()[u] == lane_codes(x)[u],
        0 <= t < d.spec_level(),
    ensures
        d.slot(t, lane_state(x, t + 1) as int) is Some,
        d.slot(t, lane_state(x, t + 1) as int).unwrap().cost == 0,
    decreases t,
{
    let p = lane_state(x, t);
    let s = lane_state(x, t + 1);
    assert(s == lane_next(p, x[t]));
    assert(d.source_ok(t, p as int));
    assert((d.slot(t, s as int) is Some) == d.scheduled(t, s as int));
    if t >= 1 {
        lemma_true_path_costs(d, x, t - 1);
    }
    assert(d.min_ok(t, s as int));
    assert(d.observations()[t] == branch_code(p, s % 2 == 1));
    lemma_hamming_self(d.observations()[t]);
    assert(d.candidate_cost(t, p as int, s as int) == 0);
    assert(d.slot(t, s as int).unwrap().cost as int <= d.candidate_cost(t, p as int, s as int));
}

/// The states of a consistent back-walk are exactly the states the lane
/// encoder passes while consuming the walk's decoded bits.
proof fn lemma_chain_states(d: &BitDecoderState, c: Seq<u8>, t: int)
    requires
        d.wf(),
        d.spec_level() == d.spec_len(),
        d.chain_ok(c),
        0 <= t <= d.spec_len(),
    ensures
        c[t] == lane_state(decoded_bits(c), t),
    decreases t,
{
    let y = decoded_bits(c);
    if t == 0 {
        let t0 = 0int;
        assert(d.slot(t0, c[t0 + 1] as int).unwrap().prev_state == c[t0]);
        assert(d.link_ok(0, c[1] as int));
        assert(d.source_ok(0, c[0] as int));
    } else {
        lemma_chain_states(d, c, t - 1);
        let t0 = t - 1;
        assert(d.slot(t0, c[t0 + 1] as int).unwrap().prev_state == c[t0]);
        assert(d.link_ok(t0, c[t0 + 1] as int));
        assert(c[t] as int / 2 == c[t - 1] as int % 2);
        assert(y[t - 1] == (c[t] % 2 == 1));
        if t >= 2 {
            assert(y[t - 2] == (c[t - 1] % 2 == 1));
        }
    }
}

/// A back-walk whose final slot has cost zero matched every observation
/// exactly: its decoded bits re-encode to the observation stream.
proof fn lemma_zero_cost_chain(d: &BitDecoderState, c: Seq<u8>, t: int)
    requires
        d.wf(),
        d.spec_level() == d.spec_len(),
        d.chain_ok(c),
        0 <= t < d.spec_len(),
        d.slot(t, c[t + 1] as int).unwrap().cost == 0,
    ensures
        forall|u: int|
            0 <= u <= t ==> #[trigger] d.observations()[u] == branch_code(
                c[u],
                decoded_bits(c)[u],
            ),
    decreases t,
{
    let l = d.slot(t, c[t + 1] as int).unwrap();
    assert(l.prev_state == c[t]);
    assert(d.link_ok(t, c[t + 1] as int));
    lemma_hamming_bounds(d.observations()[t], branch_code(c[t], c[t + 1] % 2 == 1));
    assert(d.prev_cost_spec(t, c[t] as int) == 0 && hamming(
        d.observations()[t],
        branch_code(c[t], c[t + 1] % 2 == 1),
    ) == 0);
    lemma_hamming_zero(d.observations()[t], branch_code(c[t], c[t + 1] % 2 == 1));
    assert(d.observations()[t] == branch_code(c[t], decoded_bits(c)[t]));
    if t >= 1 {
        let t0 = t - 1;
        assert(d.slot(t0, c[t0 + 1] as int).unwrap().cost == 0);
        lemma_zero_cost_chain(d, c, t - 1);
    }
}

/// Two bit sequences the lane encoder maps to the same pair stream are the
/// same sequence: at the first differing input bit, the first output symbol
/// of that step would already differ.
pub proof fn lemma_lane_codes_injective(x: Seq<bool>, y: Seq<bool>)
    requires
        x.len() == y.len(),
        lane_codes(x) == lane_codes(y),
    ensures
        x == y,
{
    lemma_lane_codes_injective_upto(x, y, x.len() as int);
    assert(x =~= y);
}

/// The bounded form of the injectivity argument: the first `t` bits agree.
proof fn lemma_lane_codes_injective_upto(x: Seq<bool>, y: Seq<bool>, t: int)
    requires
        x.len() == y.len(),
        lane_codes(x) == lane_codes(y),
        0 <= t <= x.len(),
    ensures
        forall|u: int| 0 <= u < t ==> x[u] == y[u],
    decreases t,
{
    if t >= 1 {
        lemma_lane_codes_injective_upto(x, y, t - 1);
        assert(lane_state(x, t - 1) == lane_state(y, t - 1));
        assert(x[t - 1] == y[t - 1]) by {
            assert(lane_codes(x)[t - 1] == branch_code(lane_state(x, t - 1), x[t - 1]));
            assert(lane_codes(y)[t - 1] == branch_code(lane_state(y, t - 1), y[t - 1]));
            assert(lane_codes(x)[t - 1] == lane_codes(y)[t - 1]);
        }
    }
}

/// Feeding a saturated bit to the encoder state that a trellis code denotes
/// emits exactly the branch pair of that code, and lands in exactly the next
/// trellis state.
proof fn lemma_state_conversion_round_trip(state: u8, b: bool)
    requires
        state < 4,
    ensures
        two_bit(
            saturated(state & 1) ^ saturated(state & 2) ^ saturated(if b { 1u8 } else { 0u8 }),
            saturated(state & 2) ^ saturated(if b { 1u8 } else { 0u8 }),
        ) == branch_code(state, b),
        two_bit(saturated(state & 1), saturated(if b { 1u8 } else { 0u8 })) == lane_next(state, b),
{
    assert(state == 0 || state == 1 || state == 2 || state == 3) by (bit_vector)
        requires
            state < 4,
    ;
    assert(0u8 & 1 == 0 && 0u8 & 2 == 0 && 1u8 & 1 == 1 && 1u8 & 2 == 0 && 2u8 & 1 == 0 && 2u8 & 2
        == 2 && 3u8 & 1 == 1 && 3u8 & 2 == 2) by (bit_vector);
    assert(0u8 ^ 0u8 == 0 && 0u8 ^ 0xFFu8 == 0xFF && 0xFFu8 ^ 0u8 == 0xFF && 0xFFu8 ^ 0xFF == 0)
        by (bit_vector);
}

} // verus!
