//! The convolutional encoder: a two-symbol shift register that emits two
//! redundant output symbols per input symbol via XOR combination. Over a full
//! byte, every bit position is an independent encoder lane, because XOR never
//! carries between bit positions.

use vstd::prelude::*;
use crate::common::combine;
use crate::common::saturated;
use crate::common::stretch;
use crate::common::two_bit;

verus! {

/// The symbol the encoder holds as `newer` just before consuming `data[i]`,
/// having started with `newer == n0`.
pub open spec fn newer_before(n0: u8, data: Seq<u8>, i: int) -> u8 {
    if i >= 1 {
        data[i - 1]
    } else {
        n0
    }
}

/// The symbol the encoder holds as `older` just before consuming `data[i]`,
/// having started with `newer == n0` and `older == o0`.
pub open spec fn older_before(n0: u8, o0: u8, data: Seq<u8>, i: int) -> u8 {
    if i >= 2 {
        data[i - 2]
    } else if i == 1 {
        n0
    } else {
        o0
    }
}

/// The first output symbol the encoder emits for `data[i]`.
pub open spec fn first_out(n0: u8, o0: u8, data: Seq<u8>, i: int) -> u8 {
    older_before(n0, o0, data, i) ^ data[i]
}

/// The second output symbol the encoder emits for `data[i]`.
pub open spec fn second_out(n0: u8, o0: u8, data: Seq<u8>, i: int) -> u8 {
    newer_before(n0, data, i) ^ older_before(n0, o0, data, i) ^ data[i]
}

/// The full transmit stream for `data`, starting from state `(n0, o0)`:
/// twice as long as the input, each input symbol's two output symbols
/// standing adjacently, the first one first.
pub open spec fn encoded_from(n0: u8, o0: u8, data: Seq<u8>) -> Seq<u8> {
    Seq::new(
        2 * data.len(),
        |j: int|
            if j % 2 == 0 {
                first_out(n0, o0, data, j / 2)
            } else {
                second_out(n0, o0, data, j / 2)
            },
    )
}

/// The transmit stream for `data` from a fresh (all-zero) encoder.
pub open spec fn encoded(data: Seq<u8>) -> Seq<u8> {
    encoded_from(0, 0, data)
}

/// represents the internal state of multiple encoders. (each bit is its own
/// encoder)
///
/// The first field is the newer symbol, the second the older one.
#[derive(Clone, Debug)]
pub struct EncoderState(pub u8, pub u8);

/// The two-bit trellis code of an encoder state: the older symbol gives the
/// high bit, the newer one the low bit.
pub open spec fn state_code(e: EncoderState) -> u8 {
    two_bit(e.1, e.0)
}

impl Default for EncoderState {
    /// A fresh encoder assumes an all-zero history.
    fn default() -> (r: Self)
        ensures
            r.0 == 0,
            r.1 == 0,
    {
        EncoderState(0, 0)
    }
}

impl From<u8> for EncoderState {
    /// The encoder state whose trellis code is `value`; only the low two bits
    /// of `value` are read.
    fn from(value: u8) -> (r: Self)
        ensures
            r.0 == saturated(value & 1),
            r.1 == saturated(value & 2),
    {
        EncoderState(stretch(value & 1), stretch(value & 2))
    }
}

impl vstd::std_specs::convert::FromSpecImpl<u8> for EncoderState {
    open spec fn obeys_from_spec() -> bool {
        true
    }

    open spec fn from_spec(value: u8) -> EncoderState {
        EncoderState(saturated(value & 1), saturated(value & 2))
    }
}

impl From<EncoderState> for u8 {
    /// The two-bit trellis code of an encoder state.
    fn from(value: EncoderState) -> (r: Self)
        ensures
            r == state_code(value),
            r < 4,
    {
        combine(value.1, value.0)
    }
}

impl vstd::std_specs::convert::FromSpecImpl<EncoderState> for u8 {
    open spec fn obeys_from_spec() -> bool {
        true
    }

    open spec fn from_spec(value: EncoderState) -> u8 {
        state_code(value)
    }
}

impl EncoderState {
    /// input a chunk to the encoder, updating state and returning the 2 chunks
    /// that should be transmitted
    pub fn push(&mut self, chunk: u8) -> (ans: (u8, u8))
        ensures
            ans.0 == old(self).1 ^ chunk,
            ans.1 == old(self).0 ^ old(self).1 ^ chunk,
            final(self).0 == chunk,
            final(self).1 == old(self).0,
    {
        let ans = (self.1 ^ chunk, self.0 ^ self.1 ^ chunk);

        self.update(chunk);

        ans
    }

    #[inline]
    fn shift(&mut self)
        ensures
            final(self).0 == old(self).0,
            final(self).1 == old(self).0,
    {
        self.1 = self.0;
    }

    #[inline]
    /// update the state.
    pub fn update(&mut self, chunk: u8)
        ensures
            final(self).0 == chunk,
            final(self).1 == old(self).0,
    {
        self.shift();
        self.0 = chunk;
    }

    /// does the same thing as push, but it combines the 2 output symbols into
    /// a two-bit pair, the second output giving the high bit
    ///
    /// NOTE: this won't work in a useful manner if you are using the
    /// EncoderState to encode multiple bits side by side
    pub fn input_w_bitpair_return(&mut self, byte: u8) -> (r: u8)
        ensures
            r == two_bit(old(self).0 ^ old(self).1 ^ byte, old(self).1 ^ byte),
            r < 4,
            final(self).0 == byte,
            final(self).1 == old(self).0,
    {
        let (s0, s1) = self.push(byte);
        combine(s1, s0)
    }

    /// Encode a whole slice: two output symbols per input symbol, in encounter
    /// order, the state advancing over every element.
    pub fn push_slice(&mut self, arr: &[u8]) -> (ans: Vec<u8>)
        requires
            2 * arr@.len() <= usize::MAX,
        ensures
            ans@ == encoded_from(old(self).0, old(self).1, arr@),
            final(self).0 == newer_before(old(self).0, arr@, arr@.len() as int),
            final(self).1 == older_before(old(self).0, old(self).1, arr@, arr@.len() as int),
    {
        let ghost n0 = self.0;
        let ghost o0 = self.1;
        let mut ans: Vec<u8> = Vec::with_capacity(arr.len() * 2);

        let mut i: usize = 0;
        while i < arr.len()
            invariant
                i <= arr@.len(),
                2 * arr@.len() <= usize::MAX,
                ans@.len() == 2 * i,
                self.0 == newer_before(n0, arr@, i as int),
                self.1 == older_before(n0, o0, arr@, i as int),
                forall|j: int|
                    0 <= j < 2 * i ==> ans@[j] == #[trigger] encoded_from(n0, o0, arr@)[j],
            decreases arr@.len() - i,
        {
            let (a, b) = self.push(arr[i]);
            ans.push(a);
            ans.push(b);
            i = i + 1;
        }

        proof {
            assert(ans@ =~= encoded_from(n0, o0, arr@));
        }
        ans
    }
}

} // verus!
