use viterbi::prelude::DecoderState;
use viterbi::prelude::EncoderState;

fn round_trip(bytes: &[u8]) -> Vec<u8> {
    let mut encoder: EncoderState = EncoderState::default();
    let data_encoded = encoder.push_slice(bytes);
    assert_eq!(data_encoded.len(), 2 * bytes.len());

    let mut decoder = DecoderState::new(bytes.len());
    decoder.push_slice(&data_encoded);
    decoder.read()
}

#[test]
fn test_round_trip_1() {
    let bytes = vec![0xFF, 0x10, 0x00];

    let mut encoder: EncoderState = EncoderState::default();
    let data_encoded = encoder.push_slice(&bytes);

    let mut decoder = DecoderState::new(bytes.len());
    decoder.push_slice(&data_encoded);
    let output = decoder.read();

    assert_eq!(bytes, output);
}

#[test]
fn round_trip_all_3_bit_sequences() {
    let bytes = vec![0b11110000, 0b11001100, 0b10101010];

    let mut encoder: EncoderState = EncoderState::default();
    let data_encoded = encoder.push_slice(&bytes);

    let mut decoder = DecoderState::new(bytes.len());
    decoder.push_slice(&data_encoded);
    let output = decoder.read();

    assert_eq!(bytes, output);
}

#[test]
fn round_trip_shortest_packet() {
    let bytes = vec![0x00, 0x00];
    assert_eq!(round_trip(&bytes), bytes);

    let bytes = vec![0xFF, 0xFF];
    assert_eq!(round_trip(&bytes), bytes);

    let bytes = vec![0xA5, 0x5A];
    assert_eq!(round_trip(&bytes), bytes);
}

#[test]
fn round_trip_longest_packet() {
    let mut bytes: Vec<u8> = Vec::new();
    let mut seed: u32 = 0x2545F491;
    for _ in 0..127 {
        // a small linear congruential generator for repeatable varied bytes
        seed = seed.wrapping_mul(1664525).wrapping_add(1013904223);
        bytes.push((seed >> 24) as u8);
    }
    assert_eq!(bytes.len(), 127);
    assert_eq!(round_trip(&bytes), bytes);
}

#[test]
fn round_trip_every_length() {
    let mut seed: u32 = 0xDEADBEEF;
    for len in 2usize..=127 {
        let mut bytes: Vec<u8> = Vec::new();
        for _ in 0..len {
            seed = seed.wrapping_mul(1664525).wrapping_add(1013904223);
            bytes.push((seed >> 24) as u8);
        }
        assert_eq!(round_trip(&bytes), bytes, "failed at packet length {}", len);
    }
}

#[test]
fn round_trip_repeated_pushes() {
    // drive the decoder pair by pair instead of with one whole buffer
    let bytes = vec![0x01, 0x80, 0x7E, 0x33];

    let mut encoder: EncoderState = EncoderState::default();
    let encoded = encoder.push_slice(&bytes);

    let mut decoder = DecoderState::new(bytes.len());
    for pair in encoded.chunks(2) {
        decoder.push(pair[0], pair[1]);
    }
    assert_eq!(decoder.read(), bytes);
}
