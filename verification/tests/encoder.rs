use viterbi::encode::EncoderState;

fn convert(x: u8) -> (u8, u8) {
    match x {
        0b00 => (0x00, 0x00),
        0b01 => (0xFF, 0x00),
        0b10 => (0x00, 0xFF),
        0b11 => (0xFF, 0xFF),
        _ => unreachable!(),
    }
}

fn eq(state: &EncoderState, x: u8) {
    let (a, b) = convert(x);
    assert_eq!(state.0, a);
    assert_eq!(state.1, b);
}

#[test]
fn test_state_updating() {
    let mut state = EncoderState::default();

    state.update(0x00);
    eq(&state, 0b00);
    state.update(0xFF);
    eq(&state, 0b01);
    state.update(0x00);
    eq(&state, 0b10);

    state = EncoderState(0xFF, 0x00);
    state.update(0xFF);
    eq(&state, 0b11);
    state.update(0xFF);
    eq(&state, 0b11);
    state.update(0x00);
    eq(&state, 0b10);
    state.update(0xFF);
    eq(&state, 0b01);

    state = EncoderState(0x00, 0xFF);
    state.update(0x00);
    eq(&state, 0b00);
}

#[test]
fn test_to_from_encoder_state() {
    for x in 0u8..4 {
        let state: EncoderState = x.into();
        let back: u8 = state.into();
        assert_eq!(x, back);
    }
}

#[test]
fn test_to_encoder_state() {
    let mut state: EncoderState = 0b10.into();
    assert_eq!(state.1, 0xFF);

    state = 0b01.into();
    assert_eq!(state.0, 0xFF);
}

#[test]
fn test_push_outputs() {
    let mut state = EncoderState::default();

    assert_eq!(state.push(0xFF), (0xFF, 0xFF));
    assert_eq!(state.push(0x10), (0x10, 0xEF));
    assert_eq!(state.push(0x00), (0xFF, 0xEF));
}

#[test]
fn test_push_slice_interleaves_pairs() {
    let bytes = vec![0xFF, 0x10, 0x00];

    let mut by_pairs = EncoderState::default();
    let mut expected: Vec<u8> = Vec::new();
    for &b in &bytes {
        let (a, c) = by_pairs.push(b);
        expected.push(a);
        expected.push(c);
    }

    let mut whole = EncoderState::default();
    let encoded = whole.push_slice(&bytes);

    assert_eq!(encoded, expected);
    assert_eq!(encoded.len(), 2 * bytes.len());
}

#[test]
fn test_input_w_bitpair_return() {
    // one lane: pushing a saturated one from the all-zero state emits the
    // pair (1, 1), coded as 0b11
    let mut state = EncoderState::default();
    assert_eq!(state.input_w_bitpair_return(0xFF), 0b11);
    // now newer = 0xFF, older = 0: pushing zero emits (0, 1), coded as 0b10
    assert_eq!(state.input_w_bitpair_return(0x00), 0b10);
}
