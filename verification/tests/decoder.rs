use viterbi::decode::single_bit_decode::Link;

#[test]
fn decode_test_hamming_distance() {
    assert_eq!(Link::hamming_dist(255, 0), 8);
    assert_eq!(Link::hamming_dist(1, 0), 1);
    assert_eq!(Link::hamming_dist(0, 0), 0);
    assert_eq!(Link::hamming_dist(255, 255), 0);
    assert_eq!(Link::hamming_dist(0b00010101, 0b00000100), 2);
}

#[test]
fn single_bit_decode_test_hamming_distance() {
    assert_eq!(Link::hamming_dist(255, 0), 8);
    assert_eq!(Link::hamming_dist(1, 0), 1);
    assert_eq!(Link::hamming_dist(2, 0), 1);
    assert_eq!(Link::hamming_dist(2, 1), 2);
    assert_eq!(Link::hamming_dist(0, 0), 0);
    assert_eq!(Link::hamming_dist(255, 255), 0);
    assert_eq!(Link::hamming_dist(0b00010101, 0b00000100), 2);
}

#[test]
fn test_hamming_distance_symmetric() {
    for a in [0u8, 1, 2, 3, 0x55, 0xAA, 0xFF] {
        for b in [0u8, 1, 2, 3, 0x55, 0xAA, 0xFF] {
            assert_eq!(Link::hamming_dist(a, b), Link::hamming_dist(b, a));
        }
    }
}

#[test]
fn test_minimize_cost() {
    let mut link_a = Link { prev_state: 0, cost: 10 };

    let link_b = Link { prev_state: 1, cost: 11 };

    link_a.minimize_cost(link_b);

    assert_eq!(link_a.prev_state, 0);
    assert_eq!(link_a.cost, 10);

    let link_c = Link { prev_state: 2, cost: 9 };

    link_a.minimize_cost(link_c);

    assert_eq!(link_a.prev_state, 2);
    assert_eq!(link_a.cost, 9);
}

#[test]
fn test_minimize_cost_tie_keeps_incumbent() {
    let mut link_a = Link { prev_state: 0, cost: 7 };
    let link_b = Link { prev_state: 3, cost: 7 };

    link_a.minimize_cost(link_b);

    assert_eq!(link_a.prev_state, 0);
    assert_eq!(link_a.cost, 7);
}

#[test]
fn test_next_link() {
    let arr = Link::next(1, 2, 0);

    assert_eq!(arr[0].0, Link { prev_state: 1, cost: 0 });

    assert_eq!(arr[1].0, Link { prev_state: 1, cost: 2 });
}

#[test]
fn test_generate_link() {
    let (link_0, _) = Link::generate(1, 2, 0, 1);

    assert_eq!(link_0, Link { prev_state: 1, cost: 2 });
}

#[test]
fn test_link_costs_accumulate() {
    // every candidate's cost is the predecessor's cost plus a branch metric
    // of at most two, so costs never fall below the predecessor's
    for state in 0u8..4 {
        for bit_pair in 0u8..4 {
            for prev_cost in [0u8, 5, 100] {
                let arr = Link::next(state, bit_pair, prev_cost);
                for (link, pos) in arr {
                    assert!(link.cost >= prev_cost);
                    assert!(link.cost <= prev_cost + 2);
                    assert!(pos < 4);
                    assert_eq!(link.prev_state, state);
                }
            }
        }
    }
}
