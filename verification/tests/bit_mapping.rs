use viterbi::common::combine;
use viterbi::common::combine_old;
use viterbi::common::map_to;
use viterbi::common::squish;
use viterbi::common::stretch;
use viterbi::common::BIT_MASK;

#[test]
fn test_squish() {
    assert_eq!(squish(0), 0);

    for i in 1u8..=255 {
        assert_eq!(squish(i), 1);
    }
}

#[test]
fn test_stretch() {
    assert_eq!(stretch(0), 0);

    for i in 1u8..=255 {
        assert_eq!(stretch(i), 0xFF);
    }
}

#[test]
fn test_map_to() {
    for x in 0..=255 {
        assert_eq!(map_to(0, x), 0);

        for i in 1u8..=255 {
            assert_eq!(map_to(i, x), x);
        }
    }
}

#[test]
fn test_combine() {
    for x in BIT_MASK {
        assert_eq!(combine(0, 0), 0);
        assert_eq!(combine(x, 0), 2);
        assert_eq!(combine(0, x), 1);
        assert_eq!(combine(x, x), 3);
    }
}

#[test]
fn test_combine_old_agrees() {
    for s1 in [0u8, 1, 2, 0x80, 0xFF] {
        for s0 in [0u8, 1, 2, 0x80, 0xFF] {
            assert_eq!(combine_old(s1, s0), combine(s1, s0));
        }
    }
}

#[test]
fn test_squish_idempotent() {
    for x in 0..=255u8 {
        assert_eq!(squish(squish(x)), squish(x));
    }
}

#[test]
fn test_stretch_of_squish() {
    for x in 0..=255u8 {
        assert_eq!(stretch(squish(x)), stretch(x));
    }
}
