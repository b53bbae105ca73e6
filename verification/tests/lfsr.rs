use dsa_in_rust::misc::lfsr::LFSR;

/*
Testing the output bits is trivial for the first 32 of them
It'd be better to check state and check generated bits I think
*/

#[test]
fn next_bit_correct() {
    let mut l = LFSR::new();
    let expected = [1, 1];
    println!("{:b}", l.get_state());
    for i in 0..expected.len() {
        assert_eq!(l.next_bit(), expected[i]);
        println!("{:032b}", l.get_state());
    }
}

#[test]
fn new_starts_at_fixed_seed() {
    let l = LFSR::new();
    assert_eq!(l.get_state(), 0xdeadbeef);
    let l2 = LFSR::new_with_state(0x1234_5678);
    assert_eq!(l2.get_state(), 0x1234_5678);
}

#[test]
fn recurrence_is_deterministic_in_the_seed() {
    let mut a = LFSR::new();
    let mut b = LFSR::new_with_state(0xdeadbeef);
    for _i in 0..100 {
        assert_eq!(a.next_bit(), b.next_bit());
        assert_eq!(a.get_state(), b.get_state());
    }
    assert_eq!(a.rand(), b.rand());
}

#[test]
fn next_bit_follows_the_tap_recurrence() {
    let mut l = LFSR::new();
    for _i in 0..64 {
        let s = l.get_state();
        let feedback = ((s >> 0) & 1) ^ ((s >> 25) & 1) ^ ((s >> 27) & 1) ^ ((s >> 29) & 1)
            ^ ((s >> 30) & 1) ^ ((s >> 31) & 1);
        let bit = l.next_bit();
        assert_eq!(bit, s & 1);
        assert_eq!(l.get_state(), (s >> 1) | (feedback << 31));
    }
}

#[test]
fn rand_assembles_output_bits_low_first() {
    let mut a = LFSR::new();
    let mut bits = LFSR::new();
    let word = a.rand();
    for i in 0..32 {
        assert_eq!((word >> i) & 1, bits.next_bit());
    }
    assert_eq!(a.get_state(), bits.get_state());
}
