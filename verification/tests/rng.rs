use rustgpt::rng::Rng;

#[test]
fn same_seed_same_sequence() {
    let mut a = Rng::seed(42);
    let mut b = Rng::seed(42);
    for i in 0..1000 {
        assert_eq!(a.next_u64(), b.next_u64(), "streams diverged at draw {i}");
    }

    // A different seed must not give the same stream.
    let mut c = Rng::seed(42);
    let mut d = Rng::seed(43);
    let differs = (0..1000).any(|_| c.next_u64() != d.next_u64());
    assert!(differs, "seed 43 gave the same first 1000 draws as seed 42");
}

#[test]
fn xorshift_known_outputs() {
    // Three xor-shifts of the state, then the state times the odd constant.
    let mut r = Rng::seed(1);
    assert_eq!(r.next_u64(), 5180492295206395165);

    let mut r = Rng::seed(42);
    assert_eq!(r.next_u64(), 6255019084209693600);
    assert_eq!(r.next_u64(), 14430073426741505498);
    assert_eq!(r.next_u64(), 14575455857230217846);
}

#[test]
fn bits53_are_the_top_bits_of_a_draw() {
    let mut r = Rng::seed(42);
    assert_eq!(r.next_bits53(), 3054208537211764);
    assert_eq!(r.next_bits53(), 7045934290401125);

    let mut a = Rng::seed(7);
    let mut b = Rng::seed(7);
    for _ in 0..10_000 {
        let x = a.next_bits53();
        assert!(x < (1u64 << 53));
        assert_eq!(x, b.next_u64() >> 11);
    }
}

#[test]
fn cache_holds_one_draw_and_leaves_the_stream_alone() {
    let mut a = Rng::seed(9);
    let mut b = Rng::seed(9);
    assert_eq!(a.take_cached(), None);
    a.set_cached(1234);
    assert_eq!(a.take_cached(), Some(1234));
    assert_eq!(a.take_cached(), None);
    // The cache never touches the state.
    a.set_cached(5);
    for _ in 0..100 {
        assert_eq!(a.next_u64(), b.next_u64());
    }
    assert_eq!(a.take_cached(), Some(5));
}

#[test]
fn state_never_sticks_at_zero() {
    // From a nonzero seed the output never repeats a stuck zero run.
    let mut r = Rng::seed(u64::MAX);
    let mut zeros = 0;
    for _ in 0..10_000 {
        if r.next_u64() == 0 {
            zeros += 1;
        }
    }
    assert!(zeros < 2);
}
