use dreamer::xorshift::XorShift;

#[test]
fn stream_from_seed_42() {
    let mut rng = XorShift::new(42);
    assert_eq!(rng.0, 11400714819323198527);
    assert_eq!(rng.next(), 15860402061635094279);
    assert_eq!(rng.next(), 14193732238661411529);
    assert_eq!(rng.0, 14193732238661411529);
}

#[test]
fn seeds_wrap_around() {
    assert_eq!(XorShift::new(u64::MAX - 1).0, 11400714819323198483);
}

#[test]
fn zero_state_is_stuck() {
    let mut rng = XorShift(0);
    assert_eq!(rng.next(), 0);
    let mut other = XorShift(1);
    for _ in 0..1000 {
        assert_ne!(other.next(), 0);
    }
}

#[test]
fn different_seeds_stay_apart() {
    let mut a = XorShift::new(1);
    let mut b = XorShift::new(2);
    for _ in 0..1000 {
        assert_ne!(a.next(), b.next());
    }
}

#[test]
fn lots_are_drawn_until_one_fits() {
    let mut plain = XorShift::new(9);
    let stream: Vec<u64> = (0..40).map(|_| plain.next()).collect();
    let mut rng = XorShift::new(9);
    assert_eq!(rng.draw(3), stream[..3].to_vec());
    let wanted = stream[3 + 10] % 1000;
    let found = rng.draw_until(2, 100, |lot| (lot[0] % 1000, lot[1]), |p| p.0 == wanted);
    let first = (0..10).find(|k| stream[3 + 2 * k] % 1000 == wanted).unwrap();
    assert_eq!(found, Some((wanted, stream[3 + 2 * first + 1])));
    assert_eq!(rng.0, stream[3 + 2 * first + 1]);
    let mut other = XorShift::new(9);
    assert_eq!(other.draw_until(2, 5, |lot| lot[0], |_| false), None);
    assert_eq!(other.0, stream[9]);
}
