use gnuradio_meta::rxtime::RxTime;

/// One nanosecond in 2^-64 s units, the tolerance the arithmetic tests
/// allow.
fn tolerance() -> RxTime {
    RxTime::new(0, (1e-9 * 2f64.powi(64)) as u64)
}

/// Half a second in 2^-64 s units.
fn half() -> u64 {
    1u64 << 63
}

#[test]
fn rxtime_arithmetic_small() {
    let tol = tolerance();
    let a = RxTime::new(4, half());
    let b = RxTime::new(1, half());
    let c = a.add(b);
    assert!(c.is_same_as(RxTime::new(6, 0), tol));
    let d = c.sub(b);
    assert!(d.is_same_as(a, tol));
    let e = c.sub(a);
    assert!(e.is_same_as(b, tol));
}

#[test]
fn rxtime_add_negative() {}

#[test]
fn rxtime_carry_is_exact() {
    let a = RxTime::new(0, half());
    let b = a.add(a);
    assert_eq!(b.to_units(), RxTime::new(1, 0).to_units());
    let z = b.sub(a).sub(a);
    assert_eq!(z.to_units(), 0);
}

#[test]
fn rxtime_negative_difference() {
    let a = RxTime::new(4, half());
    let b = RxTime::new(1, half());
    let d = b.sub(a);
    assert_eq!(d.to_units(), RxTime::new(-3, 0).to_units());
    assert_eq!(a.abs_diff(b), b.abs_diff(a));
    assert_eq!(a.abs_diff(b), 3u128 << 64);
}

#[test]
fn rxtime_checked_add_reports_overflow() {
    let big = RxTime::from_units(i128::MAX);
    assert!(big.checked_add(RxTime::new(0, 1)).is_none());
    assert!(big.checked_add(RxTime::new(0, 0)).is_some());
}

#[test]
fn rxtime_arithmetic_big() {
    // The same shapes at epoch magnitude; expectations follow the exact
    // carry arithmetic, so sums of two epoch-relative times carry the
    // epoch twice.
    let tol = tolerance();
    let start = RxTime::new(1758373503, 0);
    let a = start.add(RxTime::new(4, half()));
    let b = start.add(RxTime::new(1, half()));
    let c = a.add(b);
    assert!(c.is_same_as(start.add(start).add(RxTime::new(6, 0)), tol));
    let d = c.sub(b);
    assert!(d.is_same_as(a, tol));
    let e = c.sub(a);
    assert!(e.is_same_as(b, tol));
    let diff = b.sub(a);
    assert!(diff.is_same_as(RxTime::new(-3, 0), tol));
}
