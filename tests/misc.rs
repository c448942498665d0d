use packetloss::args::is_int;
use packetloss::schedule::Sleep;

#[test]
fn integers_are_accepted() {
    assert_eq!(is_int("0".to_string()), Ok(()));
    assert_eq!(is_int("20475".to_string()), Ok(()));
    assert_eq!(is_int("+5".to_string()), Ok(()));
    assert_eq!(is_int("18446744073709551615".to_string()), Ok(()));
}

#[test]
fn other_text_is_refused() {
    let err = Err("Value must be an integer".to_string());
    assert_eq!(is_int("".to_string()), err);
    assert_eq!(is_int("+".to_string()), err);
    assert_eq!(is_int("-1".to_string()), err);
    assert_eq!(is_int("12a".to_string()), err);
    assert_eq!(is_int(" 1".to_string()), err);
    assert_eq!(is_int("1.5".to_string()), err);
    assert_eq!(is_int("18446744073709551616".to_string()), err);
    assert_eq!(is_int("99999999999999999999x".to_string()), err);
}

#[test]
fn sleep_ends_after_its_time() {
    let s = Sleep::new();
    assert!(s.done(0));
    let s = Sleep::sleep(100, 50);
    assert!(!s.done(149));
    assert!(s.done(150));
    assert_eq!(s.remaining(120), 30);
    assert_eq!(s.remaining(500), 0);
    let far = Sleep::sleep(u64::MAX - 1, 10);
    assert_eq!(far.ready_at, u64::MAX);
}
