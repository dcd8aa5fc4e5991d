use rastd::sync::latch::{Countdown, Signal};

#[test]
fn countdown_reaches_zero_once() {
    let mut countdown = Countdown::new(3);
    assert_eq!(countdown.remaining(), 3);
    assert!(countdown.must_wait());
    assert_eq!(countdown.count_down(), Signal::Quiet);
    assert_eq!(countdown.remaining(), 2);
    assert_eq!(countdown.count_down(), Signal::Quiet);
    assert_eq!(countdown.remaining(), 1);
    assert!(countdown.must_wait());
    assert_eq!(countdown.count_down(), Signal::WakeAll);
    assert_eq!(countdown.remaining(), 0);
    assert!(!countdown.must_wait());
    assert_eq!(countdown.count_down(), Signal::Quiet);
    assert_eq!(countdown.remaining(), 0);
}

#[test]
fn countdown_from_zero_is_open() {
    let mut countdown = Countdown::new(0);
    assert!(!countdown.must_wait());
    assert_eq!(countdown.count_down(), Signal::Quiet);
    assert_eq!(countdown.remaining(), 0);
}

#[test]
fn countdown_from_one() {
    let mut countdown = Countdown::new(1);
    assert!(countdown.must_wait());
    assert_eq!(countdown.count_down(), Signal::WakeAll);
    assert!(!countdown.must_wait());
}
