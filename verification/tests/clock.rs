use deterministic::clock::{Clock, TestClock, Timespec};
use deterministic::corruption::CorruptionStyle;
use deterministic::transport::Msg;

#[test]
fn a_test_clock_starts_at_zero() {
    let clock = TestClock::new();
    assert_eq!(clock.now(), Timespec { sec: 0, nsec: 0 });
}

#[test]
fn a_sleep_adds_nanoseconds() {
    let mut clock = TestClock::new();
    clock.sleep_ms(300);
    assert_eq!(clock.now(), Timespec { sec: 0, nsec: 300_000_000 });
    clock.sleep_ms(1);
    assert_eq!(clock.now(), Timespec { sec: 0, nsec: 301_000_000 });
}

#[test]
fn nanoseconds_beyond_a_second_are_carried_over() {
    let mut clock = TestClock::new();
    clock.sleep_ms(600);
    clock.sleep_ms(600);
    assert_eq!(clock.now(), Timespec { sec: 1, nsec: 200_000_000 });
}

#[test]
fn exactly_one_second_is_not_carried_over() {
    let mut clock = TestClock::new();
    clock.sleep_ms(500);
    clock.sleep_ms(500);
    assert_eq!(clock.now(), Timespec { sec: 0, nsec: 1_000_000_000 });
    clock.sleep_ms(1);
    assert_eq!(clock.now(), Timespec { sec: 1, nsec: 1_000_000 });
}

#[test]
fn a_sleep_of_whole_millions_of_milliseconds_adds_nothing() {
    let mut clock = TestClock::new();
    clock.sleep_ms(3_000_000);
    assert_eq!(clock.now(), Timespec { sec: 0, nsec: 0 });
    clock.sleep_ms(1_000_002);
    assert_eq!(clock.now(), Timespec { sec: 0, nsec: 2_000_000 });
}

#[test]
fn nanoseconds_are_cut_to_thirty_two_bits() {
    // 5000 ms are 5_000_000_000 ns, which is 705_032_704 after the cut.
    let mut clock = TestClock::new();
    clock.sleep_ms(5000);
    assert_eq!(clock.now(), Timespec { sec: 0, nsec: 705_032_704 });
}

#[test]
fn messages_and_corruption_styles_compare_by_value() {
    assert_eq!(Msg { inner: 3 }, Msg { inner: 3 });
    assert_ne!(Msg { inner: 3 }, Msg { inner: 4 });
    assert_ne!(CorruptionStyle::JournaledFs, CorruptionStyle::UnjournaledFs);
    assert_eq!(CorruptionStyle::CosmicRay, CorruptionStyle::CosmicRay);
    assert_ne!(CorruptionStyle::CosmicRay, CorruptionStyle::InfantWithMagnet);
}

#[test]
fn nanoseconds_wrap_around_at_the_end_of_their_type() {
    let mut clock = TestClock::new();
    clock.sleep_ms(2147);
    assert_eq!(clock.now(), Timespec { sec: 2, nsec: 147_000_000 });
    // 147_000_000 + 2_147_000_000 is 2_294_000_000, which wraps to -2_000_967_296.
    clock.sleep_ms(2147);
    assert_eq!(clock.now(), Timespec { sec: 2, nsec: -2_000_967_296 });
}
