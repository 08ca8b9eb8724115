use reuron::pacing::{Pacer, Wait};

#[test]
fn a_runner_ahead_of_its_target_sleeps() {
    let mut pacer = Pacer::new(1_000);
    assert_eq!(pacer.target, 1_000);
    pacer.advance(250);
    assert_eq!(pacer.target, 1_250);
    assert_eq!(pacer.wait(1_100), Wait::Sleep(150));
    assert_eq!(pacer.wait(1_000), Wait::Sleep(250));
}

#[test]
fn a_runner_on_its_target_goes_on() {
    let mut pacer = Pacer::new(0);
    assert_eq!(pacer.wait(0), Wait::Due);
    pacer.advance(40);
    assert_eq!(pacer.wait(40), Wait::Due);
}

#[test]
fn a_runner_behind_its_target_is_told_by_how_much() {
    let mut pacer = Pacer::new(500);
    pacer.advance(100);
    assert_eq!(pacer.wait(601), Wait::Late(1));
    assert_eq!(pacer.wait(u64::MAX), Wait::Late(u64::MAX - 600));
}

#[test]
fn targets_lie_one_period_apart_whatever_the_clock_says() {
    let mut pacer = Pacer::new(10);
    let mut waits = Vec::new();
    for now in [15u64, 60, 61, 62] {
        pacer.advance(20);
        waits.push(pacer.wait(now));
    }
    assert_eq!(pacer.target, 90);
    assert_eq!(waits, vec![Wait::Sleep(15), Wait::Late(10), Wait::Sleep(9), Wait::Sleep(28)]);
}

#[test]
fn the_target_stops_at_the_end_of_the_clock() {
    let mut pacer = Pacer::new(u64::MAX - 5);
    pacer.advance(5);
    assert_eq!(pacer.target, u64::MAX);
    pacer.advance(1);
    assert_eq!(pacer.target, u64::MAX);
    pacer.advance(u64::MAX);
    assert_eq!(pacer.target, u64::MAX);
}
