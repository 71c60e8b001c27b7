use file_mover::control::{next_step, Phase, Step, PAUSE_SECONDS};

/// The first `count` steps of a loop.
fn steps(repeat: bool, count: usize) -> Vec<Step> {
    let mut phase = Phase::Begin;
    let mut taken = Vec::new();
    for _ in 0..count {
        let (next, step) = next_step(phase, repeat);
        phase = next;
        taken.push(step);
    }
    taken
}

#[test]
fn the_pause_lasts_one_second() {
    assert_eq!(PAUSE_SECONDS, 1);
}

#[test]
fn a_loop_begins_with_a_pass() {
    assert_eq!(next_step(Phase::Begin, false), (Phase::Passed, Step::Pass));
    assert_eq!(next_step(Phase::Begin, true), (Phase::Passed, Step::Pass));
}

#[test]
fn a_single_pass_is_followed_by_the_end() {
    assert_eq!(next_step(Phase::Passed, false), (Phase::Stopped, Step::Stop));
    assert_eq!(steps(false, 4), vec![Step::Pass, Step::Stop, Step::Stop, Step::Stop]);
}

#[test]
fn a_repeating_loop_pauses_between_passes() {
    assert_eq!(next_step(Phase::Passed, true), (Phase::Paused, Step::Pause { seconds: 1 }));
    assert_eq!(next_step(Phase::Paused, true), (Phase::Passed, Step::Pass));
    assert_eq!(
        steps(true, 5),
        vec![
            Step::Pass,
            Step::Pause { seconds: 1 },
            Step::Pass,
            Step::Pause { seconds: 1 },
            Step::Pass,
        ]
    );
}

#[test]
fn a_repeating_loop_never_stops() {
    assert!(steps(true, 1000).iter().all(|step| *step != Step::Stop));
}

#[test]
fn a_stopped_loop_stays_stopped() {
    assert_eq!(next_step(Phase::Stopped, false), (Phase::Stopped, Step::Stop));
    assert_eq!(next_step(Phase::Stopped, true), (Phase::Stopped, Step::Stop));
}

#[test]
fn a_pass_follows_a_pause_even_without_repeat() {
    assert_eq!(next_step(Phase::Paused, false), (Phase::Passed, Step::Pass));
}
