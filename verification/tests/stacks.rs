use dirdiff::path::RelativePath;
use dirdiff::stack::{StackHandle, StackUnit, StealOutcome};
use dirdiff::worker::{idle_step, IdleStep};

fn unit(name: &str) -> StackUnit {
    let mut dir = RelativePath::new();
    dir.push(name.as_bytes().to_vec());
    StackUnit { dir }
}

fn name_of(unit: &StackUnit) -> String {
    String::from_utf8(unit.dir.components[0].clone()).unwrap()
}

fn show(outcome: &StealOutcome) -> String {
    match outcome {
        StealOutcome::Empty => "empty".to_string(),
        StealOutcome::Retry => "retry".to_string(),
        StealOutcome::Success(u) => name_of(u),
    }
}

#[test]
fn a_success_stays_whatever_follows() {
    assert_eq!(show(&StealOutcome::Success(unit("a")).followed_by(StealOutcome::Empty)), "a");
    assert_eq!(show(&StealOutcome::Success(unit("a")).followed_by(StealOutcome::Retry)), "a");
    assert_eq!(
        show(&StealOutcome::Success(unit("a")).followed_by(StealOutcome::Success(unit("b")))),
        "a"
    );
}

#[test]
fn a_retry_outweighs_an_empty_stack() {
    assert_eq!(show(&StealOutcome::Retry.followed_by(StealOutcome::Empty)), "retry");
    assert_eq!(show(&StealOutcome::Empty.followed_by(StealOutcome::Retry)), "retry");
    assert_eq!(show(&StealOutcome::Retry.followed_by(StealOutcome::Retry)), "retry");
    assert_eq!(show(&StealOutcome::Empty.followed_by(StealOutcome::Empty)), "empty");
}

#[test]
fn a_success_that_follows_wins() {
    assert_eq!(show(&StealOutcome::Empty.followed_by(StealOutcome::Success(unit("b")))), "b");
    assert_eq!(show(&StealOutcome::Retry.followed_by(StealOutcome::Success(unit("b")))), "b");
}

#[test]
fn a_round_of_attempts_comes_to_what_the_deque_crate_documents() {
    let round = |attempts: Vec<StealOutcome>| {
        let mut so_far = StealOutcome::Empty;
        for a in attempts {
            if so_far.is_success() {
                break;
            }
            so_far = so_far.followed_by(a);
        }
        show(&so_far)
    };
    let empty = || StealOutcome::Empty;
    let retry = || StealOutcome::Retry;
    let success = |name: &str| StealOutcome::Success(unit(name));
    assert_eq!(round(vec![empty(), empty(), empty()]), "empty");
    assert_eq!(round(vec![empty(), retry(), empty()]), "retry");
    assert_eq!(round(vec![retry(), success("1"), empty()]), "1");
    assert_eq!(round(vec![empty(), success("1"), success("2")]), "1");
    assert_eq!(round(vec![]), "empty");
}

#[test]
fn is_success_tells_a_success() {
    assert!(StealOutcome::Success(unit("a")).is_success());
    assert!(!StealOutcome::Empty.is_success());
    assert!(!StealOutcome::Retry.is_success());
}

#[test]
fn every_worker_can_steal_from_all_the_others() {
    for n in [1u16, 2, 3, 8] {
        let handles = StackHandle::new(n);
        assert_eq!(handles.len(), n as usize);
        for h in &handles {
            assert_eq!(h.peers(), n as usize - 1);
        }
    }
    assert!(StackHandle::new(0).is_empty());
}

#[test]
fn fresh_stacks_have_nothing_to_steal() {
    for n in [1u16, 2, 5] {
        for h in StackHandle::new(n) {
            assert_eq!(show(&h.steal_round()), "empty");
        }
    }
}

#[test]
fn an_idle_worker_resumes_with_what_it_has_stolen() {
    for non_idle in [None, Some(0), Some(3)] {
        match idle_step(StealOutcome::Success(unit("d")), non_idle) {
            IdleStep::Resume(u) => assert_eq!(name_of(&u), "d"),
            other => panic!("unexpected {other:?}"),
        }
    }
}

#[test]
fn an_idle_worker_tries_again_after_a_retry() {
    for non_idle in [None, Some(0), Some(3)] {
        assert!(matches!(idle_step(StealOutcome::Retry, non_idle), IdleStep::RetrySoon));
    }
}

#[test]
fn an_idle_worker_ends_when_no_worker_is_left_that_is_not_idle() {
    assert!(matches!(idle_step(StealOutcome::Empty, Some(0)), IdleStep::Quit));
}

#[test]
fn an_idle_worker_waits_while_others_are_at_work() {
    assert!(matches!(idle_step(StealOutcome::Empty, Some(1)), IdleStep::WaitForWork));
    assert!(matches!(idle_step(StealOutcome::Empty, Some(u16::MAX)), IdleStep::WaitForWork));
    assert!(matches!(idle_step(StealOutcome::Empty, None), IdleStep::WaitForWork));
}
