use std::sync::Arc;

use eyre::Report;
use teamim_tools::job::{DrawIdle, Future, JobMessage, JobState, JobView, RecogKind};
use teamim_tools::poll::{BlurStatus, Poll, TryPoll};

#[test]
fn poll_accessors() {
    let mut pending: Poll<u32, &str> = Poll::Pending("loading");
    assert_eq!(pending.as_pending(), Some(&"loading"));
    assert_eq!(pending.as_ready(), None);
    if let Some(p) = pending.as_mut_pending() {
        *p = "almost";
    }
    assert_eq!(pending.as_pending(), Some(&"almost"));

    let mut ready: Poll<u32, &str> = Poll::Ready(5);
    assert_eq!(ready.as_ready(), Some(&5));
    assert_eq!(ready.as_pending(), None);
    assert_eq!(ready.as_mut_pending(), None);

    let default: Poll<u32, ()> = Poll::default();
    assert_eq!(default.as_ready(), Some(&0));
    assert!(matches!(Poll::<Option<u8>, BlurStatus>::Pending(BlurStatus::default()), Poll::Pending(BlurStatus::Blurring)));
}

#[test]
fn try_poll_accessors() {
    let mut ok: TryPoll<u32, ()> = Poll::Ready(Ok(1));
    assert_eq!(ok.as_ready_ok(), Some(&1));
    if let Some(v) = ok.ready_ok_mut() {
        *v = 2;
    }
    assert_eq!(ok.as_ready_ok(), Some(&2));

    let mut failed: TryPoll<u32, ()> = Poll::Ready(Err(Report::msg("failed")));
    assert_eq!(failed.as_ready_ok(), None);
    assert!(failed.ready_ok_mut().is_none());
    let running: TryPoll<u32, ()> = Poll::Pending(());
    assert_eq!(running.as_ready_ok(), None);
}

#[test]
fn job_state_accessors() {
    let mut state: JobState<Vec<u8>, ()> = JobState::default();
    assert_eq!(state.ready_ok(), Some(&Vec::new()));
    if let Some(v) = state.ready_ok_mut() {
        v.push(1);
    }
    assert_eq!(state.ready_ok(), Some(&vec![1]));
    let mut failed: JobState<u8, ()> = JobState::Ready(Err(Arc::new(Report::msg("no"))));
    assert_eq!(failed.ready_ok(), None);
    assert!(failed.ready_ok_mut().is_none());
    let running: JobState<u8, u8> = JobState::Running(3);
    assert_eq!(running.ready_ok(), None);
}

#[test]
fn job_view_starts_once() {
    let mut view = JobView::new(0u32, "הפעל", ());
    assert!(matches!(view.state, JobState::Ready(Ok(0))));
    assert_eq!(view.trigger_title, "הפעל");
    assert!(view.update(JobMessage::Trigger));
    assert!(matches!(view.state, JobState::Running(())));
    assert!(!view.update(JobMessage::Trigger));
    assert!(matches!(view.state, JobState::Running(())));
    assert!(!view.update(JobMessage::Ready(7)));
    assert!(matches!(view.state, JobState::Ready(Ok(7))));
    assert!(view.update(JobMessage::Trigger));
}

#[test]
fn future_map() {
    let ready: Future<(), u32> = Future::Ready(Ok(20));
    assert!(matches!(ready.map(|v| v + 1), Future::Ready(Ok(21))));
    let failed: Future<(), u32> = Future::Ready(Err(Report::msg("e")));
    match failed.map(|v| v + 1) {
        Future::Ready(Err(e)) => assert_eq!(e.to_string(), "e"),
        _ => panic!("the error stays"),
    }
    let pending: Future<&str, u32> = Future::Pending("p");
    assert!(matches!(pending.map(|v| v + 1), Future::Pending("p")));
}

#[test]
fn draw_idle_and_kinds() {
    let mut idle: DrawIdle<u8> = DrawIdle::Modified(1);
    assert_eq!(idle.modified(), Some(&1));
    if let Some(m) = idle.modified_mut() {
        *m = 2;
    }
    assert_eq!(idle.modified(), Some(&2));
    let mut none: DrawIdle<u8> = DrawIdle::Unmodified;
    assert_eq!(none.modified(), None);
    assert_eq!(none.modified_mut(), None);
    assert_eq!(RecogKind::Draw.title(), "צייר");
    assert_eq!(RecogKind::Diff.title(), "השווה");
}

#[test]
fn future_map_laws() {
    let same: Future<(), u32> = Future::Ready(Ok(4));
    assert!(matches!(same.map(|v| v), Future::Ready(Ok(4))));
    let twice: Future<(), u32> = Future::Ready(Ok(4));
    let once: Future<(), u32> = Future::Ready(Ok(4));
    let (a, b) = (twice.map(|v| v + 1).map(|v| v * 3), once.map(|v| (v + 1) * 3));
    assert!(matches!((a, b), (Future::Ready(Ok(15)), Future::Ready(Ok(15)))));
}
