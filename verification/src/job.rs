//! Background jobs of the editors: whether one is running, what it gave, and
//! the decisions taken when a job is asked for or finishes.
use std::sync::Arc;
use vstd::prelude::*;

use eyre::Report;

verus! {

/// A job that has either not started yet or already finished, with its
/// result, or that is running, with what it reports meanwhile.
#[derive(Debug)]
pub enum JobState<Ready, Running> {
    Ready(Result<Ready, Arc<Report>>),
    Running(Running),
}

impl<Ready: Default, Running> Default for JobState<Ready, Running> {
    /// Not started, with the default value.
    fn default() -> (res: Self)
        ensures
            res matches JobState::Ready(Ok(_)),
    {
        JobState::Ready(Ok(Ready::default()))
    }
}

impl<Ready, Running> JobState<Ready, Running> {
    /// The value, if the job is not running and did not fail.
    pub fn ready_ok(&self) -> (res: Option<&Ready>)
        ensures
            match *self {
                JobState::Ready(Ok(r)) => res == Some(&r),
                _ => res is None,
            },
    {
        if let JobState::Ready(Ok(ready)) = self {
            Some(ready)
        } else {
            None
        }
    }

    /// Mutable access to the value, if the job is not running and did not fail.
    pub fn ready_ok_mut(&mut self) -> (res: Option<&mut Ready>)
        ensures
            match *old(self) {
                JobState::Ready(Ok(r)) => res matches Some(v) && *v == r
                    && *final(self) == JobState::<Ready, Running>::Ready(Ok(*final(v))),
                _ => res is None && *final(self) == *old(self),
            },
    {
        if let JobState::Ready(Ok(ready)) = self {
            Some(ready)
        } else {
            None
        }
    }
}

/// What a job button is told: to start the job, or that the job finished.
pub enum JobMessage<Ready> {
    Trigger,
    Ready(Ready),
}

/// A button that starts a job, with the job's state.
pub struct JobView<ActF, Ready> {
    pub state: JobState<Ready, ()>,
    pub trigger_title: &'static str,
    pub act: ActF,
}

impl<ActF, Ready> JobView<ActF, Ready> {
    /// A button for a job that has not run yet and holds `state`.
    pub fn new(state: Ready, trigger_title: &'static str, act: ActF) -> (res: Self)
        ensures
            res.state matches JobState::Ready(Ok(s)) && s == state,
            res.trigger_title == trigger_title,
            res.act == act,
    {
        JobView { state: JobState::Ready(Ok(state)), trigger_title, act }
    }

    /// Takes a message in, and says whether the job is to be started now: a
    /// trigger starts it unless it is running already, and a finished job
    /// leaves its value.
    pub fn update(&mut self, msg: JobMessage<Ready>) -> (start: bool)
        ensures
            match msg {
                JobMessage::Trigger => match old(self).state {
                    JobState::Running(()) => !start && final(self).state == old(self).state,
                    JobState::Ready(_) => start && final(self).state == JobState::<Ready, ()>::Running(()),
                },
                JobMessage::Ready(r) => !start && (final(self).state matches JobState::Ready(Ok(v)) && v == r),
            },
            final(self).trigger_title == old(self).trigger_title,
            final(self).act == old(self).act,
    {
        match msg {
            JobMessage::Trigger => {
                if let JobState::Running(()) = self.state {
                    return false;
                }
                self.state = JobState::Running(());
                true
            },
            JobMessage::Ready(ready) => {
                self.state = JobState::Ready(Ok(ready));
                false
            },
        }
    }
}

/// A value that is still being computed, with what is known meanwhile, or
/// the outcome of computing it.
#[derive(Debug)]
pub enum Future<Pending, T> {
    Pending(Pending),
    Ready(Result<T, Report>),
}

/// `x` with `g` applied to its successful outcome.
pub open spec fn mapped<Pending, T, U>(x: Future<Pending, T>, g: spec_fn(T) -> U) -> Future<Pending, U> {
    match x {
        Future::Ready(Ok(t)) => Future::Ready(Ok(g(t))),
        Future::Ready(Err(e)) => Future::Ready(Err(e)),
        Future::Pending(p) => Future::Pending(p),
    }
}

/// Mapping with the identity changes nothing.
pub proof fn lemma_map_identity<Pending, T>(x: Future<Pending, T>)
    ensures
        mapped(x, |t: T| t) == x,
{
}

/// Mapping with `f` and then with `g` is mapping with their composition.
pub proof fn lemma_map_compose<Pending, T, U, V>(x: Future<Pending, T>, f: spec_fn(T) -> U, g: spec_fn(U) -> V)
    ensures
        mapped(mapped(x, f), g) == mapped(x, |t: T| g(f(t))),
{
}

impl<Pending, T> Future<Pending, T> {
    /// Applies `f` to a successful outcome; a pending value or an error stays.
    /// Where `f` computes a function `g`, the result is `mapped(self, g)`.
    pub fn map<U, F: FnOnce(T) -> U>(self, f: F) -> (res: Future<Pending, U>)
        requires
            self matches Future::Ready(Ok(t)) ==> f.requires((t,)),
        ensures
            match self {
                Future::Ready(Ok(t)) => res matches Future::Ready(Ok(u)) && f.ensures((t,), u),
                Future::Ready(Err(e)) => res matches Future::Ready(Err(e2)) && e2 == e,
                Future::Pending(p) => res matches Future::Pending(p2) && p2 == p,
            },
            forall|g: spec_fn(T) -> U|
                (forall|t: T, u: U| #[trigger] f.ensures((t,), u) ==> u == g(t)) ==> res == #[trigger] mapped(self, g),
    {
        match self {
            Future::Ready(Ok(t)) => Future::Ready(Ok(f(t))),
            Future::Ready(Err(e)) => Future::Ready(Err(e)),
            Future::Pending(pending) => Future::Pending(pending),
        }
    }
}

/// What a drawing job left: nothing changed, or a modified image.
#[derive(Debug)]
pub enum DrawIdle<Modified> {
    Unmodified,
    Modified(Modified),
}

impl<Modified> DrawIdle<Modified> {
    /// The modified image, if there is one.
    pub fn modified(&self) -> (res: Option<&Modified>)
        ensures
            match *self {
                DrawIdle::Modified(m) => res == Some(&m),
                DrawIdle::Unmodified => res is None,
            },
    {
        match self {
            DrawIdle::Modified(modified) => Some(modified),
            DrawIdle::Unmodified => None,
        }
    }

    /// Mutable access to the modified image, if there is one.
    pub fn modified_mut(&mut self) -> (res: Option<&mut Modified>)
        ensures
            match *old(self) {
                DrawIdle::Modified(m) => res matches Some(v) && *v == m
                    && *final(self) == DrawIdle::Modified(*final(v)),
                DrawIdle::Unmodified => res is None && *final(self) == *old(self),
            },
    {
        match self {
            DrawIdle::Modified(modified) => Some(modified),
            DrawIdle::Unmodified => None,
        }
    }
}

/// What a recognition is for: drawing the marks, or comparing with the text.
#[derive(Debug, Clone, Copy, PartialEq, Eq, Structural)]
pub enum RecogKind {
    Draw,
    Diff,
}

impl RecogKind {
    /// The label of the button that starts it.
    pub fn title(self) -> (res: &'static str)
        ensures
            res@ == match self {
                RecogKind::Draw => "צייר"@,
                RecogKind::Diff => "השווה"@,
            },
    {
        match self {
            RecogKind::Draw => "צייר",
            RecogKind::Diff => "השווה",
        }
    }
}

} // verus!
