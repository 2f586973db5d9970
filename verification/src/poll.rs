//! Bookkeeping for background work: a value is either ready or still pending.
use vstd::prelude::*;

use eyre::Report;

verus! {

/// An error report, carried through unread.
#[verifier::external_type_specification]
#[verifier::external_body]
pub struct ExReport(Report);

/// The state of a piece of work: finished with a value, or still running with
/// some progress information.
#[derive(Debug, Clone)]
pub enum Poll<Ready, Pending> {
    Ready(Ready),
    Pending(Pending),
}

impl<Ready, Pending> Poll<Ready, Pending> {
    /// The progress information, if the work is still running.
    pub fn as_pending(&self) -> (res: Option<&Pending>)
        ensures
            match *self {
                Poll::Pending(p) => res == Some(&p),
                Poll::Ready(_) => res is None,
            },
    {
        if let Poll::Pending(pending) = self {
            Some(pending)
        } else {
            None
        }
    }

    /// The value, if the work has finished.
    pub fn as_ready(&self) -> (res: Option<&Ready>)
        ensures
            match *self {
                Poll::Ready(r) => res == Some(&r),
                Poll::Pending(_) => res is None,
            },
    {
        if let Poll::Ready(v) = self {
            Some(v)
        } else {
            None
        }
    }

    /// Mutable access to the progress information, if the work is still running.
    pub fn as_mut_pending(&mut self) -> (res: Option<&mut Pending>)
        ensures
            match *old(self) {
                Poll::Pending(p) => res matches Some(r) && *r == p
                    && *final(self) == Poll::<Ready, Pending>::Pending(*final(r)),
                Poll::Ready(_) => res is None && *final(self) == *old(self),
            },
    {
        if let Poll::Pending(pending) = self {
            Some(pending)
        } else {
            None
        }
    }
}

impl<Ready: Default, Pending> Default for Poll<Ready, Pending> {
    /// Finished, with the default value.
    fn default() -> (res: Self)
        ensures
            res is Ready,
    {
        Poll::Ready(Ready::default())
    }
}

/// Work that finishes with a value or fails.
pub type TryPoll<Ready, Pending> = Poll<Result<Ready, Report>, Pending>;

impl<Ready, Pending> Poll<Result<Ready, Report>, Pending> {
    /// The value, if the work has finished and succeeded.
    pub fn as_ready_ok(&self) -> (res: Option<&Ready>)
        ensures
            match *self {
                Poll::Ready(Ok(r)) => res == Some(&r),
                _ => res is None,
            },
    {
        if let Poll::Ready(Ok(ready)) = self {
            Some(ready)
        } else {
            None
        }
    }

    /// Mutable access to the value, if the work has finished and succeeded.
    pub fn ready_ok_mut(&mut self) -> (res: Option<&mut Ready>)
        ensures
            match *old(self) {
                Poll::Ready(Ok(r)) => res matches Some(v) && *v == r
                    && *final(self) == Poll::<Result<Ready, Report>, Pending>::Ready(Ok(*final(v))),
                _ => res is None && *final(self) == *old(self),
            },
    {
        if let Poll::Ready(Ok(ready)) = self {
            Some(ready)
        } else {
            None
        }
    }
}

/// The progress of blurring an image.
#[derive(Debug, Clone, Copy, Default)]
pub enum BlurStatus {
    #[default]
    Blurring,
}

} // verus!
