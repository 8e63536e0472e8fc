//! Errors of the DNS monitor, whose observers are told of every change.
use vstd::prelude::*;

verus! {

/// Errors that can happen in the DNS monitor.
#[derive(Debug, PartialEq, Eq)]
pub enum Error {
    /// An observer refused a notification; later observers were not told.
    Notification,
    /// The platform's DNS backend failed, with its description.
    Internal(String),
}

impl Error {
    /// What went wrong, for a person to read.
    pub fn message(&self) -> (r: &'static str)
        ensures
            self is Notification ==> r@ == "An observer failed"@,
            self is Internal ==> r@ == "Internal DNS monitor error"@,
    {
        match self {
            Error::Notification => "An observer failed",
            Error::Internal(_) => "Internal DNS monitor error",
        }
    }
}

/// What the monitor does next while applying a change and telling observers.
#[derive(Debug, PartialEq, Eq)]
pub enum NotifyStep {
    /// Tell the observer at this position, in registration order.
    Call(usize),
    /// Stop, and give the caller this result.
    Finish(Result<(), Error>),
}

/// First step after the platform backend applied (or failed to apply) a
/// change, with `n` observers registered. A backend failure ends it with
/// `Internal`; otherwise the first observer is told, if there is one.
pub fn notify_start(backend: Result<(), String>, n: usize) -> (r: NotifyStep)
    ensures
        backend matches Err(e) ==> r == NotifyStep::Finish(Err(Error::Internal(e))),
        backend is Ok && n > 0 ==> r == NotifyStep::Call(0),
        backend is Ok && n == 0 ==> r == NotifyStep::Finish(Ok(())),
{
    match backend {
        Err(e) => NotifyStep::Finish(Err(Error::Internal(e))),
        Ok(()) => if n > 0 {
            NotifyStep::Call(0)
        } else {
            NotifyStep::Finish(Ok(()))
        },
    }
}

/// Step after observer `i` of `n` answered: a failure ends the notification
/// with `Notification` and no later observer is told; otherwise the next
/// observer is told, or the change is done after the last one.
pub fn notify_next(i: usize, n: usize, ok: bool) -> (r: NotifyStep)
    requires
        i < n,
    ensures
        !ok ==> r == NotifyStep::Finish(Err(Error::Notification)),
        ok && i + 1 < n ==> r == NotifyStep::Call((i + 1) as usize),
        ok && i + 1 == n ==> r == NotifyStep::Finish(Ok(())),
{
    if !ok {
        NotifyStep::Finish(Err(Error::Notification))
    } else if i + 1 < n {
        NotifyStep::Call(i + 1)
    } else {
        NotifyStep::Finish(Ok(()))
    }
}

} // verus!
