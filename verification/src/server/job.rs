//! Messages to background jobs, their errors, and the single-slot mailbox that
//! keeps only the newest message.
use vstd::prelude::*;

verus! {

#[verifier::external_type_specification]
#[verifier::external_body]
pub struct ExIoError(std::io::Error);

/// A message to a job: send your status, or a control message.
#[derive(Debug, Clone, PartialEq, Eq)]
pub enum JobMsg<T> {
    SendStatus,
    Ctrl(T),
}

impl<T> JobMsg<T> {
    /// Whether this asks for the job's status.
    pub fn is_send_status(&self) -> (b: bool)
        ensures
            b == (self is SendStatus),
    {
        match self {
            JobMsg::SendStatus => true,
            JobMsg::Ctrl(_) => false,
        }
    }
}

/// The job has exited; nothing can be sent to it.
#[derive(Debug, Clone, Copy, PartialEq, Eq, Structural)]
pub struct JobExited;

impl JobExited {
    /// The message of the error.
    pub fn to_string(&self) -> (s: String)
        ensures
            s@ == "Job exited, can't send"@,
    {
        String::from_str("Job exited, can't send")
    }
}

/// An error that ends a job, which may be the job's normal end.
pub trait HandleJobError {
    /// Whether the error is the job's normal end.
    spec fn normal_exit(&self) -> bool;

    /// Whether the error is the job's normal end.
    fn is_normal_exit(&self) -> (b: bool)
        ensures
            b == self.normal_exit(),
    ;
}

/// Running a process failed.
#[derive(Debug)]
pub enum ProcessError {
    IoError(std::io::Error),
}

impl HandleJobError for ProcessError {
    open spec fn normal_exit(&self) -> bool {
        false
    }

    fn is_normal_exit(&self) -> (b: bool) {
        false
    }
}

/// How a job's loop goes on after the job reported an error: it stops
/// normally (`Ok`) when the error is the job's normal end, with the error
/// otherwise.
pub fn end_of_job<E: HandleJobError>(e: E) -> (r: Result<(), E>)
    ensures
        e.normal_exit() ==> r is Ok,
        !e.normal_exit() ==> r == Err::<(), E>(e),
{
    if e.is_normal_exit() {
        Ok(())
    } else {
        Err(e)
    }
}

/// The other end of a mailbox is gone: nowhere to send, nothing to receive.
#[derive(Debug, Clone, Copy, PartialEq, Eq, Structural)]
pub struct OtherEndClosed;

impl OtherEndClosed {
    /// The message of the error.
    pub fn to_string(&self) -> (s: String)
        ensures
            s@ == "Other end closed, nowhere to send or nothing to receive"@,
    {
        String::from_str("Other end closed, nowhere to send or nothing to receive")
    }
}

/// A mailbox of size one whose newest message replaces the one waiting.
pub struct Slot<T> {
    value: Option<T>,
}

impl<T> Slot<T> {
    /// The message waiting, if any.
    pub closed spec fn waiting(&self) -> Option<T> {
        self.value
    }

    /// The message waiting, as offered to a test.
    pub open spec fn offered(&self) -> Option<&T> {
        match self.waiting() {
            Some(v) => Some(&v),
            None => None,
        }
    }

    /// An empty mailbox.
    pub fn new() -> (s: Self)
        ensures
            s.waiting() is None,
    {
        Slot { value: None }
    }

    /// Offers the message waiting to `test_and_set`; when it gives a new message,
    /// that one replaces the waiting one, which is handed back.
    pub fn test_and_set<F: FnOnce(Option<&T>) -> Option<T>>(&mut self, test_and_set: F) -> (r:
        Option<T>)
        requires
            test_and_set.requires((old(self).offered(),)),
        ensures
            exists|out: Option<T>|
                #[trigger] test_and_set.ensures((old(self).offered(),), out) && match out {
                    Some(new) => final(self).waiting() == Some(new) && r == old(self).waiting(),
                    None => final(self).waiting() == old(self).waiting() && r is None,
                },
    {
        let out = test_and_set(self.value.as_ref());
        match out {
            Some(new) => {
                let old_value = self.value.take();
                self.value = Some(new);
                old_value
            },
            None => None,
        }
    }

    /// Puts a message in, replacing the waiting one, which is handed back.
    pub fn send(&mut self, msg: T) -> (r: Option<T>)
        ensures
            final(self).waiting() == Some(msg),
            r == old(self).waiting(),
    {
        let old_value = self.value.take();
        self.value = Some(msg);
        old_value
    }

    /// Takes the waiting message out, if any.
    pub fn take(&mut self) -> (r: Option<T>)
        ensures
            r == old(self).waiting(),
            final(self).waiting() is None,
    {
        self.value.take()
    }
}

} // verus!
