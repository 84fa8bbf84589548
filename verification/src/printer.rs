//! The output sink: it is handed the value of each `print`, in program order.
use vstd::prelude::*;

verus! {

/// The printer to print evaluated values.
///
/// A printer may keep account of what it accepted, and may be one that
/// never fails. Neither is asked of a printer: one that says nothing of
/// itself keeps no account and may fail, and nothing is claimed of it.
pub trait Printer {
    /// The error type that the printer gives.
    type Err;

    /// The values that the printer has accepted so far, oldest first, where
    /// the printer keeps account of them.
    open spec fn log(&self) -> Option<Seq<i32>> {
        None
    }

    /// The error with which the printer refused a value, the last time it
    /// did, where the printer keeps account.
    open spec fn refusal(&self) -> Option<Self::Err> {
        None
    }

    /// Whether the printer accepts every value, now and from now on.
    open spec fn reliable(&self) -> bool {
        false
    }

    /// Prints an integer value. A printer that keeps account has the value
    /// as the last of its log where it accepts it; where it does not, it has
    /// its log as it was and the error it gave as its refusal.
    fn print(&mut self, v: i32) -> (r: Result<(), Self::Err>)
        ensures
            old(self).log() matches Some(log) ==> final(self).log() == Some(
                if r is Ok {
                    log.push(v)
                } else {
                    log
                },
            ),
            old(self).log() is Some ==> (r matches Err(err) ==> final(self).refusal() == Some(err)),
            old(self).reliable() ==> r is Ok && final(self).reliable(),
    ;
}

/// The error of a printer that never fails.
#[derive(Copy, Clone, Debug, PartialEq, Eq, Structural)]
pub struct EmptyError;

/// A printer that keeps what it is handed, in order, and never fails.
#[derive(Debug)]
pub struct Recorder {
    values: Vec<i32>,
}

impl View for Recorder {
    type V = Seq<i32>;

    closed spec fn view(&self) -> Seq<i32> {
        self.values@
    }
}

impl Recorder {
    /// A recorder that holds nothing yet.
    pub fn new() -> (r: Self)
        ensures
            r@ == Seq::<i32>::empty(),
    {
        Recorder { values: Vec::new() }
    }

    /// The values recorded so far, oldest first.
    pub fn values(&self) -> (v: &Vec<i32>)
        ensures
            v@ == self@,
    {
        &self.values
    }

    /// The values recorded, oldest first.
    pub fn into_values(self) -> (v: Vec<i32>)
        ensures
            v@ == self@,
    {
        self.values
    }
}

impl Printer for Recorder {
    type Err = EmptyError;

    open spec fn log(&self) -> Option<Seq<i32>> {
        Some(self@)
    }

    open spec fn reliable(&self) -> bool {
        true
    }

    fn print(&mut self, v: i32) -> (r: Result<(), EmptyError>)
        ensures
            r is Ok,
            final(self)@ == old(self)@.push(v),
    {
        self.values.push(v);
        Ok(())
    }
}

} // verus!
