//! Jobs that a thread calls, and the record of the calls.
use vstd::prelude::*;

verus! {

/// The numbers of the jobs that were called, in the order of the calls. Only a call adds one.
pub struct CallLog {
    numbers: Ghost<Seq<usize>>,
}

impl View for CallLog {
    type V = Seq<usize>;

    closed spec fn view(&self) -> Seq<usize> {
        self.numbers@
    }
}

impl CallLog {
    /// The record of no calls.
    pub(crate) fn new() -> (log: CallLog)
        ensures
            log@ == Seq::<usize>::empty(),
    {
        CallLog { numbers: Ghost(Seq::empty()) }
    }
}

/// What a thread can be given to call. Whether a call may be made can depend on the calls that
/// were made before, and a call is only made together with its record.
pub trait ThreadJob {
    /// The job may be called after the given calls.
    spec fn may_call(&self, made: Seq<usize>) -> bool;

    /// The job was called after the given calls, and returned.
    spec fn called(&self, made: Seq<usize>) -> bool;

    /// Calls the job, whose number is given, and records the call.
    fn call(&self, number: Ghost<usize>, log: &mut CallLog)
        requires
            self.may_call(old(log)@),
        ensures
            self.called(old(log)@),
            final(log)@ == old(log)@.push(number@),
    ;
}

impl<F: Fn()> ThreadJob for F {
    open spec fn may_call(&self, made: Seq<usize>) -> bool {
        call_requires(*self, ())
    }

    open spec fn called(&self, made: Seq<usize>) -> bool {
        call_ensures(*self, (), ())
    }

    fn call(&self, number: Ghost<usize>, log: &mut CallLog) {
        self();
        proof {
            log.numbers@ = log.numbers@.push(number@);
        }
    }
}

} // verus!
