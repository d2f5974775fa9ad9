//! The word pair through which a pool hands a job to one of its threads.
use vstd::prelude::*;

verus! {

/// The second word of a slot while the thread has nothing to do.
pub const IDLE: usize = 0;

/// The second word of a slot whose thread is to end.
pub const EXIT: usize = 1;

/// The least second word that stands for a job.
pub const FIRST_RUNNER: usize = 2;

/// What a thread finds when it looks at its slot.
#[derive(PartialEq, Eq, Structural, Clone, Copy, Debug)]
pub enum Poll {
    /// Nothing yet: look again.
    Idle,
    /// Report completion and end.
    Exit,
    /// Run the job with these two words, then call [`JobSlot::finish`].
    Run(usize, usize),
}

/// A slot. The pool writes a job into it, or the request to end; the thread empties it when
/// the job has been run. The second word decides, so it is written last and read first.
#[derive(PartialEq, Eq, Structural, Clone, Copy, Debug)]
pub struct JobSlot {
    pub cur_job1: usize,
    pub cur_job2: usize,
}

impl JobSlot {
    /// An empty slot.
    pub fn new() -> (slot: JobSlot)
        ensures
            slot == (JobSlot { cur_job1: 0, cur_job2: IDLE }),
    {
        JobSlot { cur_job1: 0, cur_job2: IDLE }
    }

    /// Hands a job to the thread.
    pub fn post(&mut self, job1: usize, job2: usize)
        requires
            job2 >= FIRST_RUNNER,
        ensures
            *final(self) == old(self).posted(job1, job2),
    {
        self.cur_job1 = job1;
        self.cur_job2 = job2;
    }

    /// Asks the thread to end.
    pub fn request_exit(&mut self)
        ensures
            *final(self) == old(self).ending(),
    {
        self.cur_job2 = EXIT;
    }

    /// What the thread is to do next.
    pub fn poll(&self) -> (poll: Poll)
        ensures
            poll == self.polled(),
    {
        if self.cur_job2 == EXIT {
            Poll::Exit
        } else if self.cur_job2 != IDLE {
            Poll::Run(self.cur_job1, self.cur_job2)
        } else {
            Poll::Idle
        }
    }

    /// Empties the slot after a job.
    pub fn finish(&mut self)
        ensures
            *final(self) == old(self).finished(),
    {
        self.cur_job2 = IDLE;
    }

    /// Whether the thread is done with its job.
    pub fn is_idle(&self) -> (idle: bool)
        ensures
            idle == (self.polled() == Poll::Idle),
    {
        self.cur_job2 == IDLE
    }

    /// The slot when a job has been written into it.
    pub open spec fn posted(self, job1: usize, job2: usize) -> JobSlot {
        JobSlot { cur_job1: job1, cur_job2: job2 }
    }

    /// The slot when the thread has been asked to end.
    pub open spec fn ending(self) -> JobSlot {
        JobSlot { cur_job2: EXIT, ..self }
    }

    /// The slot when its job has been run.
    pub open spec fn finished(self) -> JobSlot {
        JobSlot { cur_job2: IDLE, ..self }
    }

    /// What the thread is to do next.
    pub open spec fn polled(self) -> Poll {
        if self.cur_job2 == EXIT {
            Poll::Exit
        } else if self.cur_job2 == IDLE {
            Poll::Idle
        } else {
            Poll::Run(self.cur_job1, self.cur_job2)
        }
    }
}

/// A posted job is what the thread finds, whatever was in the slot before, until it has
/// finished the job. Then it finds nothing.
pub proof fn law_a_posted_job_is_found_until_finished(slot: JobSlot, job1: usize, job2: usize)
    requires
        job2 >= FIRST_RUNNER,
    ensures
        slot.posted(job1, job2).polled() == Poll::Run(job1, job2),
        slot.posted(job1, job2).finished().polled() == Poll::Idle,
{
}

/// A thread that has been asked to end finds that request, whatever was in the slot before.
pub proof fn law_a_request_to_end_is_found(slot: JobSlot)
    ensures
        slot.ending().polled() == Poll::Exit,
{
}

} // verus!
