//! The worker pool's scheduling discipline as a state machine: a bounded
//! FIFO backlog of jobs, at most `worker_count` of them in flight at once,
//! and fan-in accounting that makes a drained pool mean one result per job.
//!
//! A concurrent runner drives this machine — `start_next` when a worker
//! becomes free, `finish_job` when a worker hands in its result — and the
//! machine's invariant is what bounds the concurrency.  The library's own
//! sequential batch runner drives it the same way.

use vstd::prelude::*;

use crate::models::{Job, JobModel};

verus! {

/// The dispatch state of one batch: which jobs were handed out, how many
/// are being worked on, and how many have come back.
pub struct Dispatcher {
    jobs: Vec<Job>,
    next: usize,
    in_flight: usize,
    completed: usize,
    worker_count: usize,
}

impl Dispatcher {
    /// The batch's jobs, in dispatch order.
    pub closed spec fn jobs(&self) -> Seq<JobModel> {
        self.jobs.deep_view()
    }

    /// How many jobs have been handed to workers.
    pub closed spec fn dispatched(&self) -> int {
        self.next as int
    }

    /// How many jobs are being worked on right now.
    pub closed spec fn in_flight(&self) -> int {
        self.in_flight as int
    }

    /// How many results have come back.
    pub closed spec fn completed(&self) -> int {
        self.completed as int
    }

    /// The fixed number of workers.
    pub closed spec fn worker_count(&self) -> int {
        self.worker_count as int
    }

    /// The scheduling invariant: dispatch never passes the backlog, no more
    /// than `worker_count` jobs are in flight, and every dispatched job is
    /// either in flight or completed.
    pub open spec fn wf(&self) -> bool {
        &&& self.dispatched() <= self.jobs().len()
        &&& self.in_flight() <= self.worker_count()
        &&& self.completed() + self.in_flight() == self.dispatched()
        &&& self.worker_count() >= 1
    }

    /// A fresh dispatcher over a backlog of jobs.
    pub fn new(jobs: Vec<Job>, worker_count: usize) -> (r: Dispatcher)
        requires
            worker_count >= 1,
        ensures
            r.wf(),
            r.jobs() == jobs.deep_view(),
            r.dispatched() == 0,
            r.in_flight() == 0,
            r.completed() == 0,
            r.worker_count() == worker_count,
    {
        Dispatcher { jobs, next: 0, in_flight: 0, completed: 0, worker_count }
    }

    /// Hands the next job to a free worker: yields a job only while a
    /// worker is free and the backlog is not drained.
    pub fn start_next(&mut self) -> (r: Option<Job>)
        requires
            old(self).wf(),
        ensures
            final(self).wf(),
            final(self).jobs() == old(self).jobs(),
            final(self).worker_count() == old(self).worker_count(),
            final(self).completed() == old(self).completed(),
            match r {
                Some(job) => {
                    &&& old(self).in_flight() < old(self).worker_count()
                    &&& old(self).dispatched() < old(self).jobs().len()
                    &&& job@ == old(self).jobs()[old(self).dispatched()]
                    &&& final(self).dispatched() == old(self).dispatched() + 1
                    &&& final(self).in_flight() == old(self).in_flight() + 1
                },
                None => {
                    &&& *final(self) == *old(self)
                    &&& (old(self).in_flight() == old(self).worker_count() || old(self).dispatched()
                        == old(self).jobs().len())
                },
            },
    {
        if self.in_flight < self.worker_count && self.next < self.jobs.len() {
            let job = self.jobs[self.next].duplicate();
            proof {
                assert(self.jobs.deep_view()[self.next as int] == self.jobs@[self.next as int]@);
            }
            self.next = self.next + 1;
            self.in_flight = self.in_flight + 1;
            Some(job)
        } else {
            None
        }
    }

    /// Takes one worker's result in: one fewer in flight, one more
    /// completed.
    pub fn finish_job(&mut self)
        requires
            old(self).wf(),
            old(self).in_flight() > 0,
        ensures
            final(self).wf(),
            final(self).jobs() == old(self).jobs(),
            final(self).worker_count() == old(self).worker_count(),
            final(self).dispatched() == old(self).dispatched(),
            final(self).in_flight() == old(self).in_flight() - 1,
            final(self).completed() == old(self).completed() + 1,
    {
        self.in_flight = self.in_flight - 1;
        self.completed = self.completed + 1;
    }

    /// Whether the batch is drained: everything dispatched and everything
    /// handed back.
    pub fn is_done(&self) -> (b: bool)
        ensures
            b == (self.dispatched() == self.jobs().len() && self.in_flight() == 0),
    {
        self.next == self.jobs.len() && self.in_flight == 0
    }

    /// Bounded concurrency: in every reachable state, no more than
    /// `worker_count` job executions are in flight.
    pub proof fn lemma_bounded_in_flight(&self)
        requires
            self.wf(),
        ensures
            self.in_flight() <= self.worker_count(),
    {
    }

    /// Fan-in: a drained pool has handed in exactly one result per job of
    /// the batch.
    pub proof fn lemma_drained_means_all_completed(&self)
        requires
            self.wf(),
            self.dispatched() == self.jobs().len(),
            self.in_flight() == 0,
        ensures
            self.completed() == self.jobs().len(),
    {
    }
}

} // verus!
