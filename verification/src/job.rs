//! One in-flight or completed asynchronous path computation. The caller
//! submits a search, keeps the job, and polls it each tick: when the
//! worker's result arrives the job stores it and is retired. The channel
//! itself and the worker live outside the library; the job only decides
//! what a poll step does with an arrival.

use vstd::prelude::*;

verus! {

/// A handle for one path request: the most recently delivered result and
/// whether one has been delivered at all.
pub struct KDNavJob {
    pub path: Vec<i64>,
    pub done: bool,
}

impl KDNavJob {
    /// A job with nothing delivered yet.
    pub fn new() -> (j: Self)
        ensures
            j.path@.len() == 0,
            !j.done,
    {
        KDNavJob { path: Vec::new(), done: false }
    }

    /// Record a finished computation's result.
    pub fn deliver_path(&mut self, path: Vec<i64>)
        ensures
            final(self).path@ == path@,
            final(self).done,
    {
        self.path = path;
        self.done = true;
    }

    /// One poll step for one job: an arrived result is delivered and the
    /// job is retired (the return says so); no arrival leaves the job
    /// untouched and outstanding.
    pub fn step(&mut self, arrival: Option<Vec<i64>>) -> (retire: bool)
        ensures
            retire <==> arrival is Some,
            arrival matches Some(p) ==> final(self).path@ == p@ && final(self).done,
            arrival is None ==> *final(self) == *old(self),
    {
        match arrival {
            Some(p) => {
                self.deliver_path(p);
                true
            },
            None => false,
        }
    }
}

} // verus!
