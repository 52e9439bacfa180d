//! Counters of the jobs that are queued and of those under way. They are kept for
//! observers and decide nothing.
use vstd::prelude::*;

verus! {

pub struct JobStat {
    wait: usize,
    run: usize,
}

impl JobStat {
    /// The number of queued jobs that the counters stand at.
    pub closed spec fn wait(&self) -> nat {
        self.wait as nat
    }

    /// The number of jobs under way that the counters stand at.
    pub closed spec fn run(&self) -> nat {
        self.run as nat
    }

    pub fn new() -> (stat: JobStat)
        ensures
            stat.wait() == 0,
            stat.run() == 0,
    {
        JobStat { wait: 0, run: 0 }
    }

    pub fn get_wait(&self) -> (n: usize)
        ensures
            n == self.wait(),
    {
        self.wait
    }

    pub fn get_run(&self) -> (n: usize)
        ensures
            n == self.run(),
    {
        self.run
    }

    /// Moves the count of queued jobs by `change`, up if `inc` and down if not. The
    /// count never leaves the range of the counter: a caller that would take it below
    /// zero has lost track of its jobs.
    pub fn update_stage_wait(&mut self, change: usize, inc: bool)
        requires
            inc ==> old(self).wait() + change <= usize::MAX,
            !inc ==> change <= old(self).wait(),
        ensures
            final(self).run() == old(self).run(),
            inc ==> final(self).wait() == old(self).wait() + change,
            !inc ==> final(self).wait() == old(self).wait() - change,
    {
        if inc {
            self.wait = self.wait + change;
        } else {
            self.wait = self.wait - change;
        }
    }

    /// Moves the count of jobs under way by `change`, up if `inc` and down if not.
    pub fn update_stage_run(&mut self, change: usize, inc: bool)
        requires
            inc ==> old(self).run() + change <= usize::MAX,
            !inc ==> change <= old(self).run(),
        ensures
            final(self).wait() == old(self).wait(),
            inc ==> final(self).run() == old(self).run() + change,
            !inc ==> final(self).run() == old(self).run() - change,
    {
        if inc {
            self.run = self.run + change;
        } else {
            self.run = self.run - change;
        }
    }
}

} // verus!
