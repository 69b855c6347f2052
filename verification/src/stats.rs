//! Run statistics: plain counters the engine's driver bumps as it
//! works, and prints when a run ends or is interrupted.

use vstd::prelude::*;

verus! {

/// A success / failure tally.
#[derive(Clone, Copy, PartialEq, Eq, Structural, Debug, Default)]
pub struct SuccessRate {
    pub succ: usize,
    pub fail: usize,
}

impl SuccessRate {
    pub fn success(&mut self)
        ensures
            final(self).fail == old(self).fail,
            old(self).succ < usize::MAX ==> final(self).succ == old(self).succ + 1,
    {
        if self.succ < usize::MAX {
            self.succ = self.succ + 1;
        }
    }

    pub fn fail(&mut self)
        ensures
            final(self).succ == old(self).succ,
            old(self).fail < usize::MAX ==> final(self).fail == old(self).fail + 1,
    {
        if self.fail < usize::MAX {
            self.fail = self.fail + 1;
        }
    }

    /// Tallies one outcome on the matching side.
    pub fn statistic(&mut self, success: bool)
        ensures
            success && old(self).succ < usize::MAX ==> final(self).succ == old(self).succ
                + 1 && final(self).fail == old(self).fail,
            !success && old(self).fail < usize::MAX ==> final(self).fail == old(self).fail
                + 1 && final(self).succ == old(self).succ,
    {
        if success {
            self.success()
        } else {
            self.fail()
        }
    }
}

/// The name of the checked case, kept for the statistics print.
#[derive(Clone, Debug, Default)]
pub struct Case {
    pub name: String,
}

impl Case {
    pub fn new(name: String) -> (r: Case)
        ensures
            r.name@ == name@,
    {
        Case { name }
    }
}

/// The counters of one run.
#[derive(Clone, Copy, PartialEq, Eq, Structural, Debug, Default)]
pub struct Statistic {
    pub num_blocked: usize,
    pub num_mic: usize,
    pub num_solver_restart: usize,
    pub num_down_blocked: usize,
    pub num_ctg_down: usize,
    pub num_get_bad_state: usize,
    pub mic_drop: SuccessRate,
    pub mic_cube_len_sum: usize,
    pub mic_cube_len_num: usize,
}

impl Statistic {
    pub fn new() -> (r: Statistic)
        ensures
            r == Statistic::default_spec(),
    {
        Statistic {
            num_blocked: 0,
            num_mic: 0,
            num_solver_restart: 0,
            num_down_blocked: 0,
            num_ctg_down: 0,
            num_get_bad_state: 0,
            mic_drop: SuccessRate { succ: 0, fail: 0 },
            mic_cube_len_sum: 0,
            mic_cube_len_num: 0,
        }
    }

    /// The all-zero statistic.
    pub open spec fn default_spec() -> Statistic {
        Statistic {
            num_blocked: 0,
            num_mic: 0,
            num_solver_restart: 0,
            num_down_blocked: 0,
            num_ctg_down: 0,
            num_get_bad_state: 0,
            mic_drop: SuccessRate { succ: 0, fail: 0 },
            mic_cube_len_sum: 0,
            mic_cube_len_num: 0,
        }
    }

    /// Accounts one generalization call on a cube of the given
    /// length.
    pub fn add_mic_cube_len(&mut self, len: usize)
        ensures
            old(self).mic_cube_len_sum + len <= usize::MAX && old(self).mic_cube_len_num
                < usize::MAX ==> final(self).mic_cube_len_sum == old(self).mic_cube_len_sum
                + len && final(self).mic_cube_len_num == old(self).mic_cube_len_num + 1,
    {
        if self.mic_cube_len_sum <= usize::MAX - len && self.mic_cube_len_num < usize::MAX {
            self.mic_cube_len_sum = self.mic_cube_len_sum + len;
            self.mic_cube_len_num = self.mic_cube_len_num + 1;
        }
    }
}

} // verus!
