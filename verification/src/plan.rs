//! Pass plan: the order in which a sort merges the runs of a file.
//!
//! After the first pass every page is a run of its own. A merge pass merges
//! the runs two by two, group after group, from one scratch file into the
//! other; then the file that was read is emptied, the two files change
//! places, and the run length has doubled. The passes end when two runs no
//! longer fit the file.

use vstd::prelude::*;

verus! {

/// Where the merge passes of a sort stand.
#[derive(Clone, Copy, Debug, PartialEq, Eq)]
pub struct PassPlan {
    /// The number of pages to sort.
    pub num_pages: usize,
    /// The number of pages of a run of the file that is read.
    pub run_size: usize,
    /// The number of groups of two runs that this pass has merged.
    pub group: usize,
    /// The scratch file that this pass reads.
    pub src_file: usize,
    /// The scratch file that this pass writes.
    pub dest_file: usize,
}

/// What is to be done next for a sort.
#[derive(Clone, Copy, Debug, PartialEq, Eq)]
pub enum PlanStep {
    /// The run of `run_size` pages from page `first_run` on and the one from
    /// page `second_run` on, both of file `src_file`, are to be merged into
    /// file `dest_file`.
    Merge {
        first_run: usize,
        second_run: usize,
        run_size: usize,
        src_file: usize,
        dest_file: usize,
    },
    /// A pass is over: file `file`, whose runs it merged, is to be emptied.
    Recycle { file: usize },
    /// The sort is over: file `file` holds the result.
    Done { file: usize },
}

impl PassPlan {
    /// The plan speaks of runs of at least one page and of the two scratch
    /// files.
    pub open spec fn well_formed(&self) -> bool {
        &&& self.run_size >= 1
        &&& 1 <= self.src_file < 3
        &&& self.dest_file == 3 - self.src_file
    }

    /// The number of groups of two runs that a pass merges.
    pub open spec fn num_groups(&self) -> int {
        self.num_pages as int / (2 * self.run_size)
    }

    /// What the plan asks for next.
    pub open spec fn step(&self) -> PlanStep {
        if self.run_size > self.num_pages / 2 {
            PlanStep::Done { file: self.src_file }
        } else if self.group < self.num_groups() {
            PlanStep::Merge {
                first_run: (self.group * (2 * self.run_size)) as usize,
                second_run: (self.group * (2 * self.run_size) + self.run_size) as usize,
                run_size: self.run_size,
                src_file: self.src_file,
                dest_file: self.dest_file,
            }
        } else {
            PlanStep::Recycle { file: self.src_file }
        }
    }

    /// The plan after what it asks for next was done.
    pub open spec fn after_step(&self) -> PassPlan {
        if self.run_size > self.num_pages / 2 {
            *self
        } else if self.group < self.num_groups() {
            PassPlan { group: (self.group + 1) as usize, ..*self }
        } else {
            PassPlan {
                run_size: (2 * self.run_size) as usize,
                group: 0,
                src_file: self.dest_file,
                dest_file: self.src_file,
                ..*self
            }
        }
    }

    /// The plan for `num_pages` pages that the first pass has left, page by
    /// page sorted, in the first scratch file.
    pub fn new(num_pages: usize) -> (plan: PassPlan)
        ensures
            plan.well_formed(),
            plan == (PassPlan {
                num_pages: num_pages,
                run_size: 1,
                group: 0,
                src_file: 1,
                dest_file: 2,
            }),
    {
        PassPlan { num_pages: num_pages, run_size: 1, group: 0, src_file: 1, dest_file: 2 }
    }

    /// Tells what is to be done next, and moves on to what follows it.
    pub fn next(&mut self) -> (step: PlanStep)
        requires
            old(self).well_formed(),
        ensures
            final(self).well_formed(),
            step == old(self).step(),
            *final(self) == old(self).after_step(),
    {
        if self.run_size > self.num_pages / 2 {
            return PlanStep::Done { file: self.src_file };
        }
        let group_size: usize = self.run_size * 2;
        let num_groups: usize = self.num_pages / group_size;
        if self.group < num_groups {
            assert(self.group * group_size + group_size <= self.num_pages) by (nonlinear_arith)
                requires
                    self.group < self.num_pages as int / group_size as int,
                    group_size >= 1,
            ;
            assert(0 <= self.group * group_size) by (nonlinear_arith);
            let group_start: usize = self.group * group_size;
            let first_run: usize = group_start;
            let second_run: usize = group_start + self.run_size;
            self.group += 1;
            PlanStep::Merge {
                first_run: first_run,
                second_run: second_run,
                run_size: self.run_size,
                src_file: self.src_file,
                dest_file: self.dest_file,
            }
        } else {
            let file: usize = self.src_file;
            self.run_size = group_size;
            self.group = 0;
            // swap
            self.src_file = self.dest_file;
            self.dest_file = file;
            PlanStep::Recycle { file: file }
        }
    }
}

} // verus!
