//! The decisions of the change-driven loop: after each rebuild, whether to
//! patch the target and with what, and which program is loaded afterwards.

use crate::diff::{diff, edit_views, is_diff_of, Diff};
use crate::patch::{self, plan, plan_of, Plan};
use crate::program::{program_of, ParseError, Program};
use vstd::prelude::*;

verus! {

/// What the build of one change cycle produced.
pub enum BuildResult {
    /// The build command failed.
    Failed,
    /// The build succeeded; the bytes of the ELF image it wrote.
    Built(Vec<u8>),
}

/// How one change cycle ended.
#[derive(Debug, Clone, PartialEq, Eq)]
pub enum Outcome {
    /// The build command failed.
    BuildFailed,
    /// The new ELF image could not be read.
    ParseFailed(ParseError),
    /// The new program is the same as the loaded one.
    Unchanged,
    /// The target was patched; the new program is now loaded.
    Patched,
    /// Patching failed; the loaded program stays.
    PatchFailed(patch::Error),
}

/// A new program, its edits from the loaded one, and the writes that apply
/// them.
pub struct Update {
    pub program: Program,
    pub diffs: Vec<Diff>,
    pub plan: Plan,
}

/// The next thing to do after a rebuild.
pub enum Step {
    /// Nothing to patch; the cycle ends here.
    Done(Outcome),
    /// Issue the writes of the plan, then report back with
    /// [`Supervisor::finish`].
    Patch(Update),
}

/// The program that the target runs, as far as hotloading knows.
pub struct Supervisor {
    pub program: Program,
}

impl Supervisor {
    pub open spec fn wf(&self) -> bool {
        self.program.wf()
    }

    /// Starts from the program that the target was launched with.
    pub fn new(program: Program) -> (r: Supervisor)
        requires
            program.wf(),
        ensures
            r.wf(),
            r.program@ == program@,
    {
        Supervisor { program }
    }

    /// Decides what a rebuild leads to: a failed build or an unreadable
    /// image ends the cycle; so does a program with no edits; otherwise the
    /// edits and the writes that apply them are handed out.
    pub fn after_build(&self, build: BuildResult) -> (r: Step)
        requires
            self.wf(),
        ensures
            build is Failed ==> r == Step::Done(Outcome::BuildFailed),
            build matches BuildResult::Built(image) ==> match program_of(image@) {
                Err(e) => r == Step::Done(Outcome::ParseFailed(e)),
                Ok(m) => if (forall|k: Seq<char>| !crate::diff::differs(self.program@, m, k)) {
                    r == Step::Done(Outcome::Unchanged)
                } else {
                    r matches Step::Patch(u) && u.program.wf() && u.program@ == m && is_diff_of(
                        self.program@,
                        m,
                        edit_views(u.diffs@),
                    ) && (u.plan.write_views(), u.plan.supported) == plan_of(edit_views(u.diffs@))
                },
            },
    {
        match build {
            BuildResult::Failed => Step::Done(Outcome::BuildFailed),
            BuildResult::Built(image) => match Program::new(image.as_slice()) {
                Err(e) => Step::Done(Outcome::ParseFailed(e)),
                Ok(program) => {
                    let diffs = diff(&self.program, &program);
                    if diffs.len() == 0 {
                        proof {
                            let m = program@;
                            assert forall|k: Seq<char>|
                                !crate::diff::differs(self.program@, m, k) by {
                                crate::diff::lemma_diff_classifies(
                                    self.program@,
                                    m,
                                    edit_views(diffs@),
                                    k,
                                );
                            }
                        }
                        Step::Done(Outcome::Unchanged)
                    } else {
                        proof {
                            let m = program@;
                            let d0 = edit_views(diffs@)[0];
                            crate::diff::lemma_diff_classifies(
                                self.program@,
                                m,
                                edit_views(diffs@),
                                crate::diff::edit_name(d0),
                            );
                        }
                        let plan = plan(diffs.as_slice());
                        Step::Patch(Update { program, diffs, plan })
                    }
                },
            },
        }
    }

    /// Ends a cycle whose writes were issued: on success the new program is
    /// the loaded one; on failure the loaded program stays.
    pub fn finish(&mut self, update: Update, applied: Result<(), patch::Error>) -> (r: Outcome)
        requires
            old(self).wf(),
            update.program.wf(),
        ensures
            final(self).wf(),
            match applied {
                Ok(()) => r == Outcome::Patched && final(self).program@ == update.program@,
                Err(e) => r == Outcome::PatchFailed(e) && final(self).program@ == old(
                    self,
                ).program@,
            },
    {
        match applied {
            Ok(()) => {
                self.program = update.program;
                Outcome::Patched
            },
            Err(e) => Outcome::PatchFailed(e),
        }
    }
}

} // verus!
