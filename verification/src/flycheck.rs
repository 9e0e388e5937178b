//! Checks by the compiler: whether one runs for a file, and which checks a task has chosen.
use crate::runtime::SnapshotOutcome;
use vstd::prelude::*;

verus! {

/// How checks are run for a file that was saved.
#[derive(Clone, Copy, Debug, PartialEq, Eq, Structural)]
pub enum FlycheckPlan {
    /// The file is not one of the session's workspaces.
    Skip,
    Once,
    PerWorkspace(u32),
}

/// Whether a file is checked, given the numbers that the disk and the session have for its path.
pub fn run_flycheck(base_file: Option<u32>, file: Option<u32>, once: bool) -> (r: FlycheckPlan)
    ensures
        r == (match (base_file, file) {
            (Some(_), Some(file)) => if once {
                FlycheckPlan::Once
            } else {
                FlycheckPlan::PerWorkspace(file)
            },
            _ => FlycheckPlan::Skip,
        }),
{
    match (base_file, file) {
        (Some(_), Some(file)) => if once {
            FlycheckPlan::Once
        } else {
            FlycheckPlan::PerWorkspace(file)
        },
        _ => FlycheckPlan::Skip,
    }
}

/// A check that is to be started anew, by the place of its checker.
#[derive(Debug)]
pub enum FlycheckRestart {
    Workspace {
        handle: usize,
        saved_file: Option<String>,
    },
    Package {
        handle: usize,
        package: String,
        target: Option<String>,
        workspace_deps: Option<Vec<String>>,
        saved_file: Option<String>,
    },
}

impl FlycheckRestart {
    pub open spec fn handle(self) -> usize {
        match self {
            FlycheckRestart::Workspace { handle, .. } => handle,
            FlycheckRestart::Package { handle, .. } => handle,
        }
    }
}

/// The checks that a task chooses while it looks at a snapshot. They start once the snapshot has
/// turned out to stand.
pub struct FlycheckSelection {
    ids: Vec<usize>,
    restarts: Vec<FlycheckRestart>,
}

impl FlycheckSelection {
    /// The checkers, by what they are known as.
    pub closed spec fn checkers(self) -> Seq<usize> {
        self.ids@
    }

    /// The checks chosen so far, oldest first.
    pub closed spec fn chosen(self) -> Seq<FlycheckRestart> {
        self.restarts@
    }

    /// Every chosen check has a checker.
    pub open spec fn wf(self) -> bool {
        forall|i: int| 0 <= i < self.chosen().len() ==> (#[trigger] self.chosen()[i]).handle() < self.checkers().len()
    }

    pub fn new(ids: Vec<usize>) -> (r: Self)
        ensures
            r.checkers() == ids@,
            r.chosen() == Seq::<FlycheckRestart>::empty(),
            r.wf(),
    {
        FlycheckSelection { ids, restarts: Vec::new() }
    }

    pub fn id(&self, handle: usize) -> (r: Option<usize>)
        ensures
            r == (if handle < self.checkers().len() {
                Some(self.checkers()[handle as int])
            } else {
                None
            }),
    {
        if handle < self.ids.len() {
            Some(self.ids[handle])
        } else {
            None
        }
    }

    pub fn restart_workspace(&mut self, handle: usize, saved_file: Option<String>)
        requires
            old(self).wf(),
            handle < old(self).checkers().len(),
        ensures
            final(self).wf(),
            final(self).checkers() == old(self).checkers(),
            final(self).chosen() == old(self).chosen().push((FlycheckRestart::Workspace { handle, saved_file })),
    {
        self.restarts.push(FlycheckRestart::Workspace { handle, saved_file });
        proof {
            let before = old(self).chosen();
            assert forall|i: int| 0 <= i < self.chosen().len() implies (#[trigger] self.chosen()[i]).handle() < self.checkers().len() by {
                if i < before.len() {
                    assert(self.chosen()[i] == before[i]);
                }
            }
        }
    }

    pub fn restart_for_package(
        &mut self,
        handle: usize,
        package: String,
        target: Option<String>,
        workspace_deps: Option<Vec<String>>,
        saved_file: Option<String>,
    )
        requires
            old(self).wf(),
            handle < old(self).checkers().len(),
        ensures
            final(self).wf(),
            final(self).checkers() == old(self).checkers(),
            final(self).chosen() == old(self).chosen().push(
                (FlycheckRestart::Package { handle, package, target, workspace_deps, saved_file }),
            ),
    {
        self.restarts.push(FlycheckRestart::Package { handle, package, target, workspace_deps, saved_file });
        proof {
            let before = old(self).chosen();
            assert forall|i: int| 0 <= i < self.chosen().len() implies (#[trigger] self.chosen()[i]).handle() < self.checkers().len() by {
                if i < before.len() {
                    assert(self.chosen()[i] == before[i]);
                }
            }
        }
    }

    /// The checks to start, in the order in which they were chosen. Those of a snapshot that did
    /// not stand, or of a task that failed, are not started.
    pub fn execute(self, outcome: SnapshotOutcome, failed: bool) -> (r: Vec<FlycheckRestart>)
        requires
            self.wf(),
        ensures
            outcome == SnapshotOutcome::Deliver && !failed ==> r@ == self.chosen(),
            outcome == SnapshotOutcome::Retry || failed ==> r@.len() == 0,
            forall|i: int| 0 <= i < r@.len() ==> (#[trigger] r@[i]).handle() < self.checkers().len(),
    {
        let ghost all = self.chosen();
        match outcome {
            SnapshotOutcome::Deliver => if failed {
                Vec::new()
            } else {
                let r = self.restarts;
                proof {
                    assert forall|i: int| 0 <= i < r@.len() implies (#[trigger] r@[i]).handle() < self.checkers().len() by {
                        assert(all[i] == r@[i]);
                    }
                }
                r
            },
            SnapshotOutcome::Retry => Vec::new(),
        }
    }
}

} // verus!
