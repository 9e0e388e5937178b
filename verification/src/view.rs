//! What one session sees of a shared world.
use crate::tokens::Tokens;
use vstd::prelude::*;

verus! {

/// The workspaces of a session, by their index in the world, and the paths it leaves out.
#[derive(Debug)]
pub struct WorkspaceView {
    workspaces: Vec<usize>,
    excluded_paths: Vec<String>,
}

#[verifier::ext_equal]
pub struct WorkspaceViewModel {
    pub workspaces: Seq<usize>,
    pub excluded_paths: Seq<Seq<char>>,
}

impl View for WorkspaceView {
    type V = WorkspaceViewModel;

    closed spec fn view(&self) -> WorkspaceViewModel {
        WorkspaceViewModel { workspaces: self.workspaces@, excluded_paths: self.excluded_paths.deep_view() }
    }
}

impl WorkspaceView {
    pub fn new(workspaces: Vec<usize>, excluded_paths: Vec<String>) -> (r: Self)
        ensures
            r@ == (WorkspaceViewModel { workspaces: workspaces@, excluded_paths: excluded_paths.deep_view() }),
    {
        WorkspaceView { workspaces, excluded_paths }
    }

    pub fn push_workspace(&mut self, workspace: usize)
        ensures
            final(self)@ == (WorkspaceViewModel { workspaces: old(self)@.workspaces.push(workspace), ..old(self)@ }),
    {
        self.workspaces.push(workspace);
    }

    pub fn workspace_indexes(&self) -> (r: Vec<usize>)
        ensures
            r@ == self@.workspaces,
    {
        copy_indexes(&self.workspaces)
    }

    pub fn excluded_paths(&self) -> (r: &Vec<String>)
        ensures
            r.deep_view() == self@.excluded_paths,
    {
        &self.excluded_paths
    }

    pub fn duplicate(&self) -> (r: Self)
        ensures
            r@ == self@,
    {
        WorkspaceView { workspaces: copy_indexes(&self.workspaces), excluded_paths: self.excluded_paths.duplicate() }
    }
}

pub fn copy_indexes(list: &Vec<usize>) -> (r: Vec<usize>)
    ensures
        r@ == list@,
{
    let mut r: Vec<usize> = Vec::new();
    let mut i: usize = 0;
    while i < list.len()
        invariant
            i <= list.len(),
            r@ == list@.take(i as int),
        decreases list.len() - i,
    {
        r.push(list[i]);
        proof {
            assert(list@.take(i + 1) =~= list@.take(i as int).push(list@[i as int]));
        }
        i = i + 1;
    }
    proof {
        assert(list@.take(i as int) =~= list@);
    }
    r
}

} // verus!
