//! When a collection of garbage may start.
//!
//! A collection runs only while no session is busy, one at a time. A change marks the state dirty,
//! and a collection takes the mark with it.
use vstd::prelude::*;

verus! {

#[derive(Clone, Copy, Debug, PartialEq, Eq, Structural)]
pub struct SharedAnalyzerGcState {
    pub busy_sessions: usize,
    pub dirty: bool,
    pub collecting: bool,
}

impl SharedAnalyzerGcState {
    pub open spec fn ready(self) -> bool {
        self.dirty && !self.collecting && self.busy_sessions == 0
    }

    /// The state once a collection has started, if it may.
    pub open spec fn started(self) -> SharedAnalyzerGcState {
        if self.ready() {
            SharedAnalyzerGcState { dirty: false, collecting: true, ..self }
        } else {
            self
        }
    }

    pub fn new() -> (r: Self)
        ensures
            r == (SharedAnalyzerGcState { busy_sessions: 0, dirty: false, collecting: false }),
    {
        SharedAnalyzerGcState { busy_sessions: 0, dirty: false, collecting: false }
    }

    /// Starts a collection if one is due, and tells whether it did.
    pub fn start_if_ready(&mut self) -> (collect: bool)
        ensures
            collect == old(self).ready(),
            *final(self) == old(self).started(),
    {
        if self.dirty && !self.collecting && self.busy_sessions == 0 {
            self.dirty = false;
            self.collecting = true;
            true
        } else {
            false
        }
    }

    /// A session joins, and is busy.
    pub fn register_session(&mut self)
        requires
            old(self).busy_sessions < usize::MAX,
        ensures
            *final(self) == (SharedAnalyzerGcState { busy_sessions: (old(self).busy_sessions + 1) as usize, ..*old(self) }),
    {
        self.busy_sessions = self.busy_sessions + 1;
    }

    /// A session has become busy, or has come to rest.
    pub fn set_session_busy(&mut self, busy: bool) -> (collect: bool)
        requires
            busy ==> old(self).busy_sessions < usize::MAX,
            !busy ==> old(self).busy_sessions > 0,
        ensures
            ({
                let counted = SharedAnalyzerGcState {
                    busy_sessions: (old(self).busy_sessions + (if busy { 1int } else { -1 })) as usize,
                    ..*old(self)
                };
                collect == counted.ready() && *final(self) == counted.started()
            }),
    {
        if busy {
            self.busy_sessions = self.busy_sessions + 1;
        } else {
            self.busy_sessions = self.busy_sessions - 1;
        }
        self.start_if_ready()
    }

    /// A session leaves.
    pub fn unregister_session(&mut self, busy: bool) -> (collect: bool)
        requires
            busy ==> old(self).busy_sessions > 0,
        ensures
            ({
                let counted = SharedAnalyzerGcState {
                    busy_sessions: (old(self).busy_sessions - (if busy { 1int } else { 0 })) as usize,
                    ..*old(self)
                };
                collect == counted.ready() && *final(self) == counted.started()
            }),
    {
        if busy {
            self.busy_sessions = self.busy_sessions - 1;
        }
        self.start_if_ready()
    }

    /// Notes a change without starting a collection.
    pub fn changed(&mut self)
        ensures
            *final(self) == (SharedAnalyzerGcState { dirty: true, ..*old(self) }),
    {
        self.dirty = true;
    }

    /// Asks for a collection, which starts at once if it may.
    pub fn request(&mut self) -> (collect: bool)
        ensures
            collect == (SharedAnalyzerGcState { dirty: true, ..*old(self) }).ready(),
            *final(self) == (SharedAnalyzerGcState { dirty: true, ..*old(self) }).started(),
    {
        self.dirty = true;
        self.start_if_ready()
    }

    /// A collection is over. The result says whether the next one has started.
    pub fn finish_collection(&mut self) -> (collect: bool)
        ensures
            collect == (SharedAnalyzerGcState { collecting: false, ..*old(self) }).ready(),
            *final(self) == (SharedAnalyzerGcState { collecting: false, ..*old(self) }).started(),
    {
        self.collecting = false;
        self.start_if_ready()
    }
}

/// A collection starts only while no session is busy and none is running, and then the state is
/// no longer dirty.
pub proof fn law_collection_starts_only_at_rest(s: SharedAnalyzerGcState)
    ensures
        !s.collecting && s.started().collecting ==> s.busy_sessions == 0 && s.dirty && !s.started().dirty,
        s.started().busy_sessions == s.busy_sessions,
{
}

/// A noted change is not lost: the mark stays until a collection starts, and one starts as soon as
/// the last busy session comes to rest while none is running.
pub proof fn law_change_is_collected(s: SharedAnalyzerGcState)
    requires
        s.dirty,
    ensures
        s.started().dirty || (s.started().collecting && !s.collecting),
        s.busy_sessions == 0 && !s.collecting ==> s.started().collecting,
{
}

} // verus!
