//! What a session is, apart from what it sees: whether it is active and busy, how far it has got,
//! and which of its snapshots can be taken again.
use crate::access::AccessView;
use crate::gc::SharedAnalyzerGcState;
use vstd::prelude::*;

verus! {

#[derive(Clone, Copy, Debug, PartialEq, Eq, Structural)]
pub struct RuntimeSession {
    pub id: u64,
    pub active: bool,
    pub busy: bool,
    pub overlay_generation: u64,
    pub config_generation_seen: u64,
    /// The generation of the world for which the visible files were worked out.
    pub cache_generation: Option<u64>,
}

/// What a snapshot was taken of.
#[derive(Clone, Copy, Debug, PartialEq, Eq, Structural)]
pub struct SharedAnalyzerSnapshotToken {
    pub session: u64,
    pub base_generation: u64,
    pub overlay_generation: u64,
    pub foreign_epoch: u64,
}

/// What becomes of work that was done on a snapshot.
#[derive(Clone, Copy, Debug, PartialEq, Eq, Structural)]
pub enum SnapshotOutcome {
    /// Another session got in between: the work is to be done again on a new snapshot.
    Retry,
    Deliver,
}

impl SharedAnalyzerSnapshotToken {
    /// A later snapshot of the same state, taken after another session got in between.
    pub open spec fn precedes(self, next: SharedAnalyzerSnapshotToken) -> bool {
        &&& self.session == next.session
        &&& self.base_generation == next.base_generation
        &&& self.overlay_generation == next.overlay_generation
        &&& self.foreign_epoch < next.foreign_epoch
    }

    /// The session is as it was when the snapshot was taken, and another one got in between.
    pub open spec fn is_replayable(self, session: RuntimeSession, input_generation: u64, access: AccessView) -> bool {
        &&& session.active
        &&& self.base_generation == input_generation
        &&& self.overlay_generation == session.overlay_generation
        &&& access.epochs.contains_key(session.id) && access.epochs[session.id] > self.foreign_epoch
    }

    /// Whether work done on this snapshot can be done again on another.
    pub fn can_replay(&self, session: &RuntimeSession, next: &SharedAnalyzerSnapshotToken) -> (r: bool)
        ensures
            r == (session.active && self.precedes(*next)),
    {
        session.active && self.session == next.session && self.base_generation == next.base_generation
            && self.overlay_generation == next.overlay_generation && self.foreign_epoch < next.foreign_epoch
    }

    /// Whether the work has to be done again, given the epoch that the world has for the session.
    pub fn replayable(&self, session: &RuntimeSession, input_generation: u64, epoch: Option<u64>) -> (r: bool)
        ensures
            forall|access: AccessView|
                (epoch is Some <==> access.epochs.contains_key(session.id)) && (epoch is Some ==> access.epochs[session.id] == epoch->0)
                    ==> r == #[trigger] self.is_replayable(*session, input_generation, access),
            epoch is None ==> !r,
    {
        let foreign = match epoch {
            Some(epoch) => epoch > self.foreign_epoch,
            None => false,
        };
        session.active && self.base_generation == input_generation && self.overlay_generation == session.overlay_generation
            && foreign
    }

    /// Whether work is done again on a snapshot that was just taken for it.
    pub fn replays_on(
        &self,
        session: &RuntimeSession,
        input_generation: u64,
        epoch: Option<u64>,
        next: &SharedAnalyzerSnapshotToken,
    ) -> (r: bool)
        ensures
            forall|access: AccessView|
                (epoch is Some <==> access.epochs.contains_key(session.id)) && (epoch is Some ==> access.epochs[session.id] == epoch->0)
                    ==> r == (#[trigger] self.is_replayable(*session, input_generation, access) && self.precedes(*next)),
            epoch is None ==> !r,
    {
        self.replayable(session, input_generation, epoch) && self.can_replay(session, next)
    }

    /// What becomes of the work, for work that is taken up again as a new task.
    pub fn outcome(&self, session: &RuntimeSession, input_generation: u64, epoch: Option<u64>) -> (r: SnapshotOutcome)
        ensures
            forall|access: AccessView|
                (epoch is Some <==> access.epochs.contains_key(session.id)) && (epoch is Some ==> access.epochs[session.id] == epoch->0)
                    ==> (r == SnapshotOutcome::Retry <==> #[trigger] self.is_replayable(*session, input_generation, access)),
            epoch is None ==> r == SnapshotOutcome::Deliver,
    {
        if self.replayable(session, input_generation, epoch) {
            SnapshotOutcome::Retry
        } else {
            SnapshotOutcome::Deliver
        }
    }
}

impl RuntimeSession {
    /// A session that has just joined: it is active and busy, and has seen no settings yet.
    pub fn new(id: u64) -> (r: Self)
        ensures
            r == (RuntimeSession {
                id,
                active: true,
                busy: true,
                overlay_generation: 0,
                config_generation_seen: u64::MAX,
                cache_generation: None,
            }),
    {
        RuntimeSession {
            id,
            active: true,
            busy: true,
            overlay_generation: 0,
            config_generation_seen: u64::MAX,
            cache_generation: None,
        }
    }

    /// Notes whether the session is busy. The collector is told only of a change, and may start.
    pub fn set_busy(&mut self, gc: &mut SharedAnalyzerGcState, busy: bool) -> (collect: bool)
        requires
            !old(self).busy && busy ==> old(gc).busy_sessions < usize::MAX,
            old(self).busy && !busy ==> old(gc).busy_sessions > 0,
        ensures
            *final(self) == (RuntimeSession { busy, ..*old(self) }),
            ({
                let counted = SharedAnalyzerGcState {
                    busy_sessions: if busy {
                        (old(gc).busy_sessions + 1) as usize
                    } else {
                        (old(gc).busy_sessions - 1) as usize
                    },
                    ..*old(gc)
                };
                if old(self).busy == busy {
                    !collect && *final(gc) == *old(gc)
                } else {
                    collect == counted.ready() && *final(gc) == counted.started()
                }
            }),
    {
        if self.busy == busy {
            return false;
        }
        self.busy = busy;
        gc.set_session_busy(busy)
    }

    /// The session is over for its user: it takes no part any more and is not busy.
    pub fn retire(&mut self, gc: &mut SharedAnalyzerGcState) -> (collect: bool)
        requires
            old(self).busy ==> old(gc).busy_sessions > 0,
        ensures
            *final(self) == (RuntimeSession { active: false, busy: false, ..*old(self) }),
            ({
                let counted = SharedAnalyzerGcState { busy_sessions: (old(gc).busy_sessions - 1) as usize, ..*old(gc) };
                if !old(self).busy {
                    !collect && *final(gc) == *old(gc)
                } else {
                    collect == counted.ready() && *final(gc) == counted.started()
                }
            }),
    {
        self.active = false;
        self.set_busy(gc, false)
    }

    /// Whether the world has changed since this was last asked.
    pub fn config_generation_changed(&mut self, input_generation: u64) -> (r: bool)
        ensures
            r == (old(self).config_generation_seen != input_generation),
            *final(self) == (RuntimeSession { config_generation_seen: input_generation, ..*old(self) }),
    {
        let r = self.config_generation_seen != input_generation;
        self.config_generation_seen = input_generation;
        r
    }

    pub fn snapshot_token(&self, base_generation: u64, foreign_epoch: u64) -> (r: SharedAnalyzerSnapshotToken)
        ensures
            r == (SharedAnalyzerSnapshotToken {
                session: self.id,
                base_generation,
                overlay_generation: self.overlay_generation,
                foreign_epoch,
            }),
    {
        SharedAnalyzerSnapshotToken {
            session: self.id,
            base_generation,
            overlay_generation: self.overlay_generation,
            foreign_epoch,
        }
    }

    /// Whether the visible files and the file tables have to be worked out anew for a snapshot.
    pub fn refresh_cache(&mut self, base_generation: u64) -> (r: bool)
        ensures
            r == (old(self).cache_generation != Some(base_generation)),
            *final(self) == (RuntimeSession { cache_generation: Some(base_generation), ..*old(self) }),
    {
        let r = match self.cache_generation {
            Some(generation) => generation != base_generation,
            None => true,
        };
        self.cache_generation = Some(base_generation);
        r
    }

    /// The session's overlay was brought in step. A change is one of the session's own, for the
    /// collector too, and the visible files are to be worked out anew.
    pub fn overlay_synced(&mut self, gc: &mut SharedAnalyzerGcState, changed: bool)
        ensures
            *final(self) == (if changed {
                RuntimeSession {
                    overlay_generation: old(self).overlay_generation.wrapping_add(1),
                    cache_generation: None,
                    ..*old(self)
                }
            } else {
                *old(self)
            }),
            *final(gc) == (if changed {
                SharedAnalyzerGcState { dirty: true, ..*old(gc) }
            } else {
                *old(gc)
            }),
    {
        if changed {
            self.overlay_generation = self.overlay_generation.wrapping_add(1);
            self.cache_generation = None;
            gc.changed();
        }
    }

    /// After an event: the session is busy until it has come to rest and nothing of its own runs.
    pub fn event_handled(&mut self, gc: &mut SharedAnalyzerGcState, quiescent: bool, tasks_idle: bool, formatting_idle: bool) -> (collect: bool)
        requires
            !old(self).busy ==> old(gc).busy_sessions < usize::MAX,
            old(self).busy ==> old(gc).busy_sessions > 0,
        ensures
            final(self).busy == !(quiescent && tasks_idle && formatting_idle),
            *final(self) == (RuntimeSession { busy: final(self).busy, ..*old(self) }),
            ({
                let counted = SharedAnalyzerGcState {
                    busy_sessions: if final(self).busy {
                        (old(gc).busy_sessions + 1) as usize
                    } else {
                        (old(gc).busy_sessions - 1) as usize
                    },
                    ..*old(gc)
                };
                if old(self).busy == final(self).busy {
                    !collect && *final(gc) == *old(gc)
                } else {
                    collect == counted.ready() && *final(gc) == counted.started()
                }
            }),
    {
        self.set_busy(gc, !(quiescent && tasks_idle && formatting_idle))
    }
}

/// Work on a snapshot is done again only after another session wrote: a token of a read that is
/// current is not replayable.
pub proof fn law_undisturbed_snapshot_stands(session: RuntimeSession, input_generation: u64, access: AccessView)
    ensures
        !(SharedAnalyzerSnapshotToken {
            session: session.id,
            base_generation: input_generation,
            overlay_generation: session.overlay_generation,
            foreign_epoch: access.epoch(session.id),
        }).is_replayable(session, input_generation, access),
{
}

/// A change of another session's overlay makes the snapshots that a session holds replayable, as
/// long as neither the world nor the session's own overlay has changed.
pub proof fn law_foreign_write_is_noticed(session: RuntimeSession, input_generation: u64, access: AccessView, after: AccessView, writer: u64)
    requires
        session.active,
        writer != session.id,
        access.epochs.contains_key(session.id),
        access.epochs[session.id] < u64::MAX,
        after == access.write_overlay(writer),
    ensures
        (SharedAnalyzerSnapshotToken {
            session: session.id,
            base_generation: input_generation,
            overlay_generation: session.overlay_generation,
            foreign_epoch: access.epoch(session.id),
        }).is_replayable(session, input_generation, after),
{
}

/// A session's own edits do not make its snapshots replayable: work on an older state is out of
/// date, not to be done again.
pub proof fn law_own_edit_is_not_replayed(token: SharedAnalyzerSnapshotToken, session: RuntimeSession, input_generation: u64, access: AccessView)
    requires
        token.overlay_generation != session.overlay_generation || token.base_generation != input_generation || !session.active,
    ensures
        !token.is_replayable(session, input_generation, access),
{
}

/// Replays go forward: a snapshot is never taken again for itself or an earlier one.
pub proof fn law_replays_go_forward(a: SharedAnalyzerSnapshotToken, b: SharedAnalyzerSnapshotToken, c: SharedAnalyzerSnapshotToken)
    requires
        a.precedes(b),
        b.precedes(c),
    ensures
        a.precedes(c),
        !b.precedes(a),
        !a.precedes(a),
{
}

/// Work is done again only on a later snapshot that differs in nothing but what other sessions did.
pub proof fn law_replay_is_of_the_same_state(a: SharedAnalyzerSnapshotToken, b: SharedAnalyzerSnapshotToken)
    ensures
        a.precedes(b) <==> b == (SharedAnalyzerSnapshotToken { foreign_epoch: b.foreign_epoch, ..a }) && b.foreign_epoch
            > a.foreign_epoch,
{
}

/// Work is done again if the session is there, neither the world nor the session's overlay has
/// changed, and other sessions did something since.
pub proof fn law_replay_follows_a_foreign_change(
    token: SharedAnalyzerSnapshotToken,
    session: RuntimeSession,
    input_generation: u64,
    access: AccessView,
    epoch: u64,
)
    ensures
        token.is_replayable(session, input_generation, access) ==> session.active && token.base_generation == input_generation
            && token.overlay_generation == session.overlay_generation,
        access.epochs.contains_pair(session.id, epoch) && epoch <= token.foreign_epoch ==> !token.is_replayable(
            session,
            input_generation,
            access,
        ),
        !access.epochs.contains_key(session.id) ==> !token.is_replayable(session, input_generation, access),
        session.active && token.base_generation == input_generation && token.overlay_generation == session.overlay_generation
            && access.epochs.contains_pair(session.id, epoch) && epoch > token.foreign_epoch ==> token.is_replayable(
            session,
            input_generation,
            access,
        ),
{
}

} // verus!
