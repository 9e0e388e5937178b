//! What a session's snapshots show: the crates that it sees are worked out anew only where the world
//! or its own overlay has moved on.
use crate::lookup::visible_roots;
use crate::runtime::{RuntimeSession, SharedAnalyzerSnapshotToken};
use crate::world::{SharedWorld, WorldView};
use rustc_hash::FxHashSet;
use vstd::prelude::*;

verus! {

/// The root files of the crates that the session was last found to see.
pub struct SharedAnalysisCache {
    pub visible_files: FxHashSet<u32>,
}

/// The session once a snapshot of a world is taken.
pub open spec fn snapped(session: RuntimeSession, w: WorldView) -> RuntimeSession {
    RuntimeSession { cache_generation: Some(w.input_generation), ..session }
}

/// The crates that the session sees in a snapshot.
pub open spec fn shown(
    session: RuntimeSession,
    visible: Set<u32>,
    w: WorldView,
    workspaces: Seq<usize>,
    excluded: Seq<Seq<char>>,
) -> Set<u32> {
    if session.cache_generation == Some(w.input_generation) {
        visible
    } else {
        visible_roots(w, session.id, workspaces, excluded)
    }
}

impl RuntimeSession {
    /// Takes a snapshot of the world for the session. The crates that it sees are looked up where
    /// they are not known for the world as it is; the result tells whether they were.
    pub fn analysis_snapshot(
        &mut self,
        cache: &mut SharedAnalysisCache,
        world: &SharedWorld,
        workspaces: &Vec<usize>,
        excluded_paths: &Vec<String>,
        foreign_epoch: u64,
    ) -> (r: (SharedAnalyzerSnapshotToken, bool))
        ensures
            r.0 == (SharedAnalyzerSnapshotToken {
                session: old(self).id,
                base_generation: world@.input_generation,
                overlay_generation: old(self).overlay_generation,
                foreign_epoch,
            }),
            r.1 == (old(self).cache_generation != Some(world@.input_generation)),
            *final(self) == snapped(*old(self), world@),
            final(cache).visible_files@ == shown(
                *old(self),
                old(cache).visible_files@,
                world@,
                workspaces@,
                excluded_paths.deep_view(),
            ),
    {
        let token = self.snapshot_token(world.input_generation, foreign_epoch);
        let refreshed = self.refresh_cache(world.input_generation);
        if refreshed {
            cache.visible_files = world.session_visible_crate_roots(self.id, workspaces, excluded_paths);
        }
        (token, refreshed)
    }
}

/// What happens to a session between two snapshots: another snapshot, or its overlay is brought in
/// step and may have changed by it.
pub enum AnalysisStep {
    Snapshot(WorldView),
    Synced(bool),
}

/// The session and the crates it sees after the first `n` steps.
pub open spec fn analysed(
    session: RuntimeSession,
    visible: Set<u32>,
    workspaces: Seq<usize>,
    excluded: Seq<Seq<char>>,
    steps: Seq<AnalysisStep>,
    n: int,
) -> (RuntimeSession, Set<u32>)
    decreases n,
{
    if n <= 0 {
        (session, visible)
    } else {
        let before = analysed(session, visible, workspaces, excluded, steps, n - 1);
        match steps[n - 1] {
            AnalysisStep::Snapshot(w) => (snapped(before.0, w), shown(before.0, before.1, w, workspaces, excluded)),
            AnalysisStep::Synced(changed) => (
                if changed {
                    RuntimeSession {
                        overlay_generation: before.0.overlay_generation.wrapping_add(1),
                        cache_generation: None,
                        ..before.0
                    }
                } else {
                    before.0
                },
                before.1,
            ),
        }
    }
}

proof fn lemma_analysed(
    session: RuntimeSession,
    visible: Set<u32>,
    workspaces: Seq<usize>,
    excluded: Seq<Seq<char>>,
    steps: Seq<AnalysisStep>,
    generation: u64,
    n: int,
)
    requires
        0 <= n <= steps.len(),
        session.cache_generation == Some(generation),
        session.overlay_generation + steps.len() < u64::MAX,
        forall|i: int| 0 <= i < steps.len() ==> ((#[trigger] steps[i]) matches AnalysisStep::Snapshot(w) ==> w.input_generation == generation),
    ensures
        ({
            let r = analysed(session, visible, workspaces, excluded, steps, n);
            &&& session.overlay_generation <= r.0.overlay_generation <= session.overlay_generation + n
            &&& r.0.overlay_generation == session.overlay_generation ==> r.0.cache_generation == Some(generation) && r.1 == visible
        }),
    decreases n,
{
    if n > 0 {
        lemma_analysed(session, visible, workspaces, excluded, steps, generation, n - 1);
        assert(steps[n - 1] matches AnalysisStep::Snapshot(w) ==> w.input_generation == generation);
    }
}

/// Snapshots of a session that agree in the generation of the world and in that of the session's
/// overlay show the same crates: what is seen moves only when one of the two does.
pub proof fn law_same_generations_show_the_same_crates(
    session: RuntimeSession,
    visible: Set<u32>,
    workspaces: Seq<usize>,
    excluded: Seq<Seq<char>>,
    first: WorldView,
    steps: Seq<AnalysisStep>,
    last: WorldView,
)
    requires
        session.overlay_generation + steps.len() < u64::MAX,
        last.input_generation == first.input_generation,
        forall|i: int|
            0 <= i < steps.len() ==> ((#[trigger] steps[i]) matches AnalysisStep::Snapshot(w) ==> w.input_generation
                == first.input_generation),
        analysed(
            snapped(session, first),
            shown(session, visible, first, workspaces, excluded),
            workspaces,
            excluded,
            steps,
            steps.len() as int,
        ).0.overlay_generation == session.overlay_generation,
    ensures
        ({
            let seen = shown(session, visible, first, workspaces, excluded);
            let later = analysed(snapped(session, first), seen, workspaces, excluded, steps, steps.len() as int);
            shown(later.0, later.1, last, workspaces, excluded) == seen
        }),
{
    let seen = shown(session, visible, first, workspaces, excluded);
    lemma_analysed(snapped(session, first), seen, workspaces, excluded, steps, first.input_generation, steps.len() as int);
}

} // verus!
