//! Sessions joining and leaving a world, and what they are told of each other.
use crate::base::contains_index;
use crate::file_ids::SharedFileIds;
use crate::ordered::{listed, sorted_keys};
use crate::overlay::{ActiveSessionOverlay, OverlayView};
use crate::rebuild::{is_change, lemma_rebuilt, rebuilt, InputChange};
use crate::sync::overlay_of;
use crate::view::copy_indexes;
use crate::world::{update_views, SharedWorld, UpdateView, WorkspaceUpdate, WorldView};
use vstd::prelude::*;

verus! {

/// The world with one session more.
pub open spec fn registered(w: WorldView, indexes: Seq<usize>) -> WorldView {
    WorldView {
        overlays: w.overlays.insert(w.next_session_id, OverlayView::empty()),
        updates: w.updates.insert(w.next_session_id, UpdateView { workspace_indexes: indexes, pending: false }),
        next_session_id: (w.next_session_id + 1) as u64,
        ..w
    }
}

/// The world without a session, before the database is brought up to date.
pub open spec fn left_by(w: WorldView, session: u64) -> WorldView {
    WorldView { overlays: w.overlays.remove(session), updates: w.updates.remove(session), ..w }
}

/// The numbers of a session's overlay files, ascending.
pub open spec fn overlay_numbers(w: WorldView, session: u64) -> Seq<u32> {
    match overlay_of(w, session) {
        Some(overlay) => sorted_keys::<u32>(overlay.path_by_file.dom()),
        None => Seq::empty(),
    }
}

/// The world once a session has left.
pub open spec fn unregistered(w: WorldView, session: u64) -> WorldView {
    if overlay_numbers(w, session).len() == 0 {
        left_by(w, session)
    } else {
        rebuilt(left_by(w, session), overlay_numbers(w, session))
    }
}

pub open spec fn shares_index(a: Seq<usize>, b: Seq<usize>) -> bool {
    exists|i: int| 0 <= i < a.len() && b.contains(#[trigger] a[i])
}

/// The session looks at one of the workspaces, and did not change them itself.
pub open spec fn is_told(updates: Map<u64, UpdateView>, session: u64, indexes: Seq<usize>, id: u64) -> bool {
    id != session && updates.contains_key(id) && shares_index(updates[id].workspace_indexes, indexes)
}

/// The sessions' notices once those that look at one of the workspaces are told.
pub open spec fn notified(updates: Map<u64, UpdateView>, session: u64, indexes: Seq<usize>) -> Map<u64, UpdateView> {
    Map::new(
        |id: u64| updates.contains_key(id),
        |id: u64|
            if is_told(updates, session, indexes, id) {
                UpdateView { pending: true, ..updates[id] }
            } else {
                updates[id]
            },
    )
}

fn share_index(a: &Vec<usize>, b: &Vec<usize>) -> (r: bool)
    ensures
        r == shares_index(a@, b@),
{
    let mut i: usize = 0;
    while i < a.len()
        invariant
            i <= a.len(),
            forall|j: int| 0 <= j < i ==> !b@.contains(#[trigger] a@[j]),
        decreases a.len() - i,
    {
        if contains_index(b, a[i]) {
            return true;
        }
        i = i + 1;
    }
    false
}

proof fn lemma_registered(w: WorldView, indexes: Seq<usize>, next: u32)
    requires
        w.wf(next),
    ensures
        registered(w, indexes).wf(next),
{
    let r = registered(w, indexes);
    assert(r.overlays.dom() =~= w.overlays.dom().insert(w.next_session_id));
    assert forall|s: u64, f: u32| r.overlays.contains_key(s) && #[trigger] r.overlays[s].path_by_file.contains_key(f) implies s
        != w.next_session_id && w.overlays.contains_key(s) && w.overlays[s].path_by_file.contains_key(f) by {}
    assert(crate::world::overlays_sound(r.overlays, next)) by {
        assert forall|s: u64, t: u64, f: u32|
            s != t && r.overlays.contains_key(s) && r.overlays.contains_key(t) && #[trigger] r.overlays[s].path_by_file.contains_key(f) implies !#[trigger] r.overlays[t].path_by_file.contains_key(
            f,
        ) by {
            if r.overlays[t].path_by_file.contains_key(f) {
                assert(w.overlays[s].path_by_file.contains_key(f));
                assert(w.overlays[t].path_by_file.contains_key(f));
            }
        }
    }
}

pub proof fn lemma_left_by(w: WorldView, session: u64, next: u32)
    requires
        w.wf(next),
    ensures
        left_by(w, session).wf(next),
        forall|i: int, s: u64|
            0 <= i < overlay_numbers(w, session).len() && left_by(w, session).overlays.contains_key(s) ==> !#[trigger] left_by(
                w,
                session,
            ).overlays[s].path_by_file.contains_key(#[trigger] overlay_numbers(w, session)[i]),
{
    let r = left_by(w, session);
    assert forall|s: u64, f: u32| r.overlays.contains_key(s) && #[trigger] r.overlays[s].path_by_file.contains_key(f) implies s
        != session && w.overlays.contains_key(s) && w.overlays[s].path_by_file.contains_key(f) by {}
    assert(crate::world::overlays_sound(r.overlays, next)) by {
        assert forall|s: u64, t: u64, f: u32|
            s != t && r.overlays.contains_key(s) && r.overlays.contains_key(t) && #[trigger] r.overlays[s].path_by_file.contains_key(f) implies !#[trigger] r.overlays[t].path_by_file.contains_key(
            f,
        ) by {
            assert(w.overlays[s].path_by_file.contains_key(f));
        }
    }
    assert forall|s: u64, k: Seq<char>| r.overlays.contains_key(s) && #[trigger] r.overlays[s].files.contains_key(k) implies r.overlays[s].files[k].base_source_root
        < r.base.inputs.roots.len() by {
        assert(w.overlays[s].files.contains_key(k));
    }
    let numbers = overlay_numbers(w, session);
    assert forall|i: int, s: u64| 0 <= i < numbers.len() && r.overlays.contains_key(s) implies !#[trigger] r.overlays[s].path_by_file.contains_key(
        #[trigger] numbers[i],
    ) by {
        crate::ordered::lemma_sorted_exists::<u32>(w.overlays[session].path_by_file.dom());
        assert(numbers.to_set().contains(numbers[i]));
        assert(w.overlays[session].path_by_file.contains_key(numbers[i]));
        assert(w.overlays.contains_key(s));
    }
}

impl SharedWorld {
    /// Lets a session join, and gives it a number.
    pub fn register_session(&mut self, workspace_indexes: &Vec<usize>) -> (r: u64)
        requires
            old(self)@.next_session_id < u64::MAX,
        ensures
            r == old(self)@.next_session_id,
            final(self)@ == registered(old(self)@, workspace_indexes@),
            forall|next: u32| old(self)@.wf(next) ==> #[trigger] final(self)@.wf(next),
    {
        let id: u64 = self.next_session_id;
        self.next_session_id = id + 1;
        self.overlays.insert(id, ActiveSessionOverlay::empty());
        self.updates.insert(id, WorkspaceUpdate { workspace_indexes: copy_indexes(workspace_indexes), pending: false });
        proof {
            let r = registered(old(self)@, workspace_indexes@);
            assert(self@.overlays =~= r.overlays);
            assert(self@.updates =~= r.updates);
            assert(self@ =~= r);
            assert forall|next: u32| old(self)@.wf(next) implies #[trigger] self@.wf(next) by {
                lemma_registered(old(self)@, workspace_indexes@, next);
            }
        }
        id
    }

    /// Lets a session leave. Where it had overlay files, the database has to be told of it.
    pub fn unregister_session(&mut self, session_id: u64, ids: &SharedFileIds) -> (r: Option<InputChange>)
        requires
            old(self)@.wf(ids.next),
        ensures
            final(self)@ == unregistered(old(self)@, session_id),
            final(self)@.wf(ids.next),
            r is Some <==> overlay_numbers(old(self)@, session_id).len() != 0,
            r matches Some(change) ==> is_change(
                change,
                left_by(old(self)@, session_id),
                overlay_numbers(old(self)@, session_id),
            ),
    {
        let ghost w = self@;
        self.updates.remove(&session_id);
        let old_files = match self.overlays.remove(&session_id) {
            Some(overlay) => overlay.file_ids(),
            None => Vec::new(),
        };
        proof {
            assert(self@.overlays =~= w.overlays.remove(session_id));
            assert(self@.updates =~= w.updates.remove(session_id));
            assert(self@ =~= left_by(w, session_id));
            assert(old_files@ == overlay_numbers(w, session_id));
            lemma_left_by(w, session_id, ids.next);
        }
        if old_files.len() == 0 {
            return None;
        }
        let change = self.rebuild_overlay_inputs(&old_files, ids);
        Some(change)
    }

    /// Tells the other sessions that look at one of the workspaces of a change to them. The result
    /// lists, by ascending number, those that had taken notice of all changes before.
    pub fn notify_workspace_updates(&mut self, session_id: u64, workspace_indexes: &Vec<usize>) -> (r: Vec<u64>)
        ensures
            final(self)@ == (WorldView {
                updates: notified(old(self)@.updates, session_id, workspace_indexes@),
                ..old(self)@
            }),
            forall|id: u64|
                #[trigger] r@.contains(id) <==> is_told(old(self)@.updates, session_id, workspace_indexes@, id)
                    && !old(self)@.updates[id].pending,
            forall|i: int, j: int| 0 <= i < j < r@.len() ==> r@[i] < r@[j],
    {
        let ghost updates = self@.updates;
        let n = self.updates.len();
        let ghost keys = self.updates.keys();
        let mut r: Vec<u64> = Vec::new();
        let mut i: usize = 0;
        while i < n
            invariant
                i <= n,
                n == keys.len(),
                keys == self.updates.keys(),
                listed(self.updates),
                updates == update_views(self.updates@),
                forall|id: u64|
                    #[trigger] r@.contains(id) <==> keys.take(i as int).contains(id) && is_told(
                        updates,
                        session_id,
                        workspace_indexes@,
                        id,
                    ) && !updates[id].pending,
                forall|a: int, b: int| 0 <= a < b < r@.len() ==> r@[a] < r@[b],
            decreases n - i,
        {
            let id: u64 = *self.updates.key_at(i);
            let update = self.updates.value_at(i);
            let ghost before = r@;
            proof {
                assert(self.updates@.contains_key(keys[i as int]));
                assert(updates.contains_key(id) && updates[id] == update@);
                assert(keys.take(i + 1) =~= keys.take(i as int).push(id));
                assert forall|o: u64| keys.take(i + 1).contains(o) <==> o == id || keys.take(i as int).contains(o) by {
                    if keys.take(i as int).contains(o) {
                        let j = keys.take(i as int).index_of(o);
                        assert(keys.take(i + 1)[j] == o);
                    }
                    if o == id {
                        assert(keys.take(i + 1)[i as int] == o);
                    }
                }
                assert forall|a: int| 0 <= a < r@.len() implies r@[a] < id by {
                    assert(r@.contains(r@[a]));
                    let j = keys.take(i as int).index_of(r@[a]);
                    assert(keys[j] == r@[a]);
                    crate::ordered::lemma_u64_key_order(keys[j], keys[i as int]);
                }
            }
            let told = id != session_id && !update.pending && share_index(&update.workspace_indexes, workspace_indexes);
            if told {
                r.push(id);
            }
            proof {
                assert(told == (is_told(updates, session_id, workspace_indexes@, id) && !updates[id].pending));
                assert forall|o: u64|
                    #[trigger] r@.contains(o) <==> keys.take(i + 1).contains(o) && is_told(
                        updates,
                        session_id,
                        workspace_indexes@,
                        o,
                    ) && !updates[o].pending by {
                    assert(before.contains(o) <==> keys.take(i as int).contains(o) && is_told(
                        updates,
                        session_id,
                        workspace_indexes@,
                        o,
                    ) && !updates[o].pending);
                    if before.contains(o) {
                        let j = before.index_of(o);
                        assert(r@[j] == o);
                    }
                    if told && o == id {
                        assert(r@[before.len() as int] == o);
                    }
                    if r@.contains(o) && o != id {
                        let j = r@.index_of(o);
                        assert(before[j] == o);
                    }
                }
            }
            i = i + 1;
        }
        proof {
            assert(keys.take(n as int) =~= keys);
            assert forall|id: u64| #[trigger] r@.contains(id) <==> is_told(updates, session_id, workspace_indexes@, id)
                && !updates[id].pending by {
                if is_told(updates, session_id, workspace_indexes@, id) {
                    assert(self.updates@.contains_key(id));
                    assert(keys.contains(id));
                }
            }
        }
        let mut k: usize = 0;
        proof {
            assert forall|a: int| 0 <= a < r@.len() implies updates.contains_key(#[trigger] r@[a]) by {
                assert(r@.contains(r@[a]));
            }
        }
        while k < r.len()
            invariant
                k <= r.len(),
                self.base == old(self).base,
                self@ == (WorldView { updates: self@.updates, ..old(self)@ }),
                updates == old(self)@.updates,
                forall|id: u64| #[trigger] self@.updates.contains_key(id) <==> updates.contains_key(id),
                forall|id: u64|
                    #[trigger] self@.updates.contains_key(id) ==> self@.updates[id] == (if r@.take(k as int).contains(id) {
                        UpdateView { pending: true, ..updates[id] }
                    } else {
                        updates[id]
                    }),
                forall|a: int| 0 <= a < r@.len() ==> updates.contains_key(#[trigger] r@[a]),
            decreases r.len() - k,
        {
            let id: u64 = r[k];
            let ghost before = self@.updates;
            proof {
                assert(updates.contains_key(r@[k as int]));
                assert(before.contains_key(id));
                assert(self.updates@.contains_key(id));
            }
            match self.updates.remove(&id) {
                Some(update) => {
                    let mut update = update;
                    update.pending = true;
                    self.updates.insert(id, update);
                },
                None => {},
            }
            proof {
                assert(self@.updates =~= before.insert(id, UpdateView { pending: true, ..before[id] }));
                assert(self@.overlays == old(self)@.overlays);
                assert(r@.take(k + 1) =~= r@.take(k as int).push(id));
                assert forall|o: u64| r@.take(k + 1).contains(o) <==> o == id || r@.take(k as int).contains(o) by {
                    if r@.take(k as int).contains(o) {
                        let j = r@.take(k as int).index_of(o);
                        assert(r@.take(k + 1)[j] == o);
                    }
                    if o == id {
                        assert(r@.take(k + 1)[k as int] == o);
                    }
                }
            }
            k = k + 1;
        }
        proof {
            assert(r@.take(k as int) =~= r@);
            let want = notified(updates, session_id, workspace_indexes@);
            assert forall|id: u64| self@.updates.contains_key(id) implies self@.updates[id] == want[id] by {
                if is_told(updates, session_id, workspace_indexes@, id) && updates[id].pending {
                    assert(!r@.contains(id));
                }
            }
            assert(self@.updates =~= want);
        }
        r
    }

    /// Takes notice of all changes so far. The result tells whether there were any.
    pub fn take_workspace_update(&mut self, session_id: u64) -> (r: bool)
        ensures
            r == (old(self)@.updates.contains_key(session_id) && old(self)@.updates[session_id].pending),
            final(self)@ == (WorldView {
                updates: if old(self)@.updates.contains_key(session_id) {
                    old(self)@.updates.insert(session_id, UpdateView { pending: false, ..old(self)@.updates[session_id] })
                } else {
                    old(self)@.updates
                },
                ..old(self)@
            }),
    {
        let ghost before = self@.updates;
        let r = match self.updates.remove(&session_id) {
            Some(update) => {
                let mut update = update;
                let pending = update.pending;
                update.pending = false;
                self.updates.insert(session_id, update);
                pending
            },
            None => false,
        };
        proof {
            assert(self@.updates =~= (if before.contains_key(session_id) {
                before.insert(session_id, UpdateView { pending: false, ..before[session_id] })
            } else {
                before
            }));
        }
        r
    }
}

/// A session that leaves takes its overlay with it, and changes nothing of what others find.
pub proof fn law_leaving_is_private(w: WorldView, session: u64, next: u32, other: u64, indexes: Seq<usize>, key: Seq<char>)
    requires
        w.wf(next),
        other != session,
    ensures
        !unregistered(w, session).overlays.contains_key(session),
        crate::privacy::seen_text(unregistered(w, session), other, indexes, key) == crate::privacy::seen_text(
            w,
            other,
            indexes,
            key,
        ),
{
    let r = unregistered(w, session);
    let s = left_by(w, session);
    let removed = overlay_numbers(w, session);
    lemma_left_by(w, session, next);
    if removed.len() > 0 {
        lemma_rebuilt(s, removed, next);
        crate::privacy::lemma_seen_file_elsewhere(w, next, other, indexes, key);
        match crate::privacy::seen_file(w, other, indexes, key) {
            Some(f) => {
                assert(!removed.contains(f)) by {
                    if removed.contains(f) {
                        let i = removed.index_of(f);
                        crate::ordered::lemma_sorted_exists::<u32>(w.overlays[session].path_by_file.dom());
                        assert(removed.to_set().contains(removed[i]));
                        assert(w.overlays[session].path_by_file.contains_key(f));
                    }
                }
                assert forall|t: u64| #[trigger] s.overlays.contains_key(t) && s.overlays[t].path_by_file.contains_key(f) implies s.applied.contains(f) by {
                    assert(w.overlays[t].path_by_file.contains_key(f));
                }
                assert(r.base.inputs.texts[f] == s.base.inputs.texts[f]);
            },
            None => {},
        }
    }
}

/// What happens to the sessions of a world.
pub enum SessionStep {
    Join(Seq<usize>),
    Leave(u64),
}

/// The world after the first `n` steps.
pub open spec fn stepped(w: WorldView, steps: Seq<SessionStep>, n: int) -> WorldView
    decreases n,
{
    if n <= 0 {
        w
    } else {
        let before = stepped(w, steps, n - 1);
        match steps[n - 1] {
            SessionStep::Join(indexes) => registered(before, indexes),
            SessionStep::Leave(session) => unregistered(before, session),
        }
    }
}

/// How many sessions join in the first `n` steps.
pub open spec fn joins(steps: Seq<SessionStep>, n: int) -> int
    decreases n,
{
    if n <= 0 {
        0
    } else {
        joins(steps, n - 1) + (if steps[n - 1] is Join {
            1int
        } else {
            0int
        })
    }
}

/// Sessions are numbered in the order in which they join, whoever has left before: the next number
/// is the first one and the number of those that joined.
pub proof fn law_sessions_are_numbered_in_order(w: WorldView, steps: Seq<SessionStep>, n: int)
    requires
        0 <= n <= steps.len(),
        w.next_session_id + steps.len() < u64::MAX,
    ensures
        0 <= joins(steps, n) <= n,
        stepped(w, steps, n).next_session_id == w.next_session_id + joins(steps, n),
    decreases n,
{
    if n > 0 {
        law_sessions_are_numbered_in_order(w, steps, n - 1);
    }
}

} // verus!
