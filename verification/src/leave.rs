//! A session leaves: what it has under way is given up, its overlay goes, and nothing waits for it
//! any more.
use crate::access::SharedWorldAccess;
use crate::file_ids::SharedFileIds;
use crate::gc::SharedAnalyzerGcState;
use crate::keys::{BackendKeyView, SharedAnalyzerBackendKey};
use crate::operations::{without, ResultView};
use crate::rebuild::{is_change, InputChange};
use crate::registry::{RegistryView, SharedAnalyzerRegistry};
use crate::runtime::RuntimeSession;
use crate::sessions::{left_by, overlay_numbers, unregistered};
use crate::slots::{cancelled, normal_failed, OperationSlots};
use crate::world::SharedWorld;
use vstd::prelude::*;

verus! {

/// The registry once a session has given up what it had under way and has left.
pub open spec fn given_up(registry: RegistryView, slots: OperationSlots, key: BackendKeyView, reason: Seq<char>) -> RegistryView {
    let s = cancelled(registry, key, slots.reload, reason);
    let s = cancelled(s, key, slots.next_reload, reason);
    let s = cancelled(s, key, slots.rebuild, reason);
    normal_failed(s, key, slots.normal, reason).unregistered(key)
}

/// The words in which the operations of a session that is gone are given up.
pub open spec fn dropped_words() -> Seq<char> {
    "shared analyzer session dropped"@
}

impl RuntimeSession {
    /// The session takes no part any more: what it has under way is given up, and it leaves the
    /// registry.
    pub fn give_up(&mut self, slots: &mut OperationSlots, registry: &mut SharedAnalyzerRegistry, key: &SharedAnalyzerBackendKey)
        requires
            old(registry)@.wf(),
        ensures
            *final(self) == (RuntimeSession { active: false, ..*old(self) }),
            *final(slots) == (OperationSlots { reload: None, next_reload: None, rebuild: None, normal: None }),
            final(registry)@.wf(),
            final(registry)@ == given_up(old(registry)@, *old(slots), key@, dropped_words()),
    {
        self.active = false;
        let reason = String::from_str("shared analyzer session dropped");
        slots.cancel_operations(registry, key, &reason);
        registry.unregister(key);
    }

    /// The session leaves its world. Where it had overlay files, the database has to be told of it,
    /// and there is something to collect.
    pub fn leave_world(&self, world: &mut SharedWorld, ids: &SharedFileIds, gc: &mut SharedAnalyzerGcState) -> (r: Option<InputChange>)
        requires
            old(world)@.wf(ids.next),
        ensures
            final(world)@ == unregistered(old(world)@, self.id),
            final(world)@.wf(ids.next),
            r is Some <==> overlay_numbers(old(world)@, self.id).len() != 0,
            r matches Some(change) ==> is_change(change, left_by(old(world)@, self.id), overlay_numbers(old(world)@, self.id)),
            *final(gc) == (SharedAnalyzerGcState { dirty: old(gc).dirty || r is Some, ..*old(gc) }),
    {
        let change = world.unregister_session(self.id, ids);
        if change.is_some() {
            gc.changed();
        }
        change
    }

    /// The last that is heard of the session. The result says whether a collection has started.
    pub fn close(self, access: &mut SharedWorldAccess, gc: &mut SharedAnalyzerGcState) -> (collect: bool)
        requires
            self.busy ==> old(gc).busy_sessions > 0,
        ensures
            final(access)@ == old(access)@.forget(self.id),
            ({
                let counted = SharedAnalyzerGcState {
                    busy_sessions: (old(gc).busy_sessions - (if self.busy { 1int } else { 0 })) as usize,
                    ..*old(gc)
                };
                collect == counted.ready() && *final(gc) == counted.started()
            }),
    {
        access.unregister_session(self.id);
        gc.unregister_session(self.busy)
    }
}

/// The operation has failed for the reason given.
pub open spec fn has_failed(registry: RegistryView, id: u64, reason: Seq<char>) -> bool {
    registry.operations.records.contains_key(id) && registry.operations.records[id].result == Some(ResultView::Failed(reason))
}

spec fn still_open(registry: RegistryView, key: BackendKeyView, id: u64) -> bool {
    registry.operations.records.contains_key(id) && registry.operations.records[id].result is None && registry.operations.queue(
        key.shared_world,
    ).contains((key, id))
}

proof fn lemma_others_stay<A>(s: Seq<A>, item: A, other: A)
    requires
        item != other,
        s.contains(other),
    ensures
        without(s, item).contains(other),
    decreases s.len(),
{
    let rest = s.drop_first();
    let at = s.index_of(other);
    if s[0] == item {
        assert(rest[at - 1] == other);
    } else if s[0] == other {
        assert(without(s, item)[0] == other);
    } else {
        assert(rest[at - 1] == other);
        lemma_others_stay(rest, item, other);
        let k = without(rest, item).index_of(other);
        assert(without(s, item)[k + 1] == other);
    }
}

proof fn lemma_given_up_in_turn(s: RegistryView, key: BackendKeyView, slot: Option<u64>, reason: Seq<char>, id: u64)
    requires
        has_failed(s, id, reason) || still_open(s, key, id),
    ensures
        has_failed(cancelled(s, key, slot, reason), id, reason) || still_open(cancelled(s, key, slot, reason), key, id),
        slot == Some(id) ==> has_failed(cancelled(s, key, slot, reason), id, reason),
        cancelled(s, key, slot, reason).operations.normals == s.operations.normals,
{
    let r = cancelled(s, key, slot, reason);
    let queue = s.operations.queue(key.shared_world);
    if slot is Some && slot != Some(id) && still_open(s, key, id) && queue.contains((key, slot->0)) {
        lemma_others_stay(queue, (key, slot->0), (key, id));
        assert(without(queue, (key, slot->0)).contains((key, id)));
        assert(r.operations.queue(key.shared_world) == queue || r.operations.queue(key.shared_world) == without(queue, (key, slot->0)));
    }
}

/// A session that leaves gives up what it has under way: each reload and rebuild of its own that is
/// queued fails, for the reason given.
pub proof fn law_leaving_gives_up_queued_operations(
    registry: RegistryView,
    slots: OperationSlots,
    key: BackendKeyView,
    reason: Seq<char>,
    id: u64,
)
    requires
        slots.reload == Some(id) || slots.next_reload == Some(id) || slots.rebuild == Some(id),
        registry.operations.records.contains_key(id),
        registry.operations.records[id].result is None,
        registry.operations.queue(key.shared_world).contains((key, id)),
    ensures
        has_failed(given_up(registry, slots, key, reason), id, reason),
{
    let a = cancelled(registry, key, slots.reload, reason);
    let b = cancelled(a, key, slots.next_reload, reason);
    let c = cancelled(b, key, slots.rebuild, reason);
    lemma_given_up_in_turn(registry, key, slots.reload, reason, id);
    lemma_given_up_in_turn(a, key, slots.next_reload, reason, id);
    lemma_given_up_in_turn(b, key, slots.rebuild, reason, id);
    assert(has_failed(c, id, reason));
}

/// So does a normal operation of its own that is registered.
pub proof fn law_leaving_gives_up_the_normal_operation(
    registry: RegistryView,
    slots: OperationSlots,
    key: BackendKeyView,
    reason: Seq<char>,
    id: u64,
)
    requires
        registry.operations.wf(),
        slots.normal == Some(id),
        slots.reload != Some(id) && slots.next_reload != Some(id) && slots.rebuild != Some(id),
        registry.operations.records.contains_key(id),
        registry.operations.records[id].result is None,
        registry.operations.normal(key.shared_world).contains(id),
    ensures
        has_failed(given_up(registry, slots, key, reason), id, reason),
{
    let a = cancelled(registry, key, slots.reload, reason);
    let b = cancelled(a, key, slots.next_reload, reason);
    let c = cancelled(b, key, slots.rebuild, reason);
    assert(c.operations.normals == registry.operations.normals);
    assert(c.operations.records.contains_key(id) && c.operations.records[id].result is None);
}

} // verus!
