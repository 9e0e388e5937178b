//! Who may read and who may change a shared world.
//!
//! Readers and writers are counted per session. A pending writer keeps readers of other sessions
//! out, and a writer waits for the readers of other sessions to leave. A writer without an owner
//! belongs to no session.
use crate::ordered::{compare_ranks, OrderedKey, OrderedMap, Relation};
use vstd::prelude::*;

verus! {

impl OrderedKey for Option<u64> {
    open spec fn rank(model: Option<u64>) -> Seq<u32> {
        match model {
            None => seq![0u32],
            Some(id) => seq![1u32] + u64::rank(id),
        }
    }

    proof fn rank_injective(a: Option<u64>, b: Option<u64>) {
        assert(Self::rank(a)[0] == (if a is Some { 1u32 } else { 0u32 }));
        assert(Self::rank(b)[0] == (if b is Some { 1u32 } else { 0u32 }));
        if a is Some && b is Some {
            assert(Self::rank(a).skip(1) =~= u64::rank(a->0));
            assert(Self::rank(b).skip(1) =~= u64::rank(b->0));
            u64::rank_injective(a->0, b->0);
        }
    }

    fn relation(&self, other: &Self) -> (r: Relation) {
        let a = option_rank(*self);
        let b = option_rank(*other);
        compare_ranks(&a, &b)
    }
}

fn option_rank(id: Option<u64>) -> (r: Vec<u32>)
    ensures
        r@ == <Option<u64> as OrderedKey>::rank(id),
{
    let mut r: Vec<u32> = Vec::new();
    match id {
        None => {
            r.push(0);
        },
        Some(id) => {
            r.push(1);
            r.push((id / 0x1_0000_0000) as u32);
            r.push((id % 0x1_0000_0000) as u32);
        },
    }
    proof {
        assert(r@ =~= <Option<u64> as OrderedKey>::rank(id));
    }
    r
}

/// The readers inside a world, the writers that wait for it or hold it, and for each session how
/// often another session has changed its overlay since the session first read.
pub struct SharedWorldAccess {
    readers: OrderedMap<u64, usize>,
    pending_writers: OrderedMap<Option<u64>, usize>,
    foreign_epochs: OrderedMap<u64, u64>,
}

#[verifier::ext_equal]
pub struct AccessView {
    pub readers: Map<u64, usize>,
    pub writers: Map<Option<u64>, usize>,
    pub epochs: Map<u64, u64>,
}

/// The right to read a world, and the epoch at which it was given.
#[derive(Clone, Copy, Debug, PartialEq, Eq, Structural)]
pub struct SharedAnalyzerReadPermit {
    pub session_id: u64,
    pub foreign_epoch: u64,
}

/// A writer's place among the pending writers.
#[derive(Clone, Copy, Debug, PartialEq, Eq, Structural)]
pub struct SharedAnalyzerWritePermit {
    pub owner: Option<u64>,
}

impl AccessView {
    /// No counter stands at zero.
    pub open spec fn wf(self) -> bool {
        &&& forall|k: u64| #[trigger] self.readers.contains_key(k) ==> self.readers[k] > 0
        &&& forall|k: Option<u64>| #[trigger] self.writers.contains_key(k) ==> self.writers[k] > 0
    }

    pub open spec fn read_blocked(self, session: u64) -> bool {
        exists|owner: Option<u64>| #[trigger] self.writers.contains_key(owner) && owner != Some(session)
    }

    pub open spec fn write_blocked(self, owner: Option<u64>) -> bool {
        exists|reader: u64| #[trigger] self.readers.contains_key(reader) && owner != Some(reader)
    }

    pub open spec fn foreign_reader(self, session: u64) -> bool {
        exists|reader: u64| #[trigger] self.readers.contains_key(reader) && reader != session
    }

    pub open spec fn epoch(self, session: u64) -> u64 {
        if self.epochs.contains_key(session) {
            self.epochs[session]
        } else {
            0
        }
    }

    /// A reader of `session` has entered.
    pub open spec fn read(self, session: u64) -> AccessView {
        AccessView {
            readers: raised(self.readers, session),
            epochs: self.epochs.insert(session, self.epoch(session)),
            ..self
        }
    }

    /// A writer of `owner` has announced itself.
    pub open spec fn write(self, owner: Option<u64>) -> AccessView {
        AccessView { writers: raised(self.writers, owner), ..self }
    }

    /// A writer that changes the overlay of `session` has announced itself.
    pub open spec fn write_overlay(self, session: u64) -> AccessView {
        AccessView {
            writers: raised(self.writers, Some(session)),
            epochs: bumped(self.epochs, session),
            ..self
        }
    }

    pub open spec fn end_read(self, session: u64) -> AccessView {
        AccessView { readers: lowered(self.readers, session), ..self }
    }

    pub open spec fn end_write(self, owner: Option<u64>) -> AccessView {
        AccessView { writers: lowered(self.writers, owner), ..self }
    }

    pub open spec fn forget(self, session: u64) -> AccessView {
        AccessView { epochs: self.epochs.remove(session), ..self }
    }

    /// The writer of `owner` may go ahead.
    pub open spec fn granted(self, owner: Option<u64>) -> bool {
        self.writers.contains_key(owner) && !self.write_blocked(owner)
    }
}

pub open spec fn count<K>(m: Map<K, usize>, k: K) -> usize {
    if m.contains_key(k) {
        m[k]
    } else {
        0
    }
}

pub open spec fn raised<K>(m: Map<K, usize>, k: K) -> Map<K, usize> {
    m.insert(k, (count(m, k) + 1) as usize)
}

pub open spec fn lowered<K>(m: Map<K, usize>, k: K) -> Map<K, usize> {
    if m[k] == 1 {
        m.remove(k)
    } else {
        m.insert(k, (m[k] - 1) as usize)
    }
}

pub open spec fn bumped(m: Map<u64, u64>, session: u64) -> Map<u64, u64> {
    Map::new(
        |k: u64| m.contains_key(k),
        |k: u64| if k == session { m[k] } else { (m[k] + 1) as u64 },
    )
}

impl View for SharedWorldAccess {
    type V = AccessView;

    closed spec fn view(&self) -> AccessView {
        AccessView {
            readers: self.readers@,
            writers: self.pending_writers@,
            epochs: self.foreign_epochs@,
        }
    }
}

impl SharedWorldAccess {
    pub fn new() -> (r: Self)
        ensures
            r@ == (AccessView { readers: Map::empty(), writers: Map::empty(), epochs: Map::empty() }),
            r@.wf(),
    {
        SharedWorldAccess {
            readers: OrderedMap::new(),
            pending_writers: OrderedMap::new(),
            foreign_epochs: OrderedMap::new(),
        }
    }

    /// Whether a writer of another session, or of none, keeps `session_id` out.
    pub fn read_is_blocked(&self, session_id: u64) -> (r: bool)
        requires
            self@.wf(),
        ensures
            r == self@.read_blocked(session_id),
    {
        let n = self.pending_writers.len();
        let mut i: usize = 0;
        while i < n
            invariant
                n == self.pending_writers.keys().len(),
                i <= n,
                crate::ordered::listed(self.pending_writers),
                self@.wf(),
                forall|j: int| 0 <= j < i ==> #[trigger] self.pending_writers.keys()[j] == Some(session_id),
            decreases n - i,
        {
            let owner: Option<u64> = *self.pending_writers.key_at(i);
            let foreign = match owner {
                Some(id) => id != session_id,
                None => true,
            };
            if foreign && *self.pending_writers.value_at(i) > 0 {
                proof {
                    assert(self@.writers.contains_key(owner));
                }
                return true;
            }
            proof {
                assert(self@.writers.contains_key(self.pending_writers.keys()[i as int]));
            }
            i = i + 1;
        }
        proof {
            assert forall|owner: Option<u64>| #[trigger] self@.writers.contains_key(owner) implies owner == Some(session_id) by {
                assert(self.pending_writers.keys().contains(owner));
            }
        }
        false
    }

    /// Whether a reader that is not the owner's keeps a writer of `owner` waiting.
    pub fn write_is_blocked(&self, owner: Option<u64>) -> (r: bool)
        requires
            self@.wf(),
        ensures
            r == self@.write_blocked(owner),
    {
        let n = self.readers.len();
        let mut i: usize = 0;
        while i < n
            invariant
                n == self.readers.keys().len(),
                i <= n,
                crate::ordered::listed(self.readers),
                self@.wf(),
                forall|j: int| 0 <= j < i ==> owner == Some(#[trigger] self.readers.keys()[j]),
            decreases n - i,
        {
            let reader: u64 = *self.readers.key_at(i);
            let foreign = match owner {
                Some(id) => id != reader,
                None => true,
            };
            if foreign && *self.readers.value_at(i) > 0 {
                proof {
                    assert(self@.readers.contains_key(reader));
                }
                return true;
            }
            proof {
                assert(self@.readers.contains_key(self.readers.keys()[i as int]));
            }
            i = i + 1;
        }
        proof {
            assert forall|reader: u64| #[trigger] self@.readers.contains_key(reader) implies owner == Some(reader) by {
                assert(self.readers.keys().contains(reader));
            }
        }
        false
    }

    /// Lets a reader in, unless it is blocked. The permit tells the epoch that the reader saw.
    pub fn read(&mut self, session_id: u64) -> (r: Option<SharedAnalyzerReadPermit>)
        requires
            old(self)@.wf(),
            count(old(self)@.readers, session_id) < usize::MAX,
        ensures
            final(self)@.wf(),
            old(self)@.read_blocked(session_id) ==> r is None && final(self)@ == old(self)@,
            !old(self)@.read_blocked(session_id) ==> {
                &&& r == Some(SharedAnalyzerReadPermit { session_id, foreign_epoch: old(self)@.epoch(session_id) })
                &&& final(self)@ == old(self)@.read(session_id)
            },
    {
        if self.read_is_blocked(session_id) {
            return None;
        }
        let readers: usize = match self.readers.get(&session_id) {
            Some(n) => *n,
            None => 0,
        };
        self.readers.insert(session_id, readers + 1);
        let foreign_epoch: u64 = match self.foreign_epochs.get(&session_id) {
            Some(n) => *n,
            None => 0,
        };
        self.foreign_epochs.insert(session_id, foreign_epoch);
        proof {
            assert(self@.writers == old(self)@.writers);
        }
        Some(SharedAnalyzerReadPermit { session_id, foreign_epoch })
    }

    /// Announces a writer. It may go ahead once `write_is_blocked` no longer holds of its owner.
    pub fn write(&mut self, owner: Option<u64>) -> (r: SharedAnalyzerWritePermit)
        requires
            old(self)@.wf(),
            count(old(self)@.writers, owner) < usize::MAX,
        ensures
            final(self)@.wf(),
            final(self)@ == old(self)@.write(owner),
            r.owner == owner,
    {
        let writers: usize = match self.pending_writers.get(&owner) {
            Some(n) => *n,
            None => 0,
        };
        self.pending_writers.insert(owner, writers + 1);
        proof {
            assert(self@.readers == old(self)@.readers);
        }
        SharedAnalyzerWritePermit { owner }
    }

    /// Announces a writer that changes the overlay of `session_id`, and tells every other session
    /// that its snapshots are out of date. The second result says whether readers of other
    /// sessions are inside, whose work is then to be cancelled.
    pub fn write_overlay(&mut self, session_id: u64) -> (r: (SharedAnalyzerWritePermit, bool))
        requires
            old(self)@.wf(),
            count(old(self)@.writers, Some(session_id)) < usize::MAX,
            forall|k: u64| #[trigger] old(self)@.epochs.contains_key(k) ==> old(self)@.epochs[k] < u64::MAX,
        ensures
            final(self)@.wf(),
            final(self)@ == old(self)@.write_overlay(session_id),
            r.0.owner == Some(session_id),
            r.1 == old(self)@.foreign_reader(session_id),
    {
        let has_foreign_readers = self.write_is_blocked(Some(session_id));
        proof {
            assert(self@.write_blocked(Some(session_id)) == self@.foreign_reader(session_id)) by {
                if self@.foreign_reader(session_id) {
                    let reader = choose|reader: u64| #[trigger] self@.readers.contains_key(reader) && reader != session_id;
                    assert(Some(session_id) != Some(reader));
                }
            }
        }
        let permit = self.write(Some(session_id));
        let n = self.foreign_epochs.len();
        let mut epochs: OrderedMap<u64, u64> = OrderedMap::new();
        let mut i: usize = 0;
        let ghost keys = self.foreign_epochs.keys();
        while i < n
            invariant
                n == keys.len(),
                i <= n,
                keys == self.foreign_epochs.keys(),
                crate::ordered::listed(self.foreign_epochs),
                forall|k: u64| #[trigger] self.foreign_epochs@.contains_key(k) ==> self.foreign_epochs@[k] < u64::MAX,
                forall|k: u64| #[trigger] epochs@.contains_key(k) <==> keys.take(i as int).contains(k),
                forall|k: u64| #[trigger] epochs@.contains_key(k) ==> epochs@[k] == bumped(self.foreign_epochs@, session_id)[k],
            decreases n - i,
        {
            let session: u64 = *self.foreign_epochs.key_at(i);
            let epoch: u64 = *self.foreign_epochs.value_at(i);
            proof {
                assert(self.foreign_epochs@.contains_key(keys[i as int]));
                assert(keys.take(i + 1) =~= keys.take(i as int).push(session));
                assert(keys.take(i + 1)[i as int] == session);
                assert forall|k: u64| keys.take(i + 1).contains(k) <==> keys.take(i as int).contains(k) || k == session by {
                    if keys.take(i as int).contains(k) {
                        let j = keys.take(i as int).index_of(k);
                        assert(keys.take(i + 1)[j] == k);
                    }
                }
            }
            if session != session_id {
                epochs.insert(session, epoch + 1);
            } else {
                epochs.insert(session, epoch);
            }
            i = i + 1;
        }
        proof {
            assert(keys.take(n as int) =~= keys);
            assert(epochs@ =~= bumped(self.foreign_epochs@, session_id)) by {
                assert forall|k: u64| epochs@.contains_key(k) <==> self.foreign_epochs@.contains_key(k) by {
                    if keys.contains(k) {
                        let j = keys.index_of(k);
                        assert(self.foreign_epochs@.contains_key(keys[j]));
                    }
                }
            }
        }
        self.foreign_epochs = epochs;
        (permit, has_foreign_readers)
    }

    /// Drops what is kept of a session that has ended.
    pub fn unregister_session(&mut self, session_id: u64)
        ensures
            final(self)@ == old(self)@.forget(session_id),
            old(self)@.wf() ==> final(self)@.wf(),
    {
        self.foreign_epochs.remove(&session_id);
        proof {
            assert(self@.readers == old(self)@.readers);
            assert(self@.writers == old(self)@.writers);
        }
    }

    /// The epoch of `session_id`, if it has read the world.
    pub fn foreign_epoch(&self, session_id: u64) -> (r: Option<u64>)
        ensures
            r == (if self@.epochs.contains_key(session_id) { Some(self@.epochs[session_id]) } else { None }),
    {
        match self.foreign_epochs.get(&session_id) {
            Some(epoch) => Some(*epoch),
            None => None,
        }
    }

    /// A reader leaves.
    pub fn end_read(&mut self, permit: SharedAnalyzerReadPermit)
        requires
            old(self)@.wf(),
            old(self)@.readers.contains_key(permit.session_id),
        ensures
            final(self)@.wf(),
            final(self)@ == old(self)@.end_read(permit.session_id),
    {
        match self.readers.remove(&permit.session_id) {
            Some(n) => {
                if n > 1 {
                    self.readers.insert(permit.session_id, n - 1);
                    proof {
                        assert(self@.readers =~= lowered(old(self)@.readers, permit.session_id));
                    }
                }
            },
            None => {},
        }
        proof {
            assert(self@.writers == old(self)@.writers);
        }
    }

    /// A writer is done, or gives up its place.
    pub fn end_write(&mut self, permit: SharedAnalyzerWritePermit)
        requires
            old(self)@.wf(),
            old(self)@.writers.contains_key(permit.owner),
        ensures
            final(self)@.wf(),
            final(self)@ == old(self)@.end_write(permit.owner),
    {
        match self.pending_writers.remove(&permit.owner) {
            Some(n) => {
                if n > 1 {
                    self.pending_writers.insert(permit.owner, n - 1);
                    proof {
                        assert(self@.writers =~= lowered(old(self)@.writers, permit.owner));
                    }
                }
            },
            None => {},
        }
        proof {
            assert(self@.readers == old(self)@.readers);
        }
    }
}

/// While a writer may go ahead, the only readers inside are those of its own session.
pub proof fn law_writer_excludes_foreign_readers(s: AccessView, owner: Option<u64>, reader: u64)
    requires
        s.granted(owner),
        s.readers.contains_key(reader),
    ensures
        owner == Some(reader),
{
}

/// A grant holds until its writer is done, whatever other readers and writers do meanwhile: a
/// reader that is let in belongs to the writer's session.
pub proof fn law_grant_is_stable(s: AccessView, owner: Option<u64>, session: u64, other: Option<u64>)
    requires
        s.wf(),
        s.granted(owner),
        count(s.writers, other) < usize::MAX,
        count(s.writers, Some(session)) < usize::MAX,
    ensures
        !s.read_blocked(session) ==> s.read(session).granted(owner),
        s.write(other).granted(owner),
        s.write_overlay(session).granted(owner),
        s.readers.contains_key(session) ==> s.end_read(session).granted(owner),
        other != owner && s.writers.contains_key(other) ==> s.end_write(other).granted(owner),
        s.forget(session).granted(owner),
{
    if !s.read_blocked(session) {
        assert(s.writers.contains_key(owner));
        assert forall|reader: u64| #[trigger] s.read(session).readers.contains_key(reader) implies owner == Some(reader) by {
            if reader != session {
                assert(s.readers.contains_key(reader));
            }
        }
    }
    assert forall|reader: u64| #[trigger] s.end_read(session).readers.contains_key(reader) && s.readers.contains_key(session) implies owner
        == Some(reader) by {
        assert(s.readers.contains_key(reader));
    }
}

/// A session is never kept out by its own writer.
pub proof fn law_own_writer_does_not_block(s: AccessView, session: u64)
    requires
        forall|owner: Option<u64>| #[trigger] s.writers.contains_key(owner) ==> owner == Some(session),
    ensures
        !s.read_blocked(session),
{
}

/// An empty world blocks nobody.
pub proof fn law_idle_world_blocks_nobody(s: AccessView, session: u64, owner: Option<u64>)
    ensures
        s.writers == Map::<Option<u64>, usize>::empty() ==> !s.read_blocked(session),
        s.readers == Map::<u64, usize>::empty() ==> !s.write_blocked(owner),
{
}

/// A reader that leaves undoes its entry, and a writer that is done undoes its announcement.
pub proof fn law_permits_are_returned(s: AccessView, session: u64, owner: Option<u64>)
    requires
        s.wf(),
        count(s.readers, session) < usize::MAX,
        count(s.writers, owner) < usize::MAX,
    ensures
        s.read(session).end_read(session).readers == s.readers,
        s.read(session).end_read(session).writers == s.writers,
        s.read(session).end_read(session).epochs == s.read(session).epochs,
        s.write(owner).end_write(owner) == s,
{
    assert(s.read(session).end_read(session).readers =~= s.readers);
    assert(s.write(owner).end_write(owner).writers =~= s.writers);
}

/// An overlay change raises the epoch of every other session and leaves its own.
pub proof fn law_overlay_change_is_foreign(s: AccessView, session: u64, other: u64)
    requires
        s.epochs.contains_key(other),
        s.epochs[other] < u64::MAX,
    ensures
        s.write_overlay(session).epochs[other] == s.epochs[other] + (if other == session { 0int } else { 1 }),
        s.write_overlay(session).epochs.dom() == s.epochs.dom(),
{
    assert(s.write_overlay(session).epochs.dom() =~= s.epochs.dom());
}

/// What sessions do with a world.
pub enum AccessStep {
    Read(u64),
    EndRead(u64),
    Write(Option<u64>),
    WriteOverlay(u64),
    EndWrite(Option<u64>),
    Forget(u64),
}

impl AccessView {
    pub open spec fn after(self, step: AccessStep) -> AccessView {
        match step {
            AccessStep::Read(session) => self.read(session),
            AccessStep::EndRead(session) => self.end_read(session),
            AccessStep::Write(owner) => self.write(owner),
            AccessStep::WriteOverlay(session) => self.write_overlay(session),
            AccessStep::EndWrite(owner) => self.end_write(owner),
            AccessStep::Forget(session) => self.forget(session),
        }
    }

    /// A step that can be taken: a reader enters where nothing keeps it out, what ends was begun, and
    /// no counter is full. The writer of `holder` is not done.
    pub open spec fn allows(self, step: AccessStep, holder: Option<u64>) -> bool {
        match step {
            AccessStep::Read(session) => !self.read_blocked(session) && count(self.readers, session) < usize::MAX,
            AccessStep::EndRead(session) => self.readers.contains_key(session),
            AccessStep::Write(owner) => count(self.writers, owner) < usize::MAX,
            AccessStep::WriteOverlay(session) => count(self.writers, Some(session)) < usize::MAX,
            AccessStep::EndWrite(owner) => owner != holder && self.writers.contains_key(owner),
            AccessStep::Forget(_) => true,
        }
    }
}

/// The access to a world after the first `n` steps.
pub open spec fn accessed(s: AccessView, steps: Seq<AccessStep>, n: int) -> AccessView
    decreases n,
{
    if n <= 0 {
        s
    } else {
        accessed(s, steps, n - 1).after(steps[n - 1])
    }
}

/// Over any history of permits, from the grant of a writer until that writer is done: every reader
/// inside is of the writer's own session, and every other session is kept out.
pub proof fn law_grant_holds_until_it_ends(s: AccessView, owner: Option<u64>, steps: Seq<AccessStep>, n: int)
    requires
        s.wf(),
        s.granted(owner),
        0 <= n <= steps.len(),
        forall|i: int| 0 <= i < steps.len() ==> accessed(s, steps, i).allows(#[trigger] steps[i], owner),
    ensures
        accessed(s, steps, n).wf(),
        accessed(s, steps, n).granted(owner),
        forall|reader: u64| #[trigger] accessed(s, steps, n).readers.contains_key(reader) ==> owner == Some(reader),
        forall|session: u64| owner != Some(session) ==> #[trigger] accessed(s, steps, n).read_blocked(session),
    decreases n,
{
    let r = accessed(s, steps, n);
    if n > 0 {
        law_grant_holds_until_it_ends(s, owner, steps, n - 1);
        let before = accessed(s, steps, n - 1);
        assert(before.allows(steps[n - 1], owner));
        assert forall|reader: u64| #[trigger] r.readers.contains_key(reader) implies owner == Some(reader) by {
            if before.readers.contains_key(reader) {
                assert(owner == Some(reader));
            } else {
                assert(before.writers.contains_key(owner));
            }
        }
    }
    assert(r.writers.contains_key(owner));
}

/// A reader is kept out exactly by a writer that is not of its session, also by one of no session, and a
/// writer waits exactly for readers that are not of its session.
pub proof fn law_only_foreign_work_blocks(s: AccessView, session: u64, owner: Option<u64>)
    ensures
        s.read_blocked(session) <==> s.writers.contains_key(None) || exists|other: u64|
            other != session && #[trigger] s.writers.contains_key(Some(other)),
        s.write_blocked(owner) <==> exists|reader: u64|
            #[trigger] s.readers.contains_key(reader) && (owner is None || owner->0 != reader),
        s.foreign_reader(session) <==> exists|reader: u64| reader != session && #[trigger] s.readers.contains_key(reader),
{
    if s.read_blocked(session) {
        let found = choose|found: Option<u64>| #[trigger] s.writers.contains_key(found) && found != Some(session);
        match found {
            Some(other) => {
                assert(s.writers.contains_key(Some(other)));
            },
            None => {},
        }
    }
    if exists|other: u64| other != session && #[trigger] s.writers.contains_key(Some(other)) {
        let other = choose|other: u64| other != session && #[trigger] s.writers.contains_key(Some(other));
        assert(s.writers.contains_key(Some(other)) && Some(other) != Some(session));
    }
    if s.write_blocked(owner) {
        let reader = choose|reader: u64| #[trigger] s.readers.contains_key(reader) && owner != Some(reader);
        assert(s.readers.contains_key(reader));
    }
    if exists|reader: u64| #[trigger] s.readers.contains_key(reader) && (owner is None || owner->0 != reader) {
        let reader = choose|reader: u64| #[trigger] s.readers.contains_key(reader) && (owner is None || owner->0 != reader);
        assert(s.readers.contains_key(reader) && owner != Some(reader));
    }
}

/// Readers and writers are counted by session: one more is inside once one has entered, one fewer once one
/// has left, and nobody else's count changes. A session that has read for the first time has seen epoch zero.
pub proof fn law_permits_are_counted(s: AccessView, session: u64, other: u64, owner: Option<u64>)
    requires
        s.wf(),
        other != session,
        count(s.readers, session) < usize::MAX,
        count(s.writers, owner) < usize::MAX,
        count(s.writers, Some(session)) < usize::MAX,
    ensures
        s.read(session).readers.contains_key(session),
        count(s.read(session).readers, session) == count(s.readers, session) + 1,
        count(s.read(session).readers, other) == count(s.readers, other),
        s.read(session).epochs.contains_key(session),
        s.epochs.contains_key(session) ==> s.read(session).epochs[session] == s.epochs[session],
        !s.epochs.contains_key(session) ==> s.read(session).epochs[session] == 0,
        s.write(owner).writers.contains_key(owner),
        count(s.write(owner).writers, owner) == count(s.writers, owner) + 1,
        s.write(owner).readers == s.readers && s.write(owner).epochs == s.epochs,
        s.write_overlay(session).writers.contains_key(Some(session)),
        s.write_overlay(session).readers == s.readers,
        s.readers.contains_key(session) ==> count(s.end_read(session).readers, session) == count(s.readers, session) - 1,
        s.writers.contains_key(owner) ==> count(s.end_write(owner).writers, owner) == count(s.writers, owner) - 1,
        !s.forget(session).epochs.contains_key(session) && s.forget(session).readers == s.readers && s.forget(session).writers
            == s.writers,
{
}

} // verus!
