//! One round of taking in changes: what a session does, step by step, once files have changed or
//! the world has.
use crate::base::{source_root_for_path, WorldBase};
use crate::changes::{document_views, Document, DocumentView, SessionChanges};
use crate::open_files::{ratoml_views, RatomlFile, RatomlView};
use crate::paths::{is_ratoml, names_ratoml};
use crate::text::decode_plain;
use vstd::prelude::*;
use vstd::utf8::{decode_utf8, valid_utf8};

verus! {

/// What is known in a round of changes.
#[derive(Clone, Copy, Debug, PartialEq, Eq, Structural)]
pub struct ChangeRound {
    /// Something has changed for the session.
    pub changed: bool,
    /// The world has changed since the last round.
    pub generation_changed: bool,
    /// The settings are to be worked out anew.
    pub config: bool,
    /// The workspaces are to be fetched again.
    pub structure: bool,
    /// The crates are to be seen to anew.
    pub force: bool,
}

/// What came of a step.
#[derive(Clone, Copy, Debug, PartialEq, Eq, Structural)]
pub enum RoundEvent {
    /// The world has been told of the files on disk. It may have changed by it.
    Applied { generation_changed: bool },
    /// The open files are in the session's overlay, which may have changed by it.
    Synced { changed: bool },
    /// The settings have been worked out.
    Configured,
    /// The sources of macros are being looked at.
    Checked,
    /// The world could not be told, or the overlay could not be made.
    Failed,
}

/// What is to be done next.
#[derive(Clone, Copy, Debug, PartialEq, Eq, Structural)]
pub enum RoundStep {
    /// Put the open files into the session's overlay, anew where that is forced.
    Sync { force_rebuild: bool },
    Configure,
    CheckMacroSources,
    /// The round is over. It may have changed something, and workspaces may have to be fetched.
    Finish { changed: bool, fetch: bool },
}

impl ChangeRound {
    pub open spec fn finished(self) -> RoundStep {
        RoundStep::Finish { changed: self.changed, fetch: self.structure }
    }

    pub open spec fn checking(self) -> RoundStep {
        if self.changed && !self.force {
            RoundStep::CheckMacroSources
        } else {
            self.finished()
        }
    }

    pub open spec fn configuring(self) -> RoundStep {
        if self.config {
            RoundStep::Configure
        } else {
            self.checking()
        }
    }

    /// The round after an event.
    pub open spec fn after(self, event: RoundEvent) -> ChangeRound {
        match event {
            RoundEvent::Synced { changed } => ChangeRound { changed: self.changed || changed, ..self },
            RoundEvent::Configured => ChangeRound { changed: true, ..self },
            RoundEvent::Failed => ChangeRound { changed: false, structure: false, ..self },
            _ => self,
        }
    }

    /// What follows an event: a failure ends the round as if nothing had happened.
    pub open spec fn step(self, event: RoundEvent) -> RoundStep {
        let next = self.after(event);
        match event {
            RoundEvent::Applied { generation_changed } => if self.changed || self.generation_changed {
                RoundStep::Sync { force_rebuild: self.generation_changed || generation_changed }
            } else {
                next.configuring()
            },
            RoundEvent::Synced { .. } => next.configuring(),
            RoundEvent::Configured => next.checking(),
            RoundEvent::Checked => next.finished(),
            RoundEvent::Failed => next.finished(),
        }
    }

    /// The round that changed files begin.
    pub fn begin(changes: &SessionChanges, generation_changed: bool, has_workspaces: bool) -> (r: Self)
        ensures
            r.changed == changes.changed,
            r.generation_changed == generation_changed,
            r.config == ((generation_changed || changes.modified_ratoml_files@.len() > 0) && has_workspaces),
            r.structure == changes.structure is Some,
            r.force == (changes.structure matches Some((_, force)) && force),
    {
        let force = match &changes.structure {
            Some(change) => change.1,
            None => false,
        };
        ChangeRound {
            changed: changes.changed,
            generation_changed,
            config: (generation_changed || changes.modified_ratoml_files.len() > 0) && has_workspaces,
            structure: changes.structure.is_some(),
            force,
        }
    }

    fn check(&self) -> (r: RoundStep)
        ensures
            r == self.checking(),
    {
        if self.changed && !self.force {
            RoundStep::CheckMacroSources
        } else {
            RoundStep::Finish { changed: self.changed, fetch: self.structure }
        }
    }

    fn configure(&self) -> (r: RoundStep)
        ensures
            r == self.configuring(),
    {
        if self.config {
            RoundStep::Configure
        } else {
            self.check()
        }
    }

    /// Takes in what came of a step, and tells the next one.
    pub fn process_shared_changes(&mut self, event: RoundEvent) -> (r: RoundStep)
        ensures
            r == old(self).step(event),
            *final(self) == old(self).after(event),
    {
        match event {
            RoundEvent::Applied { generation_changed } => if self.changed || self.generation_changed {
                RoundStep::Sync { force_rebuild: self.generation_changed || generation_changed }
            } else {
                self.configure()
            },
            RoundEvent::Synced { changed } => {
                self.changed = self.changed || changed;
                self.configure()
            },
            RoundEvent::Configured => {
                self.changed = true;
                self.check()
            },
            RoundEvent::Checked => RoundStep::Finish { changed: self.changed, fetch: self.structure },
            RoundEvent::Failed => {
                self.changed = false;
                self.structure = false;
                RoundStep::Finish { changed: false, fetch: false }
            },
        }
    }
}

/// How a round goes on from a step while nothing fails: the overlay changes or not as given. Every
/// step is taken at most once, so that few steps are enough.
pub open spec fn ends(round: ChangeRound, step: RoundStep, overlay_changed: bool, fuel: nat) -> RoundStep
    decreases fuel,
{
    if fuel == 0 {
        step
    } else {
        let event = match step {
            RoundStep::Sync { .. } => RoundEvent::Synced { changed: overlay_changed },
            RoundStep::Configure => RoundEvent::Configured,
            RoundStep::CheckMacroSources => RoundEvent::Checked,
            RoundStep::Finish { .. } => RoundEvent::Failed,
        };
        if step is Finish {
            step
        } else {
            ends(round.after(event), round.step(event), overlay_changed, (fuel - 1) as nat)
        }
    }
}

/// A round that does not fail comes to its end. It has changed something exactly where files have
/// changed, the overlay has, or the settings were worked out anew, and workspaces are fetched
/// exactly where the changed files ask for it.
pub proof fn law_round_tells_every_change(round: ChangeRound, applied: bool, overlay_changed: bool)
    ensures
        ends(round, round.step(RoundEvent::Applied { generation_changed: applied }), overlay_changed, 4) == (RoundStep::Finish {
            changed: round.changed || (round.generation_changed && overlay_changed) || round.config,
            fetch: round.structure,
        }),
{
    reveal_with_fuel(ends, 5);
}

/// The overlay is made anew exactly where the world has changed, before the round or by it; with
/// nothing new it is left alone.
pub proof fn law_overlay_follows_the_world(round: ChangeRound, applied: bool)
    ensures
        round.step(RoundEvent::Applied { generation_changed: applied }) is Sync <==> round.changed || round.generation_changed,
        round.step(RoundEvent::Applied { generation_changed: applied }) matches RoundStep::Sync { force_rebuild } ==> force_rebuild
            == (round.generation_changed || applied),
{
}

/// The settings files among the first `n` open documents that are text and in a source root.
pub open spec fn settings_documents_to(base: crate::base::BaseView, indexes: Seq<usize>, docs: Seq<DocumentView>, n: int) -> Seq<RatomlView>
    decreases n,
{
    if n <= 0 {
        Seq::empty()
    } else {
        let before = settings_documents_to(base, indexes, docs, n - 1);
        let doc = docs[n - 1];
        if !is_ratoml(doc.path.text) || !valid_utf8(doc.data) {
            before
        } else {
            match source_root_for_path(base, indexes, doc.path.key, doc.classified) {
                Some((source_root, is_library)) => before.push(
                    RatomlView { path: doc.path.normalized(), source_root, is_library, text: decode_utf8(doc.data) },
                ),
                None => before,
            }
        }
    }
}

/// The settings files that the editor has open, as it has them.
pub fn settings_documents(base: &WorldBase, indexes: &Vec<usize>, docs: Vec<Document>) -> (r: Vec<RatomlFile>)
    requires
        base@.readable(),
        forall|i: int| 0 <= i < docs@.len() ==> (#[trigger] docs@[i]).classified.len() == base.workspaces.len(),
    ensures
        ratoml_views(r@) == settings_documents_to(base@, indexes@, document_views(docs@), docs@.len() as int),
{
    let ghost whole = docs@;
    let ghost views = document_views(whole);
    let mut docs = docs;
    let mut r: Vec<RatomlFile> = Vec::new();
    let ghost mut i: int = 0;
    proof {
        assert(whole.skip(0) =~= whole);
        assert(ratoml_views(r@) =~= Seq::empty());
    }
    while docs.len() > 0
        invariant
            0 <= i <= whole.len(),
            docs@ == whole.skip(i),
            views == document_views(whole),
            base@.readable(),
            forall|k: int| 0 <= k < whole.len() ==> (#[trigger] whole[k]).classified.len() == base.workspaces.len(),
            ratoml_views(r@) == settings_documents_to(base@, indexes@, views, i),
        decreases docs.len(),
    {
        let ghost before = ratoml_views(r@);
        let doc = docs.remove(0);
        proof {
            assert(doc == whole[i]);
            assert(views[i] == doc@);
            assert(docs@ =~= whole.skip(i + 1));
        }
        if names_ratoml(&doc.path.text) {
            match decode_plain(doc.data) {
                Some(text) => match base.source_root_for_path(indexes, &doc.path.key, &doc.classified) {
                    Some((source_root, is_library)) => {
                        let file = RatomlFile { path: doc.path.normalized(), source_root, is_library, text };
                        let ghost one = file@;
                        r.push(file);
                        proof {
                            assert(ratoml_views(r@) =~= before.push(one));
                        }
                    },
                    None => {},
                },
                None => {},
            }
        }
        proof {
            i = i + 1;
        }
    }
    proof {
        assert(i == whole.len());
    }
    r
}

/// The settings files that the editor has open are those of the documents that are settings files,
/// are text, and lie in a source root, in the order of the documents.
pub proof fn law_open_settings_are_read(base: crate::base::BaseView, indexes: Seq<usize>, docs: Seq<DocumentView>)
    ensures
        settings_documents_to(base, indexes, docs, docs.len() as int) == docs.filter(
            |d: DocumentView|
                is_ratoml(d.path.text) && valid_utf8(d.data) && source_root_for_path(base, indexes, d.path.key, d.classified) is Some,
        ).map_values(
            |d: DocumentView|
                {
                    let root = source_root_for_path(base, indexes, d.path.key, d.classified)->0;
                    RatomlView { path: d.path.normalized(), source_root: root.0, is_library: root.1, text: decode_utf8(d.data) }
                },
        ),
{
    lemma_settings_documents(base, indexes, docs, docs.len() as int);
    assert(docs.take(docs.len() as int) =~= docs);
}

proof fn lemma_settings_documents(base: crate::base::BaseView, indexes: Seq<usize>, docs: Seq<DocumentView>, n: int)
    requires
        0 <= n <= docs.len(),
    ensures
        settings_documents_to(base, indexes, docs, n) == docs.take(n).filter(
            |d: DocumentView|
                is_ratoml(d.path.text) && valid_utf8(d.data) && source_root_for_path(base, indexes, d.path.key, d.classified) is Some,
        ).map_values(
            |d: DocumentView|
                {
                    let root = source_root_for_path(base, indexes, d.path.key, d.classified)->0;
                    RatomlView { path: d.path.normalized(), source_root: root.0, is_library: root.1, text: decode_utf8(d.data) }
                },
        ),
    decreases n,
{
    let read = |d: DocumentView|
        is_ratoml(d.path.text) && valid_utf8(d.data) && source_root_for_path(base, indexes, d.path.key, d.classified) is Some;
    let entry = |d: DocumentView|
        {
            let root = source_root_for_path(base, indexes, d.path.key, d.classified)->0;
            RatomlView { path: d.path.normalized(), source_root: root.0, is_library: root.1, text: decode_utf8(d.data) }
        };
    reveal(Seq::filter);
    if n > 0 {
        lemma_settings_documents(base, indexes, docs, n - 1);
        assert(docs.take(n).drop_last() =~= docs.take(n - 1));
        assert(docs.take(n).last() == docs[n - 1]);
        let before = docs.take(n - 1).filter(read);
        assert(before.push(docs[n - 1]).map_values(entry) =~= before.map_values(entry).push(entry(docs[n - 1])));
    } else {
        assert(docs.take(n).filter(read).map_values(entry) =~= Seq::<RatomlView>::empty());
    }
}

} // verus!
