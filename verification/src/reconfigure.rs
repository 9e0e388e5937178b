//! Working out the settings of a session from all the settings files that it sees.
use crate::base::{offsets_fit, parent_map, source_root_for_path, BaseView, WorldBase};
use crate::changes::{document_views, Document, ModifiedRatoml};
use crate::open_files::{ratoml_seen, ratoml_views};
use crate::round::{settings_documents, settings_documents_to};
use crate::settings::{
    candidates, changed_settings_views, config_change_from_ratoml, decided_to, settings_views, user_config, user_view,
    ChangedSettings, ChangedSettingsView, ConfigChange,
};
use crate::world::SharedWorld;
use vstd::prelude::*;

verus! {

/// A settings file that changed, whether it is the user's own, and for each workspace of the world
/// whether it covers the path, and as what.
#[derive(Debug)]
pub struct SettingsChange {
    pub file: ModifiedRatoml,
    pub user: bool,
    pub classified: Vec<Option<bool>>,
}

/// The changed settings file with the source root it is in.
pub open spec fn placed_change(base: BaseView, indexes: Seq<usize>, change: SettingsChange) -> ChangedSettingsView {
    ChangedSettingsView {
        file: change.file@,
        user: change.user,
        root: source_root_for_path(base, indexes, change.file@.path.key, change.classified@),
    }
}

pub open spec fn placed_changes(base: BaseView, indexes: Seq<usize>, changes: Seq<SettingsChange>) -> Seq<ChangedSettingsView> {
    Seq::new(changes.len(), |i: int| placed_change(base, indexes, changes[i]))
}

fn place_changes(base: &WorldBase, indexes: &Vec<usize>, changes: Vec<SettingsChange>) -> (r: Vec<ChangedSettings>)
    requires
        base@.readable(),
        forall|i: int| 0 <= i < changes@.len() ==> (#[trigger] changes@[i]).classified.len() == base.workspaces.len(),
    ensures
        changed_settings_views(r@) == placed_changes(base@, indexes@, changes@),
{
    let ghost whole = changes@;
    let mut changes = changes;
    let mut r: Vec<ChangedSettings> = Vec::new();
    let ghost mut i: int = 0;
    proof {
        assert(whole.skip(0) =~= whole);
    }
    while changes.len() > 0
        invariant
            0 <= i <= whole.len(),
            changes@ == whole.skip(i),
            r@.len() == i,
            base@.readable(),
            forall|k: int| 0 <= k < whole.len() ==> (#[trigger] whole[k]).classified.len() == base.workspaces.len(),
            forall|k: int| 0 <= k < i ==> (#[trigger] r@[k])@ == placed_change(base@, indexes@, whole[k]),
        decreases changes.len(),
    {
        let change = changes.remove(0);
        proof {
            assert(change == whole[i]);
            assert(changes@ =~= whole.skip(i + 1));
        }
        let root = base.source_root_for_path(indexes, &change.file.path.key, &change.classified);
        r.push(ChangedSettings { file: change.file, user: change.user, root });
        proof {
            i = i + 1;
        }
    }
    proof {
        assert(changed_settings_views(r@) =~= placed_changes(base@, indexes@, whole));
    }
    r
}

impl SharedWorld {
    /// What is new in the settings of a session. The settings files on disk come first, then those
    /// that the session has put over them, then those that the editor has open, then those that
    /// changed.
    pub fn reload_config_from_shared(
        &self,
        session_id: u64,
        workspaces: &Vec<usize>,
        documents: Vec<Document>,
        changes: Vec<SettingsChange>,
        user_config_text: Option<String>,
        workspace_ratoml_keys: &Vec<String>,
    ) -> (r: ConfigChange)
        requires
            self@.base.readable(),
            offsets_fit(self@.base.workspaces),
            self@.overlays.contains_key(session_id) ==> self@.overlays[session_id].wf(),
            forall|i: int| 0 <= i < documents@.len() ==> (#[trigger] documents@[i]).classified.len() == self.base.workspaces.len(),
            forall|i: int| 0 <= i < changes@.len() ==> (#[trigger] changes@[i]).classified.len() == self.base.workspaces.len(),
        ensures
            user_view(r.user_config) == user_config(
                placed_changes(self@.base, workspaces@, changes@),
                user_config_text.deep_view(),
            ),
            settings_views(r.ratoml@) == ({
                let list = candidates(
                    ratoml_seen(self@, session_id, workspaces@) + settings_documents_to(
                        self@.base,
                        workspaces@,
                        document_views(documents@),
                        documents@.len() as int,
                    ),
                    placed_changes(self@.base, workspaces@, changes@),
                );
                decided_to(workspace_ratoml_keys.deep_view(), list, list.len() as int)
            }),
            r.source_root_parents@ == parent_map(self@.base.workspaces, workspaces@, self@.base.workspaces.len() as int),
    {
        let changed = place_changes(&self.base, workspaces, changes);
        let mut seen = self.ratoml_files(session_id, workspaces);
        let ghost first = seen@;
        let mut open = settings_documents(&self.base, workspaces, documents);
        let ghost second = open@;
        seen.append(&mut open);
        proof {
            assert(ratoml_views(seen@) =~= ratoml_views(first) + ratoml_views(second));
        }
        let parents = self.base.source_root_parent_map(workspaces);
        config_change_from_ratoml(&changed, &seen, user_config_text, workspace_ratoml_keys, parents)
    }
}

} // verus!
