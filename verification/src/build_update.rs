//! What becomes of build data and macros that have come in.
use crate::operations::SharedAnalyzerOperationToken;
use crate::registry::SharedAnalyzerRegistry;
use crate::reload_state::{
    lemma_finish_explicit, normal_token, stage, text_view, Cause, ReloadState, ScopeView, SessionScope, Stage,
};
use crate::slots::{ExplicitSlot, OperationSlots};
use vstd::prelude::*;

verus! {

/// How the world took what was handed to it.
#[derive(Debug)]
pub enum WorldUpdate {
    Applied,
    /// It was for another state of the world, or it was not the session's turn.
    Stale,
    Failed(String),
}

pub enum WorldUpdateView {
    Applied,
    Stale,
    Failed(Seq<char>),
}

impl View for WorldUpdate {
    type V = WorldUpdateView;

    open spec fn view(&self) -> WorldUpdateView {
        match self {
            WorldUpdate::Applied => WorldUpdateView::Applied,
            WorldUpdate::Stale => WorldUpdateView::Stale,
            WorldUpdate::Failed(error) => WorldUpdateView::Failed(error@),
        }
    }
}

/// What build data that has come in is handed to the world for.
#[derive(Clone, Copy, Debug, PartialEq, Eq, Structural)]
pub enum BuildDataUse {
    Unused,
    Build,
    Rebuild,
}

impl ReloadState {
    pub open spec fn data_use(self, same_workspaces: bool) -> BuildDataUse {
        match self.build_data_response {
            None => BuildDataUse::Unused,
            Some(response) => if !same_workspaces {
                BuildDataUse::Unused
            } else if self.rebuilding_proc_macros is None {
                if self.build_data_response_current && response.rebuild_id is None {
                    BuildDataUse::Build
                } else {
                    BuildDataUse::Unused
                }
            } else if response.rebuild_id == self.rebuilding_proc_macros && self.rebuild_response_current
                == self.rebuilding_proc_macros {
                BuildDataUse::Rebuild
            } else {
                BuildDataUse::Unused
            },
        }
    }

    /// What the build data that came in is to be handed to the world for.
    pub fn build_data_use(&self, same_workspaces: bool) -> (r: BuildDataUse)
        ensures
            r == self.data_use(same_workspaces),
    {
        match self.build_data_response {
            None => BuildDataUse::Unused,
            Some(response) => if !same_workspaces {
                BuildDataUse::Unused
            } else {
                match self.rebuilding_proc_macros {
                    None => if self.build_data_response_current && response.rebuild_id.is_none() {
                        BuildDataUse::Build
                    } else {
                        BuildDataUse::Unused
                    },
                    Some(id) => match (response.rebuild_id, self.rebuild_response_current) {
                        (Some(asked), Some(current)) => if asked == id && current == id {
                            BuildDataUse::Rebuild
                        } else {
                            BuildDataUse::Unused
                        },
                        _ => BuildDataUse::Unused,
                    },
                }
            },
        }
    }
}

pub open spec fn without_build_operation(st: Stage) -> Stage {
    st.with(ReloadState { build_data_operation: None, ..st.state })
}

impl Stage {
    /// The session's normal operation ends, if the build data was fetched for it.
    #[verifier::opaque]
    pub open spec fn build_operation_ended(self, sc: ScopeView, error: Option<Seq<char>>) -> Stage {
        if normal_token(self, self.state.build_data_operation) {
            let after = self.finish_normal(sc, error);
            if self.can_finish_normal(sc) {
                without_build_operation(after)
            } else {
                after
            }
        } else {
            self
        }
    }

    /// The reload ends, and the session leaves it behind.
    #[verifier::opaque]
    pub open spec fn reload_ended(self, sc: ScopeView, error: Option<Seq<char>>) -> Stage {
        let after = self.finish_explicit(sc, ExplicitSlot::Reload, error);
        if self.can_finish(sc, ExplicitSlot::Reload) {
            after.finished_shared(sc, error is Some)
        } else {
            after
        }
    }

    /// The rebuild ends, and the session leaves it behind.
    #[verifier::opaque]
    pub open spec fn rebuild_ended(self, sc: ScopeView, error: Option<Seq<char>>) -> Stage {
        self.with(ReloadState { rebuilding_proc_macros: None, ..self.state }).finish_explicit(
            sc,
            ExplicitSlot::Rebuild,
            error,
        ).finished_shared(sc, error is Some)
    }

    /// Build data that the world did not take: stale data is fetched anew, and an error ends the
    /// operation.
    #[verifier::opaque]
    pub open spec fn build_refused(self, sc: ScopeView, reload: bool, update: WorldUpdateView) -> Stage {
        match update {
            WorldUpdateView::Applied => self,
            WorldUpdateView::Stale => {
                let after = if reload {
                    self
                } else {
                    self.build_operation_ended(sc, Some("shared build-data result became stale"@))
                };
                after.with(after.state.asking_build_data(Cause::BuildDataStale))
            },
            WorldUpdateView::Failed(error) => if reload {
                self.reload_ended(sc, Some(error))
            } else {
                self.build_operation_ended(sc, Some(error))
            },
        }
    }

    /// A reload whose build data the world took is over, if no macros wait.
    #[verifier::opaque]
    pub open spec fn build_taken(self, sc: ScopeView, reload: bool, expand: bool) -> Stage {
        let ended = if reload && (!expand || !self.macros_wait(sc)) {
            self.reload_ended(sc, None)
        } else {
            self
        };
        if !ended.state.reload_pending && !ended.macros_wait(sc) {
            ended.build_operation_ended(sc, None)
        } else {
            ended
        }
    }

    /// The rebuild whose build data came in: on to its macros, over, or begun anew.
    #[verifier::opaque]
    pub open spec fn rebuild_answered(self, sc: ScopeView, expand: bool, update: WorldUpdateView) -> Stage {
        match update {
            WorldUpdateView::Applied => if expand && self.macros_wait(sc) {
                self.with(self.state.asking_macros(Cause::MacrosChanged))
            } else {
                self.rebuild_ended(sc, None)
            },
            WorldUpdateView::Stale => self.with(
                ReloadState {
                    rebuilding_proc_macros: None,
                    rebuild_proc_macros: true,
                    reload_pending: true,
                    proc_macro_clients_failed: false,
                    ..self.state
                }.asking_build_data(Cause::MacrosStale),
            ),
            WorldUpdateView::Failed(error) => self.rebuild_ended(sc, Some(error)),
        }
    }

    /// The session once it has dealt with its build data, given how the world took it.
    #[verifier::opaque]
    pub open spec fn clients_set(self, sc: ScopeView, same_workspaces: bool, expand: bool, update: WorldUpdateView) -> Stage {
        let use_ = self.state.data_use(same_workspaces);
        let response = self.state.build_data_response;
        let after = if use_ == BuildDataUse::Build {
            if update is Applied {
                self.build_taken(sc, response->0.reload, expand)
            } else {
                self.build_refused(sc, response->0.reload, update)
            }
        } else if self.state.rebuilding_proc_macros is Some && response is Some && response->0.rebuild_id
            == self.state.rebuilding_proc_macros {
            self.rebuild_answered(
                sc,
                expand,
                if use_ == BuildDataUse::Rebuild {
                    update
                } else {
                    WorldUpdateView::Stale
                },
            )
        } else {
            self
        };
        after.refreshed()
    }

    /// There is a number for a rebuild, should one have to be queued once the running one is over.
    pub open spec fn has_number(self) -> bool {
        self.registry.operations.next < u64::MAX
    }
}

impl ReloadState {
    /// Whether a token stands for the session's normal operation.
    pub fn is_normal(
        token: Option<SharedAnalyzerOperationToken>,
        slots: &OperationSlots,
        registry: &SharedAnalyzerRegistry,
    ) -> (r: bool)
        ensures
            forall|state: ReloadState| #![trigger stage(state, *slots, registry@)] r == normal_token(
                stage(state, *slots, registry@),
                token,
            ),
    {
        match token {
            Some(token) => slots.normal_operation_matches(registry, token),
            None => false,
        }
    }

    fn end_build_operation(
        &mut self,
        slots: &mut OperationSlots,
        registry: &mut SharedAnalyzerRegistry,
        scope: &SessionScope,
        error: Option<&str>,
    )
        requires
            old(registry)@.wf(),
        ensures
            final(registry)@.wf(),
            stage(*final(self), *final(slots), final(registry)@) == stage(*old(self), *old(slots), old(registry)@).build_operation_ended(
                scope@,
                text_view(error),
            ),
    {
        let ghost st = stage(*self, *slots, registry@);
        proof {
            reveal(Stage::build_operation_ended);
        }
        let normal = Self::is_normal(self.build_data_operation, slots, registry);
        proof {
            assert(normal == normal_token(st, st.state.build_data_operation));
        }
        if normal {
            if self.finish_normal(slots, registry, scope, error) {
                self.build_data_operation = None;
            }
        }
    }

    pub fn end_reload(
        &mut self,
        slots: &mut OperationSlots,
        registry: &mut SharedAnalyzerRegistry,
        scope: &SessionScope,
        error: Option<&str>,
    )
        requires
            old(registry)@.wf(),
            stage(*old(self), *old(slots), old(registry)@).has_room(),
        ensures
            final(registry)@.wf(),
            stage(*final(self), *final(slots), final(registry)@) == stage(*old(self), *old(slots), old(registry)@).reload_ended(
                scope@,
                text_view(error),
            ),
    {
        proof {
            reveal(Stage::reload_ended);
            lemma_finish_explicit(stage(*self, *slots, registry@), scope@, ExplicitSlot::Reload, text_view(error));
        }
        if self.finish_explicit(slots, registry, scope, ExplicitSlot::Reload, error) {
            self.finish_shared_operation(slots, registry, scope, error.is_some());
        }
    }

    pub fn end_rebuild(
        &mut self,
        slots: &mut OperationSlots,
        registry: &mut SharedAnalyzerRegistry,
        scope: &SessionScope,
        error: Option<&str>,
    )
        requires
            old(registry)@.wf(),
            stage(*old(self), *old(slots), old(registry)@).has_number(),
        ensures
            final(registry)@.wf(),
            stage(*final(self), *final(slots), final(registry)@) == stage(*old(self), *old(slots), old(registry)@).rebuild_ended(
                scope@,
                text_view(error),
            ),
    {
        proof {
            reveal(Stage::rebuild_ended);
        }
        self.rebuilding_proc_macros = None;
        proof {
            lemma_finish_explicit(stage(*self, *slots, registry@), scope@, ExplicitSlot::Rebuild, text_view(error));
        }
        self.finish_explicit(slots, registry, scope, ExplicitSlot::Rebuild, error);
        self.finish_shared_operation(slots, registry, scope, error.is_some());
    }

    fn refuse_build(
        &mut self,
        slots: &mut OperationSlots,
        registry: &mut SharedAnalyzerRegistry,
        scope: &SessionScope,
        reload: bool,
        update: &WorldUpdate,
    )
        requires
            old(registry)@.wf(),
            stage(*old(self), *old(slots), old(registry)@).has_room(),
        ensures
            final(registry)@.wf(),
            stage(*final(self), *final(slots), final(registry)@) == stage(*old(self), *old(slots), old(registry)@).build_refused(
                scope@,
                reload,
                update@,
            ),
    {
        proof {
            reveal(Stage::build_refused);
        }
        match update {
            WorldUpdate::Applied => {},
            WorldUpdate::Stale => {
                if !reload {
                    self.end_build_operation(slots, registry, scope, Some("shared build-data result became stale"));
                }
                self.ask_build_data(Cause::BuildDataStale);
            },
            WorldUpdate::Failed(error) => {
                if reload {
                    self.end_reload(slots, registry, scope, Some(error.as_str()));
                } else {
                    self.end_build_operation(slots, registry, scope, Some(error.as_str()));
                }
            },
        }
    }

    fn take_build(
        &mut self,
        slots: &mut OperationSlots,
        registry: &mut SharedAnalyzerRegistry,
        scope: &SessionScope,
        reload: bool,
        expand: bool,
    )
        requires
            old(registry)@.wf(),
            stage(*old(self), *old(slots), old(registry)@).has_room(),
        ensures
            final(registry)@.wf(),
            stage(*final(self), *final(slots), final(registry)@) == stage(*old(self), *old(slots), old(registry)@).build_taken(
                scope@,
                reload,
                expand,
            ),
    {
        let ghost st = stage(*self, *slots, registry@);
        proof {
            reveal(Stage::build_taken);
        }
        if reload {
            let waiting = expand && scope.proc_macros_pending(slots, registry);
            proof {
                assert(waiting == (expand && st.macros_wait(scope@)));
            }
            if !waiting {
                self.end_reload(slots, registry, scope, None);
            }
        }
        let ghost ended = stage(*self, *slots, registry@);
        if !self.reload_pending {
            let waiting = scope.proc_macros_pending(slots, registry);
            proof {
                assert(waiting == ended.macros_wait(scope@));
            }
            if !waiting {
                self.end_build_operation(slots, registry, scope, None);
            }
        }
    }

    fn answer_rebuild(
        &mut self,
        slots: &mut OperationSlots,
        registry: &mut SharedAnalyzerRegistry,
        scope: &SessionScope,
        expand: bool,
        update: &WorldUpdate,
    )
        requires
            old(registry)@.wf(),
            stage(*old(self), *old(slots), old(registry)@).has_number(),
        ensures
            final(registry)@.wf(),
            stage(*final(self), *final(slots), final(registry)@) == stage(*old(self), *old(slots), old(registry)@).rebuild_answered(
                scope@,
                expand,
                update@,
            ),
    {
        let ghost st = stage(*self, *slots, registry@);
        proof {
            reveal(Stage::rebuild_answered);
        }
        match update {
            WorldUpdate::Applied => {
                let waiting = expand && scope.proc_macros_pending(slots, registry);
                proof {
                    assert(waiting == (expand && st.macros_wait(scope@)));
                }
                if waiting {
                    self.ask_macros(Cause::MacrosChanged);
                } else {
                    self.end_rebuild(slots, registry, scope, None);
                }
            },
            WorldUpdate::Stale => {
                self.rebuilding_proc_macros = None;
                self.rebuild_proc_macros = true;
                self.reload_pending = true;
                self.proc_macro_clients_failed = false;
                self.ask_build_data(Cause::MacrosStale);
            },
            WorldUpdate::Failed(error) => {
                self.end_rebuild(slots, registry, scope, Some(error.as_str()));
            },
        }
    }

    /// Deals with build data that has come in, given how the world took it, and brings the list of
    /// macro servers up to date.
    pub fn set_proc_macro_clients(
        &mut self,
        slots: &mut OperationSlots,
        registry: &mut SharedAnalyzerRegistry,
        scope: &SessionScope,
        same_workspaces: bool,
        expand_proc_macros: bool,
        update: &WorldUpdate,
    )
        requires
            old(registry)@.wf(),
            stage(*old(self), *old(slots), old(registry)@).has_number(),
        ensures
            final(registry)@.wf(),
            stage(*final(self), *final(slots), final(registry)@) == stage(*old(self), *old(slots), old(registry)@).clients_set(
                scope@,
                same_workspaces,
                expand_proc_macros,
                update@,
            ),
    {
        proof {
            reveal(Stage::clients_set);
        }
        let use_ = self.build_data_use(same_workspaces);
        let ghost st = stage(*self, *slots, registry@);
        match self.build_data_response {
            Some(response) => match use_ {
                BuildDataUse::Build => match update {
                    WorldUpdate::Applied => {
                        self.take_build(slots, registry, scope, response.reload, expand_proc_macros);
                    },
                    _ => {
                        self.refuse_build(slots, registry, scope, response.reload, update);
                    },
                },
                BuildDataUse::Rebuild => {
                    self.answer_rebuild(slots, registry, scope, expand_proc_macros, update);
                },
                BuildDataUse::Unused => {
                    let answered = match (self.rebuilding_proc_macros, response.rebuild_id) {
                        (Some(id), Some(asked)) => id == asked,
                        _ => false,
                    };
                    if answered {
                        self.answer_rebuild(slots, registry, scope, expand_proc_macros, &WorldUpdate::Stale);
                    }
                },
            },
            None => {},
        }
        self.refresh_proc_macro_clients(slots);
    }
}

} // verus!
