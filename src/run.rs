use vstd::prelude::*;
use crate::detect::{in_name_order, LanguageSet};
use crate::language::Language;

verus! {

/// The stages that each detected language goes through, in order.
#[derive(Clone, Copy, Debug, PartialEq, Eq, Structural)]
pub enum Stage {
    Generate,
    Setup,
    Test,
    Snapshot,
}

/// What the driver of a run is to do next.
#[derive(Clone, Copy, Debug, PartialEq, Eq, Structural)]
pub enum Action {
    /// Perform `stage` for `language`, then report its outcome.
    Perform(Language, Stage),
    /// Every language passed every stage.
    Finish,
    /// `stage` of `language` failed; nothing else runs.
    Abort(Language, Stage),
}

/// The stage that follows `s`, if any.
pub open spec fn next_stage(s: Stage) -> Option<Stage> {
    match s {
        Stage::Generate => Some(Stage::Setup),
        Stage::Setup => Some(Stage::Test),
        Stage::Test => Some(Stage::Snapshot),
        Stage::Snapshot => None,
    }
}

/// Progress of a run over the detected languages, in name order: one
/// language at a time, each stage after the previous one, and nothing more
/// after the first failure.
pub struct Run {
    order: Vec<Language>,
    index: usize,
    stage: Stage,
    failed: bool,
}

impl Run {
    /// The languages in the order they are processed.
    pub closed spec fn order(&self) -> Seq<Language> {
        self.order@
    }

    /// How many languages passed every stage.
    pub closed spec fn index(&self) -> nat {
        self.index as nat
    }

    pub closed spec fn stage(&self) -> Stage {
        self.stage
    }

    pub closed spec fn failed(&self) -> bool {
        self.failed
    }

    pub closed spec fn wf(&self) -> bool {
        self.order@.len() <= 2 && self.index <= self.order@.len() && (self.failed ==> self.index < self.order@.len())
    }

    /// The action that the state asks for.
    pub open spec fn action_of(&self) -> Action {
        if self.failed() {
            Action::Abort(self.order()[self.index() as int], self.stage())
        } else if self.index() >= self.order().len() {
            Action::Finish
        } else {
            Action::Perform(self.order()[self.index() as int], self.stage())
        }
    }

    /// A run over `languages`, in name order, at the first stage of the
    /// first language.
    pub fn new(languages: &LanguageSet) -> (r: Run)
        ensures
            r.wf(),
            r.order() == in_name_order(languages@),
            r.index() == 0,
            r.stage() == Stage::Generate,
            !r.failed(),
    {
        Run { order: languages.in_order(), index: 0, stage: Stage::Generate, failed: false }
    }

    pub fn next_action(&self) -> (r: Action)
        requires
            self.wf(),
        ensures
            r == self.action_of(),
    {
        if self.failed {
            Action::Abort(self.order[self.index], self.stage)
        } else if self.index >= self.order.len() {
            Action::Finish
        } else {
            Action::Perform(self.order[self.index], self.stage)
        }
    }

    /// Takes the outcome of the action that `next_action` asked for. A
    /// success moves to the next stage, or to the next language after the
    /// last stage; a failure ends the run where it stands.
    pub fn report(&mut self, success: bool)
        requires
            old(self).wf(),
            old(self).action_of() is Perform,
        ensures
            final(self).wf(),
            final(self).order() == old(self).order(),
            !success ==> final(self).failed() && final(self).index() == old(self).index()
                && final(self).stage() == old(self).stage(),
            success ==> !final(self).failed() && match next_stage(old(self).stage()) {
                Some(s) => final(self).index() == old(self).index() && final(self).stage() == s,
                None => final(self).index() == old(self).index() + 1 && final(self).stage() == Stage::Generate,
            },
    {
        if !success {
            self.failed = true;
            return;
        }
        match self.stage {
            Stage::Generate => self.stage = Stage::Setup,
            Stage::Setup => self.stage = Stage::Test,
            Stage::Test => self.stage = Stage::Snapshot,
            Stage::Snapshot => {
                self.index = self.index + 1;
                self.stage = Stage::Generate;
            },
        }
    }
}

/// Fail-fast: once a stage has failed, every later request is to abort,
/// naming that stage and its language, whatever is reported.
pub proof fn lemma_failure_is_final(r: Run)
    requires
        r.wf(),
        r.failed(),
    ensures
        r.action_of() == Action::Abort(r.order()[r.index() as int], r.stage()),
        !(r.action_of() is Perform),
{
}

} // verus!
