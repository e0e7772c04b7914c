//! The preference load orchestrator: a three-state machine driven once
//! per frame, so the frame loop never blocks on disk.
//!
//! The machine moves Idle → Loading → Settled.  On the first tick it asks
//! the host to start the background read, exactly once.  While loading it
//! waits until the host hands in the read's outcome: the file's bytes, or
//! the error that stopped the read.  On completion the decoded record
//! becomes the live value; a missing file settles on the compiled-in
//! default and asks the host to persist it, exactly once, so a file
//! exists for the next run; any other failure — including malformed
//! bytes — is reported, and the default becomes live without being
//! written back.  Once settled, ticking changes nothing and asks for
//! nothing: one load attempt per process run.

use vstd::prelude::*;

use crate::codec::{decode_value, Persist};
use crate::error::PersistError;
use crate::prefs::{default_keyboard_pref, InputKeyboardPref};

verus! {

/// Where the load stands.
#[derive(Clone, Copy, Debug, PartialEq, Eq, Structural)]
pub enum LoadState {
    Idle,
    Loading,
    Settled,
}

/// What the host must do after a tick.
#[derive(Clone, Copy, Debug, PartialEq, Eq, Structural)]
pub enum LoadAction {
    /// Nothing: keep ticking.
    Wait,
    /// Start the background read of the preference file.
    StartLoad,
    /// Persist the live (defaulted) value in the background, fire and
    /// forget: the file was missing.
    PersistDefault,
    /// Log the error; the live value has been defaulted without a
    /// write-back.
    Report(PersistError),
}

/// How the phase moves on one tick: the first tick starts the load, a
/// completed outcome settles it, and a settled machine never moves again.
pub open spec fn tick_phase(s: LoadState, completed: bool) -> LoadState {
    match s {
        LoadState::Idle => LoadState::Loading,
        LoadState::Loading => if completed {
            LoadState::Settled
        } else {
            LoadState::Loading
        },
        LoadState::Settled => LoadState::Settled,
    }
}

/// A run of the machine: `phases[0]` is where it began, and each tick
/// moved it as `tick_phase` says, `completed[i]` being whether that tick
/// consumed the read's outcome.
pub open spec fn is_run(phases: Seq<LoadState>, completed: Seq<bool>) -> bool {
    &&& phases.len() == completed.len() + 1
    &&& forall|i: int|
        0 <= i < completed.len() ==> phases[i + 1] == tick_phase(#[trigger] phases[i], completed[i])
}

/// Law: the load starts exactly once.  `StartLoad` is demanded precisely
/// by a tick taken in `Idle`, and no tick ever moves the machine back to
/// `Idle`, so a run that begins in `Idle` is there only before its first
/// tick.
pub proof fn lemma_load_starts_once(phases: Seq<LoadState>, completed: Seq<bool>)
    requires
        is_run(phases, completed),
    ensures
        forall|i: int| 1 <= i < phases.len() ==> phases[i] != LoadState::Idle,
{
    assert forall|i: int| 1 <= i < phases.len() implies phases[i] != LoadState::Idle by {
        assert(phases[i] == tick_phase(phases[i - 1], completed[i - 1]));
    }
}

/// Law: the default is persisted at most once.  `PersistDefault` is
/// demanded only by a tick that consumes the outcome in `Loading`; that
/// tick settles the machine, and a settled machine stays settled, so no
/// later tick can be taken in `Loading` again.
pub proof fn lemma_settled_is_absorbing(phases: Seq<LoadState>, completed: Seq<bool>, i: int)
    requires
        is_run(phases, completed),
        0 <= i < phases.len(),
        phases[i] == LoadState::Settled,
    ensures
        forall|j: int| i <= j < phases.len() ==> phases[j] == LoadState::Settled,
    decreases phases.len() - i,
{
    if i + 1 < phases.len() {
        assert(phases[i + 1] == tick_phase(phases[i], completed[i]));
        lemma_settled_is_absorbing(phases, completed, i + 1);
    }
}

/// The orchestrator: the load state and the live preference value.
pub struct PrefLoader {
    state: LoadState,
    value: InputKeyboardPref,
}

impl PrefLoader {
    /// Where the load stands.
    pub closed spec fn load_state(&self) -> LoadState {
        self.state
    }

    /// The live preference value.
    pub closed spec fn live_value(&self) -> InputKeyboardPref {
        self.value
    }

    pub fn new() -> (l: PrefLoader)
        ensures
            l.load_state() == LoadState::Idle,
            l.live_value() == default_keyboard_pref(),
    {
        PrefLoader { state: LoadState::Idle, value: InputKeyboardPref::default() }
    }

    /// Where the load stands.
    pub fn phase(&self) -> (s: LoadState)
        ensures
            s == self.load_state(),
    {
        self.state
    }

    /// The live preference value.
    pub fn value(&self) -> (v: &InputKeyboardPref)
        ensures
            *v == self.live_value(),
    {
        &self.value
    }

    /// One frame tick.  `completion` is the background read's outcome —
    /// the raw file bytes or the error that stopped it — and `None` while
    /// it is still in flight; before the read is started there is nothing
    /// to complete.
    pub fn tick(&mut self, completion: Option<Result<Vec<u8>, PersistError>>) -> (action:
        LoadAction)
        requires
            old(self).load_state() != LoadState::Loading ==> completion is None,
        ensures
            final(self).load_state() == tick_phase(old(self).load_state(), completion is Some),
            action == LoadAction::StartLoad <==> old(self).load_state() == LoadState::Idle,
            action == LoadAction::PersistDefault ==> old(self).load_state() == LoadState::Loading
                && final(self).load_state() == LoadState::Settled,
            old(self).load_state() == LoadState::Idle ==> {
                &&& final(self).load_state() == LoadState::Loading
                &&& final(self).live_value() == old(self).live_value()
                &&& action == LoadAction::StartLoad
            },
            old(self).load_state() == LoadState::Settled ==> {
                &&& *final(self) == *old(self)
                &&& action == LoadAction::Wait
            },
            old(self).load_state() == LoadState::Loading ==> match completion {
                None => *final(self) == *old(self) && action == LoadAction::Wait,
                Some(outcome) => {
                    &&& final(self).load_state() == LoadState::Settled
                    &&& match outcome {
                        Ok(bytes) => {
                            if InputKeyboardPref::decodes(bytes@) {
                                &&& final(self).live_value().enc() == bytes@.take(
                                    final(self).live_value().enc().len() as int,
                                )
                                &&& final(self).live_value().enc().len() <= bytes@.len()
                                &&& action == LoadAction::Wait
                            } else {
                                &&& final(self).live_value() == default_keyboard_pref()
                                &&& action matches LoadAction::Report(_)
                            }
                        },
                        Err(e) => {
                            &&& final(self).live_value() == default_keyboard_pref()
                            &&& if e == PersistError::NotFound {
                                action == LoadAction::PersistDefault
                            } else {
                                action == LoadAction::Report(e)
                            }
                        },
                    }
                },
            },
    {
        match self.state {
            LoadState::Idle => {
                self.state = LoadState::Loading;
                LoadAction::StartLoad
            },
            LoadState::Settled => LoadAction::Wait,
            LoadState::Loading => {
                match completion {
                    None => LoadAction::Wait,
                    Some(outcome) => {
                        self.state = LoadState::Settled;
                        match outcome {
                            Ok(bytes) => {
                                match decode_value::<InputKeyboardPref>(bytes) {
                                    Ok(pref) => {
                                        proof {
                                            let rest = bytes@.skip(pref.enc().len() as int);
                                            assert(bytes@ =~= pref.enc() + rest);
                                            pref.lemma_enc_decodes(rest);
                                        }
                                        self.value = pref;
                                        LoadAction::Wait
                                    },
                                    Err(e) => {
                                        self.value = InputKeyboardPref::default();
                                        LoadAction::Report(e)
                                    },
                                }
                            },
                            Err(e) => {
                                self.value = InputKeyboardPref::default();
                                if e == PersistError::NotFound {
                                    LoadAction::PersistDefault
                                } else {
                                    LoadAction::Report(e)
                                }
                            },
                        }
                    },
                }
            },
        }
    }
}

} // verus!
