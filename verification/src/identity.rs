//! The relay's obfs4 identity, and alike its TLS key: loaded where there is one,
//! generated and kept where there is none.

use vstd::prelude::*;
use vstd::string::StringExecFns;

verus! {

/// Where the relay keeps its obfs4 identity.
pub fn obfs4_state_path(state_dir: &str) -> (path: String)
    ensures
        path@ == state_dir@ + "/relay.obfs4"@,
{
    state_dir.to_owned().concat("/relay.obfs4")
}

/// Where the relay stands in getting its obfs4 identity.
#[derive(Clone, Copy, Debug, PartialEq, Eq, Structural)]
pub enum IdentityState {
    /// Looking for the state file.
    Looking,
    /// Reading the state file.
    Reading,
    /// Decoding what was read.
    Decoding,
    /// Making the state directory, for a new identity.
    MakingDir,
    /// Writing the state file of a new identity.
    Writing,
    /// The relay has its identity, or cannot have one.
    Settled,
}

/// What came of the last step.
#[derive(Clone, Copy, Debug, PartialEq, Eq, Structural)]
pub enum IdentityEvent {
    /// The state file is there.
    Found,
    /// The state file is not there.
    NotFound,
    /// The step succeeded.
    Succeeded,
    /// The step failed.
    Failed,
}

/// What to do about the identity next.
#[derive(Clone, Copy, Debug, PartialEq, Eq, Structural)]
pub enum IdentityAction {
    /// Read the state file.
    Read,
    /// Decode the identity from what was read.
    Decode,
    /// Generate an identity and make the state directory.
    GenerateAndMakeDir,
    /// Write the identity to the state file.
    Write,
    /// Run with the identity.
    Use,
    /// Stop: the state file cannot be read.
    StopUnreadable,
    /// Stop: the state file is corrupt.
    StopCorrupt,
    /// Stop: the state directory cannot be made.
    StopNoDir,
    /// Stop: the state file cannot be written.
    StopUnwritable,
}

/// The event is one that the state waits for.
pub open spec fn identity_awaits(state: IdentityState, event: IdentityEvent) -> bool {
    match state {
        IdentityState::Looking => event == IdentityEvent::Found || event
            == IdentityEvent::NotFound,
        IdentityState::Settled => false,
        _ => event == IdentityEvent::Succeeded || event == IdentityEvent::Failed,
    }
}

/// The state and action that follow an event: an identity that is there is
/// read and decoded, a new one is generated and written.
pub open spec fn identity_follows(state: IdentityState, event: IdentityEvent) -> (
    IdentityState,
    IdentityAction,
) {
    let ok = event == IdentityEvent::Succeeded;
    match state {
        IdentityState::Looking => if event == IdentityEvent::Found {
            (IdentityState::Reading, IdentityAction::Read)
        } else {
            (IdentityState::MakingDir, IdentityAction::GenerateAndMakeDir)
        },
        IdentityState::Reading => if ok {
            (IdentityState::Decoding, IdentityAction::Decode)
        } else {
            (IdentityState::Settled, IdentityAction::StopUnreadable)
        },
        IdentityState::Decoding => if ok {
            (IdentityState::Settled, IdentityAction::Use)
        } else {
            (IdentityState::Settled, IdentityAction::StopCorrupt)
        },
        IdentityState::MakingDir => if ok {
            (IdentityState::Writing, IdentityAction::Write)
        } else {
            (IdentityState::Settled, IdentityAction::StopNoDir)
        },
        IdentityState::Writing => if ok {
            (IdentityState::Settled, IdentityAction::Use)
        } else {
            (IdentityState::Settled, IdentityAction::StopUnwritable)
        },
        IdentityState::Settled => (IdentityState::Settled, IdentityAction::Use),
    }
}

/// Decides how the relay goes on in getting its identity.
pub fn next_identity_step(state: IdentityState, event: IdentityEvent) -> (r: (
    IdentityState,
    IdentityAction,
))
    requires
        identity_awaits(state, event),
    ensures
        r == identity_follows(state, event),
{
    let ok: bool = event == IdentityEvent::Succeeded;
    match state {
        IdentityState::Looking => if event == IdentityEvent::Found {
            (IdentityState::Reading, IdentityAction::Read)
        } else {
            (IdentityState::MakingDir, IdentityAction::GenerateAndMakeDir)
        },
        IdentityState::Reading => if ok {
            (IdentityState::Decoding, IdentityAction::Decode)
        } else {
            (IdentityState::Settled, IdentityAction::StopUnreadable)
        },
        IdentityState::Decoding => if ok {
            (IdentityState::Settled, IdentityAction::Use)
        } else {
            (IdentityState::Settled, IdentityAction::StopCorrupt)
        },
        IdentityState::MakingDir => if ok {
            (IdentityState::Writing, IdentityAction::Write)
        } else {
            (IdentityState::Settled, IdentityAction::StopNoDir)
        },
        IdentityState::Writing => if ok {
            (IdentityState::Settled, IdentityAction::Use)
        } else {
            (IdentityState::Settled, IdentityAction::StopUnwritable)
        },
        IdentityState::Settled => (IdentityState::Settled, IdentityAction::Use),
    }
}

/// The state after some events from the start.
pub open spec fn identity_state_after(events: Seq<IdentityEvent>) -> IdentityState
    decreases events.len(),
{
    if events.len() == 0 {
        IdentityState::Looking
    } else {
        identity_follows(identity_state_after(events.drop_last()), events.last()).0
    }
}

/// The last action after some events from the start.
pub open spec fn identity_action_after(events: Seq<IdentityEvent>) -> IdentityAction
    recommends
        events.len() > 0,
{
    identity_follows(identity_state_after(events.drop_last()), events.last()).1
}

/// Each event came when it was waited for.
pub open spec fn is_identity_run(events: Seq<IdentityEvent>) -> bool
    decreases events.len(),
{
    events.len() > 0 ==> is_identity_run(events.drop_last()) && identity_awaits(
        identity_state_after(events.drop_last()),
        events.last(),
    )
}

proof fn lemma_identity_run(events: Seq<IdentityEvent>)
    requires
        is_identity_run(events),
    ensures
        match identity_state_after(events) {
            IdentityState::Looking => events.len() == 0,
            IdentityState::Reading => events == seq![IdentityEvent::Found],
            IdentityState::Decoding => events == seq![
                IdentityEvent::Found,
                IdentityEvent::Succeeded,
            ],
            IdentityState::MakingDir => events == seq![IdentityEvent::NotFound],
            IdentityState::Writing => events == seq![
                IdentityEvent::NotFound,
                IdentityEvent::Succeeded,
            ],
            IdentityState::Settled => 2 <= events.len() <= 3,
        },
    decreases events.len(),
{
    if events.len() > 0 {
        let before = events.drop_last();
        lemma_identity_run(before);
        assert(events =~= before.push(events.last()));
    }
}

/// Every outcome that a state can meet may be asked about.
pub proof fn law_every_outcome_is_taken(state: IdentityState)
    requires
        !(state is Looking),
        !(state is Settled),
    ensures
        call_requires(next_identity_step, (IdentityState::Looking, IdentityEvent::Found)),
        call_requires(next_identity_step, (IdentityState::Looking, IdentityEvent::NotFound)),
        call_requires(next_identity_step, (state, IdentityEvent::Succeeded)),
        call_requires(next_identity_step, (state, IdentityEvent::Failed)),
{
}

/// What follows each step, by calls: an identity that is found is read, then
/// decoded, then used; one that is not is generated and written, then used. A
/// step that fails stops for its own reason.
pub proof fn law_identity_steps(
    state: IdentityState,
    event: IdentityEvent,
    next: IdentityState,
    action: IdentityAction,
)
    requires
        call_ensures(next_identity_step, (state, event), (next, action)),
    ensures
        state is Looking && event is Found ==> action is Read && next is Reading,
        state is Looking && event is NotFound ==> action is GenerateAndMakeDir
            && next is MakingDir,
        state is Reading && event is Succeeded ==> action is Decode && next is Decoding,
        state is Decoding && event is Succeeded ==> action is Use && next is Settled,
        state is MakingDir && event is Succeeded ==> action is Write && next is Writing,
        state is Writing && event is Succeeded ==> action is Use && next is Settled,
        state is Reading && event is Failed ==> action is StopUnreadable && next is Settled,
        state is Decoding && event is Failed ==> action is StopCorrupt && next is Settled,
        state is MakingDir && event is Failed ==> action is StopNoDir && next is Settled,
        state is Writing && event is Failed ==> action is StopUnwritable && next is Settled,
{
}

/// An identity that is there is never replaced: the state file is written only
/// where it was not found.
pub proof fn law_identity_is_never_replaced(events: Seq<IdentityEvent>)
    requires
        is_identity_run(events),
        events.len() > 0,
        identity_action_after(events) == IdentityAction::Write || identity_action_after(events)
            == IdentityAction::GenerateAndMakeDir,
    ensures
        events[0] == IdentityEvent::NotFound,
{
    lemma_identity_run(events.drop_last());
}

/// The relay runs only with an identity that is in its state file: one that was
/// read from it or one that was written to it.
pub proof fn law_identity_in_use_is_persisted(events: Seq<IdentityEvent>)
    requires
        is_identity_run(events),
        events.len() > 0,
        identity_action_after(events) == IdentityAction::Use,
    ensures
        events == seq![IdentityEvent::Found, IdentityEvent::Succeeded, IdentityEvent::Succeeded]
            || events == seq![
            IdentityEvent::NotFound,
            IdentityEvent::Succeeded,
            IdentityEvent::Succeeded,
        ],
{
    let before = events.drop_last();
    lemma_identity_run(before);
    assert(events =~= before.push(events.last()));
}

} // verus!
