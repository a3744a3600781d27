//! Turning the changes of one email into a chain of commits.
//!
//! Each change is built on the commit of the change before it, the first on
//! the tip of the reference. The reference moves once, to the last commit,
//! after every change was committed. When a change fails, nothing moves and
//! the email stays where it is.

use crate::email_update::{ChangeView, GovUkChange};
use crate::git::ObjectId;
use vstd::prelude::*;
use vstd::string::StringExecFns;

verus! {

/// The message of the commit for a change: the time, a colon, the
/// description and, where the change has one, the category in brackets.
pub open spec fn message_of(change: ChangeView) -> Seq<char> {
    change.updated_at + ": "@ + change.change + match change.category {
        Some(category) => " ["@ + category + "]"@,
        None => Seq::empty(),
    }
}

/// Writes the message of the commit for a change.
pub fn commit_message(change: &GovUkChange) -> (message: String)
    ensures
        message@ == message_of(change@),
{
    let mut message = change.updated_at.clone();
    message.append(": ");
    message.append(change.change.as_str());
    match &change.category {
        Some(category) => {
            message.append(" [");
            message.append(category.as_str());
            message.append("]");
            assert(message@ =~= message_of(change@));
        },
        None => {
            assert(message@ =~= message_of(change@));
        },
    }
    message
}

/// What has to be done next for an email.
#[derive(Clone, Copy, Debug, PartialEq, Eq)]
pub enum Action {
    /// Fetch what the change at index `event` names and commit it on
    /// `parent`.
    Build { event: usize, parent: Option<ObjectId> },
    /// Move the reference to the commit `to`.
    Advance { to: ObjectId },
    /// Move the email out of the pending set.
    Archive,
    /// Leave the reference and the email as they are: a change has failed.
    Abandon,
    /// Nothing: the email is archived.
    Rest,
}

/// What has happened for an email.
#[derive(Clone, Copy, Debug, PartialEq, Eq)]
pub enum Event {
    /// The change that was to be built is committed as `commit`.
    Committed { commit: ObjectId },
    /// The change that was to be built has failed.
    Failed,
    /// The reference was moved.
    Advanced,
    /// The email was moved out of the pending set.
    Archived,
}

/// How far the work on an email has come.
#[derive(Clone, Copy, Debug, PartialEq, Eq)]
pub enum Stage {
    /// Changes are being built.
    Building,
    /// A change has failed.
    Failed,
    /// The reference points at the last commit.
    Published,
    /// The email is out of the pending set.
    Archived,
}

/// The work on one email.
#[derive(Clone, Copy, Debug, PartialEq, Eq)]
pub struct Ingest {
    /// How many changes the email announces.
    pub events: usize,
    /// How many of them are committed.
    pub built: usize,
    /// The commit to build on: the tip of the reference at the start, then
    /// the commit of the last change.
    pub tip: Option<ObjectId>,
    /// How far the work has come.
    pub stage: Stage,
}

/// What has to be done next in a state.
pub open spec fn action_of(state: Ingest) -> Action {
    match state.stage {
        Stage::Failed => Action::Abandon,
        Stage::Archived => Action::Rest,
        Stage::Published => Action::Archive,
        Stage::Building => if state.built < state.events {
            Action::Build { event: state.built, parent: state.tip }
        } else {
            match state.tip {
                Some(to) => Action::Advance { to },
                None => Action::Archive,
            }
        },
    }
}

/// The state after an event. An event that does not answer the action of
/// the state changes nothing.
pub open spec fn step(state: Ingest, event: Event) -> Ingest {
    match (action_of(state), event) {
        (Action::Build { .. }, Event::Committed { commit }) => Ingest {
            events: state.events,
            built: (state.built + 1) as usize,
            tip: Some(commit),
            stage: Stage::Building,
        },
        (Action::Build { .. }, Event::Failed) => Ingest {
            events: state.events,
            built: state.built,
            tip: state.tip,
            stage: Stage::Failed,
        },
        (Action::Advance { .. }, Event::Advanced) => Ingest {
            events: state.events,
            built: state.built,
            tip: state.tip,
            stage: Stage::Published,
        },
        (Action::Archive, Event::Archived) => Ingest {
            events: state.events,
            built: state.built,
            tip: state.tip,
            stage: Stage::Archived,
        },
        _ => state,
    }
}

/// The state after a run of events.
pub open spec fn run(state: Ingest, events: Seq<Event>) -> Ingest
    decreases events.len(),
{
    if events.len() == 0 {
        state
    } else {
        step(run(state, events.drop_last()), events.last())
    }
}

/// The state at the start: nothing built, the tip of the reference to
/// build on.
pub open spec fn started(events: usize, tip: Option<ObjectId>) -> Ingest {
    Ingest { events, built: 0, tip, stage: Stage::Building }
}

impl Ingest {
    /// Starts the work on an email with that many changes, with the
    /// reference at `tip`.
    pub fn start(events: usize, tip: Option<ObjectId>) -> (state: Ingest)
        ensures
            state == started(events, tip),
    {
        Ingest { events, built: 0, tip, stage: Stage::Building }
    }

    /// What has to be done next.
    pub fn action(&self) -> (action: Action)
        ensures
            action == action_of(*self),
    {
        match self.stage {
            Stage::Failed => Action::Abandon,
            Stage::Archived => Action::Rest,
            Stage::Published => Action::Archive,
            Stage::Building => if self.built < self.events {
                Action::Build { event: self.built, parent: self.tip }
            } else {
                match self.tip {
                    Some(to) => Action::Advance { to },
                    None => Action::Archive,
                }
            },
        }
    }

    /// Takes note of what has happened.
    pub fn record(&mut self, event: Event)
        ensures
            *final(self) == step(*old(self), event),
    {
        match (self.action(), event) {
            (Action::Build { .. }, Event::Committed { commit }) => {
                self.built = self.built + 1;
                self.tip = Some(commit);
            },
            (Action::Build { .. }, Event::Failed) => {
                self.stage = Stage::Failed;
            },
            (Action::Advance { .. }, Event::Advanced) => {
                self.stage = Stage::Published;
            },
            (Action::Archive, Event::Archived) => {
                self.stage = Stage::Archived;
            },
            _ => {},
        }
    }
}

/// The run in which the changes are committed one after the other as the
/// commits of the list.
pub open spec fn commits(list: Seq<ObjectId>) -> Seq<Event> {
    Seq::new(list.len(), |i: int| Event::Committed { commit: list[i] })
}

/// A chain of commits: after the first changes of an email were committed
/// one after the other, the next change is built on the commit of the last;
/// and once every change is committed, the reference moves to the commit of
/// the last change.
pub proof fn law_chain(events: usize, tip: Option<ObjectId>, list: Seq<ObjectId>)
    requires
        1 <= list.len() <= events,
    ensures
        list.len() < events ==> action_of(run(started(events, tip), commits(list))) == (Action::Build {
            event: list.len() as usize,
            parent: Some(list.last()),
        }),
        list.len() == events ==> action_of(run(started(events, tip), commits(list))) == (
        Action::Advance { to: list.last() }),
{
    lemma_chain(events, tip, list);
}

proof fn lemma_chain(events: usize, tip: Option<ObjectId>, list: Seq<ObjectId>)
    requires
        list.len() <= events,
    ensures
        run(started(events, tip), commits(list)) == (Ingest {
            events,
            built: list.len() as usize,
            tip: if list.len() == 0 {
                tip
            } else {
                Some(list.last())
            },
            stage: Stage::Building,
        }),
    decreases list.len(),
{
    if list.len() > 0 {
        lemma_chain(events, tip, list.drop_last());
        assert(commits(list).drop_last() =~= commits(list.drop_last()));
        assert(commits(list).last() == Event::Committed { commit: list.last() });
    }
}

/// The reference moves only when every change is committed: in a state in
/// which the action is to move it, nothing is left to build and nothing has
/// failed, and the reference moves to the commit to build on.
pub proof fn law_advance_is_last(state: Ingest)
    requires
        action_of(state) is Advance,
    ensures
        state.built >= state.events,
        state.stage == Stage::Building,
        state.tip == Some(action_of(state)->to),
{
}

/// A failure is final: once a change has failed, whatever happens later, the
/// reference is not moved and the email is not archived.
pub proof fn law_failure_is_final(state: Ingest, events: Seq<Event>)
    requires
        state.stage == Stage::Failed,
    ensures
        run(state, events) == state,
        action_of(run(state, events)) == Action::Abandon,
    decreases events.len(),
{
    if events.len() > 0 {
        law_failure_is_final(state, events.drop_last());
    }
}

/// When a change fails, the work is abandoned at once: the failure of the
/// change that is being built leads to a state from which nothing moves.
pub proof fn law_failed_change_abandons(state: Ingest, later: Seq<Event>)
    requires
        action_of(state) is Build,
    ensures
        action_of(run(step(state, Event::Failed), later)) == Action::Abandon,
        run(step(state, Event::Failed), later).tip == state.tip,
{
    law_failure_is_final(step(state, Event::Failed), later);
}

} // verus!
