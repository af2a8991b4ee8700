//! The state of an activity as reported by the Activity API.

use vstd::prelude::*;
use vstd::std_specs::convert::FromSpecImpl;

verus! {

/// The lifecycle states of an activity.
#[derive(Clone, Copy, Debug, PartialEq, Eq, PartialOrd, Ord, Hash, Structural)]
pub enum State {
    New,
    Deployed,
    Ready,
    Active,
    Terminated,
}

impl Default for State {
    fn default() -> (s: Self)
        ensures
            s == State::New,
    {
        State::New
    }
}

/// The current state of an activity, and the state it is moving to, if any.
#[derive(Clone, Copy, Debug, PartialEq, Eq, PartialOrd, Ord, Hash, Structural)]
pub struct StatePair(pub State, pub Option<State>);

impl StatePair {
    /// An activity is alive unless it is terminated or about to be terminated.
    pub open spec fn is_alive(self) -> bool {
        self.0 != State::Terminated && self.1 != Some(State::Terminated)
    }

    pub fn alive(&self) -> (res: bool)
        ensures
            res == self.is_alive(),
    {
        match (&self.0, &self.1) {
            (State::Terminated, _) => false,
            (_, Some(State::Terminated)) => false,
            _ => true,
        }
    }

    /// The same current state, now pending a move to `state`.
    pub fn to_pending(&self, state: State) -> (res: Self)
        ensures
            res == StatePair(self.0, Some(state)),
    {
        StatePair(self.0.clone(), Some(state))
    }
}

impl From<State> for StatePair {
    fn from(state: State) -> (res: Self) {
        StatePair(state, None)
    }
}

impl FromSpecImpl<State> for StatePair {
    open spec fn obeys_from_spec() -> bool {
        true
    }

    open spec fn from_spec(state: State) -> Self {
        StatePair(state, None)
    }
}

impl Default for StatePair {
    fn default() -> (res: Self)
        ensures
            res == StatePair(State::New, None),
    {
        StatePair(State::default(), None)
    }
}

/// An activity's state, with the reason for its termination and the error
/// that changed its state, where there are any.
#[derive(Clone, Debug, PartialEq)]
pub struct ActivityState {
    pub state: StatePair,
    /// Reason for the activity's termination (given when it is terminated).
    pub reason: Option<String>,
    /// The error message, where an error caused the change of state.
    pub error_message: Option<String>,
}

impl ActivityState {
    pub fn alive(&self) -> (res: bool)
        ensures
            res == self.state.is_alive(),
    {
        self.state.alive()
    }
}

impl<'a> From<&'a StatePair> for ActivityState {
    fn from(pending: &'a StatePair) -> (res: Self) {
        ActivityState { state: pending.clone(), reason: None, error_message: None }
    }
}

impl<'a> FromSpecImpl<&'a StatePair> for ActivityState {
    open spec fn obeys_from_spec() -> bool {
        true
    }

    open spec fn from_spec(pending: &'a StatePair) -> Self {
        ActivityState { state: *pending, reason: None, error_message: None }
    }
}

impl From<StatePair> for ActivityState {
    fn from(pending: StatePair) -> (res: Self) {
        ActivityState { state: pending, reason: None, error_message: None }
    }
}

impl FromSpecImpl<StatePair> for ActivityState {
    open spec fn obeys_from_spec() -> bool {
        true
    }

    open spec fn from_spec(pending: StatePair) -> Self {
        ActivityState { state: pending, reason: None, error_message: None }
    }
}

} // verus!
