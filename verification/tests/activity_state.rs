use yagna::activity_state::{ActivityState, State, StatePair};

#[test]
fn alive_unless_terminated() {
    assert!(StatePair(State::New, None).alive());
    assert!(StatePair(State::Active, Some(State::Ready)).alive());
    assert!(!StatePair(State::Terminated, None).alive());
    assert!(!StatePair(State::Terminated, Some(State::Active)).alive());
    assert!(!StatePair(State::Active, Some(State::Terminated)).alive());
}

#[test]
fn to_pending_keeps_current_state() {
    let p = StatePair(State::Deployed, None);
    assert_eq!(p.to_pending(State::Ready), StatePair(State::Deployed, Some(State::Ready)));
    let q = StatePair(State::Ready, Some(State::Active));
    assert_eq!(q.to_pending(State::Terminated), StatePair(State::Ready, Some(State::Terminated)));
    assert!(!q.to_pending(State::Terminated).alive());
}

#[test]
fn pair_from_state_has_nothing_pending() {
    assert_eq!(StatePair::from(State::Active), StatePair(State::Active, None));
    assert!(!StatePair::from(State::Terminated).alive());
}

#[test]
fn defaults_are_new() {
    assert_eq!(State::default(), State::New);
    assert_eq!(StatePair::default(), StatePair(State::New, None));
    assert!(StatePair::default().alive());
}

#[test]
fn activity_state_from_pair() {
    let p = StatePair(State::Active, Some(State::Terminated));
    let a = ActivityState::from(&p);
    assert_eq!(a.state, p);
    assert_eq!(a.reason, None);
    assert_eq!(a.error_message, None);
    assert!(!a.alive());
    let b = ActivityState::from(StatePair(State::Ready, None));
    assert!(b.alive());
    assert_eq!(b.reason, None);
}

#[test]
fn activity_state_alive_follows_pair() {
    let a = ActivityState {
        state: StatePair(State::Terminated, None),
        reason: Some("done".to_string()),
        error_message: None,
    };
    assert!(!a.alive());
}
