use ivan_game::session::{authenticate, networking_action, networking_step, ClientState, NetAction, NetEvent};

#[test]
fn known_account_is_accepted() {
    assert!(authenticate("player1", "securepassword"));
}

#[test]
fn wrong_credentials_are_refused() {
    assert!(!authenticate("player1", "secure"));
    assert!(!authenticate("player2", "securepassword"));
    assert!(!authenticate("", ""));
    assert!(!authenticate("player1 ", "securepassword"));
}

#[test]
fn client_states_compare() {
    assert_eq!(ClientState::Connected, ClientState::Connected);
    assert_ne!(ClientState::Connected, ClientState::Connecting);
    assert_ne!(ClientState::Disconnected, ClientState::Connecting);
}

#[test]
fn is_connected_only_when_connected() {
    assert!(ClientState::Connected.is_connected());
    assert!(!ClientState::Connecting.is_connected());
    assert!(!ClientState::Disconnected.is_connected());
}

#[test]
fn each_state_has_its_action() {
    assert_eq!(networking_action(ClientState::Connected), NetAction::Exchange);
    assert_eq!(networking_action(ClientState::Disconnected), NetAction::Reconnect);
    assert_eq!(networking_action(ClientState::Connecting), NetAction::AwaitLink);
}

#[test]
fn connection_lifecycle() {
    let s = ClientState::Disconnected;
    assert_eq!(networking_step(s, NetEvent::Reconnected { ok: false }), ClientState::Disconnected);
    let s = networking_step(s, NetEvent::Reconnected { ok: true });
    assert_eq!(s, ClientState::Connecting);
    assert_eq!(
        networking_step(s, NetEvent::Waited { timed_out: false, link_up: false }),
        ClientState::Connecting
    );
    assert_eq!(
        networking_step(s, NetEvent::Waited { timed_out: true, link_up: true }),
        ClientState::Disconnected
    );
    let s = networking_step(s, NetEvent::Waited { timed_out: false, link_up: true });
    assert_eq!(s, ClientState::Connected);
    assert_eq!(networking_step(s, NetEvent::Exchanged), ClientState::Connected);
    assert_eq!(
        networking_step(s, NetEvent::Waited { timed_out: true, link_up: false }),
        ClientState::Connected
    );
}
