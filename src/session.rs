//! The client's view of its connection, and the server's credential check.
use vstd::prelude::*;
use vstd::string::StringSliceAdditionalSpecFns;

verus! {

#[derive(Clone, Copy, Debug, PartialEq, Eq, Structural)]
pub enum ClientState {
    Connected,
    Disconnected,
    Connecting,
}

impl ClientState {
    pub fn is_connected(&self) -> (r: bool)
        ensures
            r == (*self == ClientState::Connected),
    {
        matches!(self, ClientState::Connected)
    }
}

/// What the client does in one frame of its connection loop.
#[derive(Clone, Copy, Debug, PartialEq, Eq, Structural)]
pub enum NetAction {
    /// Send the pending input and read the reply.
    Exchange,
    /// Try to re-establish the connection.
    Reconnect,
    /// Advance the connection timer and look at the link.
    AwaitLink,
}

/// What came of the frame's action.
#[derive(Clone, Copy, Debug, PartialEq, Eq, Structural)]
pub enum NetEvent {
    /// The exchange was made, or failed and was reported.
    Exchanged,
    /// The reconnection attempt ended, well or not.
    Reconnected { ok: bool },
    /// The connection timer was advanced: whether it has run out, and
    /// whether the link is up.
    Waited { timed_out: bool, link_up: bool },
}

/// The action for `state`: exchange while connected, try to reconnect while
/// disconnected, wait while connecting.
pub fn networking_action(state: ClientState) -> (r: NetAction)
    ensures
        state == ClientState::Connected ==> r == NetAction::Exchange,
        state == ClientState::Disconnected ==> r == NetAction::Reconnect,
        state == ClientState::Connecting ==> r == NetAction::AwaitLink,
{
    match state {
        ClientState::Connected => NetAction::Exchange,
        ClientState::Disconnected => NetAction::Reconnect,
        ClientState::Connecting => NetAction::AwaitLink,
    }
}

/// The state after `event`: a successful reconnection starts connecting; a
/// timer that ran out while connecting drops the connection, else a link
/// that is up completes it. Anything else leaves the state as it was.
pub fn networking_step(state: ClientState, event: NetEvent) -> (r: ClientState)
    ensures
        r == match (state, event) {
            (ClientState::Disconnected, NetEvent::Reconnected { ok: true }) => ClientState::Connecting,
            (ClientState::Connecting, NetEvent::Waited { timed_out: true, link_up: _ }) => ClientState::Disconnected,
            (ClientState::Connecting, NetEvent::Waited { timed_out: false, link_up: true }) => ClientState::Connected,
            _ => state,
        },
{
    match state {
        ClientState::Disconnected => match event {
            NetEvent::Reconnected { ok } => {
                if ok {
                    ClientState::Connecting
                } else {
                    state
                }
            },
            _ => state,
        },
        ClientState::Connecting => match event {
            NetEvent::Waited { timed_out, link_up } => {
                if timed_out {
                    ClientState::Disconnected
                } else if link_up {
                    ClientState::Connected
                } else {
                    state
                }
            },
            _ => state,
        },
        ClientState::Connected => state,
    }
}

fn same_bytes(a: &[u8], b: &[u8]) -> (r: bool)
    ensures
        r == (a@ == b@),
{
    if a.len() != b.len() {
        return false;
    }
    let mut i: usize = 0;
    while i < a.len()
        invariant
            a@.len() == b@.len(),
            i <= a@.len(),
            forall|j: int| 0 <= j < i ==> a@[j] == b@[j],
        decreases a@.len() - i,
    {
        if a[i] != b[i] {
            return false;
        }
        i = i + 1;
    }
    proof {
        assert(a@ =~= b@);
    }
    true
}

fn same_text(a: &str, b: &str) -> (r: bool)
    ensures
        r == (a@ == b@),
{
    let r = same_bytes(a.as_bytes(), b.as_bytes());
    proof {
        vstd::utf8::encode_utf8_decode_utf8(a@);
        vstd::utf8::encode_utf8_decode_utf8(b@);
    }
    r
}

/// Accepts the one known account: user `player1` with password
/// `securepassword`.
pub fn authenticate(username: &str, password: &str) -> (r: bool)
    ensures
        r == (username@ == "player1"@ && password@ == "securepassword"@),
{
    same_text(username, "player1") && same_text(password, "securepassword")
}

} // verus!
