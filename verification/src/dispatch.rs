//! The per-tick dispatcher: one synchronous function per inbound event.
//!
//! The surrounding tick loop drains its queue of decoded client messages
//! in arrival order, hands each one here together with the lobby, and
//! forwards the returned reply to the transport layer; after the queue is
//! drained it runs the scope engine once over the resulting state.

use crate::lobby::Lobby;
use crate::protocol::{Authorize, LobbyError, Name, OwnUser, Protocol};
use vstd::prelude::*;

verus! {

/// What one inbound message came to: the state change's key facts for
/// the replication layer, or the error the dispatcher reports.
#[derive(Clone, Copy, Debug, PartialEq, Eq)]
pub enum Reply {
    /// The shared secret matched; accept the connection.
    Authorized,
    /// A user was created; `own` is the own-identity notice owed to the
    /// freshly registered connection.
    Registered { user: u64, own: OwnUser },
    /// A room was created with the sender seated as its owner.
    Created { player: u64, room: u64 },
    /// The sender was seated in the room it addressed.
    Joined { player: u64 },
    /// The sender left its room; `promoted` names the player entity that
    /// inherited the owner marker, if any.
    Left { promoted: Option<u64> },
    /// The operation was refused; nothing changed.
    Failed(LobbyError),
}

/// Check an authorization request against the server's shared secret.
pub fn authorize(secret: &String, msg: &Authorize) -> (r: Result<(), LobbyError>)
    ensures
        r is Ok <==> msg.key@ == secret@,
        r is Err ==> r == Err::<(), LobbyError>(LobbyError::AuthorizationRejected),
{
    if msg.key == *secret {
        Ok(())
    } else {
        Err(LobbyError::AuthorizationRejected)
    }
}

/// Apply one decoded client message to the lobby.
///
/// The lobby moves to exactly the transition the message asks for, and
/// the reply reports the created entities, the promoted owner, or the
/// error, as the message kind demands.
pub fn handle_message(lobby: &mut Lobby, secret: &String, user_key: u64, msg: Protocol) -> (r:
    Reply)
    requires
        old(lobby).wf(),
        old(lobby)@.next_entity <= u64::MAX - 2,
    ensures
        final(lobby).wf(),
        msg matches Protocol::Authorize(a) ==> final(lobby)@ == old(lobby)@ && ((r
            == Reply::Authorized) <==> a.key@ == secret@) && (a.key@ != secret@ ==> r
            == Reply::Failed(LobbyError::AuthorizationRejected)),
        msg matches Protocol::RegisterUser(m) ==> final(lobby)@ == old(lobby)@.register_t(
            user_key,
            m.name@,
        ) && ((r == Reply::Registered {
            user: old(lobby)@.next_entity,
            own: OwnUser { user: old(lobby)@.next_entity },
        }) <==> !old(lobby)@.registered(user_key)) && (old(lobby)@.registered(user_key) ==> r
            == Reply::Failed(LobbyError::AlreadyRegistered)),
        msg matches Protocol::CreateRoom(m) ==> final(lobby)@ == old(lobby)@.host_t(
            user_key,
            m.name@,
        ) && ((r == Reply::Created {
            player: (old(lobby)@.next_entity + 1) as u64,
            room: old(lobby)@.next_entity,
        }) <==> old(lobby)@.unassigned(user_key)) && (!old(lobby)@.unassigned(user_key) ==> r
            == Reply::Failed(LobbyError::NotRegistered)),
        msg matches Protocol::JoinRoom(m) ==> final(lobby)@ == old(lobby)@.join_t(
            user_key,
            m.room,
        ) && ((r == Reply::Joined { player: old(lobby)@.next_entity }) <==> old(
            lobby,
        )@.has_room_entity(m.room) && old(lobby)@.unassigned(user_key)) && ((r == Reply::Failed(
            LobbyError::RoomNotFound,
        )) <==> !old(lobby)@.has_room_entity(m.room) && m.room < old(lobby)@.next_entity) && ((r
            == Reply::Failed(LobbyError::InvalidReference)) <==> !old(lobby)@.has_room_entity(
            m.room,
        ) && m.room >= old(lobby)@.next_entity) && ((r == Reply::Failed(LobbyError::NotRegistered))
            <==> old(lobby)@.has_room_entity(m.room) && !old(lobby)@.unassigned(user_key)),
        msg is Leave || msg is LeaveRoom ==> final(lobby)@ == old(lobby)@.leave_t(user_key) && r
            == (Reply::Left { promoted: old(lobby)@.leave_successor(user_key) }),
{
    match msg {
        Protocol::Authorize(a) => {
            match authorize(secret, &a) {
                Ok(()) => Reply::Authorized,
                Err(e) => Reply::Failed(e),
            }
        },
        Protocol::RegisterUser(m) => {
            match lobby.register(user_key, Name::new(m.name)) {
                Ok(user) => Reply::Registered { user, own: OwnUser { user } },
                Err(e) => Reply::Failed(e),
            }
        },
        Protocol::CreateRoom(m) => {
            match lobby.spawn_room(user_key, Name::new(m.name)) {
                Ok((player, room)) => Reply::Created { player, room },
                Err(e) => Reply::Failed(e),
            }
        },
        Protocol::JoinRoom(m) => {
            match lobby.enter_room(user_key, m.room) {
                Ok(player) => Reply::Joined { player },
                Err(e) => Reply::Failed(e),
            }
        },
        Protocol::Leave(_) => Reply::Left { promoted: lobby.leave_room(user_key) },
        Protocol::LeaveRoom(_) => Reply::Left { promoted: lobby.leave_room(user_key) },
    }
}

/// Apply a transport-level disconnect: tear the user down completely and
/// hand back the promoted owner, if the departure caused one.  Processing
/// the same disconnect twice is harmless.
pub fn handle_disconnect(lobby: &mut Lobby, user_key: u64) -> (r: Option<u64>)
    requires
        old(lobby).wf(),
    ensures
        final(lobby).wf(),
        final(lobby)@ == old(lobby)@.clear_t(user_key),
        r == old(lobby)@.leave_successor(user_key),
        !final(lobby)@.registered(user_key),
        !final(lobby)@.in_room(user_key),
{
    lobby.clear_user(user_key)
}

} // verus!
