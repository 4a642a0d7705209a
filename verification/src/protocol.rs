//! The protocol vocabulary: the components attached to replicated entities
//! and the messages exchanged with clients.
//!
//! Entities are identified by plain `u64` ids handed out by the lobby; the
//! transport layer maps them onto its own handles when it replicates them.

use vstd::prelude::*;

verus! {

/// Display-name component, attached to user and room entities.
#[derive(Clone, Debug, PartialEq, Eq)]
pub struct Name {
    pub name: String,
}

impl View for Name {
    type V = Seq<char>;

    open spec fn view(&self) -> Seq<char> {
        self.name@
    }
}

impl Name {
    pub fn new(name: String) -> (r: Self)
        ensures
            r@ == name@,
    {
        Name { name }
    }
}

/// Marker component of a registered user's own entity.
#[derive(Clone, Copy, Debug, PartialEq, Eq, Structural)]
pub struct User;

impl User {
    pub fn new() -> (r: Self)
        ensures
            r == (User {}),
    {
        User {}
    }
}

/// Marker component of a room's display entity.
#[derive(Clone, Copy, Debug, PartialEq, Eq, Structural)]
pub struct Room;

impl Room {
    pub fn new() -> (r: Self)
        ensures
            r == (Room {}),
    {
        Room {}
    }
}

/// Marker attached to the one player entity that hosts a room.
#[derive(Clone, Copy, Debug, PartialEq, Eq, Structural)]
pub struct Owner;

impl Owner {
    pub fn new() -> (r: Self)
        ensures
            r == (Owner {}),
    {
        Owner {}
    }
}

/// Component of a player entity: the occupancy of one room by one user,
/// carrying a weak back-reference to the owning user's entity.
#[derive(Clone, Copy, Debug, PartialEq, Eq, Structural)]
pub struct Player {
    pub user: u64,
}

impl Player {
    pub fn new(user: u64) -> (r: Self)
        ensures
            r == (Player { user }),
    {
        Player { user }
    }
}

/// Client request to authenticate the connection with the shared secret.
#[derive(Clone, Debug, PartialEq, Eq)]
pub struct Authorize {
    pub key: String,
}

impl Authorize {
    pub fn new(key: String) -> (r: Self)
        ensures
            r.key@ == key@,
    {
        Authorize { key }
    }
}

/// Client request to register under a display name.
#[derive(Clone, Debug, PartialEq, Eq)]
pub struct RegisterUser {
    pub name: String,
}

impl RegisterUser {
    pub fn new(name: String) -> (r: Self)
        ensures
            r.name@ == name@,
    {
        RegisterUser { name }
    }
}

/// Client request to host a new room under a display name.
#[derive(Clone, Debug, PartialEq, Eq)]
pub struct CreateRoom {
    pub name: String,
}

impl CreateRoom {
    pub fn new(name: String) -> (r: Self)
        ensures
            r.name@ == name@,
    {
        CreateRoom { name }
    }
}

/// Client request to join the room whose display entity is `room`.
#[derive(Clone, Copy, Debug, PartialEq, Eq, Structural)]
pub struct JoinRoom {
    pub room: u64,
}

impl JoinRoom {
    pub fn new(room: u64) -> (r: Self)
        ensures
            r == (JoinRoom { room }),
    {
        JoinRoom { room }
    }
}

/// Client request to leave the current room (compact form).
#[derive(Clone, Copy, Debug, PartialEq, Eq, Structural)]
pub struct Leave;

impl Leave {
    pub fn new() -> (r: Self)
        ensures
            r == (Leave {}),
    {
        Leave {}
    }
}

/// Client request to leave the current room.
#[derive(Clone, Copy, Debug, PartialEq, Eq, Structural)]
pub struct LeaveRoom;

impl LeaveRoom {
    pub fn new() -> (r: Self)
        ensures
            r == (LeaveRoom {}),
    {
        LeaveRoom {}
    }
}

/// Server notice telling a freshly registered client which replicated
/// entity is its own user.
#[derive(Clone, Copy, Debug, PartialEq, Eq, Structural)]
pub struct OwnUser {
    pub user: u64,
}

impl OwnUser {
    pub fn new(user: u64) -> (r: Self)
        ensures
            r == (OwnUser { user }),
    {
        OwnUser { user }
    }
}

/// A decoded client message, as handed to the dispatcher.
#[derive(Clone, Debug, PartialEq, Eq)]
pub enum Protocol {
    Authorize(Authorize),
    RegisterUser(RegisterUser),
    CreateRoom(CreateRoom),
    JoinRoom(JoinRoom),
    Leave(Leave),
    LeaveRoom(LeaveRoom),
}

/// Why a lobby operation was refused.
#[derive(Clone, Copy, Debug, PartialEq, Eq, Structural)]
pub enum LobbyError {
    /// The connection already has a registered user.
    AlreadyRegistered,
    /// The connection has no registered, unassigned user.
    NotRegistered,
    /// The referenced room existed at most in the past and is gone.
    RoomNotFound,
    /// The reference cannot have been issued by this lobby.
    InvalidReference,
    /// The shared secret did not match.
    AuthorizationRejected,
}

} // verus!
