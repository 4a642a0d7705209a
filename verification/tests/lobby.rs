use durakifa::lobby::Lobby;
use durakifa::protocol::{LobbyError, Name};

fn name(s: &str) -> Name {
    Name::new(s.to_string())
}

#[test]
fn register_assigns_fresh_entities() {
    let mut lobby = Lobby::new();
    assert_eq!(lobby.register(7, name("alice")), Ok(0));
    assert_eq!(lobby.register(8, name("bob")), Ok(1));
    assert_eq!(lobby.get_user(7), Some(0));
    assert_eq!(lobby.get_user(8), Some(1));
    assert!(lobby.is_unassigned(7));
    assert!(lobby.is_unassigned(8));
}

#[test]
fn register_twice_is_rejected_without_side_effect() {
    let mut lobby = Lobby::new();
    assert_eq!(lobby.register(7, name("alice")), Ok(0));
    assert_eq!(
        lobby.register(7, name("alice again")),
        Err(LobbyError::AlreadyRegistered)
    );
    assert_eq!(lobby.get_user(7), Some(0));
}

#[test]
fn host_creates_room_with_owner() {
    let mut lobby = Lobby::new();
    lobby.register(7, name("alice")).unwrap();
    let (player, room) = lobby.spawn_room(7, name("Table1")).unwrap();
    assert_eq!((player, room), (2, 1));
    assert_eq!(lobby.room_count(), 1);
    assert_eq!(lobby.member_count(room), Some(1));
    assert_eq!(lobby.owner_of(room), Some(player));
    assert!(!lobby.is_unassigned(7));
}

#[test]
fn host_requires_an_unassigned_user() {
    let mut lobby = Lobby::new();
    assert_eq!(
        lobby.spawn_room(7, name("Table1")),
        Err(LobbyError::NotRegistered)
    );
    lobby.register(7, name("alice")).unwrap();
    lobby.spawn_room(7, name("Table1")).unwrap();
    assert_eq!(
        lobby.spawn_room(7, name("Table2")),
        Err(LobbyError::NotRegistered)
    );
    assert_eq!(lobby.room_count(), 1);
}

#[test]
fn join_seats_a_second_member_and_keeps_the_owner() {
    let mut lobby = Lobby::new();
    lobby.register(7, name("alice")).unwrap();
    lobby.register(8, name("bob")).unwrap();
    let (host_player, room) = lobby.spawn_room(7, name("Table1")).unwrap();
    let joiner = lobby.enter_room(8, room).unwrap();
    assert_eq!(joiner, 4);
    assert_eq!(lobby.member_count(room), Some(2));
    assert_eq!(lobby.owner_of(room), Some(host_player));
}

#[test]
fn join_rejects_unregistered_and_seated_users() {
    let mut lobby = Lobby::new();
    lobby.register(7, name("alice")).unwrap();
    let (_, room) = lobby.spawn_room(7, name("Table1")).unwrap();
    assert_eq!(lobby.enter_room(9, room), Err(LobbyError::NotRegistered));
    assert_eq!(lobby.enter_room(7, room), Err(LobbyError::NotRegistered));
}

#[test]
fn join_distinguishes_stale_and_forged_references() {
    let mut lobby = Lobby::new();
    lobby.register(7, name("alice")).unwrap();
    // A reference below the allocation counter could once have been issued.
    assert_eq!(lobby.enter_room(7, 0), Err(LobbyError::RoomNotFound));
    // A reference at or above the counter was never issued.
    assert_eq!(lobby.enter_room(7, 999), Err(LobbyError::InvalidReference));
    assert!(lobby.is_unassigned(7));
}

#[test]
fn leave_by_sole_member_tidies_the_room_away() {
    let mut lobby = Lobby::new();
    lobby.register(7, name("alice")).unwrap();
    let (_, room) = lobby.spawn_room(7, name("Table1")).unwrap();
    assert_eq!(lobby.leave_room(7), None);
    assert_eq!(lobby.room_count(), 0);
    assert_eq!(lobby.owner_of(room), None);
    assert!(lobby.is_unassigned(7));
}

#[test]
fn leave_without_a_room_is_a_silent_no_op() {
    let mut lobby = Lobby::new();
    lobby.register(7, name("alice")).unwrap();
    assert_eq!(lobby.leave_room(7), None);
    assert_eq!(lobby.leave_room(99), None);
    assert!(lobby.is_unassigned(7));
}

#[test]
fn owner_departure_promotes_the_earliest_seated_member() {
    let mut lobby = Lobby::new();
    lobby.register(7, name("alice")).unwrap();
    lobby.register(8, name("bob")).unwrap();
    lobby.register(9, name("carol")).unwrap();
    let (_, room) = lobby.spawn_room(7, name("Table1")).unwrap();
    let bob_player = lobby.enter_room(8, room).unwrap();
    let carol_player = lobby.enter_room(9, room).unwrap();
    assert_eq!(lobby.leave_room(7), Some(bob_player));
    assert_eq!(lobby.owner_of(room), Some(bob_player));
    assert_eq!(lobby.member_count(room), Some(2));
    assert_ne!(bob_player, carol_player);
}

#[test]
fn non_owner_departure_promotes_nobody() {
    let mut lobby = Lobby::new();
    lobby.register(7, name("alice")).unwrap();
    lobby.register(8, name("bob")).unwrap();
    let (host_player, room) = lobby.spawn_room(7, name("Table1")).unwrap();
    lobby.enter_room(8, room).unwrap();
    assert_eq!(lobby.leave_room(8), None);
    assert_eq!(lobby.owner_of(room), Some(host_player));
    assert_eq!(lobby.member_count(room), Some(1));
}

#[test]
fn disconnect_removes_the_user_entirely() {
    let mut lobby = Lobby::new();
    lobby.register(7, name("alice")).unwrap();
    assert_eq!(lobby.clear_user(7), None);
    assert_eq!(lobby.get_user(7), None);
    assert!(!lobby.is_unassigned(7));
}

#[test]
fn disconnect_twice_equals_disconnect_once() {
    let mut lobby = Lobby::new();
    lobby.register(7, name("alice")).unwrap();
    lobby.register(8, name("bob")).unwrap();
    let (_, room) = lobby.spawn_room(7, name("Table1")).unwrap();
    let bob_player = lobby.enter_room(8, room).unwrap();
    assert_eq!(lobby.clear_user(7), Some(bob_player));
    let rooms_after_one = lobby.room_entities();
    assert_eq!(lobby.clear_user(7), None);
    assert_eq!(lobby.room_entities(), rooms_after_one);
    assert_eq!(lobby.get_user(7), None);
    assert_eq!(lobby.owner_of(room), Some(bob_player));
    assert_eq!(lobby.member_count(room), Some(1));
}

#[test]
fn find_room_lists_rooms_by_name() {
    let mut lobby = Lobby::new();
    lobby.register(7, name("alice")).unwrap();
    lobby.register(8, name("bob")).unwrap();
    let (_, room_a) = lobby.spawn_room(7, name("Table1")).unwrap();
    let (_, room_b) = lobby.spawn_room(8, name("Table2")).unwrap();
    assert_eq!(lobby.find_room(&name("Table1")), Some(room_a));
    assert_eq!(lobby.find_room(&name("Table2")), Some(room_b));
    assert_eq!(lobby.find_room(&name("Table3")), None);
    assert_eq!(lobby.room_entities(), vec![room_a, room_b]);
}

#[test]
fn allocator_margin_is_visible() {
    let lobby = Lobby::new();
    assert!(lobby.can_allocate());
}
