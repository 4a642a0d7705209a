use durakifa::dispatch::{handle_disconnect, handle_message, Reply};
use durakifa::lobby::Lobby;
use durakifa::protocol::{CreateRoom, JoinRoom, LobbyError, Name, Protocol, RegisterUser};

const U1: u64 = 11;
const U2: u64 = 22;

fn secret() -> String {
    "table-stakes".to_string()
}

fn register(name: &str) -> Protocol {
    Protocol::RegisterUser(RegisterUser::new(name.to_string()))
}

fn create(name: &str) -> Protocol {
    Protocol::CreateRoom(CreateRoom::new(name.to_string()))
}

#[test]
fn scenario_disconnecting_host_hands_the_room_over() {
    let mut lobby = Lobby::new();
    let secret = secret();
    handle_message(&mut lobby, &secret, U1, register("alice"));
    let room = match handle_message(&mut lobby, &secret, U1, create("Table1")) {
        Reply::Created { room, .. } => room,
        other => panic!("hosting failed: {:?}", other),
    };
    handle_message(&mut lobby, &secret, U2, register("bob"));
    let bob_player = match handle_message(
        &mut lobby,
        &secret,
        U2,
        Protocol::JoinRoom(JoinRoom::new(room)),
    ) {
        Reply::Joined { player } => player,
        other => panic!("joining failed: {:?}", other),
    };
    assert_eq!(handle_disconnect(&mut lobby, U1), Some(bob_player));
    assert_eq!(lobby.room_count(), 1);
    assert_eq!(lobby.member_count(room), Some(1));
    assert_eq!(lobby.owner_of(room), Some(bob_player));
    assert_eq!(lobby.get_user(U1), None);
}

#[test]
fn scenario_left_room_disappears_from_every_listing() {
    let mut lobby = Lobby::new();
    let secret = secret();
    handle_message(&mut lobby, &secret, U1, register("alice"));
    handle_message(&mut lobby, &secret, U1, create("Table1"));
    assert_eq!(
        handle_message(&mut lobby, &secret, U1, Protocol::LeaveRoom(durakifa::protocol::LeaveRoom::new())),
        Reply::Left { promoted: None }
    );
    assert_eq!(lobby.room_count(), 0);
    assert_eq!(lobby.room_entities(), Vec::<u64>::new());
    assert_eq!(lobby.find_room(&Name::new("Table1".to_string())), None);
}

#[test]
fn scenario_joining_a_tidied_room_reports_room_not_found() {
    let mut lobby = Lobby::new();
    let secret = secret();
    handle_message(&mut lobby, &secret, U1, register("alice"));
    handle_message(&mut lobby, &secret, U2, register("bob"));
    let room = match handle_message(&mut lobby, &secret, U2, create("Table1")) {
        Reply::Created { room, .. } => room,
        other => panic!("hosting failed: {:?}", other),
    };
    // The host leaves; the emptied room is tidied away.
    handle_message(&mut lobby, &secret, U2, Protocol::Leave(durakifa::protocol::Leave::new()));
    // A stale reference races in afterwards.
    assert_eq!(
        handle_message(&mut lobby, &secret, U1, Protocol::JoinRoom(JoinRoom::new(room))),
        Reply::Failed(LobbyError::RoomNotFound)
    );
    assert!(lobby.is_unassigned(U1));
}

#[test]
fn scenario_two_rooms_created_in_one_tick_stay_independent() {
    let mut lobby = Lobby::new();
    let secret = secret();
    handle_message(&mut lobby, &secret, U1, register("alice"));
    handle_message(&mut lobby, &secret, U2, register("bob"));
    let (p1, r1) = match handle_message(&mut lobby, &secret, U1, create("Table1")) {
        Reply::Created { player, room } => (player, room),
        other => panic!("hosting failed: {:?}", other),
    };
    let (p2, r2) = match handle_message(&mut lobby, &secret, U2, create("Table2")) {
        Reply::Created { player, room } => (player, room),
        other => panic!("hosting failed: {:?}", other),
    };
    assert_ne!(r1, r2);
    assert_ne!(p1, p2);
    assert_eq!(lobby.room_count(), 2);
    assert_eq!(lobby.owner_of(r1), Some(p1));
    assert_eq!(lobby.owner_of(r2), Some(p2));
    assert_eq!(lobby.member_count(r1), Some(1));
    assert_eq!(lobby.member_count(r2), Some(1));
}
