use durakifa::lobby::Lobby;
use durakifa::protocol::Name;

fn name(s: &str) -> Name {
    Name::new(s.to_string())
}

fn sorted(mut v: Vec<u64>) -> Vec<u64> {
    v.sort();
    v
}

#[test]
fn unregistered_connections_see_nothing() {
    let mut lobby = Lobby::new();
    lobby.register(7, name("alice")).unwrap();
    assert_eq!(lobby.compute_scope(99), Vec::<u64>::new());
}

#[test]
fn unassigned_users_see_the_lobby_room() {
    let mut lobby = Lobby::new();
    let alice = lobby.register(7, name("alice")).unwrap();
    let bob = lobby.register(8, name("bob")).unwrap();
    let carol = lobby.register(9, name("carol")).unwrap();
    let (_, room) = lobby.spawn_room(7, name("Table1")).unwrap();
    // Bob, unassigned, sees the unassigned users (himself and Carol) and
    // the room listing, but not Alice's user entity: she is seated.
    let scope = sorted(lobby.compute_scope(8));
    assert_eq!(scope, sorted(vec![bob, carol, room]));
    assert!(!scope.contains(&alice));
}

#[test]
fn seated_users_see_their_room_and_its_players() {
    let mut lobby = Lobby::new();
    let alice = lobby.register(7, name("alice")).unwrap();
    let bob = lobby.register(8, name("bob")).unwrap();
    lobby.register(9, name("carol")).unwrap();
    let (alice_player, room) = lobby.spawn_room(7, name("Table1")).unwrap();
    let bob_player = lobby.enter_room(8, room).unwrap();
    // Alice sees the room, both player entities, and both users' own
    // entities through the player back-references; Carol stays invisible.
    let scope = sorted(lobby.compute_scope(7));
    assert_eq!(scope, sorted(vec![room, alice_player, bob_player, alice, bob]));
    // Bob, seated in the same room, sees the same contents.
    assert_eq!(sorted(lobby.compute_scope(8)), scope);
}

#[test]
fn scope_follows_membership_changes() {
    let mut lobby = Lobby::new();
    let alice = lobby.register(7, name("alice")).unwrap();
    let bob = lobby.register(8, name("bob")).unwrap();
    let (_, room) = lobby.spawn_room(7, name("Table1")).unwrap();
    let bob_player = lobby.enter_room(8, room).unwrap();
    lobby.leave_room(7);
    // Alice is back in the lobby: she sees herself and the room that
    // lives on under Bob.
    assert_eq!(sorted(lobby.compute_scope(7)), sorted(vec![alice, room]));
    // Bob now owns a one-member room.
    assert_eq!(
        sorted(lobby.compute_scope(8)),
        sorted(vec![room, bob_player, bob])
    );
}
