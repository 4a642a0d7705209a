use durakifa::protocol::{
    Authorize, CreateRoom, JoinRoom, Leave, LeaveRoom, Name, Owner, OwnUser, Player, RegisterUser,
    Room, User,
};

#[test]
fn components_carry_their_fields() {
    let name = Name::new("alice".to_string());
    assert_eq!(name.name, "alice");
    let player = Player::new(17);
    assert_eq!(player.user, 17);
    assert_eq!(User::new(), User);
    assert_eq!(Room::new(), Room);
    assert_eq!(Owner::new(), Owner);
}

#[test]
fn messages_carry_their_fields() {
    assert_eq!(Authorize::new("k".to_string()).key, "k");
    assert_eq!(RegisterUser::new("alice".to_string()).name, "alice");
    assert_eq!(CreateRoom::new("Table1".to_string()).name, "Table1");
    assert_eq!(JoinRoom::new(5).room, 5);
    assert_eq!(OwnUser::new(3).user, 3);
    assert_eq!(Leave::new(), Leave);
    assert_eq!(LeaveRoom::new(), LeaveRoom);
}
