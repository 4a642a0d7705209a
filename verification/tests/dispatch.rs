use durakifa::dispatch::{authorize, handle_disconnect, handle_message, Reply};
use durakifa::lobby::Lobby;
use durakifa::protocol::{
    Authorize, CreateRoom, JoinRoom, Leave, LeaveRoom, LobbyError, OwnUser, Protocol, RegisterUser,
};

fn secret() -> String {
    "table-stakes".to_string()
}

#[test]
fn authorize_accepts_the_shared_secret_only() {
    assert_eq!(authorize(&secret(), &Authorize::new(secret())), Ok(()));
    assert_eq!(
        authorize(&secret(), &Authorize::new("guess".to_string())),
        Err(LobbyError::AuthorizationRejected)
    );
}

#[test]
fn authorize_message_does_not_touch_the_lobby() {
    let mut lobby = Lobby::new();
    let secret = secret();
    assert_eq!(
        handle_message(&mut lobby, &secret, 7, Protocol::Authorize(Authorize::new(secret.clone()))),
        Reply::Authorized
    );
    assert_eq!(
        handle_message(
            &mut lobby,
            &secret,
            7,
            Protocol::Authorize(Authorize::new("guess".to_string()))
        ),
        Reply::Failed(LobbyError::AuthorizationRejected)
    );
    assert_eq!(lobby.room_count(), 0);
    assert_eq!(lobby.get_user(7), None);
}

#[test]
fn register_message_returns_the_own_identity_notice() {
    let mut lobby = Lobby::new();
    let secret = secret();
    let reply = handle_message(
        &mut lobby,
        &secret,
        7,
        Protocol::RegisterUser(RegisterUser::new("alice".to_string())),
    );
    assert_eq!(
        reply,
        Reply::Registered { user: 0, own: OwnUser::new(0) }
    );
    assert_eq!(
        handle_message(
            &mut lobby,
            &secret,
            7,
            Protocol::RegisterUser(RegisterUser::new("alice".to_string()))
        ),
        Reply::Failed(LobbyError::AlreadyRegistered)
    );
}

#[test]
fn create_room_message_requires_registration() {
    let mut lobby = Lobby::new();
    let secret = secret();
    assert_eq!(
        handle_message(
            &mut lobby,
            &secret,
            7,
            Protocol::CreateRoom(CreateRoom::new("Table1".to_string()))
        ),
        Reply::Failed(LobbyError::NotRegistered)
    );
    handle_message(&mut lobby, &secret, 7, Protocol::RegisterUser(RegisterUser::new("alice".to_string())));
    assert_eq!(
        handle_message(
            &mut lobby,
            &secret,
            7,
            Protocol::CreateRoom(CreateRoom::new("Table1".to_string()))
        ),
        Reply::Created { player: 2, room: 1 }
    );
}

#[test]
fn join_message_seats_the_sender() {
    let mut lobby = Lobby::new();
    let secret = secret();
    handle_message(&mut lobby, &secret, 7, Protocol::RegisterUser(RegisterUser::new("alice".to_string())));
    handle_message(&mut lobby, &secret, 8, Protocol::RegisterUser(RegisterUser::new("bob".to_string())));
    let room = match handle_message(
        &mut lobby,
        &secret,
        7,
        Protocol::CreateRoom(CreateRoom::new("Table1".to_string())),
    ) {
        Reply::Created { room, .. } => room,
        other => panic!("hosting failed: {:?}", other),
    };
    assert_eq!(
        handle_message(&mut lobby, &secret, 8, Protocol::JoinRoom(JoinRoom::new(room))),
        Reply::Joined { player: 4 }
    );
    assert_eq!(
        handle_message(&mut lobby, &secret, 8, Protocol::JoinRoom(JoinRoom::new(999))),
        Reply::Failed(LobbyError::InvalidReference)
    );
}

#[test]
fn both_leave_message_forms_unseat_the_sender() {
    let mut lobby = Lobby::new();
    let secret = secret();
    handle_message(&mut lobby, &secret, 7, Protocol::RegisterUser(RegisterUser::new("alice".to_string())));
    handle_message(&mut lobby, &secret, 7, Protocol::CreateRoom(CreateRoom::new("Table1".to_string())));
    assert_eq!(
        handle_message(&mut lobby, &secret, 7, Protocol::Leave(Leave::new())),
        Reply::Left { promoted: None }
    );
    assert_eq!(lobby.room_count(), 0);
    handle_message(&mut lobby, &secret, 7, Protocol::CreateRoom(CreateRoom::new("Table2".to_string())));
    assert_eq!(
        handle_message(&mut lobby, &secret, 7, Protocol::LeaveRoom(LeaveRoom::new())),
        Reply::Left { promoted: None }
    );
    assert_eq!(lobby.room_count(), 0);
}

#[test]
fn disconnect_event_is_idempotent_through_the_dispatcher() {
    let mut lobby = Lobby::new();
    let secret = secret();
    handle_message(&mut lobby, &secret, 7, Protocol::RegisterUser(RegisterUser::new("alice".to_string())));
    assert_eq!(handle_disconnect(&mut lobby, 7), None);
    assert_eq!(handle_disconnect(&mut lobby, 7), None);
    assert_eq!(lobby.get_user(7), None);
}
