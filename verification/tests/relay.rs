use iguagile_engine::error::{Reach, RelayError};
use iguagile_engine::relay::RelayService;
use iguagile_engine::room::{Room, RoomConfig, RoomState};

fn room() -> Room {
    Room::new(RoomConfig::new(
        3,
        "app".to_string(),
        "1".to_string(),
        String::new(),
        2,
        Vec::new(),
        Vec::new(),
    ))
}

#[test]
fn relay_service_owns_its_room() {
    let service = RelayService::new(room());
    assert_eq!(service.room().config().room_id(), 3);
    assert_eq!(service.room().state(), RoomState::Forming);
    let back = service.into_room();
    assert_eq!(back.config().max_user(), 2);
}

#[test]
fn relay_service_hooks_are_not_offered() {
    let service = RelayService::new(room());
    assert_eq!(service.receive_func("main".to_string()), Err(RelayError::Unsupported));
    assert_eq!(service.on_register_client(1), Err(RelayError::Unsupported));
    assert_eq!(service.on_unregister_client(1), Err(RelayError::Unsupported));
    assert_eq!(service.on_change_host(1), Err(RelayError::Unsupported));
    assert_eq!(service.destroy(), Err(RelayError::Unsupported));
}

#[test]
fn only_socket_failure_is_fatal() {
    assert!(RelayError::SocketFatal.is_fatal());
    assert!(!RelayError::ProtocolError.is_fatal());
    assert!(!RelayError::BackendUnavailable.is_fatal());
    assert!(!RelayError::RoomFull.is_fatal());
}

#[test]
fn failures_reach_as_far_as_their_kind() {
    assert_eq!(RelayError::SocketFatal.reach(), Reach::Process);
    assert_eq!(RelayError::ProtocolError.reach(), Reach::Session);
    assert_eq!(RelayError::BackendUnavailable.reach(), Reach::Logged);
    for e in [
        RelayError::ResourceExhausted,
        RelayError::RoomFull,
        RelayError::DuplicateClient,
        RelayError::UnknownClient,
        RelayError::AuthFailed,
        RelayError::VersionMismatch,
        RelayError::Empty,
        RelayError::RoomClosed,
        RelayError::UnknownRoom,
        RelayError::MissingServer,
    ] {
        assert_eq!(e.reach(), Reach::Caller);
    }
}
