use iguagile_engine::client::{Client, ClientSession};
use iguagile_engine::error::RelayError;
use iguagile_engine::room::{JoinRequest, RelayTarget, Room, RoomConfig, RoomState};

fn config(max_user: u16) -> RoomConfig {
    RoomConfig::new(
        1,
        "app".to_string(),
        "1.0".to_string(),
        String::new(),
        max_user,
        vec![("mode".to_string(), "duel".to_string())],
        Vec::new(),
    )
}

fn request() -> JoinRequest {
    JoinRequest {
        room_id: 1,
        application_name: "app".to_string(),
        version: "1.0".to_string(),
        password: String::new(),
        token: None,
        info: Vec::new(),
    }
}

fn session(id: u16, at: u64) -> ClientSession {
    ClientSession::new(id, vec![id as u8], at)
}

fn room_of(ids: &[u16]) -> Room {
    let mut room = Room::new(config(16));
    for id in ids {
        room.join(session(*id, 0), &request()).unwrap();
    }
    room
}

#[test]
fn new_room_is_forming() {
    let room = Room::new(config(4));
    assert_eq!(room.state(), RoomState::Forming);
    assert_eq!(room.host(), None);
    assert!(!room.is_ready());
    assert!(!room.creator_connected());
    assert_eq!(room.count(), 0);
    assert_eq!(room.free_id_count(), 65536);
    assert_eq!(room.config().room_id(), 1);
    assert_eq!(room.config().max_user(), 4);
    assert!(!room.config().requires_password());
}

#[test]
fn first_join_assigns_host_and_activates() {
    let mut room = Room::new(config(4));
    assert_eq!(room.join(session(5, 0), &request()), Ok(()));
    assert_eq!(room.state(), RoomState::Active);
    assert_eq!(room.host(), Some(5));
    assert!(room.is_ready());
    assert!(room.creator_connected());
    assert_eq!(room.join(session(2, 0), &request()), Ok(()));
    assert_eq!(room.host(), Some(5));
    assert_eq!(room.count(), 2);
    assert_eq!(room.member_ids(), vec![2, 5]);
}

#[test]
fn join_then_leave_restores_count_and_pool() {
    let mut room = room_of(&[3, 7]);
    let count = room.count();
    let free = room.free_id_count();
    assert_eq!(free, 65534);
    room.join(session(9, 0), &request()).unwrap();
    assert_eq!(room.count(), count + 1);
    assert_eq!(room.free_id_count(), free - 1);
    room.leave(9).unwrap();
    assert_eq!(room.count(), count);
    assert_eq!(room.free_id_count(), free);
}

#[test]
fn third_join_fails_room_full() {
    let mut room = Room::new(config(2));
    assert_eq!(room.join(session(1, 0), &request()), Ok(()));
    assert_eq!(room.join(session(2, 0), &request()), Ok(()));
    assert_eq!(room.join(session(3, 0), &request()), Err(RelayError::RoomFull));
    assert_eq!(room.count(), 2);
    assert!(!room.has_member(3));
    assert_eq!(room.free_id_count(), 65534);
}

#[test]
fn host_migrates_to_lowest_id_then_room_drains() {
    let mut room = room_of(&[3, 7, 9]);
    assert_eq!(room.host(), Some(3));
    assert_eq!(room.leave(3), Ok(()));
    assert_eq!(room.host(), Some(7));
    assert_eq!(room.state(), RoomState::Active);
    assert!(room.is_ready());
    assert!(!room.creator_connected());
    assert_eq!(room.leave(7), Ok(()));
    assert_eq!(room.host(), Some(9));
    assert_eq!(room.leave(9), Ok(()));
    assert_eq!(room.host(), None);
    assert_eq!(room.state(), RoomState::Draining);
    assert!(!room.is_ready());
    assert_eq!(room.free_id_count(), 65536);
}

#[test]
fn leaving_non_host_keeps_host() {
    let mut room = room_of(&[7, 3, 9]);
    assert_eq!(room.host(), Some(7));
    room.leave(3).unwrap();
    assert_eq!(room.host(), Some(7));
    room.leave(7).unwrap();
    assert_eq!(room.host(), Some(9));
}

#[test]
fn join_refuses_duplicate_client() {
    let mut room = room_of(&[4]);
    assert_eq!(room.join(session(4, 5), &request()), Err(RelayError::DuplicateClient));
    assert_eq!(room.count(), 1);
    assert_eq!(room.session(4).unwrap().last_activity(), 0);
}

#[test]
fn leave_of_stranger_is_unknown_client() {
    let mut room = room_of(&[4]);
    assert_eq!(room.leave(5), Err(RelayError::UnknownClient));
    assert_eq!(room.count(), 1);
    assert_eq!(room.host(), Some(4));
}

#[test]
fn join_checks_version_password_and_token() {
    let secured = RoomConfig::new(
        2,
        "app".to_string(),
        "1.0".to_string(),
        "hash".to_string(),
        4,
        Vec::new(),
        vec![1, 2, 3],
    );
    assert!(secured.requires_password());
    let mut room = Room::new(secured);
    let mut wrong_version = request();
    wrong_version.version = "1.1".to_string();
    assert_eq!(room.join(session(1, 0), &wrong_version), Err(RelayError::VersionMismatch));
    let mut wrong_app = request();
    wrong_app.application_name = "other".to_string();
    assert_eq!(room.join(session(1, 0), &wrong_app), Err(RelayError::VersionMismatch));
    assert_eq!(room.join(session(1, 0), &request()), Err(RelayError::AuthFailed));
    let mut no_token = request();
    no_token.password = "hash".to_string();
    assert_eq!(room.join(session(1, 0), &no_token), Err(RelayError::AuthFailed));
    let mut wrong_token = request();
    wrong_token.password = "hash".to_string();
    wrong_token.token = Some(vec![1, 2]);
    assert_eq!(room.check_request(&wrong_token), Some(RelayError::AuthFailed));
    let mut good = request();
    good.password = "hash".to_string();
    good.token = Some(vec![1, 2, 3]);
    assert_eq!(room.check_request(&good), None);
    assert_eq!(room.state(), RoomState::Forming);
    assert_eq!(room.join(session(1, 0), &good), Ok(()));
    assert_eq!(room.host(), Some(1));
}

#[test]
fn room_full_is_reported_before_duplicate_and_auth() {
    let mut room = Room::new(config(1));
    room.join(session(1, 0), &request()).unwrap();
    let mut bad = request();
    bad.version = "0".to_string();
    assert_eq!(room.join(session(1, 0), &bad), Err(RelayError::RoomFull));
    let mut empty = Room::new(config(0));
    assert_eq!(empty.join(session(1, 0), &request()), Err(RelayError::RoomFull));
}

#[test]
fn enroll_draws_id_from_pool() {
    let mut room = Room::new(config(3));
    let a = room.enroll(vec![0xa], 10, &request()).unwrap();
    let b = room.enroll(vec![0xb], 11, &request()).unwrap();
    assert_ne!(a, b);
    assert_eq!(room.host(), Some(a));
    assert_eq!(room.count(), 2);
    assert_eq!(room.free_id_count(), 65534);
    assert_eq!(room.session(b).unwrap().connection_id(), &vec![0xbu8]);
    assert_eq!(room.session(b).unwrap().last_activity(), 11);
    assert_eq!(room.session(b).unwrap().get_id(), b);
    room.enroll(vec![0xc], 12, &request()).unwrap();
    assert_eq!(room.enroll(vec![0xd], 13, &request()), Err(RelayError::RoomFull));
    let mut bad = request();
    bad.version = "2".to_string();
    room.leave(b).unwrap();
    assert_eq!(room.enroll(vec![0xd], 13, &bad), Err(RelayError::VersionMismatch));
    assert_eq!(room.count(), 2);
}

#[test]
fn broadcast_reaches_the_other_two_in_call_order() {
    let mut room = room_of(&[3, 7, 9]);
    assert_eq!(room.relay(7, b"one", RelayTarget::Broadcast), Ok(vec![3, 9]));
    assert_eq!(room.relay(3, b"two", RelayTarget::Broadcast), Ok(vec![7, 9]));
    assert_eq!(room.pending(), 4);
    let queued = room.drain_outbox();
    let seen: Vec<(u16, u16, Vec<u8>)> =
        queued.iter().map(|d| (d.from, d.to, d.payload.clone())).collect();
    assert_eq!(
        seen,
        vec![
            (7, 3, b"one".to_vec()),
            (7, 9, b"one".to_vec()),
            (3, 7, b"two".to_vec()),
            (3, 9, b"two".to_vec()),
        ]
    );
    assert_eq!(room.pending(), 0);
    assert!(room.drain_outbox().is_empty());
}

#[test]
fn relay_to_one_member() {
    let mut room = room_of(&[3, 7, 9]);
    assert_eq!(room.relay(3, b"x", RelayTarget::Client(9)), Ok(vec![9]));
    assert_eq!(room.relay(3, b"y", RelayTarget::Client(3)), Ok(vec![3]));
    assert_eq!(room.relay(3, b"z", RelayTarget::Client(4)), Err(RelayError::UnknownClient));
    assert_eq!(room.relay(4, b"z", RelayTarget::Client(3)), Err(RelayError::UnknownClient));
    assert_eq!(room.relay(4, b"z", RelayTarget::Broadcast), Err(RelayError::UnknownClient));
    let queued = room.drain_outbox();
    assert_eq!(queued.len(), 2);
    assert_eq!((queued[0].from, queued[0].to, queued[0].payload.as_slice()), (3, 9, &b"x"[..]));
    assert_eq!((queued[1].from, queued[1].to, queued[1].payload.as_slice()), (3, 3, &b"y"[..]));
}

#[test]
fn broadcast_in_room_of_one_reaches_nobody() {
    let mut room = room_of(&[3]);
    assert_eq!(room.relay(3, b"x", RelayTarget::Broadcast), Ok(Vec::new()));
    assert_eq!(room.recipients(3, RelayTarget::Broadcast), Ok(Vec::new()));
    assert_eq!(room.pending(), 0);
}

#[test]
fn tick_makes_idle_members_leave() {
    let mut room = Room::new(config(8));
    room.join(session(3, 100), &request()).unwrap();
    room.join(session(7, 4000), &request()).unwrap();
    room.join(session(9, 200), &request()).unwrap();
    assert_eq!(room.tick(5100, 5000, 1000), Vec::<u16>::new());
    assert_eq!(room.tick(5101, 5000, 1000), vec![3]);
    assert_eq!(room.host(), Some(7));
    assert_eq!(room.count(), 2);
    assert_eq!(room.touch(9, 5150), Ok(()));
    assert_eq!(room.touch(3, 5150), Err(RelayError::UnknownClient));
    assert_eq!(room.tick(5201, 5000, 1000), Vec::<u16>::new());
    assert_eq!(room.tick(9500, 5000, 1000), vec![7]);
    assert_eq!(room.host(), Some(9));
    assert_eq!(room.state(), RoomState::Active);
    assert_eq!(room.free_id_count(), 65535);
}

#[test]
fn tick_drains_and_closes_empty_room() {
    let mut room = Room::new(config(8));
    room.join(session(3, 0), &request()).unwrap();
    room.join(session(4, 0), &request()).unwrap();
    assert_eq!(room.tick(6000, 5000, 1000), vec![3, 4]);
    assert_eq!(room.state(), RoomState::Draining);
    assert_eq!(room.host(), None);
    assert!(!room.is_ready());
    room.tick(6999, 5000, 1000);
    assert_eq!(room.state(), RoomState::Draining);
    room.tick(7000, 5000, 1000);
    assert_eq!(room.state(), RoomState::Closed);
    assert_eq!(room.free_id_count(), 65536);
    assert_eq!(room.join(session(5, 0), &request()), Err(RelayError::RoomClosed));
    assert_eq!(room.enroll(vec![1], 0, &request()), Err(RelayError::RoomClosed));
    room.tick(9000, 5000, 1000);
    assert_eq!(room.state(), RoomState::Closed);
}

#[test]
fn drain_clock_starts_at_first_tick_after_last_leave() {
    let mut room = room_of(&[3]);
    room.leave(3).unwrap();
    assert_eq!(room.state(), RoomState::Draining);
    room.tick(500, 5000, 1000);
    assert_eq!(room.state(), RoomState::Draining);
    room.tick(1499, 5000, 1000);
    assert_eq!(room.state(), RoomState::Draining);
    room.tick(1500, 5000, 1000);
    assert_eq!(room.state(), RoomState::Closed);
}

#[test]
fn rejoin_while_draining_reactivates() {
    let mut room = room_of(&[3]);
    room.leave(3).unwrap();
    room.tick(500, 5000, 1000);
    assert_eq!(room.join(session(8, 600), &request()), Ok(()));
    assert_eq!(room.state(), RoomState::Active);
    assert_eq!(room.host(), Some(8));
    assert!(!room.creator_connected());
    room.tick(5000, 5000, 1000);
    assert_eq!(room.state(), RoomState::Active);
    room.leave(8).unwrap();
    room.tick(5001, 5000, 1000);
    assert_eq!(room.state(), RoomState::Draining);
    room.tick(6000, 5000, 1000);
    assert_eq!(room.state(), RoomState::Draining);
    room.tick(6001, 5000, 1000);
    assert_eq!(room.state(), RoomState::Closed);
}

#[test]
fn close_releases_everything() {
    let mut room = room_of(&[3, 7]);
    room.relay(3, b"x", RelayTarget::Broadcast).unwrap();
    room.close();
    assert_eq!(room.state(), RoomState::Closed);
    assert_eq!(room.count(), 0);
    assert_eq!(room.host(), None);
    assert_eq!(room.free_id_count(), 65536);
    assert_eq!(room.pending(), 1);
    assert_eq!(room.leave(3), Err(RelayError::UnknownClient));
}
