use iguagile_engine::error::RelayError;
use iguagile_engine::store::{
    channel_of, count_failures, duplicate_pairs, new_server_record, payload_of, publish,
    publish_all, publish_each, record_for, record_from, room_payload, server_payload,
    Publication, RoomRecord, ServerRecord, Store, REGISTER_ROOM, REGISTER_SERVER,
    UNREGISTER_ROOM, UNREGISTER_SERVER,
};
use std::cell::RefCell;

fn server() -> ServerRecord {
    ServerRecord {
        host: "relay.example".to_string(),
        port: 4000,
        server_id: 7,
        token: vec![1, 2, 255],
        api_port: 8080,
    }
}

fn room(with_server: bool) -> RoomRecord {
    RoomRecord {
        room_id: 9,
        require_password: true,
        max_user: 4,
        connected_user: 1,
        server: if with_server { Some(server()) } else { None },
        application_name: "app".to_string(),
        version: "1.0".to_string(),
        information: vec![
            ("mode".to_string(), "duel".to_string()),
            ("map".to_string(), "ice \"cave\"".to_string()),
            ("mode".to_string(), "team".to_string()),
        ],
    }
}

struct Recorder {
    calls: RefCell<Vec<String>>,
    fail_rooms: bool,
}

impl Recorder {
    fn new(fail_rooms: bool) -> Self {
        Recorder { calls: RefCell::new(Vec::new()), fail_rooms }
    }
}

impl Store for Recorder {
    fn generate_server_id(&self) -> Result<i64, RelayError> {
        Ok(1)
    }

    fn register_server(&self, s: ServerRecord) -> Result<(), RelayError> {
        self.calls.borrow_mut().push(format!("{} {}", REGISTER_SERVER, s.server_id));
        Ok(())
    }

    fn unregister_server(&self, s: ServerRecord) -> Result<(), RelayError> {
        self.calls.borrow_mut().push(format!("{} {}", UNREGISTER_SERVER, s.server_id));
        Ok(())
    }

    fn register_room(&self, r: RoomRecord) -> Result<(), RelayError> {
        self.calls.borrow_mut().push(format!("{} {}", REGISTER_ROOM, r.room_id));
        if self.fail_rooms {
            Err(RelayError::BackendUnavailable)
        } else {
            Ok(())
        }
    }

    fn unregister_room(&self, r: RoomRecord) -> Result<(), RelayError> {
        self.calls.borrow_mut().push(format!("{} {}", UNREGISTER_ROOM, r.room_id));
        if self.fail_rooms {
            Err(RelayError::BackendUnavailable)
        } else {
            Ok(())
        }
    }
}

#[test]
fn channel_names() {
    assert_eq!(REGISTER_SERVER, "server_register");
    assert_eq!(UNREGISTER_SERVER, "server_unregister");
    assert_eq!(REGISTER_ROOM, "room_register");
    assert_eq!(UNREGISTER_ROOM, "room_unregister");
    assert_eq!(channel_of(&Publication::RegisterServer(server())), "server_register");
    assert_eq!(channel_of(&Publication::UnregisterServer(server())), "server_unregister");
    assert_eq!(channel_of(&Publication::RegisterRoom(room(true))), "room_register");
    assert_eq!(channel_of(&Publication::UnregisterRoom(room(true))), "room_unregister");
}

#[test]
fn server_payload_text() {
    assert_eq!(
        server_payload(&server()),
        "{\"api_port\":8080,\"host\":\"relay.example\",\"port\":4000,\"server_id\":7,\"token\":[1,2,255]}"
    );
}

#[test]
fn server_payload_escapes_and_signs() {
    let s = ServerRecord {
        host: "a\"b\\c\n".to_string(),
        port: -1,
        server_id: i64::MIN,
        token: Vec::new(),
        api_port: 0,
    };
    assert_eq!(
        server_payload(&s),
        "{\"api_port\":0,\"host\":\"a\\\"b\\\\c\\n\",\"port\":-1,\"server_id\":-9223372036854775808,\"token\":[]}"
    );
}

#[test]
fn room_payload_text() {
    assert_eq!(
        room_payload(&room(true)).unwrap(),
        "{\"application_name\":\"app\",\"connected_user\":1,\"information\":{\"map\":\"ice \\\"cave\\\"\",\"mode\":\"team\"},\"max_user\":4,\"require_password\":true,\"room_id\":9,\"server\":{\"api_port\":8080,\"host\":\"relay.example\",\"port\":4000,\"server_id\":7,\"token\":[1,2,255]},\"version\":\"1.0\"}"
    );
}

#[test]
fn room_payload_matches_serde_json_parse() {
    let text = room_payload(&room(true)).unwrap();
    let parsed: serde_json::Value = serde_json::from_str(&text).unwrap();
    assert_eq!(parsed["room_id"], serde_json::Value::from(9));
    assert_eq!(parsed["require_password"], serde_json::Value::from(true));
    assert_eq!(parsed["server"]["host"], serde_json::Value::from("relay.example"));
    assert_eq!(parsed["server"]["token"][2], serde_json::Value::from(255));
    assert_eq!(parsed["information"]["mode"], serde_json::Value::from("team"));
    assert_eq!(parsed.as_object().unwrap().len(), 8);
}

#[test]
fn room_without_server_cannot_be_published() {
    assert_eq!(room_payload(&room(false)), Err(RelayError::MissingServer));
    assert_eq!(
        payload_of(&Publication::RegisterRoom(room(false))),
        Err(RelayError::MissingServer)
    );
    assert_eq!(
        payload_of(&Publication::UnregisterRoom(room(false))),
        Err(RelayError::MissingServer)
    );
}

#[test]
fn payload_of_each_kind() {
    let s = server_payload(&server());
    let r = room_payload(&room(true)).unwrap();
    assert_eq!(payload_of(&Publication::RegisterServer(server())), Ok(s.clone()));
    assert_eq!(payload_of(&Publication::UnregisterServer(server())), Ok(s));
    assert_eq!(payload_of(&Publication::RegisterRoom(room(true))), Ok(r.clone()));
    assert_eq!(payload_of(&Publication::UnregisterRoom(room(true))), Ok(r));
}

#[test]
fn publish_calls_the_method_of_its_kind() {
    let store = Recorder::new(false);
    assert_eq!(publish(&store, Publication::RegisterServer(server())), Ok(()));
    assert_eq!(publish(&store, Publication::RegisterRoom(room(true))), Ok(()));
    assert_eq!(publish(&store, Publication::UnregisterRoom(room(true))), Ok(()));
    assert_eq!(publish(&store, Publication::UnregisterServer(server())), Ok(()));
    assert_eq!(
        *store.calls.borrow(),
        vec!["server_register 7", "room_register 9", "room_unregister 9", "server_unregister 7"]
    );
}

#[test]
fn publish_all_goes_on_after_failures() {
    let store = Recorder::new(true);
    let failures = publish_all(
        &store,
        vec![
            Publication::RegisterRoom(room(true)),
            Publication::RegisterServer(server()),
            Publication::UnregisterRoom(room(true)),
        ],
    );
    assert_eq!(failures, 2);
    assert_eq!(
        *store.calls.borrow(),
        vec!["room_register 9", "server_register 7", "room_unregister 9"]
    );
    assert_eq!(publish_all(&store, Vec::new()), 0);
}

#[test]
fn duplicate_records() {
    let copy = server().duplicate();
    assert_eq!(copy.host, "relay.example");
    assert_eq!(copy.token, vec![1, 2, 255]);
    assert_eq!((copy.port, copy.server_id, copy.api_port), (4000, 7, 8080));
    let pairs = vec![("a".to_string(), "b".to_string())];
    assert_eq!(duplicate_pairs(&pairs), pairs);
}

#[test]
fn publish_each_keeps_the_answers_in_order() {
    let store = Recorder::new(true);
    let outcomes = publish_each(
        &store,
        vec![
            Publication::RegisterServer(server()),
            Publication::RegisterRoom(room(true)),
            Publication::UnregisterServer(server()),
        ],
    );
    assert_eq!(outcomes, vec![Ok(()), Err(RelayError::BackendUnavailable), Ok(())]);
    assert_eq!(count_failures(&outcomes), 1);
    assert_eq!(count_failures(&Vec::new()), 0);
    assert_eq!(count_failures(&vec![Err(RelayError::BackendUnavailable); 3]), 3);
}

#[test]
fn new_server_record_takes_the_id_from_the_directory() {
    let store = Recorder::new(false);
    let record = new_server_record(&store, "h".to_string(), 1, vec![7], 2).unwrap();
    assert_eq!(record.server_id, 1);
    assert_eq!(record.host, "h");
    assert_eq!((record.port, record.api_port), (1, 2));
    assert_eq!(record.token, vec![7]);
    let made = record_for(-3, "x".to_string(), 4, Vec::new(), 5);
    assert_eq!((made.server_id, made.port, made.api_port), (-3, 4, 5));
    assert_eq!(made.host, "x");
}

#[test]
fn record_from_follows_the_directory_answer() {
    let made = record_from(Ok(12), "h".to_string(), 1, vec![7, 8], 2).unwrap();
    assert_eq!(made.server_id, 12);
    assert_eq!(made.host, "h");
    assert_eq!((made.port, made.api_port), (1, 2));
    assert_eq!(made.token, vec![7, 8]);
    let refused = record_from(Err(RelayError::BackendUnavailable), "h".to_string(), 1, vec![7], 2);
    assert_eq!(refused.err(), Some(RelayError::BackendUnavailable));
    let other = record_from(Err(RelayError::ResourceExhausted), String::new(), 0, Vec::new(), 0);
    assert_eq!(other.err(), Some(RelayError::ResourceExhausted));
}
