//! The directory service: the records that are published to it, the channels
//! they go out on, and the interface through which they are handed over.

use crate::error::RelayError;
use crate::json::{
    bool_value, json_entries, json_text, json_view, json_views, list_value, new_object, number_value,
    object_insert, object_value, text_value, value_text, JsonView,
};
use crate::room::pairs_view;
use vstd::prelude::*;

verus! {

/// The channel on which a server announces itself.
pub const REGISTER_SERVER: &'static str = "server_register";

/// The channel on which a server takes its leave.
pub const UNREGISTER_SERVER: &'static str = "server_unregister";

/// The channel on which a room is announced.
pub const REGISTER_ROOM: &'static str = "room_register";

/// The channel on which a room is withdrawn.
pub const UNREGISTER_ROOM: &'static str = "room_unregister";

/// What a server record is, as plain values.
pub struct ServerRecordView {
    pub host: Seq<char>,
    pub port: i32,
    pub server_id: i64,
    pub token: Seq<u8>,
    pub api_port: i32,
}

/// How a relay server is found from outside.
#[derive(Debug)]
pub struct ServerRecord {
    pub host: String,
    pub port: i32,
    pub server_id: i64,
    pub token: Vec<u8>,
    pub api_port: i32,
}

impl View for ServerRecord {
    type V = ServerRecordView;

    open spec fn view(&self) -> ServerRecordView {
        ServerRecordView {
            host: self.host@,
            port: self.port,
            server_id: self.server_id,
            token: self.token@,
            api_port: self.api_port,
        }
    }
}

impl ServerRecord {
    /// A copy of the record.
    pub fn duplicate(&self) -> (copy: Self)
        ensures
            copy@ == self@,
    {
        ServerRecord {
            host: self.host.clone(),
            port: self.port,
            server_id: self.server_id,
            token: self.token.clone(),
            api_port: self.api_port,
        }
    }
}

/// What a room record is, as plain values.
pub struct RoomRecordView {
    pub room_id: u16,
    pub require_password: bool,
    pub max_user: u16,
    pub connected_user: u16,
    pub server: Option<ServerRecordView>,
    pub application_name: Seq<char>,
    pub version: Seq<char>,
    pub information: Seq<(Seq<char>, Seq<char>)>,
}

/// What the directory is told of a room.
#[derive(Debug)]
pub struct RoomRecord {
    pub room_id: u16,
    pub require_password: bool,
    pub max_user: u16,
    pub connected_user: u16,
    pub server: Option<ServerRecord>,
    pub application_name: String,
    pub version: String,
    pub information: Vec<(String, String)>,
}

impl View for RoomRecord {
    type V = RoomRecordView;

    open spec fn view(&self) -> RoomRecordView {
        RoomRecordView {
            room_id: self.room_id,
            require_password: self.require_password,
            max_user: self.max_user,
            connected_user: self.connected_user,
            server: match self.server {
                Some(s) => Some(s@),
                None => None,
            },
            application_name: self.application_name@,
            version: self.version@,
            information: pairs_view(self.information@),
        }
    }
}

/// A copy of a list of text pairs.
pub fn duplicate_pairs(pairs: &Vec<(String, String)>) -> (copy: Vec<(String, String)>)
    ensures
        pairs_view(copy@) == pairs_view(pairs@),
{
    let mut copy: Vec<(String, String)> = Vec::new();
    let mut i: usize = 0;
    while i < pairs.len()
        invariant
            i <= pairs.len(),
            copy@.len() == i,
            forall|k: int| 0 <= k < i ==> copy@[k].0@ == pairs@[k].0@ && copy@[k].1@ == pairs@[k].1@,
        decreases pairs.len() - i,
    {
        copy.push((pairs[i].0.clone(), pairs[i].1.clone()));
        i += 1;
    }
    assert(pairs_view(copy@) =~= pairs_view(pairs@));
    copy
}

/// What a publication is, as plain values.
pub enum PublicationView {
    RegisterServer(ServerRecordView),
    UnregisterServer(ServerRecordView),
    RegisterRoom(RoomRecordView),
    UnregisterRoom(RoomRecordView),
}

/// One thing to tell the directory.
#[derive(Debug)]
pub enum Publication {
    /// The server is up, or still up.
    RegisterServer(ServerRecord),
    /// The server goes away.
    UnregisterServer(ServerRecord),
    /// A room is open, or has changed.
    RegisterRoom(RoomRecord),
    /// A room is gone.
    UnregisterRoom(RoomRecord),
}

impl View for Publication {
    type V = PublicationView;

    open spec fn view(&self) -> PublicationView {
        match self {
            Publication::RegisterServer(s) => PublicationView::RegisterServer(s@),
            Publication::UnregisterServer(s) => PublicationView::UnregisterServer(s@),
            Publication::RegisterRoom(r) => PublicationView::RegisterRoom(r@),
            Publication::UnregisterRoom(r) => PublicationView::UnregisterRoom(r@),
        }
    }
}

/// A queue of publications as plain values.
pub open spec fn publications_view(queue: Seq<Publication>) -> Seq<PublicationView> {
    queue.map_values(|p: Publication| p@)
}

/// The directory service. Nothing is promised of what it answers: it may be
/// out of reach at any time.
pub trait Store {
    /// Asks the directory for an identifier that no other server has.
    fn generate_server_id(&self) -> Result<i64, RelayError>;

    /// Announces a server.
    fn register_server(&self, s: ServerRecord) -> Result<(), RelayError>;

    /// Withdraws a server.
    fn unregister_server(&self, s: ServerRecord) -> Result<(), RelayError>;

    /// Announces a room.
    fn register_room(&self, r: RoomRecord) -> Result<(), RelayError>;

    /// Withdraws a room.
    fn unregister_room(&self, r: RoomRecord) -> Result<(), RelayError>;
}

/// Asks the directory for a server identifier and makes the record under which
/// a server with that identifier is announced. The directory decides whether
/// an identifier is to be had; its refusal is handed on.
pub fn new_server_record<S: Store>(
    store: &S,
    host: String,
    port: i32,
    token: Vec<u8>,
    api_port: i32,
) -> (made: Result<ServerRecord, RelayError>)
    ensures
        made matches Ok(record) ==> record@ == (ServerRecordView {
            host: host@,
            port,
            server_id: record.server_id,
            token: token@,
            api_port,
        }),
{
    // Whether an identifier is to be had is for the directory to say; what
    // is made of its answer is the same for every directory.
    let answer = store.generate_server_id();
    record_from(answer, host, port, token, api_port)
}

/// The record under which a server with the identifier is announced.
pub fn record_for(server_id: i64, host: String, port: i32, token: Vec<u8>, api_port: i32) -> (record:
    ServerRecord)
    ensures
        record@ == (ServerRecordView { host: host@, port, server_id, token: token@, api_port }),
{
    ServerRecord { host, port, server_id, token, api_port }
}

/// Hands one publication to the directory, by the call that is made for its kind.
pub fn publish<S: Store>(store: &S, publication: Publication) -> (done: Result<(), RelayError>) {
    match publication {
        Publication::RegisterServer(s) => store.register_server(s),
        Publication::UnregisterServer(s) => store.unregister_server(s),
        Publication::RegisterRoom(r) => store.register_room(r),
        Publication::UnregisterRoom(r) => store.unregister_room(r),
    }
}

/// Hands every publication to the directory, oldest first, and returns what
/// the directory answered to each. A failure does not stop the rest from
/// going out.
pub fn publish_each<S: Store>(store: &S, publications: Vec<Publication>) -> (outcomes: Vec<
    Result<(), RelayError>,
>)
    ensures
        outcomes@.len() == publications@.len(),
{
    let mut waiting = publications;
    let total = waiting.len();
    let mut reversed: Vec<Publication> = Vec::new();
    while waiting.len() > 0
        invariant
            reversed@.len() + waiting@.len() == total,
        decreases waiting@.len(),
    {
        match waiting.pop() {
            Some(p) => reversed.push(p),
            None => {},
        }
    }
    let mut outcomes: Vec<Result<(), RelayError>> = Vec::new();
    while reversed.len() > 0
        invariant
            outcomes@.len() + reversed@.len() == total,
        decreases reversed@.len(),
    {
        match reversed.pop() {
            Some(p) => outcomes.push(publish(store, p)),
            None => {},
        }
    }
    outcomes
}

/// How many of the answers are failures.
pub open spec fn failures_among(outcomes: Seq<Result<(), RelayError>>) -> nat
    decreases outcomes.len(),
{
    if outcomes.len() == 0 {
        0
    } else {
        failures_among(outcomes.drop_last()) + if outcomes.last() is Err {
            1nat
        } else {
            0nat
        }
    }
}

/// Counts the failures among the directory's answers.
pub fn count_failures(outcomes: &Vec<Result<(), RelayError>>) -> (failures: usize)
    ensures
        failures == failures_among(outcomes@),
        failures <= outcomes@.len(),
{
    let mut failures: usize = 0;
    let mut i: usize = 0;
    while i < outcomes.len()
        invariant
            i <= outcomes.len(),
            failures == failures_among(outcomes@.take(i as int)),
            failures <= i,
        decreases outcomes.len() - i,
    {
        proof {
            assert(outcomes@.take(i + 1).drop_last() =~= outcomes@.take(i as int));
        }
        if outcomes[i].is_err() {
            failures += 1;
        }
        i += 1;
    }
    proof {
        assert(outcomes@.take(outcomes@.len() as int) =~= outcomes@);
    }
    failures
}

/// Hands every publication to the directory, oldest first. A failure does not
/// stop the rest from going out; the result counts the failures.
pub fn publish_all<S: Store>(store: &S, publications: Vec<Publication>) -> (failures: usize)
    ensures
        failures <= publications@.len(),
{
    let outcomes = publish_each(store, publications);
    count_failures(&outcomes)
}

/// What becomes of the directory's answer to the request for a server
/// identifier: an identifier gives the record under which the server is
/// announced, and a refusal is handed on as it came.
pub fn record_from(
    answer: Result<i64, RelayError>,
    host: String,
    port: i32,
    token: Vec<u8>,
    api_port: i32,
) -> (made: Result<ServerRecord, RelayError>)
    ensures
        match answer {
            Ok(server_id) => made matches Ok(record) && record@ == (ServerRecordView {
                host: host@,
                port,
                server_id,
                token: token@,
                api_port,
            }),
            Err(e) => made matches Err(handed_on) && handed_on == e,
        },
{
    match answer {
        Ok(server_id) => Ok(record_for(server_id, host, port, token, api_port)),
        Err(e) => Err(e),
    }
}

/// A byte string as JSON: the list of its bytes as numbers.
pub open spec fn bytes_json(bytes: Seq<u8>) -> JsonView {
    JsonView::List(bytes.map_values(|b: u8| JsonView::Number(b as int)))
}

/// The entries of the JSON object for a list of text pairs: each key holds the
/// text of the last pair that names it.
pub open spec fn pairs_entries(pairs: Seq<(Seq<char>, Seq<char>)>) -> Map<Seq<char>, JsonView>
    decreases pairs.len(),
{
    if pairs.len() == 0 {
        Map::empty()
    } else {
        pairs_entries(pairs.drop_last()).insert(pairs.last().0, JsonView::Text(pairs.last().1))
    }
}

/// A server record as JSON.
pub open spec fn server_json(server: ServerRecordView) -> JsonView {
    JsonView::Object(
        Map::<Seq<char>, JsonView>::empty().insert("host"@, JsonView::Text(server.host)).insert(
            "port"@,
            JsonView::Number(server.port as int),
        ).insert("server_id"@, JsonView::Number(server.server_id as int)).insert(
            "token"@,
            bytes_json(server.token),
        ).insert("api_port"@, JsonView::Number(server.api_port as int)),
    )
}

/// A room record as JSON, for a room that names its server.
pub open spec fn room_json(room: RoomRecordView) -> JsonView {
    JsonView::Object(
        Map::<Seq<char>, JsonView>::empty().insert(
            "room_id"@,
            JsonView::Number(room.room_id as int),
        ).insert("require_password"@, JsonView::Bool(room.require_password)).insert(
            "max_user"@,
            JsonView::Number(room.max_user as int),
        ).insert("connected_user"@, JsonView::Number(room.connected_user as int)).insert(
            "server"@,
            server_json(room.server.unwrap()),
        ).insert("application_name"@, JsonView::Text(room.application_name)).insert(
            "version"@,
            JsonView::Text(room.version),
        ).insert("information"@, JsonView::Object(pairs_entries(room.information))),
    )
}

/// The JSON value for a byte string.
pub(crate) fn bytes_value(bytes: &Vec<u8>) -> (value: serde_json::Value)
    ensures
        json_view(value) == bytes_json(bytes@),
{
    let mut items: Vec<serde_json::Value> = Vec::new();
    let mut i: usize = 0;
    while i < bytes.len()
        invariant
            i <= bytes.len(),
            items@.len() == i,
            forall|k: int|
                0 <= k < i ==> json_view(#[trigger] items@[k]) == JsonView::Number(bytes@[k] as int),
        decreases bytes.len() - i,
    {
        items.push(number_value(bytes[i] as i64));
        i += 1;
    }
    assert(json_views(items@) =~= bytes@.map_values(|b: u8| JsonView::Number(b as int)));
    list_value(items)
}

/// The JSON object for a list of text pairs.
pub(crate) fn pairs_value(pairs: &Vec<(String, String)>) -> (value: serde_json::Value)
    ensures
        json_view(value) == JsonView::Object(pairs_entries(pairs_view(pairs@))),
{
    let mut object = new_object();
    let mut i: usize = 0;
    let ghost all = pairs_view(pairs@);
    while i < pairs.len()
        invariant
            i <= pairs.len(),
            all == pairs_view(pairs@),
            json_entries(object) == pairs_entries(all.take(i as int)),
        decreases pairs.len() - i,
    {
        proof {
            assert(all.take(i + 1).drop_last() =~= all.take(i as int));
            assert(all.take(i + 1).last() == (pairs@[i as int].0@, pairs@[i as int].1@));
        }
        object_insert(&mut object, pairs[i].0.clone(), text_value(pairs[i].1.as_str()));
        i += 1;
    }
    proof {
        assert(all.take(pairs@.len() as int) =~= all);
    }
    object_value(object)
}

/// The JSON value for a server record.
pub(crate) fn server_value(server: &ServerRecord) -> (value: serde_json::Value)
    ensures
        json_view(value) == server_json(server@),
{
    let mut object = new_object();
    object_insert(&mut object, "host".to_owned(), text_value(server.host.as_str()));
    object_insert(&mut object, "port".to_owned(), number_value(server.port as i64));
    object_insert(&mut object, "server_id".to_owned(), number_value(server.server_id));
    object_insert(&mut object, "token".to_owned(), bytes_value(&server.token));
    object_insert(&mut object, "api_port".to_owned(), number_value(server.api_port as i64));
    object_value(object)
}

/// The JSON value for a room record. A record that names no server has none.
pub(crate) fn room_value(room: &RoomRecord) -> (value: Result<serde_json::Value, RelayError>)
    ensures
        match value {
            Ok(v) => room@.server is Some && json_view(v) == room_json(room@),
            Err(e) => e == RelayError::MissingServer && room@.server is None,
        },
{
    let server = match &room.server {
        Some(server) => server_value(server),
        None => {
            return Err(RelayError::MissingServer);
        },
    };
    let mut object = new_object();
    object_insert(&mut object, "room_id".to_owned(), number_value(room.room_id as i64));
    object_insert(&mut object, "require_password".to_owned(), bool_value(room.require_password));
    object_insert(&mut object, "max_user".to_owned(), number_value(room.max_user as i64));
    object_insert(
        &mut object,
        "connected_user".to_owned(),
        number_value(room.connected_user as i64),
    );
    object_insert(&mut object, "server".to_owned(), server);
    object_insert(
        &mut object,
        "application_name".to_owned(),
        text_value(room.application_name.as_str()),
    );
    object_insert(&mut object, "version".to_owned(), text_value(room.version.as_str()));
    object_insert(&mut object, "information".to_owned(), pairs_value(&room.information));
    Ok(object_value(object))
}

/// The text that is published for a server.
pub fn server_payload(server: &ServerRecord) -> (text: String)
    ensures
        text@ == json_text(server_json(server@)),
{
    let value = server_value(server);
    value_text(&value)
}

/// The text that is published for a room. A record that names no server
/// cannot be published.
pub fn room_payload(room: &RoomRecord) -> (text: Result<String, RelayError>)
    ensures
        match text {
            Ok(t) => room@.server is Some && t@ == json_text(room_json(room@)),
            Err(e) => e == RelayError::MissingServer && room@.server is None,
        },
{
    match room_value(room) {
        Ok(value) => Ok(value_text(&value)),
        Err(e) => Err(e),
    }
}

/// The channel on which a publication goes out.
pub open spec fn channel_view(publication: PublicationView) -> Seq<char> {
    match publication {
        PublicationView::RegisterServer(_) => REGISTER_SERVER@,
        PublicationView::UnregisterServer(_) => UNREGISTER_SERVER@,
        PublicationView::RegisterRoom(_) => REGISTER_ROOM@,
        PublicationView::UnregisterRoom(_) => UNREGISTER_ROOM@,
    }
}

/// The channel on which a publication goes out.
pub fn channel_of(publication: &Publication) -> (channel: &'static str)
    ensures
        channel@ == channel_view(publication@),
{
    match publication {
        Publication::RegisterServer(_) => REGISTER_SERVER,
        Publication::UnregisterServer(_) => UNREGISTER_SERVER,
        Publication::RegisterRoom(_) => REGISTER_ROOM,
        Publication::UnregisterRoom(_) => UNREGISTER_ROOM,
    }
}

/// The text that goes out for a publication.
pub fn payload_of(publication: &Publication) -> (text: Result<String, RelayError>)
    ensures
        match publication@ {
            PublicationView::RegisterServer(s) | PublicationView::UnregisterServer(s) => text
                matches Ok(t) && t@ == json_text(server_json(s)),
            PublicationView::RegisterRoom(r) | PublicationView::UnregisterRoom(r) => match text {
                Ok(t) => r.server is Some && t@ == json_text(room_json(r)),
                Err(e) => e == RelayError::MissingServer && r.server is None,
            },
        },
{
    match publication {
        Publication::RegisterServer(s) => Ok(server_payload(s)),
        Publication::UnregisterServer(s) => Ok(server_payload(s)),
        Publication::RegisterRoom(r) => room_payload(r),
        Publication::UnregisterRoom(r) => room_payload(r),
    }
}

} // verus!
