//! The engine: the table of open rooms, the table that routes a connection to
//! its room and member, and the periodic maintenance of both.

use crate::client::{bytes_equal, SessionView};
use crate::error::RelayError;
use crate::id::IdPool;
use crate::room::{
    addressed, enroll_verdict, forming, joined, pairs_view, relay_refused, room_invariant, ticked,
    departed, shut, touched, JoinRequest, JoinRequestView, RelayTarget, Room, RoomConfig,
    RoomConfigView, RoomState, RoomView,
};
use crate::store::{
    duplicate_pairs, publications_view, publish_all, Publication, PublicationView, RoomRecord,
    RoomRecordView, ServerRecord, ServerRecordView, Store,
};
use crate::table::{lists_rising, IdTable};
use vstd::prelude::*;

verus! {

/// How long a session may stay silent before maintenance makes it leave, in
/// milliseconds.
pub const SESSION_IDLE_TIMEOUT: u64 = 5000;

/// How long an empty room is kept for someone to come back, in milliseconds.
pub const ROOM_DRAIN_GRACE: u64 = 5000;

/// The largest datagram that the transport sends or takes, in bytes.
pub const MAX_DATAGRAM_SIZE: usize = 1350;

/// What a route is, as plain values.
pub struct RouteView {
    pub connection_id: Seq<u8>,
    pub room_id: u16,
    pub client_id: u16,
}

/// Where the datagrams of a connection go: to one member of one room.
#[derive(Debug)]
pub struct Route {
    pub connection_id: Vec<u8>,
    pub room_id: u16,
    pub client_id: u16,
}

impl View for Route {
    type V = RouteView;

    open spec fn view(&self) -> RouteView {
        RouteView {
            connection_id: self.connection_id@,
            room_id: self.room_id,
            client_id: self.client_id,
        }
    }
}

/// A routing table as plain values.
pub open spec fn routes_view(routes: Seq<Route>) -> Seq<RouteView> {
    routes.map_values(|r: Route| r@)
}

/// The rooms of a table as plain values.
pub open spec fn rooms_view(rooms: Map<u16, Room>) -> Map<u16, RoomView> {
    rooms.map_values(|r: Room| r@)
}

/// The state of an engine, as plain values.
#[verifier::ext_equal]
pub struct EngineView {
    pub server_id: i64,
    /// How this server is announced.
    pub server: ServerRecordView,
    /// The open rooms, by room identifier.
    pub rooms: Map<u16, RoomView>,
    /// The room identifiers that the engine's pool can still hand out.
    pub free_room_ids: Set<u16>,
    /// The live connections, in the order in which they were made.
    pub routes: Seq<RouteView>,
    /// What is waiting to be told to the directory, oldest first.
    pub publications: Seq<PublicationView>,
    pub room_update_interval: u64,
    pub server_update_interval: u64,
    /// When the rooms were last maintained.
    pub last_room_update: u64,
    /// When the server last announced itself.
    pub last_server_update: u64,
}

/// What the directory is told of a room of this server.
pub open spec fn room_record(server: ServerRecordView, room: RoomView) -> RoomRecordView {
    RoomRecordView {
        room_id: room.config.room_id,
        require_password: room.config.password.len() > 0,
        max_user: room.config.max_user,
        connected_user: room.members.dom().len() as u16,
        server: Some(server),
        application_name: room.config.application_name,
        version: room.config.version,
        information: room.config.info,
    }
}

/// Whether the route leads to a member that exists and that sits on the
/// route's connection.
pub open spec fn route_alive(rooms: Map<u16, RoomView>, route: RouteView) -> bool {
    &&& rooms.dom().contains(route.room_id)
    &&& rooms[route.room_id].members.dom().contains(route.client_id)
    &&& rooms[route.room_id].members[route.client_id].connection_id == route.connection_id
}

/// Whether the table has a route for the connection.
pub open spec fn has_route(routes: Seq<RouteView>, connection_id: Seq<u8>) -> bool {
    exists|i: int| 0 <= i < routes.len() && (#[trigger] routes[i]).connection_id == connection_id
}

/// The place of the connection's route in the table.
pub open spec fn route_index(routes: Seq<RouteView>, connection_id: Seq<u8>) -> int {
    choose|i: int| 0 <= i < routes.len() && (#[trigger] routes[i]).connection_id == connection_id
}

/// The route of the connection.
pub open spec fn route_for(routes: Seq<RouteView>, connection_id: Seq<u8>) -> RouteView {
    routes[route_index(routes, connection_id)]
}

/// Whether no two routes are for one connection.
pub open spec fn routes_distinct(routes: Seq<RouteView>) -> bool {
    forall|i: int, j: int|
        0 <= i < j < routes.len() ==> (#[trigger] routes[i]).connection_id
            != (#[trigger] routes[j]).connection_id
}

/// What holds of every engine between two operations.
pub open spec fn engine_invariant(v: EngineView) -> bool {
    &&& v.rooms.dom().disjoint(v.free_room_ids)
    &&& forall|id: u16|
        v.rooms.dom().contains(id) ==> {
            &&& room_invariant(#[trigger] v.rooms[id])
            &&& v.rooms[id].config.room_id == id
            &&& v.rooms[id].outbox.len() == 0
            &&& v.rooms[id].state != RoomState::Closed
        }
    &&& routes_distinct(v.routes)
    &&& forall|i: int| 0 <= i < v.routes.len() ==> route_alive(v.rooms, #[trigger] v.routes[i])
}

/// In a table without doubles a route is found where it stands.
pub proof fn lemma_route_index(routes: Seq<RouteView>, i: int)
    requires
        routes_distinct(routes),
        0 <= i < routes.len(),
    ensures
        has_route(routes, routes[i].connection_id),
        route_index(routes, routes[i].connection_id) == i,
{
    let p = route_index(routes, routes[i].connection_id);
    assert(routes[p].connection_id == routes[i].connection_id);
    if p < i {
        assert(routes[p].connection_id != routes[i].connection_id);
    } else if i < p {
        assert(routes[i].connection_id != routes[p].connection_id);
    }
}

/// The settings of a room that is made for a request.
pub open spec fn config_for(room_id: u16, request: JoinRequestView, max_user: u16) -> RoomConfigView {
    RoomConfigView {
        room_id,
        application_name: request.application_name,
        version: request.version,
        password: request.password,
        max_user,
        info: request.info,
        token: match request.token {
            Some(t) => t,
            None => Seq::<u8>::empty(),
        },
    }
}

/// The engine after a room was opened under `room_id` for a request: the room
/// is forming, its identifier has left the pool, and the room is announced.
pub open spec fn room_created(
    v: EngineView,
    room_id: u16,
    request: JoinRequestView,
    max_user: u16,
) -> EngineView {
    let room = forming(config_for(room_id, request, max_user));
    EngineView {
        rooms: v.rooms.insert(room_id, room),
        free_room_ids: v.free_room_ids.remove(room_id),
        publications: v.publications.push(
            PublicationView::RegisterRoom(room_record(v.server, room)),
        ),
        ..v
    }
}

/// Why the engine refuses to connect a client with this request, if it does.
pub open spec fn connect_verdict(
    v: EngineView,
    connection_id: Seq<u8>,
    request: JoinRequestView,
) -> Option<RelayError> {
    if has_route(v.routes, connection_id) {
        Some(RelayError::DuplicateClient)
    } else if !v.rooms.dom().contains(request.room_id) {
        Some(RelayError::UnknownRoom)
    } else {
        enroll_verdict(v.rooms[request.room_id], request)
    }
}

/// The relay server: it owns the rooms and knows which connection belongs to
/// which member.
pub struct Engine<S: Store, P: IdPool> {
    server_id: i64,
    rooms: IdTable<Room>,
    store: S,
    id_pool: P,
    server_proto: ServerRecord,
    room_update_duration: u64,
    server_update_duration: u64,
    routes: Vec<Route>,
    publications: Vec<Publication>,
    last_room_update: u64,
    last_server_update: u64,
}

impl<S: Store, P: IdPool> View for Engine<S, P> {
    type V = EngineView;

    closed spec fn view(&self) -> EngineView {
        EngineView {
            server_id: self.server_id,
            server: self.server_proto@,
            rooms: rooms_view(self.rooms.map()),
            free_room_ids: self.id_pool.available(),
            routes: routes_view(self.routes@),
            publications: publications_view(self.publications@),
            room_update_interval: self.room_update_duration,
            server_update_interval: self.server_update_duration,
            last_room_update: self.last_room_update,
            last_server_update: self.last_server_update,
        }
    }
}

impl<S: Store, P: IdPool> Engine<S, P> {
    /// The internal invariant: it holds of every engine that this module hands out.
    pub closed spec fn wf(&self) -> bool {
        &&& self.rooms.wf()
        &&& forall|id: u16|
            self.rooms.map().dom().contains(id) ==> (#[trigger] self.rooms.map()[id]).wf()
        &&& engine_invariant(self@)
    }

    /// Between two operations an engine keeps its promises: the identifier of
    /// an open room is not free in the pool; every open room is in order, is
    /// filed under its own identifier and is not closed; no two routes are for
    /// one connection; and every route leads to a member that sits on the
    /// route's connection.
    pub proof fn lemma_engine_promises(&self)
        requires
            self.wf(),
        ensures
            engine_invariant(self@),
    {
    }

    /// An engine without rooms and without connections. The pool hands out
    /// the identifiers of the rooms; the intervals are in milliseconds.
    pub fn new(
        server_id: i64,
        store: S,
        id_pool: P,
        server_proto: ServerRecord,
        room_update_duration: u64,
        server_update_duration: u64,
    ) -> (engine: Self)
        ensures
            engine.wf(),
            engine@ == (EngineView {
                server_id,
                server: server_proto@,
                rooms: Map::<u16, RoomView>::empty(),
                free_room_ids: id_pool.available(),
                routes: Seq::<RouteView>::empty(),
                publications: Seq::<PublicationView>::empty(),
                room_update_interval: room_update_duration,
                server_update_interval: server_update_duration,
                last_room_update: 0,
                last_server_update: 0,
            }),
    {
        let engine = Engine {
            server_id,
            rooms: IdTable::new(),
            store,
            id_pool,
            server_proto,
            room_update_duration,
            server_update_duration,
            routes: Vec::new(),
            publications: Vec::new(),
            last_room_update: 0,
            last_server_update: 0,
        };
        engine
    }

    /// Where the connection's route stands in the table.
    fn find_route(&self, connection_id: &[u8]) -> (found: Option<usize>)
        ensures
            match found {
                Some(i) => i < self.routes.len() && self@.routes[i as int].connection_id
                    == connection_id@,
                None => !has_route(self@.routes, connection_id@),
            },
    {
        let mut i: usize = 0;
        while i < self.routes.len()
            invariant
                i <= self.routes.len(),
                forall|j: int| 0 <= j < i ==> self.routes[j].connection_id@ != connection_id@,
            decreases self.routes.len() - i,
        {
            if bytes_equal(self.routes[i].connection_id.as_slice(), connection_id) {
                return Some(i);
            }
            i += 1;
        }
        None
    }

    /// What the directory is told of the room.
    fn describe(&self, room: &Room) -> (record: RoomRecord)
        requires
            room.wf(),
        ensures
            record@ == room_record(self@.server, room@),
    {
        describe_room(&self.server_proto, room)
    }

    /// The room and the member that the connection belongs to.
    pub fn route(&self, connection_id: &[u8]) -> (found: Option<(u16, u16)>)
        requires
            self.wf(),
        ensures
            match found {
                Some((room_id, client_id)) => has_route(self@.routes, connection_id@) && route_for(
                    self@.routes,
                    connection_id@,
                ) == (RouteView { connection_id: connection_id@, room_id, client_id }),
                None => !has_route(self@.routes, connection_id@),
            },
    {
        match self.find_route(connection_id) {
            Some(i) => {
                Some((self.routes[i].room_id, self.routes[i].client_id))
            },
            None => None,
        }
    }

    /// Opens a room with the settings that the request names, under an
    /// identifier drawn from the engine's pool, and announces it.
    pub fn create_room(&mut self, request: &JoinRequest, max_user: u16) -> (made: Result<
        u16,
        RelayError,
    >)
        requires
            old(self).wf(),
        ensures
            final(self).wf(),
            match made {
                Ok(id) => old(self)@.free_room_ids.contains(id) && final(self)@ == room_created(
                    old(self)@,
                    id,
                    request@,
                    max_user,
                ),
                Err(e) => e == RelayError::ResourceExhausted && old(
                    self,
                )@.free_room_ids.is_empty() && final(self)@ == old(self)@,
            },
    {
        let ghost before = self@;
        match self.id_pool.get_id() {
            None => Err(RelayError::ResourceExhausted),
            Some(id) => {
                let token = match &request.token {
                    Some(t) => t.clone(),
                    None => Vec::new(),
                };
                let config = RoomConfig::new(
                    id,
                    request.application_name.clone(),
                    request.version.clone(),
                    request.password.clone(),
                    max_user,
                    duplicate_pairs(&request.info),
                    token,
                );
                let room = Room::new(config);
                proof {
                    room.lemma_wf();
                }
                let record = self.describe(&room);
                self.publications.push(Publication::RegisterRoom(record));
                self.rooms.insert(id, room);
                proof {
                    let fresh = forming(config_for(id, request@, max_user));
                    assert(room@ == fresh);
                    assert(self@.rooms =~= before.rooms.insert(id, fresh));
                    assert(self@.publications =~= before.publications.push(
                        PublicationView::RegisterRoom(room_record(before.server, fresh)),
                    ));
                    assert(self@.routes == before.routes);
                    assert forall|i: int| 0 <= i < self@.routes.len() implies route_alive(
                        self@.rooms,
                        #[trigger] self@.routes[i],
                    ) by {
                        assert(route_alive(before.rooms, before.routes[i]));
                    }
                }
                Ok(id)
            },
        }
    }
}

/// What a frame is, as plain values.
pub struct FrameView {
    pub to: u16,
    pub connection_id: Seq<u8>,
    pub payload: Seq<u8>,
}

/// One payload to send on one connection.
#[derive(Debug)]
pub struct Frame {
    /// The member that the payload is for.
    pub to: u16,
    /// The connection of that member.
    pub connection_id: Vec<u8>,
    pub payload: Vec<u8>,
}

impl View for Frame {
    type V = FrameView;

    open spec fn view(&self) -> FrameView {
        FrameView { to: self.to, connection_id: self.connection_id@, payload: self.payload@ }
    }
}

/// A list of frames as plain values.
pub open spec fn frames_view(frames: Seq<Frame>) -> Seq<FrameView> {
    frames.map_values(|f: Frame| f@)
}

/// One frame with the payload for each recipient, on the recipient's connection.
pub open spec fn frames_for(
    members: Map<u16, SessionView>,
    payload: Seq<u8>,
    recipients: Seq<u16>,
) -> Seq<FrameView> {
    Seq::new(
        recipients.len(),
        |i: int|
            FrameView {
                to: recipients[i],
                connection_id: members[recipients[i]].connection_id,
                payload,
            },
    )
}

/// The members that a list of frames is for, in their order.
pub open spec fn frame_targets(frames: Seq<FrameView>) -> Seq<u16> {
    frames.map_values(|f: FrameView| f.to)
}

/// The engine after the room at `room_id` has become `room`.
pub open spec fn with_room(v: EngineView, room_id: u16, room: RoomView) -> EngineView {
    EngineView { rooms: v.rooms.insert(room_id, room), ..v }
}

/// The engine after a connection has entered a room as member `client_id`:
/// the room has the new member, the connection has a route, and the room is
/// announced again with its new head count.
pub open spec fn connected(
    v: EngineView,
    connection_id: Seq<u8>,
    room_id: u16,
    client_id: u16,
    now: u64,
) -> EngineView {
    let room = joined(
        v.rooms[room_id],
        SessionView { client_id, connection_id, last_activity: now },
    );
    EngineView {
        rooms: v.rooms.insert(room_id, room),
        routes: v.routes.push(RouteView { connection_id, room_id, client_id }),
        publications: v.publications.push(
            PublicationView::RegisterRoom(room_record(v.server, room)),
        ),
        ..v
    }
}

/// The engine after the connection of the route at `at` has gone: its member
/// has left its room, the route is dropped, and the room is announced again
/// with its new head count.
pub open spec fn disconnected(v: EngineView, at: int) -> EngineView {
    let route = v.routes[at];
    let room = departed(v.rooms[route.room_id], set![route.client_id]);
    EngineView {
        rooms: v.rooms.insert(route.room_id, room),
        routes: v.routes.remove(at),
        publications: v.publications.push(
            PublicationView::RegisterRoom(room_record(v.server, room)),
        ),
        ..v
    }
}

impl<S: Store, P: IdPool> Engine<S, P> {
    /// Lets a new connection into the room that its request names. The result
    /// is the client identifier that the room gave it.
    pub fn connect(&mut self, connection_id: Vec<u8>, request: &JoinRequest, now: u64) -> (done:
        Result<u16, RelayError>)
        requires
            old(self).wf(),
        ensures
            final(self).wf(),
            match connect_verdict(old(self)@, connection_id@, request@) {
                Some(e) => done == Err::<u16, RelayError>(e) && final(self)@ == old(self)@,
                None => done matches Ok(id) && old(self)@.rooms[request.room_id].free_ids.contains(
                    id,
                ) && final(self)@ == connected(
                    old(self)@,
                    connection_id@,
                    request.room_id,
                    id,
                    now,
                ),
            },
    {
        let ghost before = self@;
        if self.find_route(connection_id.as_slice()).is_some() {
            return Err(RelayError::DuplicateClient);
        }
        let room_id = request.room_id;
        match self.rooms.remove(room_id) {
            None => {
                assert(self@.rooms =~= before.rooms);
                Err(RelayError::UnknownRoom)
            },
            Some(room) => {
                let mut room = room;
                let ghost was = room@;
                assert(was == before.rooms[room_id]);
                let conn = connection_id.clone();
                let done = room.enroll(connection_id, now, request);
                proof {
                    room.lemma_wf();
                }
                match done {
                    Ok(id) => {
                        let record = self.describe(&room);
                        self.publications.push(Publication::RegisterRoom(record));
                        self.routes.push(Route { connection_id: conn, room_id, client_id: id });
                        self.rooms.insert(room_id, room);
                        proof {
                            let after = connected(before, connection_id@, room_id, id, now);
                            assert(self@.rooms =~= after.rooms);
                            assert(self@.routes =~= after.routes);
                            assert(self@.publications =~= after.publications);
                            assert(self@ =~= after);
                            assert forall|i: int, j: int|
                                0 <= i < j < self@.routes.len() implies (
                            #[trigger] self@.routes[i]).connection_id != (
                            #[trigger] self@.routes[j]).connection_id by {
                                if j == before.routes.len() {
                                    assert(before.routes[i].connection_id != connection_id@);
                                } else {
                                    assert(before.routes[i].connection_id
                                        != before.routes[j].connection_id);
                                }
                            }
                            assert forall|i: int| 0 <= i < self@.routes.len() implies route_alive(
                                self@.rooms,
                                #[trigger] self@.routes[i],
                            ) by {
                                if i < before.routes.len() {
                                    assert(route_alive(before.rooms, before.routes[i]));
                                }
                            }
                        }
                        Ok(id)
                    },
                    Err(e) => {
                        self.rooms.insert(room_id, room);
                        proof {
                            assert(self@.rooms =~= before.rooms);
                            assert(self@ =~= before);
                        }
                        Err(e)
                    },
                }
            },
        }
    }

    /// Drops a connection: its member leaves its room. The result is the
    /// route that the connection had.
    pub fn disconnect(&mut self, connection_id: &[u8]) -> (gone: Result<Route, RelayError>)
        requires
            old(self).wf(),
        ensures
            final(self).wf(),
            gone is Ok <==> has_route(old(self)@.routes, connection_id@),
            match gone {
                Ok(route) => route@ == route_for(old(self)@.routes, connection_id@)
                    && final(self)@ == disconnected(
                    old(self)@,
                    route_index(old(self)@.routes, connection_id@),
                ),
                Err(e) => e == RelayError::UnknownClient && final(self)@ == old(self)@,
            },
    {
        let ghost before = self@;
        let at = match self.find_route(connection_id) {
            Some(at) => at,
            None => {
                return Err(RelayError::UnknownClient);
            },
        };
        let route = self.routes.remove(at);
        assert(self@.routes =~= before.routes.remove(at as int));
        match self.rooms.remove(route.room_id) {
            None => {
                assert(false);
                Err(RelayError::UnknownRoom)
            },
            Some(room) => {
                let mut room = room;
                let _ = room.leave(route.client_id);
                proof {
                    room.lemma_wf();
                }
                let record = self.describe(&room);
                self.publications.push(Publication::RegisterRoom(record));
                self.rooms.insert(route.room_id, room);
                proof {
                    let after = disconnected(before, at as int);
                    assert(self@.rooms =~= after.rooms);
                    assert(self@.publications =~= after.publications);
                    assert(self@ =~= after);
                    assert forall|i: int, j: int| 0 <= i < j < self@.routes.len() implies (
                    #[trigger] self@.routes[i]).connection_id != (
                    #[trigger] self@.routes[j]).connection_id by {
                        let oi = if i < at { i } else { i + 1 };
                        let oj = if j < at { j } else { j + 1 };
                        assert(before.routes[oi].connection_id != before.routes[oj].connection_id);
                    }
                    assert forall|i: int| 0 <= i < self@.routes.len() implies route_alive(
                        self@.rooms,
                        #[trigger] self@.routes[i],
                    ) by {
                        let oi = if i < at { i } else { i + 1 };
                        assert(route_alive(before.rooms, before.routes[oi]));
                        if oi < at {
                            assert(before.routes[oi].connection_id
                                != before.routes[at as int].connection_id);
                        } else {
                            assert(before.routes[at as int].connection_id
                                != before.routes[oi].connection_id);
                        }
                    }
                }
                Ok(route)
            },
        }
    }

    /// Records that the connection's member was heard from at `now`.
    pub fn touch(&mut self, connection_id: &[u8], now: u64) -> (done: Result<(), RelayError>)
        requires
            old(self).wf(),
        ensures
            final(self).wf(),
            done is Ok <==> has_route(old(self)@.routes, connection_id@),
            match done {
                Ok(_) => {
                    let route = route_for(old(self)@.routes, connection_id@);
                    let room = old(self)@.rooms[route.room_id];
                    final(self)@ == with_room(
                        old(self)@,
                        route.room_id,
                        RoomView {
                            members: room.members.insert(
                                route.client_id,
                                touched(room.members[route.client_id], now),
                            ),
                            ..room
                        },
                    )
                },
                Err(e) => e == RelayError::UnknownClient && final(self)@ == old(self)@,
            },
    {
        let ghost before = self@;
        let at = match self.find_route(connection_id) {
            Some(at) => at,
            None => {
                return Err(RelayError::UnknownClient);
            },
        };
        let room_id = self.routes[at].room_id;
        let client_id = self.routes[at].client_id;
        match self.rooms.remove(room_id) {
            None => {
                assert(false);
                Err(RelayError::UnknownRoom)
            },
            Some(room) => {
                let mut room = room;
                let ghost was = room@;
                let done = room.touch(client_id, now);
                proof {
                    room.lemma_wf();
                }
                self.rooms.insert(room_id, room);
                proof {
                    let after = with_room(
                        before,
                        room_id,
                        RoomView {
                            members: was.members.insert(
                                client_id,
                                touched(was.members[client_id], now),
                            ),
                            ..was
                        },
                    );
                    assert(self@.rooms =~= after.rooms);
                    assert(self@ =~= after);
                    assert forall|i: int| 0 <= i < self@.routes.len() implies route_alive(
                        self@.rooms,
                        #[trigger] self@.routes[i],
                    ) by {
                        assert(route_alive(before.rooms, before.routes[i]));
                    }
                }
                Ok(())
            },
        }
    }

    /// Works out where a payload that came in on a connection has to go: one
    /// frame for each recipient, on the recipient's connection, in the order in
    /// which the room addresses them.
    pub fn relay(&self, connection_id: &[u8], payload: &[u8], target: RelayTarget) -> (sent:
        Result<Vec<Frame>, RelayError>)
        requires
            self.wf(),
        ensures
            sent is Err <==> !has_route(self@.routes, connection_id@) || {
                let route = route_for(self@.routes, connection_id@);
                relay_refused(self@.rooms[route.room_id].members.dom(), route.client_id, target)
            },
            match sent {
                Ok(frames) => {
                    let route = route_for(self@.routes, connection_id@);
                    let members = self@.rooms[route.room_id].members;
                    &&& addressed(
                        members.dom(),
                        route.client_id,
                        target,
                        frame_targets(frames_view(frames@)),
                    )
                    &&& frames_view(frames@) == frames_for(
                        members,
                        payload@,
                        frame_targets(frames_view(frames@)),
                    )
                },
                Err(e) => e == RelayError::UnknownClient,
            },
    {
        let at = match self.find_route(connection_id) {
            Some(at) => at,
            None => {
                return Err(RelayError::UnknownClient);
            },
        };
        let room_id = self.routes[at].room_id;
        let client_id = self.routes[at].client_id;
        let room = match self.rooms.get(room_id) {
            Some(room) => room,
            None => {
                assert(false);
                return Err(RelayError::UnknownRoom);
            },
        };
        let recipients = match room.recipients(client_id, target) {
            Ok(recipients) => recipients,
            Err(e) => {
                return Err(e);
            },
        };
        let ghost members = room@.members;
        let mut frames: Vec<Frame> = Vec::new();
        let mut i: usize = 0;
        while i < recipients.len()
            invariant
                room.wf(),
                members == room@.members,
                i <= recipients.len(),
                forall|k: int|
                    0 <= k < recipients@.len() ==> members.dom().contains(#[trigger] recipients@[k]),
                frames_view(frames@) == frames_for(members, payload@, recipients@.take(i as int)),
            decreases recipients.len() - i,
        {
            let to = recipients[i];
            let ghost sofar = frames@;
            match room.session(to) {
                Ok(session) => {
                    frames.push(
                        Frame {
                            to,
                            connection_id: session.connection_id().clone(),
                            payload: vstd::slice::slice_to_vec(payload),
                        },
                    );
                },
                Err(_) => {
                    assert(false);
                },
            }
            proof {
                assert(frames_view(frames@) =~= frames_view(sofar).push(frames@.last()@));
                assert(frames_for(members, payload@, recipients@.take(i + 1)) =~= frames_for(
                    members,
                    payload@,
                    recipients@.take(i as int),
                ).push(frames@.last()@));
            }
            i += 1;
        }
        proof {
            assert(recipients@.take(recipients@.len() as int) == recipients@);
            assert(frame_targets(frames_view(frames@)) =~= recipients@);
        }
        Ok(frames)
    }
}

/// Whether something that was last done at `last` is due again at `now`.
pub open spec fn due(now: u64, last: u64, interval: u64) -> bool {
    now - last >= interval
}

/// A room after the engine has maintained it at `now`, or has shut it by force.
pub open spec fn maintained(room: RoomView, now: u64, force: bool) -> RoomView {
    if force {
        shut(room)
    } else {
        ticked(room, now, SESSION_IDLE_TIMEOUT, ROOM_DRAIN_GRACE)
    }
}

/// The rooms among `done` that maintenance at `now` closes.
pub open spec fn closing_ids(rooms: Map<u16, RoomView>, done: Set<u16>, now: u64, force: bool) -> Set<
    u16,
> {
    Set::new(
        |id: u16|
            rooms.dom().contains(id) && done.contains(id) && maintained(rooms[id], now, force).state
                == RoomState::Closed,
    )
}

/// The rooms after those in `done` have been maintained at `now`: a room that
/// closed is gone from the table.
pub open spec fn rooms_maintained(
    rooms: Map<u16, RoomView>,
    done: Set<u16>,
    now: u64,
    force: bool,
) -> Map<u16, RoomView> {
    Map::new(
        |id: u16| rooms.dom().contains(id) && !closing_ids(rooms, done, now, force).contains(id),
        |id: u16|
            if done.contains(id) {
                maintained(rooms[id], now, force)
            } else {
                rooms[id]
            },
    )
}

/// The withdrawal of each of the rooms in `closed`, in their order.
pub open spec fn withdrawals(
    server: ServerRecordView,
    rooms: Map<u16, RoomView>,
    closed: Seq<u16>,
    now: u64,
    force: bool,
) -> Seq<PublicationView> {
    closed.map_values(
        |id: u16|
            PublicationView::UnregisterRoom(room_record(server, maintained(rooms[id], now, force))),
    )
}

/// The test by which routes are kept: the route's member still exists.
pub open spec fn alive_in(rooms: Map<u16, RoomView>) -> spec_fn(RouteView) -> bool {
    |route: RouteView| route_alive(rooms, route)
}

/// The test by which routes are dropped: the route's member is gone.
pub open spec fn dead_in(rooms: Map<u16, RoomView>) -> spec_fn(RouteView) -> bool {
    |route: RouteView| !route_alive(rooms, route)
}

/// What one round of maintenance did.
#[derive(Debug)]
pub struct TickReport {
    /// The rooms that closed, lowest identifier first.
    pub closed: Vec<u16>,
    /// The routes whose members are gone, in the order in which they were made.
    pub dropped: Vec<Route>,
}

/// The engine after the rooms were maintained at `now` and `closed` lists the
/// rooms that closed: those rooms are gone and withdrawn, their identifiers
/// are free again, and the routes of members that are gone are dropped.
pub open spec fn rooms_ticked(v: EngineView, now: u64, closed: Seq<u16>, force: bool) -> EngineView {
    let rooms = rooms_maintained(v.rooms, v.rooms.dom(), now, force);
    EngineView {
        rooms,
        free_room_ids: v.free_room_ids.union(closing_ids(v.rooms, v.rooms.dom(), now, force)),
        routes: v.routes.filter(alive_in(rooms)),
        publications: v.publications + withdrawals(v.server, v.rooms, closed, now, force),
        last_room_update: now,
        ..v
    }
}

/// The engine after the server has announced itself at `now`.
pub open spec fn server_ticked(v: EngineView, now: u64) -> EngineView {
    EngineView {
        publications: v.publications.push(PublicationView::RegisterServer(v.server)),
        last_server_update: now,
        ..v
    }
}

/// The engine after one call of `tick` at `now`, where `closed` lists the
/// rooms that closed. Each of the two periodic jobs runs if its interval has
/// passed since it last ran, the rooms first.
pub open spec fn engine_ticked(v: EngineView, now: u64, closed: Seq<u16>) -> EngineView {
    let after_rooms = if due(now, v.last_room_update, v.room_update_interval) {
        rooms_ticked(v, now, closed, false)
    } else {
        v
    };
    if due(now, v.last_server_update, v.server_update_interval) {
        server_ticked(after_rooms, now)
    } else {
        after_rooms
    }
}

/// The engine after it was shut down at `now`, where `closed` lists the rooms
/// that it held: every room is shut and withdrawn, and so is the server.
pub open spec fn engine_shut(v: EngineView, now: u64, closed: Seq<u16>) -> EngineView {
    let after_rooms = rooms_ticked(v, now, closed, true);
    EngineView {
        publications: after_rooms.publications.push(PublicationView::UnregisterServer(v.server)),
        ..after_rooms
    }
}

/// Whether the route's member still exists in the table.
fn route_is_alive(rooms: &IdTable<Room>, route: &Route) -> (alive: bool)
    requires
        rooms.wf(),
        forall|id: u16| rooms.map().dom().contains(id) ==> (#[trigger] rooms.map()[id]).wf(),
    ensures
        alive == route_alive(rooms_view(rooms.map()), route@),
{
    match rooms.get(route.room_id) {
        None => false,
        Some(room) => match room.session(route.client_id) {
            Err(_) => false,
            Ok(session) => bytes_equal(
                session.connection_id().as_slice(),
                route.connection_id.as_slice(),
            ),
        },
    }
}

/// Parts the routes whose members still exist from those whose members are gone.
fn split_routes(routes: Vec<Route>, rooms: &IdTable<Room>) -> (parts: (Vec<Route>, Vec<Route>))
    requires
        rooms.wf(),
        forall|id: u16| rooms.map().dom().contains(id) ==> (#[trigger] rooms.map()[id]).wf(),
    ensures
        routes_view(parts.0@) == routes_view(routes@).filter(alive_in(rooms_view(rooms.map()))),
        routes_view(parts.1@) == routes_view(routes@).filter(dead_in(rooms_view(rooms.map()))),
{
    let ghost all = routes_view(routes@);
    let ghost views = rooms_view(rooms.map());
    let mut kept = routes;
    let mut dropped: Vec<Route> = Vec::new();
    let mut i: usize = 0;
    let ghost mut seen: int = 0;
    proof {
        reveal(Seq::filter);
        assert(all.take(0).filter(alive_in(views)) =~= Seq::<RouteView>::empty());
        assert(all.take(0).filter(dead_in(views)) =~= Seq::<RouteView>::empty());
        assert(all.skip(0) =~= all);
        assert(routes_view(dropped@) =~= Seq::<RouteView>::empty());
    }
    while i < kept.len()
        invariant
            rooms.wf(),
            forall|id: u16| rooms.map().dom().contains(id) ==> (#[trigger] rooms.map()[id]).wf(),
            views == rooms_view(rooms.map()),
            0 <= seen <= all.len(),
            i <= kept.len(),
            i == all.take(seen).filter(alive_in(views)).len(),
            routes_view(kept@) == all.take(seen).filter(alive_in(views)) + all.skip(seen),
            routes_view(dropped@) == all.take(seen).filter(dead_in(views)),
        decreases all.len() - seen,
    {
        let ghost head = all.take(seen);
        proof {
            assert(routes_view(kept@)[i as int] == all.skip(seen)[0]);
            assert(all.take(seen + 1) =~= head.push(all[seen]));
            head.lemma_filter_push(all[seen], alive_in(views));
            head.lemma_filter_push(all[seen], dead_in(views));
            assert(all.skip(seen) =~= seq![all[seen]] + all.skip(seen + 1));
        }
        if route_is_alive(rooms, &kept[i]) {
            proof {
                assert(routes_view(kept@) =~= all.take(seen + 1).filter(alive_in(views)) + all.skip(
                    seen + 1,
                ));
                seen = seen + 1;
            }
            i += 1;
        } else {
            let ghost held = kept@;
            let gone = kept.remove(i);
            let ghost sofar = dropped@;
            dropped.push(gone);
            proof {
                assert(routes_view(kept@) =~= routes_view(held).remove(i as int));
                assert(routes_view(kept@) =~= all.take(seen + 1).filter(alive_in(views)) + all.skip(
                    seen + 1,
                ));
                assert(routes_view(dropped@) =~= routes_view(sofar).push(gone@));
                seen = seen + 1;
            }
        }
    }
    (kept, dropped)
}

/// What the directory is told of a room of the server.
fn describe_room(server: &ServerRecord, room: &Room) -> (record: RoomRecord)
    requires
        room.wf(),
    ensures
        record@ == room_record(server@, room@),
{
    let config = room.config();
    RoomRecord {
        room_id: config.room_id(),
        require_password: config.requires_password(),
        max_user: config.max_user(),
        connected_user: room.count(),
        server: Some(server.duplicate()),
        application_name: config.application_name().clone(),
        version: config.version().clone(),
        information: duplicate_pairs(config.info()),
    }
}

/// Maintains every room of the table, or shuts it by force. A room that closed
/// leaves the table, is withdrawn, and gives its identifier back to the pool.
/// The result lists the rooms that closed, lowest identifier first.
fn maintain_rooms<P: IdPool>(
    rooms: &mut IdTable<Room>,
    id_pool: &mut P,
    publications: &mut Vec<Publication>,
    server: &ServerRecord,
    now: u64,
    force: bool,
) -> (closed: Vec<u16>)
    requires
        old(rooms).wf(),
        forall|id: u16| old(rooms).map().dom().contains(id) ==> (#[trigger] old(rooms).map()[id]).wf(),
    ensures
        final(rooms).wf(),
        forall|id: u16|
            final(rooms).map().dom().contains(id) ==> (#[trigger] final(rooms).map()[id]).wf(),
        rooms_view(final(rooms).map()) == rooms_maintained(
            rooms_view(old(rooms).map()),
            old(rooms).map().dom(),
            now,
            force,
        ),
        final(id_pool).available() == old(id_pool).available().union(
            closing_ids(rooms_view(old(rooms).map()), old(rooms).map().dom(), now, force),
        ),
        lists_rising(
            closed@,
            closing_ids(rooms_view(old(rooms).map()), old(rooms).map().dom(), now, force),
        ),
        publications_view(final(publications)@) == publications_view(old(publications)@)
            + withdrawals(server@, rooms_view(old(rooms).map()), closed@, now, force),
{
    let ghost before = rooms_view(rooms.map());
    let ghost everyone = rooms.map().dom();
    let ghost free = id_pool.available();
    let ghost queued = publications_view(publications@);
    let ids = rooms.ids();
    let mut closed: Vec<u16> = Vec::new();
    let mut i: usize = 0;
    while i < ids.len()
        invariant
            rooms.wf(),
            forall|id: u16| rooms.map().dom().contains(id) ==> (#[trigger] rooms.map()[id]).wf(),
            before.dom() == everyone,
            lists_rising(ids@, everyone),
            i <= ids.len(),
            rooms_view(rooms.map()) == rooms_maintained(
                before,
                ids@.take(i as int).to_set(),
                now,
                force,
            ),
            id_pool.available() == free.union(
                closing_ids(before, ids@.take(i as int).to_set(), now, force),
            ),
            lists_rising(closed@, closing_ids(before, ids@.take(i as int).to_set(), now, force)),
            publications_view(publications@) == queued + withdrawals(
                server@,
                before,
                closed@,
                now,
                force,
            ),
        decreases ids.len() - i,
    {
        let id = ids[i];
        let ghost done = ids@.take(i as int).to_set();
        let ghost next = ids@.take(i + 1).to_set();
        let ghost table = rooms.map();
        let ghost was_closed = closed@;
        proof {
            assert(ids@.contains(id));
            assert(!done.contains(id)) by {
                if done.contains(id) {
                    let k = choose|k: int|
                        0 <= k < ids@.take(i as int).len() && ids@.take(i as int)[k] == id;
                    assert(ids@[k] < ids@[i as int]);
                }
            }
            assert(ids@.take(i + 1) =~= ids@.take(i as int).push(id));
            ids@.take(i as int).lemma_push_to_set_commute(id);
            assert(next =~= done.insert(id));
            assert(rooms_view(table).dom().contains(id));
            assert(rooms_view(table)[id] == table[id]@);
            assert(rooms_maintained(before, done, now, force)[id] == before[id]);
        }
        match rooms.remove(id) {
            None => {
                assert(false);
            },
            Some(room) => {
                let mut room = room;
                assert(room@ == before[id]);
                if force {
                    room.close();
                } else {
                    let _ = room.tick(now, SESSION_IDLE_TIMEOUT, ROOM_DRAIN_GRACE);
                }
                assert(room@ == maintained(before[id], now, force));
                if room.state() == RoomState::Closed {
                    let record = describe_room(server, &room);
                    let ghost pending = publications@;
                    publications.push(Publication::UnregisterRoom(record));
                    id_pool.return_id(id);
                    closed.push(id);
                    proof {
                        assert(closing_ids(before, next, now, force) =~= closing_ids(
                            before,
                            done,
                            now,
                            force,
                        ).insert(id));
                        assert forall|other: u16|
                            rooms_view(rooms.map()).dom().contains(other)
                                <==> rooms_maintained(before, next, now, force).dom().contains(
                                other,
                            ) by {
                            if other != id {
                                assert(rooms_view(table).dom().contains(other)
                                    <==> rooms_maintained(before, done, now, force).dom().contains(
                                    other,
                                ));
                            }
                        }
                        assert forall|other: u16|
                            rooms_view(rooms.map()).dom().contains(other) implies #[trigger] rooms_view(
                            rooms.map(),
                        )[other] == rooms_maintained(before, next, now, force)[other] by {
                            if other != id {
                                assert(rooms_view(table)[other] == rooms_maintained(
                                    before,
                                    done,
                                    now,
                                    force,
                                )[other]);
                            }
                        }
                        assert(rooms_view(rooms.map()) =~= rooms_maintained(
                            before,
                            next,
                            now,
                            force,
                        ));
                        assert(id_pool.available() =~= free.union(
                            closing_ids(before, next, now, force),
                        ));
                        assert forall|k: int, l: int| 0 <= k < l < closed@.len() implies closed@[k]
                            < closed@[l] by {
                            if l == was_closed.len() {
                                assert(was_closed.contains(was_closed[k]));
                                let j = choose|j: int|
                                    0 <= j < ids@.take(i as int).len() && ids@.take(i as int)[j]
                                        == was_closed[k];
                                assert(ids@[j] < ids@[i as int]);
                            } else {
                                assert(was_closed[k] < was_closed[l]);
                            }
                        }
                        assert forall|other: u16| closed@.contains(other) <==> closing_ids(
                            before,
                            next,
                            now,
                            force,
                        ).contains(other) by {
                            if closed@.contains(other) {
                                let k = choose|k: int| 0 <= k < closed@.len() && closed@[k] == other;
                                if k < was_closed.len() {
                                    assert(was_closed.contains(was_closed[k]));
                                }
                            }
                            if closing_ids(before, next, now, force).contains(other) {
                                if other == id {
                                    assert(closed@[was_closed.len() as int] == id);
                                } else {
                                    assert(was_closed.contains(other));
                                    let k = choose|k: int|
                                        0 <= k < was_closed.len() && was_closed[k] == other;
                                    assert(closed@[k] == other);
                                }
                            }
                        }
                        assert(publications_view(publications@) =~= publications_view(pending).push(
                            publications@.last()@,
                        ));
                        assert(withdrawals(server@, before, closed@, now, force) =~= withdrawals(
                            server@,
                            before,
                            was_closed,
                            now,
                            force,
                        ).push(publications@.last()@));
                    }
                } else {
                    rooms.insert(id, room);
                    proof {
                        assert(closing_ids(before, next, now, force) =~= closing_ids(
                            before,
                            done,
                            now,
                            force,
                        ));
                        assert forall|other: u16|
                            rooms_view(rooms.map()).dom().contains(other)
                                <==> rooms_maintained(before, next, now, force).dom().contains(
                                other,
                            ) by {
                            if other != id {
                                assert(rooms_view(table).dom().contains(other)
                                    <==> rooms_maintained(before, done, now, force).dom().contains(
                                    other,
                                ));
                            }
                        }
                        assert forall|other: u16|
                            rooms_view(rooms.map()).dom().contains(other) implies #[trigger] rooms_view(
                            rooms.map(),
                        )[other] == rooms_maintained(before, next, now, force)[other] by {
                            if other != id {
                                assert(rooms_view(table)[other] == rooms_maintained(
                                    before,
                                    done,
                                    now,
                                    force,
                                )[other]);
                            }
                        }
                        assert(rooms_view(rooms.map()) =~= rooms_maintained(
                            before,
                            next,
                            now,
                            force,
                        ));
                        assert forall|other: u16| rooms.map().dom().contains(other) implies (
                        #[trigger] rooms.map()[other]).wf() by {
                            if other != id {
                                assert(table.dom().contains(other));
                            }
                        }
                    }
                }
            },
        }
        i += 1;
    }
    proof {
        assert(ids@.take(ids@.len() as int) == ids@);
        assert(ids@.to_set() =~= everyone);
    }
    closed
}

/// Dropping routes from a table without doubles leaves a table without doubles.
pub proof fn lemma_filter_keeps_distinct(routes: Seq<RouteView>, keep: spec_fn(RouteView) -> bool)
    requires
        routes_distinct(routes),
    ensures
        routes_distinct(routes.filter(keep)),
        forall|i: int|
            0 <= i < routes.filter(keep).len() ==> keep(#[trigger] routes.filter(keep)[i])
                && routes.contains(routes.filter(keep)[i]),
    decreases routes.len(),
{
    reveal(Seq::filter);
    if routes.len() > 0 {
        let head = routes.drop_last();
        let last = routes.last();
        assert(routes_distinct(head)) by {
            assert forall|i: int, j: int| 0 <= i < j < head.len() implies (
            #[trigger] head[i]).connection_id != (#[trigger] head[j]).connection_id by {
                assert(routes[i].connection_id != routes[j].connection_id);
            }
        }
        lemma_filter_keeps_distinct(head, keep);
        let kept = head.filter(keep);
        assert forall|i: int| 0 <= i < kept.len() implies routes.contains(#[trigger] kept[i])
            && kept[i].connection_id != last.connection_id by {
            assert(head.contains(kept[i]));
            let k = choose|k: int| 0 <= k < head.len() && head[k] == kept[i];
            assert(routes[k] == kept[i]);
            assert(routes[k].connection_id != routes[routes.len() - 1].connection_id);
        }
        assert(routes.contains(last)) by {
            assert(routes[routes.len() - 1] == last);
        }
    }
}

impl<S: Store, P: IdPool> Engine<S, P> {
    /// Re-establishes the invariant after the rooms were maintained and the
    /// routes were pruned.
    proof fn lemma_maintained_is_wf(&self, before: EngineView, now: u64, force: bool)
        requires
            engine_invariant(before),
            self.rooms.wf(),
            forall|id: u16|
                self.rooms.map().dom().contains(id) ==> (#[trigger] self.rooms.map()[id]).wf(),
            self@.rooms == rooms_maintained(before.rooms, before.rooms.dom(), now, force),
            self@.free_room_ids == before.free_room_ids.union(
                closing_ids(before.rooms, before.rooms.dom(), now, force),
            ),
            self@.routes == before.routes.filter(alive_in(self@.rooms)),
        ensures
            self.wf(),
    {
        lemma_filter_keeps_distinct(before.routes, alive_in(self@.rooms));
        assert forall|id: u16| self@.rooms.dom().contains(id) implies {
            &&& room_invariant(#[trigger] self@.rooms[id])
            &&& self@.rooms[id].config.room_id == id
            &&& self@.rooms[id].outbox.len() == 0
            &&& self@.rooms[id].state != RoomState::Closed
        } by {
            assert(self.rooms.map().dom().contains(id));
            self.rooms.map()[id].lemma_wf();
            assert(self@.rooms[id] == self.rooms.map()[id]@);
            assert(room_invariant(before.rooms[id]));
        }
    }

    /// Periodic maintenance at `now`. If the rooms are due, every room is
    /// maintained, the rooms that closed are withdrawn and the routes of
    /// members that are gone are dropped. If the server is due, it announces
    /// itself again.
    pub fn tick(&mut self, now: u64) -> (report: TickReport)
        requires
            old(self).wf(),
        ensures
            final(self).wf(),
            final(self)@ == engine_ticked(old(self)@, now, report.closed@),
            if due(now, old(self)@.last_room_update, old(self)@.room_update_interval) {
                &&& lists_rising(
                    report.closed@,
                    closing_ids(old(self)@.rooms, old(self)@.rooms.dom(), now, false),
                )
                &&& routes_view(report.dropped@) == old(self)@.routes.filter(
                    dead_in(final(self)@.rooms),
                )
            } else {
                report.closed@.len() == 0 && report.dropped@.len() == 0
            },
    {
        let ghost before = self@;
        let mut closed: Vec<u16> = Vec::new();
        let mut dropped: Vec<Route> = Vec::new();
        if now >= self.last_room_update && now - self.last_room_update
            >= self.room_update_duration {
            proof {
                assert(before.rooms.dom() =~= self.rooms.map().dom());
            }
            closed =
            maintain_rooms(
                &mut self.rooms,
                &mut self.id_pool,
                &mut self.publications,
                &self.server_proto,
                now,
                false,
            );
            let mut routes: Vec<Route> = Vec::new();
            std::mem::swap(&mut routes, &mut self.routes);
            let (kept, gone) = split_routes(routes, &self.rooms);
            self.routes = kept;
            dropped = gone;
            self.last_room_update = now;
            proof {
                assert(self@ =~= rooms_ticked(before, now, closed@, false));
                self.lemma_maintained_is_wf(before, now, false);
            }
        }
        if now >= self.last_server_update && now - self.last_server_update
            >= self.server_update_duration {
            self.publications.push(Publication::RegisterServer(self.server_proto.duplicate()));
            self.last_server_update = now;
        }
        TickReport { closed, dropped }
    }

    /// Shuts the engine down: every room is shut and withdrawn, every route
    /// is dropped, and the server takes its leave from the directory.
    pub fn shutdown(&mut self, now: u64) -> (report: TickReport)
        requires
            old(self).wf(),
        ensures
            final(self).wf(),
            final(self)@ == engine_shut(old(self)@, now, report.closed@),
            lists_rising(report.closed@, old(self)@.rooms.dom()),
            routes_view(report.dropped@) == old(self)@.routes,
            final(self)@.rooms == Map::<u16, RoomView>::empty(),
            final(self)@.routes == Seq::<RouteView>::empty(),
    {
        let ghost before = self@;
        proof {
            assert(before.rooms.dom() =~= self.rooms.map().dom());
        }
        let closed = maintain_rooms(
            &mut self.rooms,
            &mut self.id_pool,
            &mut self.publications,
            &self.server_proto,
            now,
            true,
        );
        let mut routes: Vec<Route> = Vec::new();
        std::mem::swap(&mut routes, &mut self.routes);
        let (kept, dropped) = split_routes(routes, &self.rooms);
        self.routes = kept;
        self.last_room_update = now;
        let ghost middle = self@;
        proof {
            assert(middle =~= rooms_ticked(before, now, closed@, true));
            self.lemma_maintained_is_wf(before, now, true);
            assert(closing_ids(before.rooms, before.rooms.dom(), now, true) =~= before.rooms.dom());
            assert(middle.rooms =~= Map::<u16, RoomView>::empty());
            before.routes.lemma_all_neg_filter_empty(alive_in(middle.rooms));
            assert(middle.routes =~= Seq::<RouteView>::empty());
            lemma_filter_all(before.routes, dead_in(middle.rooms));
        }
        self.publications.push(Publication::UnregisterServer(self.server_proto.duplicate()));
        TickReport { closed, dropped }
    }

    /// Hands what is waiting for the directory to the caller, oldest first,
    /// and empties the queue.
    pub fn drain_publications(&mut self) -> (queued: Vec<Publication>)
        requires
            old(self).wf(),
        ensures
            final(self).wf(),
            publications_view(queued@) == old(self)@.publications,
            final(self)@ == (EngineView {
                publications: Seq::<PublicationView>::empty(),
                ..old(self)@
            }),
    {
        let mut queued: Vec<Publication> = Vec::new();
        std::mem::swap(&mut queued, &mut self.publications);
        assert(self@.publications =~= Seq::<PublicationView>::empty());
        queued
    }

    /// Hands what is waiting to the directory, oldest first, and empties the
    /// queue. A publication that fails is dropped; the result counts them.
    pub fn flush(&mut self) -> (failures: usize)
        requires
            old(self).wf(),
        ensures
            final(self).wf(),
            failures <= old(self)@.publications.len(),
            final(self)@ == (EngineView {
                publications: Seq::<PublicationView>::empty(),
                ..old(self)@
            }),
    {
        let queued = self.drain_publications();
        publish_all(&self.store, queued)
    }

    /// The identifier of this server.
    pub fn server_id(&self) -> (id: i64)
        ensures
            id == self@.server_id,
    {
        self.server_id
    }

    /// The number of open rooms.
    pub fn room_count(&self) -> (n: usize)
        requires
            self.wf(),
        ensures
            n == self@.rooms.dom().len(),
    {
        assert(self@.rooms.dom() =~= self.rooms.map().dom());
        self.rooms.len()
    }

    /// The room with the identifier.
    pub fn room(&self, room_id: u16) -> (found: Option<&Room>)
        requires
            self.wf(),
        ensures
            match found {
                Some(room) => room.wf() && self@.rooms.dom().contains(room_id) && room@
                    == self@.rooms[room_id],
                None => !self@.rooms.dom().contains(room_id),
            },
    {
        self.rooms.get(room_id)
    }

    /// The number of live connections.
    pub fn connection_count(&self) -> (n: usize)
        ensures
            n == self@.routes.len(),
    {
        self.routes.len()
    }

    /// How many publications are waiting.
    pub fn pending_publications(&self) -> (n: usize)
        ensures
            n == self@.publications.len(),
    {
        self.publications.len()
    }
}

/// A filter that every element passes changes nothing.
proof fn lemma_filter_all(routes: Seq<RouteView>, keep: spec_fn(RouteView) -> bool)
    requires
        forall|i: int| 0 <= i < routes.len() ==> keep(#[trigger] routes[i]),
    ensures
        routes.filter(keep) == routes,
    decreases routes.len(),
{
    reveal(Seq::filter);
    if routes.len() > 0 {
        let head = routes.drop_last();
        assert forall|i: int| 0 <= i < head.len() implies keep(#[trigger] head[i]) by {
            assert(head[i] == routes[i]);
        }
        lemma_filter_all(head, keep);
        assert(head.push(routes.last()) =~= routes);
    }
}

/// Why the engine refuses to open a room for a connection, if it does.
pub open spec fn open_verdict(v: EngineView, connection_id: Seq<u8>, max_user: u16) -> Option<
    RelayError,
> {
    if has_route(v.routes, connection_id) {
        Some(RelayError::DuplicateClient)
    } else if max_user == 0 {
        Some(RelayError::RoomFull)
    } else if v.free_room_ids.is_empty() {
        Some(RelayError::ResourceExhausted)
    } else {
        None
    }
}

impl<S: Store, P: IdPool> Engine<S, P> {
    /// Opens a room for a connection that asks for one and lets the
    /// connection in as its first member, which makes it the host. The result
    /// is the identifier of the room and the client identifier.
    pub fn open_room(
        &mut self,
        connection_id: Vec<u8>,
        request: &JoinRequest,
        max_user: u16,
        now: u64,
    ) -> (done: Result<(u16, u16), RelayError>)
        requires
            old(self).wf(),
        ensures
            final(self).wf(),
            match open_verdict(old(self)@, connection_id@, max_user) {
                Some(e) => done == Err::<(u16, u16), RelayError>(e) && final(self)@ == old(self)@,
                None => done matches Ok((room_id, client_id)) && old(
                    self,
                )@.free_room_ids.contains(room_id) && final(self)@ == connected(
                    room_created(old(self)@, room_id, request@, max_user),
                    connection_id@,
                    room_id,
                    client_id,
                    now,
                ),
            },
    {
        if self.find_route(connection_id.as_slice()).is_some() {
            return Err(RelayError::DuplicateClient);
        }
        if max_user == 0 {
            return Err(RelayError::RoomFull);
        }
        let room_id = match self.create_room(request, max_user) {
            Ok(room_id) => room_id,
            Err(e) => {
                return Err(e);
            },
        };
        let entering = JoinRequest {
            room_id,
            application_name: request.application_name.clone(),
            version: request.version.clone(),
            password: request.password.clone(),
            token: match &request.token {
                Some(t) => Some(t.clone()),
                None => None,
            },
            info: duplicate_pairs(&request.info),
        };
        proof {
            assert(entering@ == (JoinRequestView { room_id, ..request@ }));
            assert(Set::<u16>::full().contains(0u16));
        }
        match self.connect(connection_id, &entering, now) {
            Ok(client_id) => Ok((room_id, client_id)),
            Err(e) => {
                assert(false);
                Err(e)
            },
        }
    }
}

} // verus!
