//! Rooms: the registry of a room's members, admission, relay and host
//! migration.

use crate::client::{bytes_equal, idle_at, Client, ClientSession, SessionView};
use crate::error::RelayError;
use crate::id::{IdPool, MemoryIdPool};
use crate::table::{is_lowest, lists_rising, IdTable};
use vstd::prelude::*;

verus! {

/// The registry of a room's members: a map from client identifier to session.
pub struct ClientManager {
    clients: IdTable<ClientSession>,
}

/// The sessions of a table as plain values.
pub open spec fn sessions_view(sessions: Map<u16, ClientSession>) -> Map<u16, SessionView> {
    sessions.map_values(|s: ClientSession| s@)
}

impl View for ClientManager {
    type V = Map<u16, SessionView>;

    closed spec fn view(&self) -> Map<u16, SessionView> {
        sessions_view(self.clients.map())
    }
}

/// The members that have been silent for longer than `idle_timeout` at `now`.
pub open spec fn idle_set(members: Map<u16, SessionView>, now: u64, idle_timeout: u64) -> Set<u16> {
    Set::new(|id: u16| members.dom().contains(id) && idle_at(members[id], now, idle_timeout))
}

/// The session after it was heard from at `now`.
pub open spec fn touched(session: SessionView, now: u64) -> SessionView {
    SessionView {
        last_activity: if now > session.last_activity {
            now
        } else {
            session.last_activity
        },
        ..session
    }
}

impl ClientManager {
    /// The internal invariant: it holds of every registry that this module hands out.
    pub closed spec fn wf(&self) -> bool {
        self.clients.wf()
    }

    /// A registry without members.
    pub fn new() -> (registry: Self)
        ensures
            registry.wf(),
            registry@ == Map::<u16, SessionView>::empty(),
    {
        let registry = ClientManager { clients: IdTable::new() };
        assert(registry@ =~= Map::<u16, SessionView>::empty());
        registry
    }

    /// The session of the member.
    pub fn get(&self, client_id: u16) -> (found: Result<&ClientSession, RelayError>)
        requires
            self.wf(),
        ensures
            match found {
                Ok(session) => self@.dom().contains(client_id) && session@ == self@[client_id],
                Err(e) => e == RelayError::UnknownClient && !self@.dom().contains(client_id),
            },
    {
        match self.clients.get(client_id) {
            Some(session) => Ok(session),
            None => Err(RelayError::UnknownClient),
        }
    }

    /// Registers a session under the identifier, unless the identifier is taken.
    pub fn add(&mut self, client_id: u16, session: ClientSession) -> (done: Result<
        (),
        RelayError,
    >)
        requires
            old(self).wf(),
        ensures
            final(self).wf(),
            match done {
                Ok(_) => !old(self)@.dom().contains(client_id) && final(self)@ == old(
                    self,
                )@.insert(client_id, session@),
                Err(e) => e == RelayError::DuplicateClient && old(self)@.dom().contains(
                    client_id,
                ) && final(self)@ == old(self)@,
            },
    {
        if self.clients.contains(client_id) {
            return Err(RelayError::DuplicateClient);
        }
        let ghost before = self@;
        self.clients.insert(client_id, session);
        assert(self@ =~= before.insert(client_id, session@));
        Ok(())
    }

    /// Takes the member out of the registry.
    pub fn remove(&mut self, client_id: u16) -> (done: Result<(), RelayError>)
        requires
            old(self).wf(),
        ensures
            final(self).wf(),
            match done {
                Ok(_) => old(self)@.dom().contains(client_id) && final(self)@ == old(
                    self,
                )@.remove(client_id),
                Err(e) => e == RelayError::UnknownClient && !old(self)@.dom().contains(
                    client_id,
                ) && final(self)@ == old(self)@,
            },
    {
        let ghost before = self@;
        match self.clients.remove(client_id) {
            Some(_) => {
                assert(self@ =~= before.remove(client_id));
                Ok(())
            },
            None => {
                assert(self@ =~= before);
                Err(RelayError::UnknownClient)
            },
        }
    }

    /// Whether a member is registered under the identifier.
    pub fn contains(&self, client_id: u16) -> (present: bool)
        requires
            self.wf(),
        ensures
            present == self@.dom().contains(client_id),
    {
        self.clients.contains(client_id)
    }

    /// The number of members.
    pub fn count(&self) -> (n: u16)
        requires
            self.wf(),
            self@.dom().len() <= u16::MAX,
        ensures
            n == self@.dom().len(),
    {
        assert(self@.dom() =~= self.clients.map().dom());
        self.clients.len() as u16
    }

    /// The number of members, as a size.
    pub fn len(&self) -> (n: usize)
        requires
            self.wf(),
        ensures
            n == self@.dom().len(),
            n <= crate::id::ID_UNIVERSE,
    {
        assert(self@.dom() =~= self.clients.map().dom());
        self.clients.len()
    }

    /// Removes every member.
    pub fn clear(&mut self)
        ensures
            final(self).wf(),
            final(self)@ == Map::<u16, SessionView>::empty(),
    {
        self.clients.clear();
        assert(self@ =~= Map::<u16, SessionView>::empty());
    }

    /// The member with the lowest identifier.
    pub fn first(&self) -> (found: Result<&ClientSession, RelayError>)
        requires
            self.wf(),
        ensures
            match found {
                Ok(session) => exists|id: u16|
                    is_lowest(self@.dom(), id) && session@ == #[trigger] self@[id],
                Err(e) => e == RelayError::Empty && self@.dom().is_empty(),
            },
    {
        assert(self@.dom() =~= self.clients.map().dom());
        match self.clients.first_id() {
            None => Err(RelayError::Empty),
            Some(id) => {
                match self.clients.get(id) {
                    Some(session) => {
                        assert(is_lowest(self@.dom(), id) && session@ == self@[id]);
                        Ok(session)
                    },
                    None => Err(RelayError::Empty),
                }
            },
        }
    }

    /// The lowest identifier that is registered, if any is.
    pub fn first_id(&self) -> (lowest: Option<u16>)
        requires
            self.wf(),
        ensures
            match lowest {
                Some(id) => is_lowest(self@.dom(), id),
                None => self@.dom().is_empty(),
            },
    {
        assert(self@.dom() =~= self.clients.map().dom());
        self.clients.first_id()
    }

    /// The identifiers of the members, lowest first.
    pub fn ids(&self) -> (ids: Vec<u16>)
        requires
            self.wf(),
        ensures
            lists_rising(ids@, self@.dom()),
            ids@.len() == self@.dom().len(),
    {
        assert(self@.dom() =~= self.clients.map().dom());
        self.clients.ids()
    }

    /// Records that the member was heard from at `now`.
    pub fn touch(&mut self, client_id: u16, now: u64) -> (done: Result<(), RelayError>)
        requires
            old(self).wf(),
        ensures
            final(self).wf(),
            match done {
                Ok(_) => old(self)@.dom().contains(client_id) && final(self)@ == old(
                    self,
                )@.insert(client_id, touched(old(self)@[client_id], now)),
                Err(e) => e == RelayError::UnknownClient && !old(self)@.dom().contains(
                    client_id,
                ) && final(self)@ == old(self)@,
            },
    {
        let ghost before = self@;
        match self.clients.remove(client_id) {
            None => {
                assert(self@ =~= before);
                Err(RelayError::UnknownClient)
            },
            Some(session) => {
                let mut session = session;
                session.touch(now);
                self.clients.insert(client_id, session);
                assert(self@ =~= before.insert(client_id, touched(before[client_id], now)));
                Ok(())
            },
        }
    }

    /// The members that have been silent for longer than `idle_timeout` at
    /// `now`, lowest identifier first.
    pub fn idle_ids(&self, now: u64, idle_timeout: u64) -> (ids: Vec<u16>)
        requires
            self.wf(),
        ensures
            lists_rising(ids@, idle_set(self@, now, idle_timeout)),
    {
        let everyone = self.clients.ids();
        let mut ids: Vec<u16> = Vec::new();
        let ghost mut from: Seq<int> = Seq::empty();
        let mut i: usize = 0;
        while i < everyone.len()
            invariant
                self.wf(),
                lists_rising(everyone@, self.clients.map().dom()),
                i <= everyone.len(),
                from.len() == ids@.len(),
                forall|k: int|
                    0 <= k < from.len() ==> 0 <= #[trigger] from[k] < i && ids@[k]
                        == everyone@[from[k]] && idle_set(self@, now, idle_timeout).contains(
                        ids@[k],
                    ),
                forall|k: int, l: int| 0 <= k < l < from.len() ==> from[k] < from[l],
                forall|j: int|
                    0 <= j < i && idle_set(self@, now, idle_timeout).contains(
                        #[trigger] everyone@[j],
                    ) ==> ids@.contains(everyone@[j]),
            decreases everyone.len() - i,
        {
            let id = everyone[i];
            assert(everyone@.contains(id));
            let idle = match self.clients.get(id) {
                Some(session) => session.is_idle(now, idle_timeout),
                None => false,
            };
            if idle {
                let ghost earlier = ids@;
                ids.push(id);
                proof {
                    from = from.push(i as int);
                    assert forall|j: int|
                        0 <= j < i + 1 && idle_set(self@, now, idle_timeout).contains(
                            #[trigger] everyone@[j],
                        ) implies ids@.contains(everyone@[j]) by {
                        if j < i {
                            let k = choose|k: int|
                                0 <= k < earlier.len() && earlier[k] == everyone@[j];
                            assert(ids@[k] == everyone@[j]);
                        } else {
                            assert(ids@[ids@.len() - 1] == everyone@[j]);
                        }
                    }
                }
            }
            i += 1;
        }
        proof {
            let want = idle_set(self@, now, idle_timeout);
            assert forall|k: int, l: int| 0 <= k < l < ids@.len() implies ids@[k] < ids@[l] by {
                assert(from[k] < from[l]);
            }
            assert forall|id: u16| ids@.contains(id) <==> want.contains(id) by {
                if ids@.contains(id) {
                    let k = choose|k: int| 0 <= k < ids@.len() && ids@[k] == id;
                    assert(0 <= from[k] < everyone@.len());
                    assert(want.contains(ids@[k]));
                }
                if want.contains(id) {
                    assert(everyone@.contains(id));
                    let j = choose|j: int| 0 <= j < everyone@.len() && everyone@[j] == id;
                    assert(ids@.contains(everyone@[j]));
                }
            }
        }
        ids
    }
}

/// The list without one identifier.
fn without(ids: &Vec<u16>, skip: u16) -> (rest: Vec<u16>)
    requires
        forall|i: int, j: int| 0 <= i < j < ids@.len() ==> ids@[i] < ids@[j],
    ensures
        forall|i: int, j: int| 0 <= i < j < rest@.len() ==> rest@[i] < rest@[j],
        forall|id: u16| rest@.contains(id) <==> ids@.contains(id) && id != skip,
{
    let mut rest: Vec<u16> = Vec::new();
    let ghost mut from: Seq<int> = Seq::empty();
    let mut i: usize = 0;
    while i < ids.len()
        invariant
            i <= ids.len(),
            from.len() == rest@.len(),
            forall|k: int|
                0 <= k < from.len() ==> 0 <= #[trigger] from[k] < i && rest@[k] == ids@[from[k]]
                    && rest@[k] != skip,
            forall|k: int, l: int| 0 <= k < l < from.len() ==> from[k] < from[l],
            forall|j: int| 0 <= j < i && #[trigger] ids@[j] != skip ==> rest@.contains(ids@[j]),
        decreases ids.len() - i,
    {
        if ids[i] != skip {
            let ghost earlier = rest@;
            rest.push(ids[i]);
            proof {
                from = from.push(i as int);
                assert forall|j: int| 0 <= j < i + 1 && #[trigger] ids@[j] != skip implies rest@.contains(
                    ids@[j],
                ) by {
                    if j < i {
                        let k = choose|k: int| 0 <= k < earlier.len() && earlier[k] == ids@[j];
                        assert(rest@[k] == ids@[j]);
                    } else {
                        assert(rest@[rest@.len() - 1] == ids@[j]);
                    }
                }
            }
        }
        i += 1;
    }
    proof {
        assert forall|k: int, l: int| 0 <= k < l < rest@.len() implies rest@[k] < rest@[l] by {
            assert(from[k] < from[l]);
        }
        assert forall|id: u16| rest@.contains(id) <==> ids@.contains(id) && id != skip by {
            if rest@.contains(id) {
                let k = choose|k: int| 0 <= k < rest@.len() && rest@[k] == id;
                assert(ids@[from[k]] == id);
            }
            if ids@.contains(id) && id != skip {
                let j = choose|j: int| 0 <= j < ids@.len() && ids@[j] == id;
                assert(rest@.contains(ids@[j]));
            }
        }
    }
    rest
}

/// Appends one delivery of the payload for each recipient.
fn queue_batch(outbox: &mut Vec<Delivery>, from: u16, payload: &[u8], recipients: &Vec<u16>)
    ensures
        deliveries_view(final(outbox)@) == deliveries_view(old(outbox)@) + batch(
            from,
            payload@,
            recipients@,
        ),
{
    let ghost before = deliveries_view(outbox@);
    let mut i: usize = 0;
    while i < recipients.len()
        invariant
            i <= recipients.len(),
            deliveries_view(outbox@) == before + batch(from, payload@, recipients@.take(i as int)),
        decreases recipients.len() - i,
    {
        let ghost queued = outbox@;
        outbox.push(Delivery { from, to: recipients[i], payload: vstd::slice::slice_to_vec(payload) });
        proof {
            assert(deliveries_view(outbox@) =~= deliveries_view(queued).push(outbox@.last()@));
            assert(batch(from, payload@, recipients@.take(i + 1)) =~= batch(
                from,
                payload@,
                recipients@.take(i as int),
            ).push(outbox@.last()@));
        }
        i += 1;
    }
}

/// The lowest identifier of `ids` that is not below `from`, if there is one.
pub open spec fn lowest_from(ids: Set<u16>, from: nat) -> Option<u16>
    decreases 65536 - from,
{
    if from > 65535 {
        None
    } else if ids.contains(from as u16) {
        Some(from as u16)
    } else {
        lowest_from(ids, from + 1)
    }
}

/// The lowest identifier of `ids`, if `ids` has any.
pub open spec fn lowest_of(ids: Set<u16>) -> Option<u16> {
    lowest_from(ids, 0)
}

proof fn lemma_lowest_from(ids: Set<u16>, from: nat)
    ensures
        match lowest_from(ids, from) {
            Some(id) => ids.contains(id) && from <= id && forall|other: u16|
                ids.contains(other) && from <= other ==> id <= other,
            None => forall|other: u16| ids.contains(other) ==> other < from,
        },
    decreases 65536 - from,
{
    if from <= 65535 && !ids.contains(from as u16) {
        lemma_lowest_from(ids, from + 1);
    }
}

/// `lowest_of` gives the one identifier that `is_lowest` holds of, and `None`
/// exactly for the empty set.
pub proof fn lemma_lowest_of(ids: Set<u16>)
    ensures
        match lowest_of(ids) {
            Some(id) => is_lowest(ids, id),
            None => ids.is_empty(),
        },
        forall|id: u16| is_lowest(ids, id) ==> lowest_of(ids) == Some(id),
{
    lemma_lowest_from(ids, 0);
    if lowest_of(ids) is None {
        assert(ids =~= Set::<u16>::empty());
    }
}

/// The lifecycle of a room.
#[derive(Clone, Copy, Debug, PartialEq, Eq, Structural)]
pub enum RoomState {
    /// Created; nobody has joined yet.
    Forming,
    /// At least one member, one of them the host.
    Active,
    /// Every member has left; the room waits for someone to come back.
    Draining,
    /// Terminal: no members, every identifier free.
    Closed,
}

/// How many members a room needs, besides having a host, to be ready.
pub const MIN_READY_MEMBERS: usize = 1;

/// What a room's configuration is, as plain values.
pub struct RoomConfigView {
    pub room_id: u16,
    pub application_name: Seq<char>,
    pub version: Seq<char>,
    pub password: Seq<char>,
    pub max_user: u16,
    pub info: Seq<(Seq<char>, Seq<char>)>,
    pub token: Seq<u8>,
}

/// The fixed settings of a room. They are given when the room is made and
/// never change.
#[derive(Debug)]
pub struct RoomConfig {
    room_id: u16,
    application_name: String,
    version: String,
    password: String,
    max_user: u16,
    info: Vec<(String, String)>,
    token: Vec<u8>,
}

/// A list of text pairs as plain values.
pub open spec fn pairs_view(pairs: Seq<(String, String)>) -> Seq<(Seq<char>, Seq<char>)> {
    pairs.map_values(|p: (String, String)| (p.0@, p.1@))
}

impl View for RoomConfig {
    type V = RoomConfigView;

    closed spec fn view(&self) -> RoomConfigView {
        RoomConfigView {
            room_id: self.room_id,
            application_name: self.application_name@,
            version: self.version@,
            password: self.password@,
            max_user: self.max_user,
            info: pairs_view(self.info@),
            token: self.token@,
        }
    }
}

impl RoomConfig {
    /// The settings of a room. `password` is the stored hash of the room's
    /// password, empty when the room asks for none; `token` is the join token,
    /// empty when the room asks for none.
    pub fn new(
        room_id: u16,
        application_name: String,
        version: String,
        password: String,
        max_user: u16,
        info: Vec<(String, String)>,
        token: Vec<u8>,
    ) -> (config: Self)
        ensures
            config@ == (RoomConfigView {
                room_id,
                application_name: application_name@,
                version: version@,
                password: password@,
                max_user,
                info: pairs_view(info@),
                token: token@,
            }),
    {
        RoomConfig { room_id, application_name, version, password, max_user, info, token }
    }

    /// The room's identifier.
    pub fn room_id(&self) -> (id: u16)
        ensures
            id == self@.room_id,
    {
        self.room_id
    }

    /// The most members the room takes.
    pub fn max_user(&self) -> (n: u16)
        ensures
            n == self@.max_user,
    {
        self.max_user
    }

    /// The name of the application the room belongs to.
    pub fn application_name(&self) -> (name: &String)
        ensures
            name@ == self@.application_name,
    {
        &self.application_name
    }

    /// The application version the room runs.
    pub fn version(&self) -> (version: &String)
        ensures
            version@ == self@.version,
    {
        &self.version
    }

    /// Whether joining the room takes a password.
    pub fn requires_password(&self) -> (needed: bool)
        ensures
            needed == (self@.password.len() > 0),
    {
        !self.password.as_str().is_empty()
    }

    /// The room's metadata.
    pub fn info(&self) -> (info: &Vec<(String, String)>)
        ensures
            pairs_view(info@) == self@.info,
    {
        &self.info
    }

    /// The join token.
    pub fn token(&self) -> (token: &Vec<u8>)
        ensures
            token@ == self@.token,
    {
        &self.token
    }
}

/// What a join request is, as plain values.
pub struct JoinRequestView {
    pub room_id: u16,
    pub application_name: Seq<char>,
    pub version: Seq<char>,
    pub password: Seq<char>,
    pub token: Option<Seq<u8>>,
    pub info: Seq<(Seq<char>, Seq<char>)>,
}

/// What a client presents to enter a room. `password` is the hash of the
/// password that the client gave, in the form in which rooms store theirs.
#[derive(Debug)]
pub struct JoinRequest {
    pub room_id: u16,
    pub application_name: String,
    pub version: String,
    pub password: String,
    pub token: Option<Vec<u8>>,
    pub info: Vec<(String, String)>,
}

impl View for JoinRequest {
    type V = JoinRequestView;

    open spec fn view(&self) -> JoinRequestView {
        JoinRequestView {
            room_id: self.room_id,
            application_name: self.application_name@,
            version: self.version@,
            password: self.password@,
            token: match self.token {
                Some(t) => Some(t@),
                None => None,
            },
            info: pairs_view(self.info@),
        }
    }
}

/// Whether the request shows the password and the token that the room asks
/// for. A room with an empty password asks for none, and likewise for the token.
pub open spec fn credentials_match(config: RoomConfigView, request: JoinRequestView) -> bool {
    &&& config.password.len() == 0 || request.password == config.password
    &&& config.token.len() == 0 || request.token == Some(config.token)
}

/// Why the room's settings refuse the request, if they do.
pub open spec fn request_verdict(config: RoomConfigView, request: JoinRequestView) -> Option<
    RelayError,
> {
    if request.application_name != config.application_name || request.version != config.version {
        Some(RelayError::VersionMismatch)
    } else if !credentials_match(config, request) {
        Some(RelayError::AuthFailed)
    } else {
        None
    }
}

/// Whom a relayed payload is for.
#[derive(Clone, Copy, Debug, PartialEq, Eq, Structural)]
pub enum RelayTarget {
    /// Every member but the sender.
    Broadcast,
    /// The one member with this identifier.
    Client(u16),
}

/// What a delivery is, as plain values.
pub struct DeliveryView {
    pub from: u16,
    pub to: u16,
    pub payload: Seq<u8>,
}

/// One payload on its way to one member.
#[derive(Debug)]
pub struct Delivery {
    pub from: u16,
    pub to: u16,
    pub payload: Vec<u8>,
}

impl View for Delivery {
    type V = DeliveryView;

    open spec fn view(&self) -> DeliveryView {
        DeliveryView { from: self.from, to: self.to, payload: self.payload@ }
    }
}

/// A queue of deliveries as plain values.
pub open spec fn deliveries_view(queue: Seq<Delivery>) -> Seq<DeliveryView> {
    queue.map_values(|d: Delivery| d@)
}

/// One delivery of `payload` from `from` to each of `recipients`, in their order.
pub open spec fn batch(from: u16, payload: Seq<u8>, recipients: Seq<u16>) -> Seq<DeliveryView> {
    Seq::new(recipients.len(), |i: int| DeliveryView { from, to: recipients[i], payload })
}

/// The state of a room, as plain values.
#[verifier::ext_equal]
pub struct RoomView {
    pub config: RoomConfigView,
    /// The registry: who is in the room.
    pub members: Map<u16, SessionView>,
    /// The identifiers that the room's pool can still hand out.
    pub free_ids: Set<u16>,
    /// The member that currently has authority, if any.
    pub host: Option<u16>,
    /// The member that formed the room, while it is connected.
    pub creator: Option<u16>,
    pub ready: bool,
    pub state: RoomState,
    /// Since when an empty room has been seen to drain.
    pub drain_started: Option<u64>,
    /// The deliveries that relay has queued, oldest first.
    pub outbox: Seq<DeliveryView>,
}

/// Whether a room with this host and this many members is ready.
pub open spec fn ready_rule(host: Option<u16>, count: nat) -> bool {
    host is Some && count >= MIN_READY_MEMBERS
}

/// What holds of every room between two operations.
pub open spec fn room_invariant(v: RoomView) -> bool {
    &&& v.members.dom().finite()
    &&& v.members.dom().len() <= v.config.max_user
    &&& v.free_ids == Set::<u16>::full().difference(v.members.dom())
    &&& forall|id: u16| v.members.dom().contains(id) ==> (#[trigger] v.members[id]).client_id == id
    &&& match v.host {
        Some(h) => v.members.dom().contains(h),
        None => v.members.dom().is_empty(),
    }
    &&& (v.state == RoomState::Active) == (v.host is Some)
    &&& v.ready == ready_rule(v.host, v.members.dom().len())
    &&& v.creator matches Some(c) ==> v.members.dom().contains(c)
    &&& v.drain_started is Some ==> v.state == RoomState::Draining
}

/// A room that was just made: no members, no host, every identifier free.
pub open spec fn forming(config: RoomConfigView) -> RoomView {
    RoomView {
        config,
        members: Map::<u16, SessionView>::empty(),
        free_ids: Set::<u16>::full(),
        host: None,
        creator: None,
        ready: false,
        state: RoomState::Forming,
        drain_started: None,
        outbox: Seq::<DeliveryView>::empty(),
    }
}

/// Why a room in state `v` refuses the session with this request, if it does.
pub open spec fn join_verdict(v: RoomView, session: SessionView, request: JoinRequestView) -> Option<
    RelayError,
> {
    if v.state == RoomState::Closed {
        Some(RelayError::RoomClosed)
    } else if v.members.dom().len() == v.config.max_user {
        Some(RelayError::RoomFull)
    } else if v.members.dom().contains(session.client_id) {
        Some(RelayError::DuplicateClient)
    } else {
        request_verdict(v.config, request)
    }
}

/// The room after the session has entered it. The session's identifier leaves
/// the pool. A room without a host makes the newcomer its host, and a room that
/// was forming makes it its creator.
pub open spec fn joined(v: RoomView, session: SessionView) -> RoomView {
    let host = if v.host is None {
        Some(session.client_id)
    } else {
        v.host
    };
    let members = v.members.insert(session.client_id, session);
    RoomView {
        members,
        free_ids: v.free_ids.remove(session.client_id),
        host,
        creator: if v.state == RoomState::Forming {
            Some(session.client_id)
        } else {
            v.creator
        },
        ready: ready_rule(host, members.dom().len()),
        state: RoomState::Active,
        drain_started: None,
        ..v
    }
}

/// The host after the membership has shrunk to `members`: the old host while
/// it is still a member, else the lowest identifier that is left.
pub open spec fn host_after(host: Option<u16>, members: Set<u16>) -> Option<u16> {
    match host {
        Some(h) if members.contains(h) => host,
        _ => lowest_of(members),
    }
}

/// The room after the members in `gone` have left it. Their identifiers go
/// back to the pool. A room that loses its last member starts to drain.
pub open spec fn departed(v: RoomView, gone: Set<u16>) -> RoomView {
    let members = v.members.remove_keys(gone);
    let host = host_after(v.host, members.dom());
    let emptied = !v.members.dom().is_empty() && members.dom().is_empty();
    RoomView {
        members,
        free_ids: v.free_ids.union(gone.intersect(v.members.dom())),
        host,
        creator: match v.creator {
            Some(c) if !gone.contains(c) => v.creator,
            _ => None,
        },
        ready: ready_rule(host, members.dom().len()),
        state: if emptied {
            RoomState::Draining
        } else {
            v.state
        },
        ..v
    }
}

/// A logical multiplayer session: its members, its host and its relay queue.
pub struct Room {
    clients: ClientManager,
    id_pool: MemoryIdPool,
    host: Option<u16>,
    config: RoomConfig,
    creator: Option<u16>,
    ready: bool,
    state: RoomState,
    drain_started: Option<u64>,
    outbox: Vec<Delivery>,
}

impl View for Room {
    type V = RoomView;

    closed spec fn view(&self) -> RoomView {
        RoomView {
            config: self.config@,
            members: self.clients@,
            free_ids: self.id_pool@,
            host: self.host,
            creator: self.creator,
            ready: self.ready,
            state: self.state,
            drain_started: self.drain_started,
            outbox: deliveries_view(self.outbox@),
        }
    }
}

impl Room {
    /// The internal invariant: it holds of every room that this module hands out.
    pub closed spec fn wf(&self) -> bool {
        self.clients.wf() && room_invariant(self@)
    }

    /// What the internal invariant says of the room's state.
    pub proof fn lemma_wf(&self)
        requires
            self.wf(),
        ensures
            room_invariant(self@),
    {
    }

    /// A forming room: no members, no host, every identifier free.
    pub fn new(config: RoomConfig) -> (room: Self)
        ensures
            room.wf(),
            room@ == forming(config@),
    {
        let room = Room {
            clients: ClientManager::new(),
            id_pool: MemoryIdPool::new(),
            host: None,
            config,
            creator: None,
            ready: false,
            state: RoomState::Forming,
            drain_started: None,
            outbox: Vec::new(),
        };
        assert(room@.outbox =~= Seq::<DeliveryView>::empty());
        assert(room@.free_ids =~= Set::<u16>::full().difference(room@.members.dom()));
        room
    }

    /// Whether the room's settings accept the request.
    pub fn check_request(&self, request: &JoinRequest) -> (verdict: Option<RelayError>)
        ensures
            verdict == request_verdict(self@.config, request@),
    {
        if request.application_name != self.config.application_name || request.version
            != self.config.version {
            return Some(RelayError::VersionMismatch);
        }
        let password_ok = self.config.password.as_str().is_empty() || request.password
            == self.config.password;
        let token_ok = self.config.token.len() == 0 || match &request.token {
            Some(t) => bytes_equal(t.as_slice(), self.config.token.as_slice()),
            None => false,
        };
        if password_ok && token_ok {
            None
        } else {
            Some(RelayError::AuthFailed)
        }
    }

    /// Lets the session into the room.
    pub fn join(&mut self, session: ClientSession, request: &JoinRequest) -> (done: Result<
        (),
        RelayError,
    >)
        requires
            old(self).wf(),
        ensures
            final(self).wf(),
            match join_verdict(old(self)@, session@, request@) {
                Some(e) => done == Err::<(), RelayError>(e) && final(self)@ == old(self)@,
                None => done is Ok && final(self)@ == joined(old(self)@, session@),
            },
    {
        if self.state == RoomState::Closed {
            return Err(RelayError::RoomClosed);
        }
        if self.clients.count() == self.config.max_user {
            return Err(RelayError::RoomFull);
        }
        let id = session.get_id();
        if self.clients.contains(id) {
            return Err(RelayError::DuplicateClient);
        }
        if let Some(e) = self.check_request(request) {
            return Err(e);
        }
        self.id_pool.reserve(id);
        self.seat(session);
        Ok(())
    }

    /// Takes the member out of the room. Its identifier goes back to the pool;
    /// if it was the host, the member with the lowest identifier takes over.
    pub fn leave(&mut self, client_id: u16) -> (done: Result<(), RelayError>)
        requires
            old(self).wf(),
        ensures
            final(self).wf(),
            match done {
                Ok(_) => old(self)@.members.dom().contains(client_id) && final(self)@ == departed(
                    old(self)@,
                    set![client_id],
                ),
                Err(e) => e == RelayError::UnknownClient && !old(self)@.members.dom().contains(
                    client_id,
                ) && final(self)@ == old(self)@,
            },
    {
        let ghost before = self@;
        if self.clients.remove(client_id).is_err() {
            return Err(RelayError::UnknownClient);
        }
        self.id_pool.return_id(client_id);
        if self.host == Some(client_id) {
            self.host = self.clients.first_id();
        }
        if self.creator == Some(client_id) {
            self.creator = None;
        }
        if self.host.is_none() {
            self.state = RoomState::Draining;
        }
        self.ready = self.host.is_some() && self.clients.len() >= MIN_READY_MEMBERS;
        proof {
            let gone = set![client_id];
            let after = departed(before, gone);
            lemma_lowest_of(self@.members.dom());
            assert(self@.members =~= before.members.remove_keys(gone));
            assert(gone.intersect(before.members.dom()) =~= gone);
            assert(self@.free_ids =~= before.free_ids.union(gone));
            assert(self@.free_ids =~= Set::<u16>::full().difference(self@.members.dom()));
            assert(self@ =~= after);
        }
        Ok(())
    }
}

/// Whether relay refuses: the sender, or the one member that is addressed, is
/// not in the room.
pub open spec fn relay_refused(members: Set<u16>, sender: u16, target: RelayTarget) -> bool {
    !members.contains(sender) || (target matches RelayTarget::Client(to) && !members.contains(to))
}

/// Whether `recipients` are the members that the target addresses: for a
/// broadcast every member but the sender, lowest identifier first.
pub open spec fn addressed(
    members: Set<u16>,
    sender: u16,
    target: RelayTarget,
    recipients: Seq<u16>,
) -> bool {
    match target {
        RelayTarget::Broadcast => lists_rising(recipients, members.remove(sender)),
        RelayTarget::Client(to) => recipients == seq![to],
    }
}

/// The room after a payload from `sender` was queued for `recipients`: one
/// delivery for each, behind everything that was queued before.
pub open spec fn relayed(v: RoomView, sender: u16, payload: Seq<u8>, recipients: Seq<u16>) -> RoomView {
    RoomView { outbox: v.outbox + batch(sender, payload, recipients), ..v }
}

/// Why a room in state `v` refuses to take in a new connection, if it does.
pub open spec fn enroll_verdict(v: RoomView, request: JoinRequestView) -> Option<RelayError> {
    if v.state == RoomState::Closed {
        Some(RelayError::RoomClosed)
    } else if v.members.dom().len() == v.config.max_user {
        Some(RelayError::RoomFull)
    } else if request_verdict(v.config, request) is Some {
        request_verdict(v.config, request)
    } else if v.free_ids.is_empty() {
        Some(RelayError::ResourceExhausted)
    } else {
        None
    }
}

/// The room after it was shut: nobody in it, every identifier free.
pub open spec fn shut(v: RoomView) -> RoomView {
    RoomView {
        members: Map::<u16, SessionView>::empty(),
        free_ids: Set::<u16>::full(),
        host: None,
        creator: None,
        ready: false,
        state: RoomState::Closed,
        drain_started: None,
        ..v
    }
}

/// What the passing of time does to a draining room: the first look at it
/// starts the grace window, and a look `drain_grace` or more later shuts it.
pub open spec fn drain_clock(v: RoomView, now: u64, drain_grace: u64) -> RoomView {
    if v.state == RoomState::Draining {
        match v.drain_started {
            None => RoomView { drain_started: Some(now), ..v },
            Some(since) => if now - since >= drain_grace {
                shut(v)
            } else {
                v
            },
        }
    } else {
        v
    }
}

/// The room after maintenance at `now`: the members that have been silent for
/// longer than `idle_timeout` have left, and then the drain clock has run.
pub open spec fn ticked(v: RoomView, now: u64, idle_timeout: u64, drain_grace: u64) -> RoomView {
    drain_clock(departed(v, idle_set(v.members, now, idle_timeout)), now, drain_grace)
}

/// Removing nobody changes nothing.
pub proof fn lemma_departed_nobody(v: RoomView)
    requires
        room_invariant(v),
    ensures
        departed(v, Set::<u16>::empty()) == v,
{
    let after = departed(v, Set::<u16>::empty());
    lemma_lowest_of(v.members.dom());
    assert(after.members =~= v.members);
    assert(after.free_ids =~= v.free_ids);
    assert(after =~= v);
}

/// Members may leave one after the other or all at once: the room ends up the same.
pub proof fn lemma_departed_step(v: RoomView, gone: Set<u16>, next: u16)
    requires
        room_invariant(v),
        v.members.dom().contains(next),
        !gone.contains(next),
    ensures
        departed(departed(v, gone), set![next]) == departed(v, gone.insert(next)),
{
    let mid = departed(v, gone);
    let one = departed(mid, set![next]);
    let all = departed(v, gone.insert(next));
    lemma_lowest_of(v.members.dom());
    lemma_lowest_of(mid.members.dom());
    lemma_lowest_of(all.members.dom());
    assert(mid.members.dom().contains(next));
    assert(one.members =~= all.members);
    assert(one.free_ids =~= all.free_ids);
    assert(one.host == all.host) by {
        match mid.host {
            Some(h) => {
                if all.members.dom().contains(h) {
                    if !(v.host == Some(h)) {
                        assert(is_lowest(mid.members.dom(), h));
                        assert(is_lowest(all.members.dom(), h));
                    }
                }
            },
            None => {},
        }
    }
    assert(one =~= all);
}

impl Room {
    /// Seats a session whose identifier has just left the pool.
    fn seat(&mut self, session: ClientSession)
        requires
            old(self).clients.wf(),
            !old(self)@.free_ids.contains(session@.client_id),
            room_invariant(
                RoomView {
                    free_ids: old(self)@.free_ids.insert(session@.client_id),
                    ..old(self)@
                },
            ),
            old(self)@.state != RoomState::Closed,
            old(self)@.members.dom().len() < old(self)@.config.max_user,
            !old(self)@.members.dom().contains(session@.client_id),
        ensures
            final(self).wf(),
            final(self)@ == joined(
                RoomView {
                    free_ids: old(self)@.free_ids.insert(session@.client_id),
                    ..old(self)@
                },
                session@,
            ),
    {
        let id = session.get_id();
        let ghost before = RoomView { free_ids: self@.free_ids.insert(id), ..self@ };
        let ghost entering = session@;
        let _ = self.clients.add(id, session);
        if self.host.is_none() {
            self.host = Some(id);
        }
        if self.state == RoomState::Forming {
            self.creator = Some(id);
        }
        self.state = RoomState::Active;
        self.drain_started = None;
        self.ready = self.clients.len() >= MIN_READY_MEMBERS;
        proof {
            assert(self@.free_ids =~= before.free_ids.remove(id));
            assert(self@.free_ids =~= Set::<u16>::full().difference(self@.members.dom()));
            assert(self@ =~= joined(before, entering));
        }
    }

    /// Lets a new connection into the room under an identifier drawn from the
    /// room's pool, and returns that identifier.
    pub fn enroll(&mut self, connection_id: Vec<u8>, now: u64, request: &JoinRequest) -> (done:
        Result<u16, RelayError>)
        requires
            old(self).wf(),
        ensures
            final(self).wf(),
            match enroll_verdict(old(self)@, request@) {
                Some(e) => done == Err::<u16, RelayError>(e) && final(self)@ == old(self)@,
                None => done matches Ok(id) && old(self)@.free_ids.contains(id) && final(self)@
                    == joined(
                    old(self)@,
                    SessionView { client_id: id, connection_id: connection_id@, last_activity: now },
                ),
            },
    {
        if self.state == RoomState::Closed {
            return Err(RelayError::RoomClosed);
        }
        if self.clients.count() == self.config.max_user {
            return Err(RelayError::RoomFull);
        }
        if let Some(e) = self.check_request(request) {
            return Err(e);
        }
        match self.id_pool.get_id() {
            None => Err(RelayError::ResourceExhausted),
            Some(id) => {
                self.seat(ClientSession::new(id, connection_id, now));
                Ok(id)
            },
        }
    }

    /// The members that a payload from `sender_id` would go to, in the order
    /// in which relay queues their deliveries.
    pub fn recipients(&self, sender_id: u16, target: RelayTarget) -> (found: Result<
        Vec<u16>,
        RelayError,
    >)
        requires
            self.wf(),
        ensures
            found is Err <==> relay_refused(self@.members.dom(), sender_id, target),
            match found {
                Ok(recipients) => addressed(self@.members.dom(), sender_id, target, recipients@),
                Err(e) => e == RelayError::UnknownClient,
            },
    {
        if !self.clients.contains(sender_id) {
            return Err(RelayError::UnknownClient);
        }
        match target {
            RelayTarget::Broadcast => {
                let everyone = self.clients.ids();
                Ok(without(&everyone, sender_id))
            },
            RelayTarget::Client(to) => {
                if !self.clients.contains(to) {
                    return Err(RelayError::UnknownClient);
                }
                let mut one: Vec<u16> = Vec::new();
                one.push(to);
                assert(one@ =~= seq![to]);
                Ok(one)
            },
        }
    }

    /// Queues a payload from one member for another, or for all the others.
    /// The result lists the recipients in the order in which their deliveries
    /// were queued.
    pub fn relay(&mut self, sender_id: u16, payload: &[u8], target: RelayTarget) -> (sent: Result<
        Vec<u16>,
        RelayError,
    >)
        requires
            old(self).wf(),
        ensures
            final(self).wf(),
            sent is Err <==> relay_refused(old(self)@.members.dom(), sender_id, target),
            match sent {
                Ok(recipients) => addressed(
                    old(self)@.members.dom(),
                    sender_id,
                    target,
                    recipients@,
                ) && final(self)@ == relayed(old(self)@, sender_id, payload@, recipients@),
                Err(e) => e == RelayError::UnknownClient && final(self)@ == old(self)@,
            },
    {
        match self.recipients(sender_id, target) {
            Ok(recipients) => {
                queue_batch(&mut self.outbox, sender_id, payload, &recipients);
                Ok(recipients)
            },
            Err(e) => Err(e),
        }
    }

    /// Hands over the deliveries that are queued, oldest first, and empties the queue.
    pub fn drain_outbox(&mut self) -> (queued: Vec<Delivery>)
        requires
            old(self).wf(),
        ensures
            final(self).wf(),
            deliveries_view(queued@) == old(self)@.outbox,
            final(self)@ == (RoomView { outbox: Seq::<DeliveryView>::empty(), ..old(self)@ }),
    {
        let mut queued: Vec<Delivery> = Vec::new();
        std::mem::swap(&mut queued, &mut self.outbox);
        assert(deliveries_view(self.outbox@) =~= Seq::<DeliveryView>::empty());
        queued
    }

    /// Records that the member was heard from at `now`.
    pub fn touch(&mut self, client_id: u16, now: u64) -> (done: Result<(), RelayError>)
        requires
            old(self).wf(),
        ensures
            final(self).wf(),
            match done {
                Ok(_) => old(self)@.members.dom().contains(client_id) && final(self)@ == (RoomView {
                    members: old(self)@.members.insert(
                        client_id,
                        touched(old(self)@.members[client_id], now),
                    ),
                    ..old(self)@
                }),
                Err(e) => e == RelayError::UnknownClient && !old(self)@.members.dom().contains(
                    client_id,
                ) && final(self)@ == old(self)@,
            },
    {
        let ghost before = self@;
        let done = self.clients.touch(client_id, now);
        proof {
            if done is Ok {
                assert(self@.members.dom() =~= before.members.dom());
            }
        }
        done
    }

    /// Shuts the room at once: every member is dropped and every identifier
    /// is free again.
    pub fn close(&mut self)
        ensures
            final(self).wf(),
            final(self)@ == shut(old(self)@),
    {
        self.clients.clear();
        self.id_pool.clear();
        self.host = None;
        self.creator = None;
        self.ready = false;
        self.state = RoomState::Closed;
        self.drain_started = None;
        proof {
            assert(self@.free_ids =~= Set::<u16>::full().difference(self@.members.dom()));
        }
    }

    /// Periodic maintenance. Every member that has been silent for longer than
    /// `idle_timeout` leaves, as by `leave`; then the drain clock runs. The
    /// result lists the members that were made to leave, lowest identifier first.
    pub fn tick(&mut self, now: u64, idle_timeout: u64, drain_grace: u64) -> (expired: Vec<u16>)
        requires
            old(self).wf(),
        ensures
            final(self).wf(),
            lists_rising(expired@, idle_set(old(self)@.members, now, idle_timeout)),
            final(self)@ == ticked(old(self)@, now, idle_timeout, drain_grace),
    {
        let ghost before = self@;
        let ghost idle = idle_set(before.members, now, idle_timeout);
        let expired = self.clients.idle_ids(now, idle_timeout);
        proof {
            lemma_departed_nobody(before);
            assert(expired@.take(0).to_set() =~= Set::<u16>::empty());
        }
        let mut i: usize = 0;
        while i < expired.len()
            invariant
                self.wf(),
                room_invariant(before),
                i <= expired.len(),
                lists_rising(expired@, idle),
                idle == idle_set(before.members, now, idle_timeout),
                self@ == departed(before, expired@.take(i as int).to_set()),
            decreases expired.len() - i,
        {
            let ghost gone = expired@.take(i as int).to_set();
            let next = expired[i];
            proof {
                assert(expired@.contains(next));
                assert(!gone.contains(next)) by {
                    if gone.contains(next) {
                        let k = choose|k: int|
                            0 <= k < expired@.take(i as int).len() && expired@.take(i as int)[k]
                                == next;
                        assert(expired@[k] < expired@[i as int]);
                    }
                }
                lemma_departed_step(before, gone, next);
                assert(expired@.take(i + 1) =~= expired@.take(i as int).push(next));
                expired@.take(i as int).lemma_push_to_set_commute(next);
            }
            let _ = self.leave(next);
            i += 1;
        }
        proof {
            assert(expired@.take(expired@.len() as int) == expired@);
            assert(expired@.to_set() =~= idle);
        }
        if self.state == RoomState::Draining {
            match self.drain_started {
                None => {
                    self.drain_started = Some(now);
                },
                Some(since) => {
                    if now >= since && now - since >= drain_grace {
                        self.close();
                    }
                },
            }
        }
        expired
    }
}

impl Room {
    /// The room's settings.
    pub fn config(&self) -> (config: &RoomConfig)
        ensures
            config@ == self@.config,
    {
        &self.config
    }

    /// The member that currently has authority, if any.
    pub fn host(&self) -> (host: Option<u16>)
        ensures
            host == self@.host,
    {
        self.host
    }

    /// Whether the room has a host and enough members.
    pub fn is_ready(&self) -> (ready: bool)
        ensures
            ready == self@.ready,
    {
        self.ready
    }

    /// Where the room stands in its lifecycle.
    pub fn state(&self) -> (state: RoomState)
        ensures
            state == self@.state,
    {
        self.state
    }

    /// Whether the member that formed the room is still in it.
    pub fn creator_connected(&self) -> (connected: bool)
        ensures
            connected == self@.creator is Some,
    {
        self.creator.is_some()
    }

    /// The number of members.
    pub fn count(&self) -> (n: u16)
        requires
            self.wf(),
        ensures
            n == self@.members.dom().len(),
            n <= self@.config.max_user,
    {
        self.clients.count()
    }

    /// How many identifiers the room's pool can still hand out.
    pub fn free_id_count(&self) -> (n: usize)
        ensures
            n == self@.free_ids.len(),
    {
        self.id_pool.len()
    }

    /// Whether a member is registered under the identifier.
    pub fn has_member(&self, client_id: u16) -> (present: bool)
        requires
            self.wf(),
        ensures
            present == self@.members.dom().contains(client_id),
    {
        self.clients.contains(client_id)
    }

    /// The session of a member.
    pub fn session(&self, client_id: u16) -> (found: Result<&ClientSession, RelayError>)
        requires
            self.wf(),
        ensures
            match found {
                Ok(session) => self@.members.dom().contains(client_id) && session@
                    == self@.members[client_id],
                Err(e) => e == RelayError::UnknownClient && !self@.members.dom().contains(
                    client_id,
                ),
            },
    {
        self.clients.get(client_id)
    }

    /// The identifiers of the members, lowest first.
    pub fn member_ids(&self) -> (ids: Vec<u16>)
        requires
            self.wf(),
        ensures
            lists_rising(ids@, self@.members.dom()),
            ids@.len() == self@.members.dom().len(),
    {
        self.clients.ids()
    }

    /// How many deliveries are queued.
    pub fn pending(&self) -> (n: usize)
        ensures
            n == self@.outbox.len(),
    {
        self.outbox.len()
    }
}

/// Between two operations a room keeps its promises: no member's identifier is
/// free in the pool; the host, if there is one, is a member; a ready room has a
/// host and enough members, so that a room whose host left with nobody to take
/// over is not ready; and the members never outnumber `max_user`.
pub proof fn lemma_room_promises(room: &Room)
    requires
        room.wf(),
    ensures
        room@.members.dom().disjoint(room@.free_ids),
        room@.host matches Some(h) ==> room@.members.dom().contains(h),
        room@.ready ==> room@.host is Some && room@.members.dom().len() >= MIN_READY_MEMBERS,
        room@.host is None ==> !room@.ready,
        room@.members.dom().len() <= room@.config.max_user,
{
}

/// A member that joins and then leaves again leaves the registry and the pool
/// as they were before it joined, and with them their sizes.
pub proof fn lemma_join_then_leave(v: RoomView, session: SessionView, request: JoinRequestView)
    requires
        room_invariant(v),
        join_verdict(v, session, request) is None,
    ensures
        departed(joined(v, session), set![session.client_id]).members == v.members,
        departed(joined(v, session), set![session.client_id]).free_ids == v.free_ids,
        departed(joined(v, session), set![session.client_id]).members.dom().len()
            == v.members.dom().len(),
        departed(joined(v, session), set![session.client_id]).free_ids.len() == v.free_ids.len(),
{
    let back = departed(joined(v, session), set![session.client_id]);
    assert(back.members =~= v.members);
    assert(back.free_ids =~= v.free_ids);
}

/// A broadcast reaches every member but the sender, each of them once, and
/// never the sender.
pub proof fn lemma_broadcast_reaches_the_others(
    members: Set<u16>,
    sender: u16,
    recipients: Seq<u16>,
)
    requires
        members.finite(),
        members.contains(sender),
        addressed(members, sender, RelayTarget::Broadcast, recipients),
    ensures
        recipients.len() == members.len() - 1,
        recipients.no_duplicates(),
        !recipients.contains(sender),
        forall|id: u16| members.contains(id) && id != sender ==> recipients.contains(id),
        forall|i: int| 0 <= i < recipients.len() ==> members.contains(#[trigger] recipients[i]),
{
    crate::table::lemma_lists_rising_len(recipients, members.remove(sender));
    assert forall|i: int| 0 <= i < recipients.len() implies members.contains(
        #[trigger] recipients[i],
    ) by {
        assert(recipients.contains(recipients[i]));
    }
}

/// Relay keeps the order of its calls: after two calls the queue holds what it
/// held before, then the deliveries of the first call, then those of the
/// second, each batch in the order of its recipients.
pub proof fn lemma_relay_keeps_call_order(
    v: RoomView,
    first_sender: u16,
    first_payload: Seq<u8>,
    first_recipients: Seq<u16>,
    second_sender: u16,
    second_payload: Seq<u8>,
    second_recipients: Seq<u16>,
)
    ensures
        relayed(
            relayed(v, first_sender, first_payload, first_recipients),
            second_sender,
            second_payload,
            second_recipients,
        ).outbox == v.outbox + batch(first_sender, first_payload, first_recipients) + batch(
            second_sender,
            second_payload,
            second_recipients,
        ),
        forall|i: int|
            0 <= i < first_recipients.len() ==> relayed(
                relayed(v, first_sender, first_payload, first_recipients),
                second_sender,
                second_payload,
                second_recipients,
            ).outbox[v.outbox.len() + i] == (DeliveryView {
                from: first_sender,
                to: first_recipients[i],
                payload: first_payload,
            }),
        forall|i: int|
            0 <= i < second_recipients.len() ==> relayed(
                relayed(v, first_sender, first_payload, first_recipients),
                second_sender,
                second_payload,
                second_recipients,
            ).outbox[v.outbox.len() + first_recipients.len() + i] == (DeliveryView {
                from: second_sender,
                to: second_recipients[i],
                payload: second_payload,
            }),
{
}

} // verus!
