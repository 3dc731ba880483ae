//! Clients and their sessions.

use vstd::prelude::*;

verus! {

/// Compares two byte strings.
pub fn bytes_equal(a: &[u8], b: &[u8]) -> (same: bool)
    ensures
        same == (a@ == b@),
{
    if a.len() != b.len() {
        return false;
    }
    let mut i: usize = 0;
    while i < a.len()
        invariant
            a.len() == b.len(),
            i <= a.len(),
            forall|j: int| 0 <= j < i ==> a@[j] == b@[j],
        decreases a.len() - i,
    {
        if a[i] != b[i] {
            return false;
        }
        i += 1;
    }
    assert(a@ =~= b@);
    true
}

/// Something that takes part in a room under a client identifier. Nothing is
/// promised of an implementation but that it names an identifier.
pub trait Client {
    /// The client identifier.
    fn get_id(&self) -> u16;
}

/// What a session is, as plain values.
pub struct SessionView {
    /// The client identifier, unique within the room.
    pub client_id: u16,
    /// The transport's routing token of the connection.
    pub connection_id: Seq<u8>,
    /// When the session was last heard from.
    pub last_activity: u64,
}

/// The state that the relay keeps for one connected client. The transport's
/// own state of the connection is kept by the caller under `connection_id`.
#[derive(Debug)]
pub struct ClientSession {
    client_id: u16,
    connection_id: Vec<u8>,
    last_activity: u64,
}

impl View for ClientSession {
    type V = SessionView;

    closed spec fn view(&self) -> SessionView {
        SessionView {
            client_id: self.client_id,
            connection_id: self.connection_id@,
            last_activity: self.last_activity,
        }
    }
}

impl ClientSession {
    /// A session of the client on the connection, last heard from at `now`.
    pub fn new(client_id: u16, connection_id: Vec<u8>, now: u64) -> (session: Self)
        ensures
            session@ == (SessionView {
                client_id,
                connection_id: connection_id@,
                last_activity: now,
            }),
    {
        ClientSession { client_id, connection_id, last_activity: now }
    }

    /// The transport's routing token of the connection.
    pub fn connection_id(&self) -> (token: &Vec<u8>)
        ensures
            token@ == self@.connection_id,
    {
        &self.connection_id
    }

    /// When the session was last heard from.
    pub fn last_activity(&self) -> (at: u64)
        ensures
            at == self@.last_activity,
    {
        self.last_activity
    }

    /// Records that the session was heard from at `now`. Time does not run
    /// backwards: an earlier `now` leaves the session as it was.
    pub fn touch(&mut self, now: u64)
        ensures
            final(self)@ == (SessionView {
                last_activity: if now > old(self)@.last_activity {
                    now
                } else {
                    old(self)@.last_activity
                },
                ..old(self)@
            }),
    {
        if now > self.last_activity {
            self.last_activity = now;
        }
    }

    /// Whether the session has been silent for longer than `idle_timeout` at `now`.
    pub fn is_idle(&self, now: u64, idle_timeout: u64) -> (idle: bool)
        ensures
            idle == idle_at(self@, now, idle_timeout),
    {
        now > self.last_activity && now - self.last_activity > idle_timeout
    }

    /// A copy of the session.
    pub fn duplicate(&self) -> (copy: Self)
        ensures
            copy@ == self@,
    {
        ClientSession {
            client_id: self.client_id,
            connection_id: self.connection_id.clone(),
            last_activity: self.last_activity,
        }
    }
}

/// Whether a session has been silent for longer than `idle_timeout` at `now`.
pub open spec fn idle_at(session: SessionView, now: u64, idle_timeout: u64) -> bool {
    now - session.last_activity > idle_timeout
}

impl Client for ClientSession {
    fn get_id(&self) -> (id: u16)
        ensures
            id == self@.client_id,
    {
        self.client_id
    }
}

} // verus!
