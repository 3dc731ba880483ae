//! The relay service of one room.

use crate::error::RelayError;
use crate::room::{Room, RoomView};
use vstd::prelude::*;

verus! {

/// The service that relays for one room. It owns the room; the hooks by which
/// a transport would drive it are not offered yet, and say so.
pub struct RelayService {
    room: Room,
}

impl View for RelayService {
    type V = RoomView;

    /// The state of the room that the service relays for.
    closed spec fn view(&self) -> RoomView {
        self.room@
    }
}

impl RelayService {
    /// The internal invariant: the room is in order.
    pub closed spec fn wf(&self) -> bool {
        self.room.wf()
    }

    /// A service for the room.
    pub fn new(room: Room) -> (service: Self)
        ensures
            service@ == room@,
            room.wf() ==> service.wf(),
    {
        RelayService { room }
    }

    /// The room that the service relays for.
    pub fn room(&self) -> (room: &Room)
        ensures
            room@ == self@,
            self.wf() ==> room.wf(),
    {
        &self.room
    }

    /// Gives the room back.
    pub fn into_room(self) -> (room: Room)
        ensures
            room@ == self@,
            self.wf() ==> room.wf(),
    {
        self.room
    }

    /// The receiver for a named stream. None is offered.
    pub fn receive_func(&self, stream_name: String) -> (found: Result<(), RelayError>)
        ensures
            found == Err::<(), RelayError>(RelayError::Unsupported),
    {
        Err(RelayError::Unsupported)
    }

    /// Called when a client has registered. Not offered.
    pub fn on_register_client(&self, client_id: u16) -> (done: Result<(), RelayError>)
        ensures
            done == Err::<(), RelayError>(RelayError::Unsupported),
    {
        Err(RelayError::Unsupported)
    }

    /// Called when a client has unregistered. Not offered.
    pub fn on_unregister_client(&self, client_id: u16) -> (done: Result<(), RelayError>)
        ensures
            done == Err::<(), RelayError>(RelayError::Unsupported),
    {
        Err(RelayError::Unsupported)
    }

    /// Called when the host has changed. Not offered.
    pub fn on_change_host(&self, client_id: u16) -> (done: Result<(), RelayError>)
        ensures
            done == Err::<(), RelayError>(RelayError::Unsupported),
    {
        Err(RelayError::Unsupported)
    }

    /// Called when the service is torn down. Not offered.
    pub fn destroy(&self) -> (done: Result<(), RelayError>)
        ensures
            done == Err::<(), RelayError>(RelayError::Unsupported),
    {
        Err(RelayError::Unsupported)
    }
}

} // verus!
