//! The register of open connections: the role that each one declared and
//! the events that it listens to.

use std::collections::HashMap;
use vstd::hash_set::StringHashSet;
use vstd::prelude::*;
use crate::broker::ConnectionId;

verus! {

/// What the register knows of one connection.
pub struct ConnectionState {
    listeners: StringHashSet,
    role: String,
}

/// View of a [`ConnectionState`].
pub struct ConnectionStateView {
    pub role: Seq<char>,
    pub listeners: Set<Seq<char>>,
}

impl View for ConnectionState {
    type V = ConnectionStateView;

    closed spec fn view(&self) -> ConnectionStateView {
        ConnectionStateView { role: self.role@, listeners: self.listeners@ }
    }
}

impl ConnectionState {
    /// The state of a connection of role `role` that listens to nothing.
    pub fn new(role: String) -> (r: ConnectionState)
        ensures
            r@ == (ConnectionStateView { role: role@, listeners: Set::empty() }),
    {
        ConnectionState { listeners: StringHashSet::new(), role }
    }

    /// The role that the connection declared.
    pub fn role(&self) -> (r: &String)
        ensures
            r@ == self@.role,
    {
        &self.role
    }

    /// Whether the connection listens to the event.
    pub fn listens_to(&self, event_name: &String) -> (r: bool)
        ensures
            r == self@.listeners.contains(event_name@),
    {
        self.listeners.contains(event_name.as_str())
    }

    /// Makes the connection listen to the event.
    pub fn listen_to(&mut self, event_name: String)
        ensures
            final(self)@ == (ConnectionStateView {
                role: old(self)@.role,
                listeners: old(self)@.listeners.insert(event_name@),
            }),
    {
        let _ = self.listeners.insert(event_name);
    }
}

/// The state of each connection, by its identity.
pub open spec fn states_of(connections: Map<u128, ConnectionState>) -> Map<
    ConnectionId,
    ConnectionStateView,
> {
    Map::new(
        |connection_id: ConnectionId| connections.contains_key(connection_id.value),
        |connection_id: ConnectionId| connections[connection_id.value]@,
    )
}

/// The register of open connections.
pub struct WebSocketServer {
    connections: HashMap<u128, ConnectionState>,
}

impl View for WebSocketServer {
    type V = Map<ConnectionId, ConnectionStateView>;

    closed spec fn view(&self) -> Map<ConnectionId, ConnectionStateView> {
        states_of(self.connections@)
    }
}

impl WebSocketServer {
    /// A register without connections.
    pub fn new() -> (r: WebSocketServer)
        ensures
            r@ == Map::<ConnectionId, ConnectionStateView>::empty(),
    {
        let r = WebSocketServer { connections: HashMap::new() };
        assert(r@ =~= Map::<ConnectionId, ConnectionStateView>::empty());
        r
    }

    /// Registers a connection with its role. It listens to nothing yet; a
    /// connection that had the identity before is replaced.
    pub fn new_connection(&mut self, connection_id: ConnectionId, role: String)
        ensures
            final(self)@ == old(self)@.insert(
                connection_id,
                ConnectionStateView { role: role@, listeners: Set::empty() },
            ),
    {
        self.connections.insert(connection_id.value, ConnectionState::new(role));
        assert(self@ =~= old(self)@.insert(
            connection_id,
            ConnectionStateView { role: role@, listeners: Set::empty() },
        ));
    }

    /// The role of a connection, if it is open.
    pub fn role_of(&self, connection_id: ConnectionId) -> (r: Option<&String>)
        ensures
            match r {
                Some(role) => self@.contains_key(connection_id) && role@
                    == self@[connection_id].role,
                None => !self@.contains_key(connection_id),
            },
    {
        match self.connections.get(&connection_id.value) {
            Some(state) => Some(state.role()),
            None => None,
        }
    }

    /// Records that a connection listens to an event. Nothing changes where
    /// the connection is not open.
    pub fn handle_listen_event(&mut self, connection_id: ConnectionId, event_name: String)
        ensures
            final(self)@ == if old(self)@.contains_key(connection_id) {
                old(self)@.insert(
                    connection_id,
                    ConnectionStateView {
                        role: old(self)@[connection_id].role,
                        listeners: old(self)@[connection_id].listeners.insert(event_name@),
                    },
                )
            } else {
                old(self)@
            },
    {
        match self.connections.remove(&connection_id.value) {
            Some(state) => {
                let mut state = state;
                state.listen_to(event_name);
                self.connections.insert(connection_id.value, state);
                assert(self@ =~= old(self)@.insert(
                    connection_id,
                    ConnectionStateView {
                        role: old(self)@[connection_id].role,
                        listeners: old(self)@[connection_id].listeners.insert(event_name@),
                    },
                ));
            },
            None => {
                assert(self@ =~= old(self)@);
            },
        }
    }

    /// Takes a connection out of the register. Nothing changes where it is
    /// not open.
    pub fn remove_connection(&mut self, connection_id: ConnectionId)
        ensures
            final(self)@ == old(self)@.remove(connection_id),
    {
        let _ = self.connections.remove(&connection_id.value);
        assert(self@ =~= old(self)@.remove(connection_id));
    }

    /// The connections that an event goes to, each once and each with the
    /// data of the event: those that listen to it.
    pub fn broadcast_event(&self, event_name: String, event_data: String) -> (r: Vec<
        (ConnectionId, String),
    >)
        ensures
            recipients(r@).no_duplicates(),
            forall|connection_id: ConnectionId|
                recipients(r@).contains(connection_id) <==> self@.contains_key(connection_id)
                    && self@[connection_id].listeners.contains(event_name@),
            forall|k: int| 0 <= k < r@.len() ==> (#[trigger] r@[k]).1@ == event_data@,
    {
        let mut deliveries: Vec<(ConnectionId, String)> = Vec::new();
        let ghost map = self.connections@;
        for entry in it: self.connections.iter()
            invariant
                map == self.connections@,
                it.seq().no_duplicates(),
                forall|i: int|
                    0 <= i < it.seq().len() ==> map.contains_key(*(#[trigger] it.seq()[i]).0)
                        && map[*it.seq()[i].0] == *it.seq()[i].1,
                forall|key: u128| #[trigger]
                    map.contains_key(key) ==> it.seq().contains((&key, &map[key])),
                forall|k: int| 0 <= k < deliveries@.len() ==> (#[trigger] deliveries@[k]).1@
                    == event_data@,
                forall|k: int|
                    0 <= k < deliveries@.len() ==> map.contains_key(
                        (#[trigger] deliveries@[k]).0.value,
                    ) && map[deliveries@[k].0.value]@.listeners.contains(event_name@)
                        && exists|j: int|
                        0 <= j < it.index() && *(#[trigger] it.seq()[j]).0
                            == deliveries@[k].0.value,
                recipients(deliveries@).no_duplicates(),
                forall|j: int|
                    0 <= j < it.index() && (#[trigger] it.seq()[j]).1@.listeners.contains(
                        event_name@,
                    ) ==> recipients(deliveries@).contains(ConnectionId { value: *it.seq()[j].0 }),
        {
            let (key, state) = entry;
            let ghost index = it.index();
            let ghost before = deliveries@;
            proof {
                assert(it.seq()[index] == entry);
            }
            if state.listens_to(&event_name) {
                deliveries.push((ConnectionId { value: *key }, event_data.clone()));
                proof {
                    assert(recipients(deliveries@) =~= recipients(before).push(
                        ConnectionId { value: *key },
                    ));
                    assert forall|k: int| 0 <= k < before.len() implies recipients(before)[k]
                        != (ConnectionId { value: *key }) by {
                        if before[k].0.value == *key {
                            let j = choose|j: int|
                                0 <= j < index && *(#[trigger] it.seq()[j]).0 == before[k].0.value;
                            assert(map[*it.seq()[j].0] == *it.seq()[j].1);
                            assert(map[*it.seq()[index].0] == *it.seq()[index].1);
                            assert(it.seq()[j] == it.seq()[index]);
                        }
                    }
                    assert forall|j: int|
                        0 <= j < index + 1 && (#[trigger] it.seq()[j]).1@.listeners.contains(
                            event_name@,
                        ) implies recipients(deliveries@).contains(
                        ConnectionId { value: *it.seq()[j].0 },
                    ) by {
                        if j < index {
                            let k = choose|k: int|
                                0 <= k < recipients(before).len() && recipients(before)[k] == (
                                ConnectionId { value: *it.seq()[j].0 });
                            assert(recipients(deliveries@)[k] == recipients(before)[k]);
                        } else {
                            assert(recipients(deliveries@)[before.len() as int] == (
                            ConnectionId { value: *key }));
                        }
                    }
                }
            }
            proof {
                assert forall|k: int| 0 <= k < deliveries@.len() implies exists|j: int|
                    0 <= j < index + 1 && *(#[trigger] it.seq()[j]).0 == (
                    #[trigger] deliveries@[k]).0.value by {
                    if k < before.len() {
                        assert(deliveries@[k] == before[k]);
                        let j = choose|j: int|
                            0 <= j < index && *(#[trigger] it.seq()[j]).0 == before[k].0.value;
                        assert(*it.seq()[j].0 == deliveries@[k].0.value);
                    } else {
                        assert(*it.seq()[index].0 == deliveries@[k].0.value);
                    }
                }
            }
        }
        proof {
            assert forall|connection_id: ConnectionId|
                recipients(deliveries@).contains(connection_id) <==> self@.contains_key(
                    connection_id,
                ) && self@[connection_id].listeners.contains(event_name@) by {
                if recipients(deliveries@).contains(connection_id) {
                    let k = choose|k: int|
                        0 <= k < recipients(deliveries@).len() && recipients(deliveries@)[k]
                            == connection_id;
                    assert(deliveries@[k].0 == connection_id);
                }
            }
        }
        deliveries
    }
}

/// The connections that a list of deliveries names, in order.
pub open spec fn recipients(deliveries: Seq<(ConnectionId, String)>) -> Seq<ConnectionId> {
    deliveries.map_values(|d: (ConnectionId, String)| d.0)
}

} // verus!
