use policy_broker::broker::ConnectionId;
use policy_broker::connections::{ConnectionState, WebSocketServer};

fn id(value: u128) -> ConnectionId {
    ConnectionId { value }
}

fn reached(server: &WebSocketServer, event: &str) -> Vec<u128> {
    let mut ids: Vec<u128> = server
        .broadcast_event(event.to_string(), "data".to_string())
        .into_iter()
        .map(|(to, data)| {
            assert_eq!(data, "data");
            to.value
        })
        .collect();
    ids.sort();
    ids
}

#[test]
fn new_server_has_no_connections() {
    let server = WebSocketServer::new();
    assert_eq!(server.role_of(id(1)), None);
    assert!(server.broadcast_event("tick".to_string(), "x".to_string()).is_empty());
}

#[test]
fn new_connection_records_the_role() {
    let mut server = WebSocketServer::new();
    server.new_connection(id(1), "user".to_string());
    server.new_connection(id(2), "admin".to_string());
    assert_eq!(server.role_of(id(1)), Some(&"user".to_string()));
    assert_eq!(server.role_of(id(2)), Some(&"admin".to_string()));
    assert_eq!(server.role_of(id(3)), None);
}

#[test]
fn new_connection_replaces_the_one_with_its_identity() {
    let mut server = WebSocketServer::new();
    server.new_connection(id(1), "user".to_string());
    server.handle_listen_event(id(1), "tick".to_string());
    server.new_connection(id(1), "admin".to_string());
    assert_eq!(server.role_of(id(1)), Some(&"admin".to_string()));
    assert_eq!(reached(&server, "tick"), Vec::<u128>::new());
}

#[test]
fn event_goes_to_the_connections_that_listen_to_it() {
    let mut server = WebSocketServer::new();
    server.new_connection(id(1), "user".to_string());
    server.new_connection(id(2), "user".to_string());
    server.new_connection(id(3), "user".to_string());
    server.handle_listen_event(id(1), "tick".to_string());
    server.handle_listen_event(id(3), "tick".to_string());
    server.handle_listen_event(id(2), "tock".to_string());
    server.handle_listen_event(id(3), "tock".to_string());
    assert_eq!(reached(&server, "tick"), vec![1, 3]);
    assert_eq!(reached(&server, "tock"), vec![2, 3]);
    assert_eq!(reached(&server, "other"), Vec::<u128>::new());
}

#[test]
fn listening_twice_gives_one_delivery() {
    let mut server = WebSocketServer::new();
    server.new_connection(id(1), "user".to_string());
    server.handle_listen_event(id(1), "tick".to_string());
    server.handle_listen_event(id(1), "tick".to_string());
    assert_eq!(reached(&server, "tick"), vec![1]);
    assert_eq!(server.role_of(id(1)), Some(&"user".to_string()));
}

#[test]
fn listen_event_of_an_unknown_connection_is_dropped() {
    let mut server = WebSocketServer::new();
    server.handle_listen_event(id(1), "tick".to_string());
    assert_eq!(server.role_of(id(1)), None);
    assert_eq!(reached(&server, "tick"), Vec::<u128>::new());
}

#[test]
fn remove_connection_forgets_it() {
    let mut server = WebSocketServer::new();
    server.new_connection(id(1), "user".to_string());
    server.new_connection(id(2), "user".to_string());
    server.handle_listen_event(id(1), "tick".to_string());
    server.handle_listen_event(id(2), "tick".to_string());
    server.remove_connection(id(1));
    assert_eq!(server.role_of(id(1)), None);
    assert_eq!(reached(&server, "tick"), vec![2]);
    server.remove_connection(id(7));
    assert_eq!(reached(&server, "tick"), vec![2]);
}

#[test]
fn connection_state_keeps_role_and_events() {
    let mut state = ConnectionState::new("user".to_string());
    assert_eq!(state.role(), "user");
    assert!(!state.listens_to(&"tick".to_string()));
    state.listen_to("tick".to_string());
    state.listen_to("tick".to_string());
    assert!(state.listens_to(&"tick".to_string()));
    assert!(!state.listens_to(&"tock".to_string()));
}
