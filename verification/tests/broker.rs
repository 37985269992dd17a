use policy_broker::broker::{Broker, ConnectionId, Dispatch};
use policy_broker::message::{BroadcastMessage, ListenMessage, RequestMessage, ResponseMessage};
use policy_broker::payload::{ParamType, Params};

fn id(value: u128) -> ConnectionId {
    ConnectionId { value }
}

fn listen(channel: &str) -> ListenMessage {
    ListenMessage { channel: channel.to_string() }
}

fn broadcast(channel: &str) -> BroadcastMessage {
    BroadcastMessage { payload: Params::new(), channel: channel.to_string() }
}

fn request(channel: &str, tag: i32) -> RequestMessage {
    let mut payload = Params::new();
    payload.insert("tag".to_string(), ParamType::Int(tag));
    RequestMessage { payload, channel: channel.to_string() }
}

fn response(channel: &str) -> ResponseMessage {
    ResponseMessage { payload: Params::new(), channel: channel.to_string() }
}

fn tag(dispatch: &Dispatch) -> i32 {
    match dispatch.message.payload.get(&"tag".to_string()) {
        Some(ParamType::Int(tag)) => *tag,
        other => panic!("expected a tag, got {:?}", other),
    }
}

fn sorted(mut ids: Vec<ConnectionId>) -> Vec<u128> {
    ids.sort_by_key(|c| c.value);
    ids.into_iter().map(|c| c.value).collect()
}

#[test]
fn new_broker_knows_nobody() {
    let mut broker = Broker::new();
    assert_eq!(broker.broadcast(&broadcast("tick")).len(), 0);
    assert!(!broker.mentions(id(1)));
    assert!(broker.consume_request("ping".to_string()).is_none());
    assert!(broker.respond(id(1), response("ping")).is_empty());
}

#[test]
fn broadcast_goes_to_every_listener_of_the_channel() {
    let mut broker = Broker::new();
    broker.listen(id(1), listen("tick"));
    broker.listen(id(2), listen("tick"));
    broker.listen(id(3), listen("tock"));
    assert_eq!(sorted(broker.broadcast(&broadcast("tick"))), vec![1, 2]);
    assert_eq!(sorted(broker.broadcast(&broadcast("tock"))), vec![3]);
    assert_eq!(sorted(broker.broadcast(&broadcast("other"))), Vec::<u128>::new());
}

#[test]
fn broadcast_reaches_its_sender_if_it_listens() {
    let mut broker = Broker::new();
    broker.listen(id(1), listen("tick"));
    broker.listen(id(2), listen("tick"));
    // Nothing in a broadcast says who sent it: connection 1 sends and hears.
    assert_eq!(sorted(broker.broadcast(&broadcast("tick"))), vec![1, 2]);
}

#[test]
fn listening_twice_is_listening_once() {
    let mut broker = Broker::new();
    broker.listen(id(1), listen("tick"));
    broker.listen(id(1), listen("tick"));
    broker.listen(id(2), listen("tick"));
    broker.listen(id(1), listen("tick"));
    assert_eq!(sorted(broker.broadcast(&broadcast("tick"))), vec![1, 2]);
}

#[test]
fn connection_can_listen_on_many_channels() {
    let mut broker = Broker::new();
    broker.listen(id(1), listen("a"));
    broker.listen(id(1), listen("b"));
    assert_eq!(sorted(broker.broadcast(&broadcast("a"))), vec![1]);
    assert_eq!(sorted(broker.broadcast(&broadcast("b"))), vec![1]);
}

#[test]
fn request_without_responder_waits() {
    let mut broker = Broker::new();
    assert!(broker.request(id(1), request("ping", 1)).is_none());
    assert!(broker.mentions(id(1)));
    let handed = broker.respond(id(2), response("ping"));
    assert_eq!(handed.len(), 1);
    assert_eq!(handed[0].responder, id(2));
    assert_eq!(handed[0].requester, id(1));
    assert_eq!(handed[0].message.channel, "ping");
    assert_eq!(tag(&handed[0]), 1);
}

#[test]
fn request_with_responder_is_dispatched_at_once() {
    let mut broker = Broker::new();
    assert!(broker.respond(id(2), response("ping")).is_empty());
    let dispatch = broker.request(id(1), request("ping", 5)).unwrap();
    assert_eq!(dispatch.responder, id(2));
    assert_eq!(dispatch.requester, id(1));
    assert_eq!(tag(&dispatch), 5);
    // Nothing was kept: the requester is in no table.
    assert!(!broker.mentions(id(1)));
    assert!(broker.consume_request("ping".to_string()).is_none());
}

#[test]
fn waiting_requests_are_handed_out_oldest_first() {
    let mut broker = Broker::new();
    assert!(broker.request(id(1), request("ping", 1)).is_none());
    assert!(broker.request(id(2), request("ping", 2)).is_none());
    assert!(broker.request(id(1), request("pong", 3)).is_none());
    assert!(broker.request(id(4), request("ping", 4)).is_none());
    let handed = broker.respond(id(3), response("ping"));
    assert_eq!(handed.iter().map(tag).collect::<Vec<i32>>(), vec![1, 2, 4]);
    assert_eq!(
        handed.iter().map(|d| d.requester.value).collect::<Vec<u128>>(),
        vec![1, 2, 4]
    );
    assert!(handed.iter().all(|d| d.responder == id(3)));
    // The queue of the channel is empty now; the other channel still waits.
    assert!(broker.respond(id(3), response("ping")).is_empty());
    let other = broker.respond(id(5), response("pong"));
    assert_eq!(other.iter().map(tag).collect::<Vec<i32>>(), vec![3]);
}

#[test]
fn consume_request_takes_the_oldest() {
    let mut broker = Broker::new();
    broker.request(id(1), request("ping", 1));
    broker.request(id(2), request("pong", 2));
    broker.request(id(3), request("ping", 3));
    let first = broker.consume_request("ping".to_string()).unwrap();
    assert_eq!(first.connection_id, id(1));
    let second = broker.consume_request("ping".to_string()).unwrap();
    assert_eq!(second.connection_id, id(3));
    assert!(broker.consume_request("ping".to_string()).is_none());
    assert_eq!(broker.consume_request("pong".to_string()).unwrap().connection_id, id(2));
}

#[test]
fn later_responder_replaces_the_earlier() {
    let mut broker = Broker::new();
    broker.respond(id(1), response("ping"));
    broker.respond(id(2), response("ping"));
    let dispatch = broker.request(id(3), request("ping", 0)).unwrap();
    assert_eq!(dispatch.responder, id(2));
    assert!(!broker.mentions(id(1)));
    assert!(broker.mentions(id(2)));
}

#[test]
fn responders_of_other_channels_stay() {
    let mut broker = Broker::new();
    broker.respond(id(1), response("a"));
    broker.respond(id(2), response("b"));
    broker.respond(id(3), response("a"));
    assert_eq!(broker.request(id(9), request("a", 0)).unwrap().responder, id(3));
    assert_eq!(broker.request(id(9), request("b", 0)).unwrap().responder, id(2));
    assert!(broker.request(id(9), request("c", 0)).is_none());
}

#[test]
fn disconnect_clears_every_table() {
    let mut broker = Broker::new();
    broker.listen(id(1), listen("tick"));
    broker.listen(id(1), listen("tock"));
    broker.respond(id(1), response("echo"));
    broker.request(id(1), request("ping", 1));
    broker.request(id(1), request("pong", 2));
    assert!(broker.mentions(id(1)));
    broker.disconnect(id(1));
    assert!(!broker.mentions(id(1)));
    assert!(broker.broadcast(&broadcast("tick")).is_empty());
    assert!(broker.broadcast(&broadcast("tock")).is_empty());
    assert!(broker.request(id(2), request("echo", 0)).is_none());
    assert!(broker.respond(id(3), response("ping")).is_empty());
    assert!(broker.respond(id(3), response("pong")).is_empty());
}

#[test]
fn disconnect_leaves_the_others() {
    let mut broker = Broker::new();
    broker.listen(id(1), listen("tick"));
    broker.listen(id(2), listen("tick"));
    broker.respond(id(2), response("echo"));
    broker.request(id(2), request("ping", 1));
    broker.request(id(1), request("ping", 2));
    broker.request(id(3), request("ping", 3));
    broker.disconnect(id(1));
    assert_eq!(sorted(broker.broadcast(&broadcast("tick"))), vec![2]);
    assert_eq!(broker.request(id(9), request("echo", 0)).unwrap().responder, id(2));
    let handed = broker.respond(id(4), response("ping"));
    assert_eq!(handed.iter().map(tag).collect::<Vec<i32>>(), vec![1, 3]);
}

#[test]
fn disconnect_of_a_stranger_changes_nothing() {
    let mut broker = Broker::new();
    broker.listen(id(1), listen("tick"));
    broker.request(id(1), request("ping", 1));
    broker.disconnect(id(7));
    assert_eq!(sorted(broker.broadcast(&broadcast("tick"))), vec![1]);
    assert_eq!(broker.respond(id(2), response("ping")).len(), 1);
}

#[test]
fn requests_wait_again_after_the_responder_has_gone() {
    let mut broker = Broker::new();
    broker.respond(id(1), response("ping"));
    broker.disconnect(id(1));
    assert!(broker.request(id(2), request("ping", 1)).is_none());
    assert!(broker.request(id(3), request("ping", 2)).is_none());
    let handed = broker.respond(id(4), response("ping"));
    assert_eq!(handed.iter().map(tag).collect::<Vec<i32>>(), vec![1, 2]);
}

#[test]
fn scenario_clean_disconnect() {
    let mut broker = Broker::new();
    broker.listen(id(1), listen("tick"));
    assert!(broker.request(id(1), request("ping", 1)).is_none());
    broker.disconnect(id(1));
    assert!(broker.broadcast(&broadcast("tick")).is_empty());
    assert!(broker.respond(id(2), response("ping")).is_empty());
}

#[test]
fn scenario_responder_replacement() {
    let mut broker = Broker::new();
    broker.respond(id(1), response("ping"));
    broker.respond(id(2), response("ping"));
    let dispatch = broker.request(id(3), request("ping", 0)).unwrap();
    assert_eq!(dispatch.responder, id(2));
    assert_eq!(dispatch.requester, id(3));
}
