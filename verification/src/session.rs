//! The session of one connection: every frame that arrives is decoded,
//! checked against the policy with the session's role, and routed through
//! the broker. What is then to be sent, and to whom, is handed back.

use vstd::prelude::*;
use crate::broker::{
    dispatches_view, handed_over, Broker, BrokerView, ConnectionId, Dispatch, DispatchView,
};
use crate::json::json_of_text;
use crate::message::{
    BroadcastMessage, EnvelopeView, Message, MessageError, MessageErrorView, MessageView,
};
use crate::policy::{policy_view, Statement};
use crate::wire::{admitted, check_decoded, decode_frame, decode_read, outcome_view};

verus! {

/// Something to be sent.
#[derive(Debug)]
pub enum Action {
    /// A broadcast goes to a listener of its channel.
    Deliver { to: ConnectionId, message: BroadcastMessage },
    /// A request goes to the responder of its channel, and what the
    /// responder answers goes to the requester.
    Dispatch(Dispatch),
    /// A frame was dropped, and its sender is told why.
    Reject { to: ConnectionId, error: MessageError },
}

/// View of an [`Action`].
pub enum ActionView {
    Deliver { to: ConnectionId, message: EnvelopeView },
    Dispatch(DispatchView),
    Reject { to: ConnectionId, error: MessageErrorView },
}

impl View for Action {
    type V = ActionView;

    open spec fn view(&self) -> ActionView {
        match self {
            Action::Deliver { to, message } => ActionView::Deliver { to: *to, message: message@ },
            Action::Dispatch(dispatch) => ActionView::Dispatch(dispatch@),
            Action::Reject { to, error } => ActionView::Reject { to: *to, error: error@ },
        }
    }
}

impl ActionView {
    /// The connection that the action sends to first.
    pub open spec fn target(self) -> ConnectionId {
        match self {
            ActionView::Deliver { to, .. } => to,
            ActionView::Dispatch(dispatch) => dispatch.responder,
            ActionView::Reject { to, .. } => to,
        }
    }
}

/// The views of a list of actions, in order.
pub open spec fn actions_view(actions: Seq<Action>) -> Seq<ActionView> {
    actions.map_values(|a: Action| a@)
}

/// The connections that a list of actions sends to, in order.
pub open spec fn targets(actions: Seq<ActionView>) -> Seq<ConnectionId> {
    actions.map_values(|a: ActionView| a.target())
}

/// The tables after a message from a connection has been routed.
pub open spec fn routed(
    tables: BrokerView,
    connection_id: ConnectionId,
    message: MessageView,
) -> BrokerView {
    match message {
        MessageView::Request(m) => tables.request(connection_id, m),
        MessageView::Response(m) => tables.respond(connection_id, m.channel),
        MessageView::Broadcast(_) => tables,
        MessageView::Listen(channel) => tables.listen(connection_id, channel),
    }
}

/// Whether a list of actions is what routing a message through the tables
/// asks for. A request gives one dispatch where its channel has a
/// responder and nothing where it has none. A response gives the dispatch
/// of every request that waited on its channel, oldest first. A broadcast
/// gives one delivery of the message to each listener of its channel, in
/// any order. A listen gives nothing.
pub open spec fn routes(
    tables: BrokerView,
    connection_id: ConnectionId,
    message: MessageView,
    actions: Seq<ActionView>,
) -> bool {
    match message {
        MessageView::Request(m) => actions == match tables.responder(m.channel) {
            Some(responder) => seq![
                ActionView::Dispatch(
                    DispatchView { responder, requester: connection_id, message: m },
                ),
            ],
            None => Seq::empty(),
        },
        MessageView::Response(m) => actions == handed_over(
            connection_id,
            tables.backlog(m.channel),
        ).map_values(|d: DispatchView| ActionView::Dispatch(d)),
        MessageView::Broadcast(m) => {
            &&& targets(actions).no_duplicates()
            &&& targets(actions).to_set() == tables.audience(m.channel)
            &&& forall|k: int|
                0 <= k < actions.len() ==> #[trigger] actions[k] == (ActionView::Deliver {
                    to: actions[k].target(),
                    message: m,
                })
        },
        MessageView::Listen(_) => actions.len() == 0,
    }
}

/// Routes a message that the policy has passed: a listen subscribes, a
/// broadcast goes to the listeners, a response binds the sender as the
/// responder, a request goes to the responder or waits for one.
pub fn route(broker: &mut Broker, connection_id: ConnectionId, message: Message) -> (r: Vec<Action>)
    ensures
        final(broker)@ == routed(old(broker)@, connection_id, message@),
        routes(old(broker)@, connection_id, message@, actions_view(r@)),
{
    let mut actions: Vec<Action> = Vec::new();
    match message {
        Message::Request(request) => {
            match broker.request(connection_id, request) {
                Some(dispatch) => {
                    actions.push(Action::Dispatch(dispatch));
                    assert(actions_view(actions@) =~= seq![actions@[0]@]);
                },
                None => {
                    assert(actions_view(actions@) =~= Seq::<ActionView>::empty());
                },
            }
        },
        Message::Response(response) => {
            let ghost channel = response.channel@;
            let ghost backlog = broker@.backlog(channel);
            let handed = broker.respond(connection_id, response);
            let ghost handed_view = dispatches_view(handed@);
            for dispatch in it: handed
                invariant
                    dispatches_view(it.seq()) == handed_view,
                    actions_view(actions@) == handed_view.take(it.index()).map_values(
                        |d: DispatchView| ActionView::Dispatch(d),
                    ),
            {
                let ghost index = it.index();
                let ghost before = actions_view(actions@);
                proof {
                    assert(dispatches_view(it.seq())[index] == dispatch@);
                }
                actions.push(Action::Dispatch(dispatch));
                proof {
                    assert(actions_view(actions@) =~= before.push(actions@.last()@));
                    assert(handed_view.take(index + 1).map_values(
                        |d: DispatchView| ActionView::Dispatch(d),
                    ) =~= before.push(ActionView::Dispatch(handed_view[index])));
                }
            }
            proof {
                assert(handed_view.take(handed_view.len() as int) =~= handed_view);
            }
        },
        Message::Broadcast(broadcast) => {
            let audience = broker.broadcast(&broadcast);
            let mut i: usize = 0;
            while i < audience.len()
                invariant
                    i <= audience@.len(),
                    actions@.len() == i,
                    forall|k: int|
                        0 <= k < i ==> (#[trigger] actions@[k])@ == (ActionView::Deliver {
                            to: audience@[k],
                            message: broadcast@,
                        }),
                decreases audience@.len() - i,
            {
                actions.push(Action::Deliver { to: audience[i], message: broadcast.clone() });
                i += 1;
            }
            proof {
                assert(targets(actions_view(actions@)) =~= audience@);
            }
        },
        Message::Listen(listen) => {
            broker.listen(connection_id, listen);
        },
    }
    actions
}

/// A session: a connection with the role that it declared.
#[derive(Debug)]
pub struct Session {
    pub connection_id: ConnectionId,
    pub role_name: String,
}

/// Whether tables and actions are what becomes of a frame that was
/// admitted as `outcome`: a message is routed; an error changes nothing
/// and goes back to the sender.
pub open spec fn handled(
    before: BrokerView,
    after: BrokerView,
    connection_id: ConnectionId,
    outcome: Result<MessageView, MessageErrorView>,
    actions: Seq<ActionView>,
) -> bool {
    match outcome {
        Ok(message) => after == routed(before, connection_id, message) && routes(
            before,
            connection_id,
            message,
            actions,
        ),
        Err(error) => after == before && actions == seq![
            ActionView::Reject { to: connection_id, error },
        ],
    }
}

/// Makes an identity with `uuid::Uuid::new_v4` and hands out its 128 bits
/// as `Uuid::as_u128` gives them. The identity is random; what is claimed
/// is what the source of `new_v4` shows of every outcome: the four version
/// bits are 0100 and the two variant bits are 10.
#[verifier::external_body]
fn mint_connection_id() -> (r: ConnectionId)
    ensures
        r.value & 0x0000_0000_0000_f000_c000_0000_0000_0000u128
            == 0x0000_0000_0000_4000_8000_0000_0000_0000u128,
{
    ConnectionId { value: uuid::Uuid::new_v4().as_u128() }
}

impl Session {
    /// The session of a connection.
    pub fn new(connection_id: ConnectionId, role_name: String) -> (r: Session)
        ensures
            r.connection_id == connection_id,
            r.role_name == role_name,
    {
        Session { connection_id, role_name }
    }

    /// A session with a fresh random identity.
    pub fn open(role_name: String) -> (r: Session)
        ensures
            r.role_name == role_name,
            r.connection_id.value & 0x0000_0000_0000_f000_c000_0000_0000_0000u128
                == 0x0000_0000_0000_4000_8000_0000_0000_0000u128,
    {
        Session { connection_id: mint_connection_id(), role_name }
    }

    /// Handles a frame that was decoded already: the policy is asked, then
    /// the broker.
    pub fn handle_decoded(
        &self,
        policy: &Vec<Statement>,
        broker: &mut Broker,
        decoded: Result<Message, MessageError>,
    ) -> (r: Vec<Action>)
        ensures
            handled(
                old(broker)@,
                final(broker)@,
                self.connection_id,
                admitted(policy_view(policy@), self.role_name@, outcome_view(decoded)),
                actions_view(r@),
            ),
    {
        match check_decoded(policy, &self.role_name, decoded) {
            Ok(message) => route(broker, self.connection_id, message),
            Err(error) => {
                let mut actions: Vec<Action> = Vec::new();
                actions.push(Action::Reject { to: self.connection_id, error });
                assert(actions_view(actions@) =~= seq![actions@[0]@]);
                actions
            },
        }
    }

    /// Handles the text of a frame.
    pub fn handle_frame(&self, policy: &Vec<Statement>, broker: &mut Broker, frame: &str) -> (r:
        Vec<Action>)
        ensures
            handled(
                old(broker)@,
                final(broker)@,
                self.connection_id,
                admitted(
                    policy_view(policy@),
                    self.role_name@,
                    decode_read(json_of_text(frame@)),
                ),
                actions_view(r@),
            ),
    {
        self.handle_decoded(policy, broker, decode_frame(frame))
    }

    /// Ends the session: the broker forgets the connection.
    pub fn close(self, broker: &mut Broker)
        ensures
            final(broker)@ == old(broker)@.disconnect(self.connection_id),
            !final(broker)@.mentions(self.connection_id),
    {
        broker.disconnect(self.connection_id);
        proof {
            crate::broker::law_disconnect_forgets(old(broker)@, self.connection_id);
        }
    }
}

} // verus!
