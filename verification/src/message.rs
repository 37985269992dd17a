//! Decoded messages and the reasons for which one is turned away.

use vstd::prelude::*;
use crate::payload::{ParamView, Params};
use crate::policy::MsgType;

verus! {

/// A request on a channel, awaiting the answer of the channel's responder.
#[derive(Debug)]
pub struct RequestMessage {
    pub payload: Params,
    pub channel: String,
}

/// A response: the message by which a connection becomes the responder of
/// a channel, and the answer that goes to a requester.
#[derive(Debug)]
pub struct ResponseMessage {
    pub payload: Params,
    pub channel: String,
}

/// A message for every listener of a channel.
#[derive(Debug)]
pub struct BroadcastMessage {
    pub payload: Params,
    pub channel: String,
}

/// The message by which a connection subscribes to a broadcast channel.
#[derive(Debug)]
pub struct ListenMessage {
    pub channel: String,
}

/// A decoded message.
#[derive(Debug)]
pub enum Message {
    Request(RequestMessage),
    Response(ResponseMessage),
    Broadcast(BroadcastMessage),
    Listen(ListenMessage),
}

/// View of the three messages that carry a payload.
pub struct EnvelopeView {
    pub channel: Seq<char>,
    pub payload: Map<Seq<char>, ParamView>,
}

/// View of a [`Message`].
pub enum MessageView {
    Request(EnvelopeView),
    Response(EnvelopeView),
    Broadcast(EnvelopeView),
    Listen(Seq<char>),
}

impl MessageView {
    /// The kind of the message.
    pub open spec fn kind(self) -> MsgType {
        match self {
            MessageView::Request(_) => MsgType::Request,
            MessageView::Response(_) => MsgType::Response,
            MessageView::Broadcast(_) => MsgType::Broadcast,
            MessageView::Listen(_) => MsgType::Listen,
        }
    }

    /// The channel that the message names.
    pub open spec fn channel(self) -> Seq<char> {
        match self {
            MessageView::Request(m) => m.channel,
            MessageView::Response(m) => m.channel,
            MessageView::Broadcast(m) => m.channel,
            MessageView::Listen(channel) => channel,
        }
    }

    /// The payload of the message, if its kind carries one.
    pub open spec fn payload(self) -> Option<Map<Seq<char>, ParamView>> {
        match self {
            MessageView::Request(m) => Some(m.payload),
            MessageView::Response(m) => Some(m.payload),
            MessageView::Broadcast(m) => Some(m.payload),
            MessageView::Listen(_) => None,
        }
    }
}

impl View for RequestMessage {
    type V = EnvelopeView;

    open spec fn view(&self) -> EnvelopeView {
        EnvelopeView { channel: self.channel@, payload: self.payload@ }
    }
}

impl View for ResponseMessage {
    type V = EnvelopeView;

    open spec fn view(&self) -> EnvelopeView {
        EnvelopeView { channel: self.channel@, payload: self.payload@ }
    }
}

impl View for BroadcastMessage {
    type V = EnvelopeView;

    open spec fn view(&self) -> EnvelopeView {
        EnvelopeView { channel: self.channel@, payload: self.payload@ }
    }
}

impl View for ListenMessage {
    type V = Seq<char>;

    open spec fn view(&self) -> Seq<char> {
        self.channel@
    }
}

impl View for Message {
    type V = MessageView;

    open spec fn view(&self) -> MessageView {
        match self {
            Message::Request(m) => MessageView::Request(m@),
            Message::Response(m) => MessageView::Response(m@),
            Message::Broadcast(m) => MessageView::Broadcast(m@),
            Message::Listen(m) => MessageView::Listen(m@),
        }
    }
}

impl Clone for RequestMessage {
    fn clone(&self) -> (r: Self)
        ensures
            r@ == self@,
    {
        RequestMessage { payload: self.payload.clone(), channel: self.channel.clone() }
    }
}

impl Clone for ResponseMessage {
    fn clone(&self) -> (r: Self)
        ensures
            r@ == self@,
    {
        ResponseMessage { payload: self.payload.clone(), channel: self.channel.clone() }
    }
}

impl Clone for BroadcastMessage {
    fn clone(&self) -> (r: Self)
        ensures
            r@ == self@,
    {
        BroadcastMessage { payload: self.payload.clone(), channel: self.channel.clone() }
    }
}

impl Clone for ListenMessage {
    fn clone(&self) -> (r: Self)
        ensures
            r@ == self@,
    {
        ListenMessage { channel: self.channel.clone() }
    }
}

impl Clone for Message {
    fn clone(&self) -> (r: Self)
        ensures
            r@ == self@,
    {
        match self {
            Message::Request(m) => Message::Request(m.clone()),
            Message::Response(m) => Message::Response(m.clone()),
            Message::Broadcast(m) => Message::Broadcast(m.clone()),
            Message::Listen(m) => Message::Listen(m.clone()),
        }
    }
}

impl Message {
    /// The kind of the message.
    pub fn kind(&self) -> (r: MsgType)
        ensures
            r == self@.kind(),
    {
        match self {
            Message::Request(_) => MsgType::Request,
            Message::Response(_) => MsgType::Response,
            Message::Broadcast(_) => MsgType::Broadcast,
            Message::Listen(_) => MsgType::Listen,
        }
    }

    /// The channel that the message names.
    pub fn channel(&self) -> (r: &String)
        ensures
            r@ == self@.channel(),
    {
        match self {
            Message::Request(m) => &m.channel,
            Message::Response(m) => &m.channel,
            Message::Broadcast(m) => &m.channel,
            Message::Listen(m) => &m.channel,
        }
    }
}

/// No schema of the policy has the kind and the name of the message.
#[derive(Debug, Clone, Copy, PartialEq, Eq, Structural)]
pub struct InvalidChannelError;

/// The envelope names a kind of message that does not exist.
#[derive(Debug)]
pub struct InvalidMessageTypeError {
    pub given_type: String,
}

/// The policy has no rule that allows the sender's role to send the
/// message.
#[derive(Debug, Clone, Copy, PartialEq, Eq, Structural)]
pub struct UnauthorizedError;

/// The field of the envelope that a frame error speaks of.
#[derive(Debug, Clone, Copy, PartialEq, Eq, Structural)]
pub enum EnvelopeField {
    Type,
    Channel,
    Payload,
}

/// Why a frame could not be read as an envelope.
#[derive(Debug, Clone, Copy, PartialEq, Eq, Structural)]
pub enum DecodeError {
    /// The text is not JSON.
    Syntax,
    /// The JSON value is not an object.
    NotAnObject,
    /// A required field is absent.
    MissingField(EnvelopeField),
    /// A field is there and holds a value of the wrong shape.
    InvalidField(EnvelopeField),
}

/// Why a message is turned away.
#[derive(Debug)]
pub enum MessageError {
    InvalidChannelError(InvalidChannelError),
    InvalidMessageTypeError(InvalidMessageTypeError),
    InvalidParameterError(Params),
    UnauthorizedError(UnauthorizedError),
    DecodeError(DecodeError),
}

/// View of a [`MessageError`].
pub enum MessageErrorView {
    InvalidChannel,
    InvalidMessageType(Seq<char>),
    InvalidParameter(Map<Seq<char>, ParamView>),
    Unauthorized,
    Decode(DecodeError),
}

impl View for MessageError {
    type V = MessageErrorView;

    open spec fn view(&self) -> MessageErrorView {
        match self {
            MessageError::InvalidChannelError(_) => MessageErrorView::InvalidChannel,
            MessageError::InvalidMessageTypeError(e) => MessageErrorView::InvalidMessageType(
                e.given_type@,
            ),
            MessageError::InvalidParameterError(p) => MessageErrorView::InvalidParameter(p@),
            MessageError::UnauthorizedError(_) => MessageErrorView::Unauthorized,
            MessageError::DecodeError(e) => MessageErrorView::Decode(*e),
        }
    }
}

/// The symbolic reason that an error frame carries for an error.
pub open spec fn reason_of(error: MessageErrorView) -> Seq<char> {
    match error {
        MessageErrorView::InvalidChannel => "InvalidChannel"@,
        MessageErrorView::InvalidMessageType(_) => "InvalidMessageType"@,
        MessageErrorView::InvalidParameter(_) => "InvalidParameter"@,
        MessageErrorView::Unauthorized => "Unauthorized"@,
        MessageErrorView::Decode(_) => "DecodeError"@,
    }
}

impl InvalidChannelError {
    /// What the error says to a reader.
    pub fn to_string(&self) -> (r: String)
        ensures
            r@ == "Invalid channel"@,
    {
        "Invalid channel".to_owned()
    }
}

impl InvalidMessageTypeError {
    /// What the error says to a reader.
    pub fn to_string(&self) -> (r: String)
        ensures
            r@ == "Invalid message type"@,
    {
        "Invalid message type".to_owned()
    }
}

impl UnauthorizedError {
    /// What the error says to a reader.
    pub fn to_string(&self) -> (r: String)
        ensures
            r@ == "Unauthorized"@,
    {
        "Unauthorized".to_owned()
    }
}

impl MessageError {
    /// The symbolic reason that an error frame carries for the error.
    pub fn reason(&self) -> (r: String)
        ensures
            r@ == reason_of(self@),
    {
        match self {
            MessageError::InvalidChannelError(_) => "InvalidChannel".to_owned(),
            MessageError::InvalidMessageTypeError(_) => "InvalidMessageType".to_owned(),
            MessageError::InvalidParameterError(_) => "InvalidParameter".to_owned(),
            MessageError::UnauthorizedError(_) => "Unauthorized".to_owned(),
            MessageError::DecodeError(_) => "DecodeError".to_owned(),
        }
    }
}

} // verus!
