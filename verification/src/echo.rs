//! A node that sends back what it is sent.

use crate::envelope::{envelope_views, Envelope, EnvelopeView, HandleError};
use vstd::prelude::*;

verus! {

/// The bodies an echo node receives and sends.
#[derive(Debug, Clone, PartialEq, Eq)]
pub enum Message {
    Init { msg_id: Option<usize>, node_id: String },
    Echo { echo: String, msg_id: Option<usize> },
    InitOk { in_reply_to: Option<usize> },
    EchoOk { echo: String, in_reply_to: Option<usize> },
}

/// What a [`Message`] holds, as mathematical values.
pub enum MessageView {
    Init { msg_id: Option<usize>, node_id: Seq<char> },
    Echo { echo: Seq<char>, msg_id: Option<usize> },
    InitOk { in_reply_to: Option<usize> },
    EchoOk { echo: Seq<char>, in_reply_to: Option<usize> },
}

impl View for Message {
    type V = MessageView;

    open spec fn view(&self) -> MessageView {
        match *self {
            Message::Init { msg_id, node_id } => MessageView::Init { msg_id, node_id: node_id@ },
            Message::Echo { echo, msg_id } => MessageView::Echo { echo: echo@, msg_id },
            Message::InitOk { in_reply_to } => MessageView::InitOk { in_reply_to },
            Message::EchoOk { echo, in_reply_to } => MessageView::EchoOk {
                echo: echo@,
                in_reply_to,
            },
        }
    }
}

/// Whether an echo node has no handler for `body`.
pub open spec fn is_unexpected(body: MessageView) -> bool {
    body is InitOk || body is EchoOk
}

/// The answer of an echo node to `msg`, where it has a handler for it: the
/// matching acknowledgment, and for an echo the same text.
pub open spec fn answer(msg: EnvelopeView<MessageView>) -> EnvelopeView<MessageView> {
    match msg.body {
        MessageView::Init { msg_id, .. } => msg.reply(MessageView::InitOk { in_reply_to: msg_id }),
        MessageView::Echo { echo, msg_id } => msg.reply(
            MessageView::EchoOk { echo, in_reply_to: msg_id },
        ),
        _ => msg,
    }
}

/// The id of an echo node after it has handled `msg`: the one that an
/// `Init` gives it, and else the one it had.
pub open spec fn next_id(id: Option<Seq<char>>, msg: EnvelopeView<MessageView>) -> Option<
    Seq<char>,
> {
    match msg.body {
        MessageView::Init { node_id, .. } => Some(node_id),
        _ => id,
    }
}

/// An echo node. All it keeps is its id, once it has been told.
#[derive(Debug)]
pub struct Echo {
    node_id: Option<String>,
}

impl View for Echo {
    type V = Option<Seq<char>>;

    /// The node's id, if it has one.
    closed spec fn view(&self) -> Option<Seq<char>> {
        match self.node_id {
            Some(id) => Some(id@),
            None => None,
        }
    }
}

impl Default for Echo {
    fn default() -> (node: Self)
        ensures
            node@ is None,
    {
        Echo::new()
    }
}

impl Echo {
    /// A node that has not been told its id.
    pub fn new() -> (node: Self)
        ensures
            node@ is None,
    {
        Echo { node_id: None }
    }

    /// The node's id, if it has one.
    pub fn node_id(&self) -> (id: Option<&String>)
        ensures
            id is Some <==> self@ is Some,
            id matches Some(text) ==> self@ == Some(text@),
    {
        match &self.node_id {
            Some(text) => Some(text),
            None => None,
        }
    }

    /// Handles one inbound envelope and returns the envelopes to send.
    ///
    /// `Init` sets the node's id and is answered with `InitOk`; `Echo` is
    /// answered with `EchoOk` and the same text. `InitOk` and `EchoOk` are
    /// refused, and the node stays as it is.
    pub fn handle_message(&mut self, msg: Envelope<Message>) -> (result: Result<
        Vec<Envelope<Message>>,
        HandleError,
    >)
        ensures
            final(self)@ == next_id(old(self)@, msg@),
            result is Err <==> is_unexpected(msg@.body),
            result matches Ok(sent) ==> envelope_views(sent@) == seq![answer(msg@)],
            result matches Err(e) ==> e == HandleError::UnexpectedMessage,
    {
        match &msg.body {
            Message::Init { msg_id, node_id } => {
                self.node_id = Some(node_id.clone());
                let mut out: Vec<Envelope<Message>> = Vec::new();
                out.push(msg.reply(Message::InitOk { in_reply_to: *msg_id }));
                proof {
                    assert(envelope_views(out@) =~= seq![answer(msg@)]);
                }
                Ok(out)
            },
            Message::Echo { echo, msg_id } => {
                let mut out: Vec<Envelope<Message>> = Vec::new();
                out.push(msg.reply(Message::EchoOk { echo: echo.clone(), in_reply_to: *msg_id }));
                proof {
                    assert(envelope_views(out@) =~= seq![answer(msg@)]);
                }
                Ok(out)
            },
            Message::InitOk { .. } | Message::EchoOk { .. } => Err(HandleError::UnexpectedMessage),
        }
    }
}

} // verus!
