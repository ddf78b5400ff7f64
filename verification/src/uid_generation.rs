//! A node that hands out ids which no node hands out twice.
//!
//! An id is the node's own id, a hyphen, and the number of ids the node has
//! handed out before, in decimal.

use crate::envelope::{envelope_views, Envelope, EnvelopeView, HandleError};
use vstd::prelude::*;

verus! {

/// The bodies an id node receives and sends.
#[derive(Debug, Clone, PartialEq, Eq)]
pub enum Message {
    Init { msg_id: Option<usize>, node_id: String },
    InitOk { in_reply_to: Option<usize> },
    GenerateOk { in_reply_to: Option<usize>, id: String },
    Generate { msg_id: usize },
}

/// What a [`Message`] holds, as mathematical values.
pub enum MessageView {
    Init { msg_id: Option<usize>, node_id: Seq<char> },
    InitOk { in_reply_to: Option<usize> },
    GenerateOk { in_reply_to: Option<usize>, id: Seq<char> },
    Generate { msg_id: usize },
}

impl View for Message {
    type V = MessageView;

    open spec fn view(&self) -> MessageView {
        match *self {
            Message::Init { msg_id, node_id } => MessageView::Init { msg_id, node_id: node_id@ },
            Message::InitOk { in_reply_to } => MessageView::InitOk { in_reply_to },
            Message::GenerateOk { in_reply_to, id } => MessageView::GenerateOk {
                in_reply_to,
                id: id@,
            },
            Message::Generate { msg_id } => MessageView::Generate { msg_id },
        }
    }
}

/// The character for the digit `d`.
pub open spec fn digit(d: nat) -> char
    recommends
        d < 10,
{
    seq!['0', '1', '2', '3', '4', '5', '6', '7', '8', '9'][d as int]
}

/// The decimal numeral of `n`, without leading zeros.
pub open spec fn decimal(n: nat) -> Seq<char>
    decreases n,
{
    if n < 10 {
        seq![digit(n)]
    } else {
        decimal(n / 10).push(digit(n % 10))
    }
}

/// The id that the node `node_id` hands out after `counter` others.
pub open spec fn unique_id(node_id: Seq<char>, counter: u32) -> Seq<char> {
    node_id + seq!['-'] + decimal(counter as nat)
}

/// The state of an id node, as mathematical values.
pub struct UidView {
    /// This node's id.
    pub node_id: Seq<char>,
    /// How many ids the node has handed out.
    pub counter: u32,
}

/// Whether an id node has no handler for `body`.
pub open spec fn is_unexpected(body: MessageView) -> bool {
    body is InitOk || body is GenerateOk
}

impl UidView {
    /// Whether handling `body` stays within what the counter can count.
    pub open spec fn accepts(self, body: MessageView) -> bool {
        body is Generate ==> self.counter < u32::MAX
    }

    /// The node after it has handled `msg`.
    pub open spec fn next(self, msg: EnvelopeView<MessageView>) -> UidView {
        match msg.body {
            MessageView::Init { node_id, .. } => UidView { node_id, ..self },
            MessageView::Generate { .. } => UidView {
                counter: (self.counter + 1) as u32,
                ..self
            },
            _ => self,
        }
    }

    /// The answer of the node to `msg`, where it has a handler for it.
    pub open spec fn answer(self, msg: EnvelopeView<MessageView>) -> EnvelopeView<MessageView> {
        match msg.body {
            MessageView::Init { msg_id, .. } => msg.reply(
                MessageView::InitOk { in_reply_to: msg_id },
            ),
            MessageView::Generate { msg_id } => msg.reply(
                MessageView::GenerateOk {
                    in_reply_to: Some(msg_id),
                    id: unique_id(self.node_id, self.counter),
                },
            ),
            _ => msg,
        }
    }
}

/// The digit `d` as text.
fn digit_text(d: u32) -> (text: &'static str)
    requires
        d < 10,
    ensures
        text@ == seq![digit(d as nat)],
{
    proof {
        reveal_strlit("0");
        reveal_strlit("1");
        reveal_strlit("2");
        reveal_strlit("3");
        reveal_strlit("4");
        reveal_strlit("5");
        reveal_strlit("6");
        reveal_strlit("7");
        reveal_strlit("8");
        reveal_strlit("9");
    }
    let text = match d {
        0 => "0",
        1 => "1",
        2 => "2",
        3 => "3",
        4 => "4",
        5 => "5",
        6 => "6",
        7 => "7",
        8 => "8",
        _ => "9",
    };
    assert(text@ =~= seq![digit(d as nat)]);
    text
}

/// Writes the decimal numeral of `n` behind `text`.
fn append_decimal(text: &mut String, n: u32)
    ensures
        final(text)@ == old(text)@ + decimal(n as nat),
    decreases n,
{
    if n >= 10 {
        append_decimal(text, n / 10);
    }
    text.append(digit_text(n % 10));
    assert(text@ =~= old(text)@ + decimal(n as nat));
}

/// An id node: its own id and the number of ids it has handed out.
#[derive(Debug)]
pub struct UID {
    node_id: String,
    counter: u32,
}

impl View for UID {
    type V = UidView;

    closed spec fn view(&self) -> UidView {
        UidView { node_id: self.node_id@, counter: self.counter }
    }
}

impl Default for UID {
    fn default() -> (node: Self)
        ensures
            node@ == (UidView { node_id: Seq::empty(), counter: 0 }),
    {
        UID::new()
    }
}

impl UID {
    /// A node without an id that has handed out nothing.
    pub fn new() -> (node: Self)
        ensures
            node@ == (UidView { node_id: Seq::empty(), counter: 0 }),
    {
        UID { node_id: String::new(), counter: 0 }
    }

    /// This node's id.
    pub fn node_id(&self) -> (id: &String)
        ensures
            id@ == self@.node_id,
    {
        &self.node_id
    }

    /// How many ids the node has handed out.
    pub fn counter(&self) -> (n: u32)
        ensures
            n == self@.counter,
    {
        self.counter
    }

    /// Whether [`UID::handle_message`] can take `msg`: whether the counter
    /// can still go up where the message asks for an id.
    pub fn accepts(&self, msg: &Envelope<Message>) -> (ok: bool)
        ensures
            ok == self@.accepts(msg@.body),
    {
        match &msg.body {
            Message::Generate { .. } => self.counter < u32::MAX,
            _ => true,
        }
    }

    /// Handles one inbound envelope and returns the envelopes to send.
    ///
    /// `Init` sets the node's id and is answered with `InitOk`. `Generate`
    /// is answered with `GenerateOk` and the id made of the node's id, a
    /// hyphen and the count of ids handed out so far; the count then goes
    /// up by one. `InitOk` and `GenerateOk` are refused, and the node stays
    /// as it is.
    pub fn handle_message(&mut self, msg: Envelope<Message>) -> (result: Result<
        Vec<Envelope<Message>>,
        HandleError,
    >)
        requires
            old(self)@.accepts(msg@.body),
        ensures
            final(self)@ == old(self)@.next(msg@),
            result is Err <==> is_unexpected(msg@.body),
            result matches Ok(sent) ==> envelope_views(sent@) == seq![old(self)@.answer(msg@)],
            result matches Err(e) ==> e == HandleError::UnexpectedMessage,
    {
        match &msg.body {
            Message::Init { msg_id, node_id } => {
                self.node_id = node_id.clone();
                let mut out: Vec<Envelope<Message>> = Vec::new();
                out.push(msg.reply(Message::InitOk { in_reply_to: *msg_id }));
                proof {
                    assert(envelope_views(out@) =~= seq![old(self)@.answer(msg@)]);
                }
                Ok(out)
            },
            Message::Generate { msg_id } => {
                let mut id = self.node_id.clone();
                id.append("-");
                proof {
                    reveal_strlit("-");
                    assert("-"@ =~= seq!['-']);
                }
                append_decimal(&mut id, self.counter);
                let mut out: Vec<Envelope<Message>> = Vec::new();
                out.push(msg.reply(Message::GenerateOk { in_reply_to: Some(*msg_id), id }));
                self.counter = self.counter + 1;
                proof {
                    assert(envelope_views(out@) =~= seq![old(self)@.answer(msg@)]);
                }
                Ok(out)
            },
            Message::InitOk { .. } | Message::GenerateOk { .. } => Err(
                HandleError::UnexpectedMessage,
            ),
        }
    }
}

/// Different digits have different characters.
pub proof fn lemma_digit_is_injective(a: nat, b: nat)
    requires
        a < 10,
        b < 10,
        digit(a) == digit(b),
    ensures
        a == b,
{
    assert(digit(0) == '0' && digit(1) == '1' && digit(2) == '2' && digit(3) == '3' && digit(4)
        == '4');
    assert(digit(5) == '5' && digit(6) == '6' && digit(7) == '7' && digit(8) == '8' && digit(9)
        == '9');
}

/// Two numbers with the same decimal numeral are the same number.
pub proof fn lemma_decimal_is_injective(a: nat, b: nat)
    requires
        decimal(a) == decimal(b),
    ensures
        a == b,
    decreases a,
{
    if a < 10 && b < 10 {
        assert(decimal(a)[0] == digit(a));
        assert(decimal(b)[0] == digit(b));
        lemma_digit_is_injective(a, b);
    } else if a < 10 {
        assert(decimal(b).len() == decimal(b / 10).len() + 1);
        lemma_decimal_is_not_empty(b / 10);
    } else if b < 10 {
        assert(decimal(a).len() == decimal(a / 10).len() + 1);
        lemma_decimal_is_not_empty(a / 10);
    } else {
        let x = decimal(a / 10);
        let y = decimal(b / 10);
        assert(x.push(digit(a % 10)).drop_last() =~= x);
        assert(y.push(digit(b % 10)).drop_last() =~= y);
        assert(x.push(digit(a % 10)).last() == digit(a % 10));
        assert(y.push(digit(b % 10)).last() == digit(b % 10));
        lemma_decimal_is_injective(a / 10, b / 10);
        lemma_digit_is_injective(a % 10, b % 10);
    }
}

/// Every decimal numeral has a digit.
pub proof fn lemma_decimal_is_not_empty(n: nat)
    ensures
        decimal(n).len() >= 1,
    decreases n,
{
    if n >= 10 {
        lemma_decimal_is_not_empty(n / 10);
    }
}

/// No decimal numeral holds a hyphen.
pub proof fn lemma_decimal_has_no_hyphen(n: nat, i: int)
    requires
        0 <= i < decimal(n).len(),
    ensures
        decimal(n)[i] != '-',
    decreases n,
{
    assert(digit(0) == '0' && digit(1) == '1' && digit(2) == '2' && digit(3) == '3' && digit(4)
        == '4');
    assert(digit(5) == '5' && digit(6) == '6' && digit(7) == '7' && digit(8) == '8' && digit(9)
        == '9');
    if n >= 10 {
        if i < decimal(n / 10).len() {
            lemma_decimal_has_no_hyphen(n / 10, i);
        }
    }
}

/// No two nodes hand out the same id, and no node hands out an id twice:
/// ids made by different nodes or at different counts differ.
pub proof fn lemma_ids_differ(
    first_node: Seq<char>,
    first: u32,
    second_node: Seq<char>,
    second: u32,
)
    requires
        first_node != second_node || first != second,
    ensures
        unique_id(first_node, first) != unique_id(second_node, second),
{
    let a = decimal(first as nat);
    let b = decimal(second as nat);
    let x = unique_id(first_node, first);
    let y = unique_id(second_node, second);
    lemma_decimal_is_not_empty(first as nat);
    lemma_decimal_is_not_empty(second as nat);
    if x == y {
        // The hyphen of each id stands where the numeral of the other
        // would have a digit, unless the numerals are equally long.
        assert(x.len() == first_node.len() + 1 + a.len());
        assert(y.len() == second_node.len() + 1 + b.len());
        assert(x[first_node.len() as int] == '-');
        assert(y[second_node.len() as int] == '-');
        if a.len() < b.len() {
            let at = first_node.len() as int;
            assert(y[at] == b[at - second_node.len() - 1]);
            lemma_decimal_has_no_hyphen(second as nat, at - second_node.len() - 1);
        } else if b.len() < a.len() {
            let at = second_node.len() as int;
            assert(x[at] == a[at - first_node.len() - 1]);
            lemma_decimal_has_no_hyphen(first as nat, at - first_node.len() - 1);
        } else {
            let n = first_node.len() as int;
            assert(x.take(n) =~= first_node);
            assert(y.take(n) =~= second_node);
            assert(x.skip(n + 1) =~= a);
            assert(y.skip(n + 1) =~= b);
            lemma_decimal_is_injective(first as nat, second as nat);
        }
    }
}

} // verus!
