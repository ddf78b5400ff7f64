//! The addressed wrapper that every message travels in.

use vstd::prelude::*;

verus! {

/// A message body together with the ids of its sender and receiver.
#[derive(Debug, Clone, PartialEq, Eq)]
pub struct Envelope<B> {
    /// The id of the sender.
    pub src: String,
    /// The id of the receiver.
    pub dest: String,
    /// The payload.
    pub body: B,
}

/// Why a node did not handle a message. The node is then as it was, and the
/// caller may log the message and go on.
#[derive(Debug, Clone, Copy, PartialEq, Eq)]
pub enum HandleError {
    /// The message is one for which the node has no handler, such as an
    /// answer that it only ever sends.
    UnexpectedMessage,
}

/// What an [`Envelope`] holds, with the ids as sequences of characters and
/// the body by its own view.
pub struct EnvelopeView<V> {
    pub src: Seq<char>,
    pub dest: Seq<char>,
    pub body: V,
}

impl<B: View> View for Envelope<B> {
    type V = EnvelopeView<B::V>;

    open spec fn view(&self) -> EnvelopeView<B::V> {
        EnvelopeView { src: self.src@, dest: self.dest@, body: self.body@ }
    }
}

impl<V> EnvelopeView<V> {
    /// The answer to this envelope: sender and receiver change places and
    /// `body` is the new payload.
    pub open spec fn reply<W>(self, body: W) -> EnvelopeView<W> {
        EnvelopeView { src: self.dest, dest: self.src, body }
    }
}

/// The views of a sequence of envelopes, in the same order.
pub open spec fn envelope_views<B: View>(list: Seq<Envelope<B>>) -> Seq<EnvelopeView<B::V>> {
    list.map_values(|e: Envelope<B>| e@)
}

impl<B: View> Envelope<B> {
    /// An envelope from `src` to `dest` that carries `body`.
    pub fn new(src: &str, dest: &str, body: B) -> (env: Self)
        ensures
            env@ == (EnvelopeView { src: src@, dest: dest@, body: body@ }),
    {
        Envelope { src: src.to_owned(), dest: dest.to_owned(), body }
    }

    /// The answer to this envelope, carrying `body`: it goes from this
    /// envelope's receiver back to its sender.
    pub fn reply<T: View>(&self, body: T) -> (env: Envelope<T>)
        ensures
            env@ == self@.reply(body@),
    {
        let src = self.dest.clone();
        let dest = self.src.clone();
        Envelope { src, dest, body }
    }
}

} // verus!
