//! Combat events, buffered for the outside world to drain.
use vstd::prelude::*;
use crate::components::Glyph;

verus! {

/// A message to be displayed in the log.
#[derive(Clone, Copy, Debug)]
pub enum LogMessage {
    /// Something was attacked.
    Attacked {
        /// Who attacked.
        attacker: Glyph,
        /// What was attacked.
        target: Glyph,
        /// Where the target stands.
        position: (i32, i32),
        /// Whether the blow brought the target's health to zero.
        defeated: bool,
    },
}

/// An append-only buffer of log messages.
pub struct Logs {
    messages: Vec<LogMessage>,
}

impl View for Logs {
    type V = Seq<LogMessage>;

    closed spec fn view(&self) -> Seq<LogMessage> {
        self.messages@
    }
}

impl Logs {
    pub fn new() -> (r: Logs)
        ensures
            r@ == Seq::<LogMessage>::empty(),
    {
        Logs { messages: Vec::new() }
    }

    /// Appends a message.
    pub fn add(&mut self, message: LogMessage)
        ensures
            final(self)@ == old(self)@.push(message),
    {
        self.messages.push(message);
    }

    /// Returns every message added since the last flush, and empties the buffer.
    pub fn flush(&mut self) -> (r: Vec<LogMessage>)
        ensures
            r@ == old(self)@,
            final(self)@ == Seq::<LogMessage>::empty(),
    {
        let mut messages: Vec<LogMessage> = Vec::new();
        std::mem::swap(&mut messages, &mut self.messages);
        messages
    }
}

} // verus!
