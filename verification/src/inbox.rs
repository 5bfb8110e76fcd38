//! The inbox, which delivers the messages of the current level in order,
//! and the outbox, which records what the kernel emits.

use vstd::prelude::*;
use crate::error::HostError;
use crate::limits::{MAX_INPUT_MESSAGE_SIZE, MAX_OUTPUT_SIZE};

verus! {

/// One delivered inbox message.
#[derive(Debug, PartialEq, Eq)]
pub struct Message {
    /// The level at which the message was delivered.
    pub level: u32,
    /// The position of the message within its level, counted from 0.
    pub id: usize,
    /// The bytes of the message.
    pub payload: Vec<u8>,
}

/// A message as a value: level, position and bytes.
pub struct MessageView {
    pub level: nat,
    pub id: nat,
    pub payload: Seq<u8>,
}

impl View for Message {
    type V = MessageView;

    open spec fn view(&self) -> MessageView {
        MessageView { level: self.level as nat, id: self.id as nat, payload: self.payload@ }
    }
}

impl Clone for Message {
    fn clone(&self) -> (r: Message)
        ensures
            r@ == self@,
    {
        Message {
            level: self.level,
            id: self.id,
            payload: vstd::slice::slice_to_vec(self.payload.as_slice()),
        }
    }
}

/// An inbox as a value: the current level, the messages of that level in
/// the order of their ids, and how many of them have been delivered.
pub struct InboxView {
    pub level: nat,
    pub messages: Seq<Seq<u8>>,
    pub delivered: nat,
}

impl InboxView {
    /// The message that the next read delivers, if one is left.
    pub open spec fn next_message(self) -> Option<MessageView> {
        if self.delivered < self.messages.len() {
            Some(
                MessageView {
                    level: self.level,
                    id: self.delivered,
                    payload: self.messages[self.delivered as int],
                },
            )
        } else {
            None
        }
    }

    /// The inbox after one read: one more message is delivered, if one was
    /// left.
    pub open spec fn after_read(self) -> InboxView {
        if self.delivered < self.messages.len() {
            InboxView { delivered: self.delivered + 1, ..self }
        } else {
            self
        }
    }

    /// The inbox after `count` reads.
    pub open spec fn after_reads(self, count: nat) -> InboxView
        decreases count,
    {
        if count == 0 {
            self
        } else {
            self.after_reads((count - 1) as nat).after_read()
        }
    }

    /// The inbox after a message was added to the current level.
    pub open spec fn after_add(self, payload: Seq<u8>) -> InboxView {
        InboxView { messages: self.messages.push(payload), ..self }
    }

    /// The inbox at the next level: no messages, none delivered.
    pub open spec fn after_advance(self) -> InboxView {
        InboxView { level: self.level + 1, messages: Seq::empty(), delivered: 0 }
    }
}

/// Reading does not change the level or the messages, and after `count`
/// reads as many messages are delivered as there were to deliver, up to
/// `count` more.
pub proof fn lemma_after_reads(v: InboxView, count: nat)
    requires
        v.delivered <= v.messages.len(),
    ensures
        v.after_reads(count).level == v.level,
        v.after_reads(count).messages == v.messages,
        v.after_reads(count).delivered == if v.delivered + count <= v.messages.len() {
            v.delivered + count
        } else {
            v.messages.len()
        },
    decreases count,
{
    if count > 0 {
        lemma_after_reads(v, (count - 1) as nat);
    }
}

/// The messages of a level are delivered in the order of their ids, from 0
/// upwards and each once: on a level of which nothing is delivered yet, the
/// read that follows `count` reads delivers the message with id `count`, and
/// nothing once all are delivered.
pub proof fn lemma_delivery_order(v: InboxView, count: nat)
    requires
        v.delivered == 0,
    ensures
        count < v.messages.len() ==> v.after_reads(count).next_message() == Some(
            MessageView { level: v.level, id: count, payload: v.messages[count as int] },
        ),
        count >= v.messages.len() ==> v.after_reads(count).next_message() == None::<MessageView>,
{
    lemma_after_reads(v, count);
}

/// After the level advances, whatever was delivered before, the first
/// message added is delivered first, with id 0 and at the new level.
pub proof fn lemma_delivery_restarts(v: InboxView, payload: Seq<u8>)
    ensures
        v.after_advance().next_message() == None::<MessageView>,
        v.after_advance().after_add(payload).next_message() == Some(
            MessageView { level: v.level + 1, id: 0, payload },
        ),
{
}

/// The inbox of the current level.
pub struct Inbox {
    level: u32,
    messages: Vec<Vec<u8>>,
    delivered: usize,
}

impl View for Inbox {
    type V = InboxView;

    closed spec fn view(&self) -> InboxView {
        InboxView {
            level: self.level as nat,
            messages: Seq::new(self.messages@.len(), |i: int| self.messages@[i]@),
            delivered: self.delivered as nat,
        }
    }
}

impl Inbox {
    /// The inbox's invariant: no more messages are delivered than there
    /// are, the level fits its counter, and no message is over the size
    /// limit.
    pub open spec fn wf(&self) -> bool {
        &&& self@.delivered <= self@.messages.len()
        &&& self@.level <= u32::MAX
        &&& forall|i: int|
            0 <= i < self@.messages.len() ==> (#[trigger] self@.messages[i]).len()
                <= MAX_INPUT_MESSAGE_SIZE
    }

    /// An inbox without messages at the given level.
    pub fn new(level: u32) -> (r: Inbox)
        ensures
            r.wf(),
            r@ == (InboxView { level: level as nat, messages: Seq::empty(), delivered: 0 }),
    {
        let r = Inbox { level, messages: Vec::new(), delivered: 0 };
        assert(r@.messages =~= Seq::<Seq<u8>>::empty());
        r
    }

    /// The current level.
    pub fn level(&self) -> (r: u32)
        ensures
            r == self@.level,
    {
        self.level
    }

    /// Whether a message with this payload is accepted.
    pub open spec fn add_input_result(&self, payload: Seq<u8>) -> Result<(), HostError> {
        if payload.len() > MAX_INPUT_MESSAGE_SIZE {
            Err(HostError::MessageTooLarge)
        } else {
            Ok(())
        }
    }

    /// Adds a message to the current level, after those already there.
    /// Refused, with the inbox unchanged, where the payload is over the
    /// size limit.
    pub fn add_input(&mut self, payload: Vec<u8>) -> (r: Result<(), HostError>)
        requires
            old(self).wf(),
        ensures
            final(self).wf(),
            r == old(self).add_input_result(payload@),
            final(self)@ == (if r is Ok {
                old(self)@.after_add(payload@)
            } else {
                old(self)@
            }),
    {
        if payload.len() > MAX_INPUT_MESSAGE_SIZE {
            return Err(HostError::MessageTooLarge);
        }
        let ghost bytes = payload@;
        self.messages.push(payload);
        proof {
            assert(self@.messages =~= old(self)@.messages.push(bytes));
        }
        Ok(())
    }

    /// Delivers the next message of the current level, or nothing once all
    /// are delivered. A delivered message is not delivered again.
    pub fn read_input(&mut self) -> (r: Option<Message>)
        requires
            old(self).wf(),
        ensures
            final(self).wf(),
            final(self)@ == old(self)@.after_read(),
            match r {
                Some(message) => old(self)@.next_message() == Some(message@),
                None => old(self)@.next_message() == None::<MessageView>,
            },
    {
        if self.delivered < self.messages.len() {
            let payload = vstd::slice::slice_to_vec(self.messages[self.delivered].as_slice());
            let message = Message { level: self.level, id: self.delivered, payload };
            self.delivered = self.delivered + 1;
            proof {
                assert(self@.messages =~= old(self)@.messages);
            }
            Some(message)
        } else {
            None
        }
    }

    /// Moves on to the next level, which starts without messages.
    pub fn advance_level(&mut self)
        requires
            old(self).wf(),
            old(self)@.level < u32::MAX,
        ensures
            final(self).wf(),
            final(self)@ == old(self)@.after_advance(),
    {
        self.level = self.level + 1;
        self.messages = Vec::new();
        self.delivered = 0;
        proof {
            assert(self@.messages =~= Seq::<Seq<u8>>::empty());
        }
    }
}

/// The outbox: what was emitted, in the order of emission.
pub struct Outbox {
    messages: Vec<Vec<u8>>,
}

impl View for Outbox {
    type V = Seq<Seq<u8>>;

    closed spec fn view(&self) -> Seq<Seq<u8>> {
        Seq::new(self.messages@.len(), |i: int| self.messages@[i]@)
    }
}

impl Outbox {
    /// The outbox's invariant: no message is over the size limit.
    pub open spec fn wf(&self) -> bool {
        forall|i: int| 0 <= i < self@.len() ==> (#[trigger] self@[i]).len() <= MAX_OUTPUT_SIZE
    }

    /// The empty outbox.
    pub fn new() -> (r: Outbox)
        ensures
            r.wf(),
            r@ == Seq::<Seq<u8>>::empty(),
    {
        let r = Outbox { messages: Vec::new() };
        assert(r@ =~= Seq::<Seq<u8>>::empty());
        r
    }

    /// Whether a message with these bytes is accepted.
    pub open spec fn write_output_result(&self, bytes: Seq<u8>) -> Result<(), HostError> {
        if bytes.len() > MAX_OUTPUT_SIZE {
            Err(HostError::MessageTooLarge)
        } else {
            Ok(())
        }
    }

    /// Appends a message. Refused, with the outbox unchanged, where the
    /// message is over the size limit.
    pub fn write_output(&mut self, bytes: Vec<u8>) -> (r: Result<(), HostError>)
        requires
            old(self).wf(),
        ensures
            final(self).wf(),
            r == old(self).write_output_result(bytes@),
            final(self)@ == (if r is Ok {
                old(self)@.push(bytes@)
            } else {
                old(self)@
            }),
    {
        if bytes.len() > MAX_OUTPUT_SIZE {
            return Err(HostError::MessageTooLarge);
        }
        let ghost content = bytes@;
        self.messages.push(bytes);
        proof {
            assert(self@ =~= old(self)@.push(content));
        }
        Ok(())
    }

    /// The number of messages emitted so far.
    pub fn len(&self) -> (r: usize)
        ensures
            r == self@.len(),
    {
        self.messages.len()
    }

    /// The message emitted at position `i`.
    pub fn message(&self, i: usize) -> (r: &[u8])
        requires
            i < self@.len(),
        ensures
            r@ == self@[i as int],
    {
        self.messages[i].as_slice()
    }
}

} // verus!
