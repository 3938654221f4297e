//! The inbound side of the audio path: what a consumer gets from the
//! channels of one group.
//!
//! A receiver is tied to the channels that were in the group when it was
//! made; a channel that joins later does not feed it. Frames wait in a
//! bounded queue. A frame that finds the queue full is dropped, so that a
//! slow consumer loses the newest audio and never holds up the sender.

use crate::router::ChannelHandle;
use std::collections::VecDeque;
use vstd::prelude::*;

verus! {

/// How many frames a receiver keeps waiting.
pub const QUEUE_CAPACITY: usize = 100;

/// What became of a frame that a channel delivered.
#[derive(Debug, Clone, Copy, PartialEq, Eq, Structural)]
pub enum Delivery {
    /// The frame waits for the consumer.
    Queued,
    /// The receiver was cancelled: dropped.
    Cancelled,
    /// The channel does not feed this receiver: dropped.
    NotSubscribed,
    /// The receiving gate was closed: dropped.
    GateClosed,
    /// The queue was full: dropped.
    Overflow,
}

/// A receiver as a mathematical value.
pub struct ReceiverView {
    pub group: Seq<char>,
    /// The channels that feed the receiver.
    pub channels: Seq<ChannelHandle>,
    /// The frames that wait, oldest first.
    pub queue: Seq<Seq<u8>>,
    pub cancelled: bool,
}

impl ReceiverView {
    /// A receiver for `group` fed by `channels`, with nothing waiting.
    pub open spec fn subscribed(group: Seq<char>, channels: Seq<ChannelHandle>) -> ReceiverView {
        ReceiverView { group, channels, queue: Seq::empty(), cancelled: false }
    }

    /// What becomes of a frame from `channel` while the receiving gate is
    /// open or closed.
    pub open spec fn delivery(self, gate_open: bool, channel: ChannelHandle) -> Delivery {
        if self.cancelled {
            Delivery::Cancelled
        } else if !self.channels.contains(channel) {
            Delivery::NotSubscribed
        } else if !gate_open {
            Delivery::GateClosed
        } else if self.queue.len() >= QUEUE_CAPACITY {
            Delivery::Overflow
        } else {
            Delivery::Queued
        }
    }

    /// The receiver after `channel` delivered `frame`.
    pub open spec fn deliver(
        self,
        gate_open: bool,
        channel: ChannelHandle,
        frame: Seq<u8>,
    ) -> ReceiverView {
        if self.delivery(gate_open, channel) == Delivery::Queued {
            ReceiverView { queue: self.queue.push(frame), ..self }
        } else {
            self
        }
    }

    /// The receiver after the consumer took the oldest frame.
    pub open spec fn taken(self) -> ReceiverView {
        if self.queue.len() > 0 {
            ReceiverView { queue: self.queue.drop_first(), ..self }
        } else {
            self
        }
    }

    /// The cancelled receiver: nothing waits, nothing is accepted.
    pub open spec fn cancel(self) -> ReceiverView {
        ReceiverView { queue: Seq::empty(), cancelled: true, ..self }
    }
}

/// The consumer's end of the audio of one group.
#[derive(Debug)]
pub struct AudioReceiver {
    group: String,
    channels: Vec<ChannelHandle>,
    queue: VecDeque<Vec<u8>>,
    cancelled: bool,
}

impl View for AudioReceiver {
    type V = ReceiverView;

    closed spec fn view(&self) -> ReceiverView {
        ReceiverView {
            group: self.group@,
            channels: self.channels@,
            queue: self.queue.deep_view(),
            cancelled: self.cancelled,
        }
    }
}

impl AudioReceiver {
    #[verifier::type_invariant]
    spec fn inv(self) -> bool {
        self.queue@.len() <= QUEUE_CAPACITY
    }

    /// A receiver for `group` that `channels` feed.
    pub fn new(group: &str, channels: Vec<ChannelHandle>) -> (r: Self)
        ensures
            r@ == ReceiverView::subscribed(group@, channels@),
    {
        let r = AudioReceiver {
            group: group.to_owned(),
            channels,
            queue: VecDeque::new(),
            cancelled: false,
        };
        assert(r.queue.deep_view() =~= Seq::<Seq<u8>>::empty());
        r
    }

    /// The group that the receiver listens to.
    pub fn group(&self) -> (g: String)
        ensures
            g@ == self@.group,
    {
        self.group.clone()
    }

    /// Whether `channel` feeds this receiver.
    pub fn is_fed_by(&self, channel: ChannelHandle) -> (b: bool)
        ensures
            b == self@.channels.contains(channel),
    {
        let n: usize = self.channels.len();
        let mut i: usize = 0;
        while i < n
            invariant
                i <= n,
                n == self.channels.len(),
                forall|j: int| 0 <= j < i ==> self.channels@[j] != channel,
            decreases n - i,
        {
            if self.channels[i] == channel {
                return true;
            }
            i += 1;
        }
        false
    }

    /// How many frames wait. Never more than [`QUEUE_CAPACITY`].
    pub fn len(&self) -> (n: usize)
        ensures
            n == self@.queue.len(),
            n <= QUEUE_CAPACITY,
    {
        proof {
            use_type_invariant(&*self);
        }
        self.queue.len()
    }

    /// Whether the receiver was cancelled.
    pub fn is_cancelled(&self) -> (b: bool)
        ensures
            b == self@.cancelled,
    {
        self.cancelled
    }

    /// Takes a frame that `channel` delivered while the receiving gate was
    /// open or closed, and says what became of it.
    pub fn deliver(&mut self, gate_open: bool, channel: ChannelHandle, frame: Vec<u8>) -> (d:
        Delivery)
        ensures
            d == old(self)@.delivery(gate_open, channel),
            final(self)@ == old(self)@.deliver(gate_open, channel, frame@),
    {
        proof {
            use_type_invariant(&*self);
        }
        if self.cancelled {
            Delivery::Cancelled
        } else if !self.is_fed_by(channel) {
            Delivery::NotSubscribed
        } else if !gate_open {
            Delivery::GateClosed
        } else if self.queue.len() >= QUEUE_CAPACITY {
            Delivery::Overflow
        } else {
            let ghost before = self.queue.deep_view();
            let mut queue: VecDeque<Vec<u8>> = VecDeque::new();
            std::mem::swap(&mut queue, &mut self.queue);
            queue.push_back(frame);
            assert(frame.deep_view() =~= frame@);
            assert(queue.deep_view() =~= before.push(frame@));
            self.queue = queue;
            Delivery::Queued
        }
    }

    /// Hands out the oldest frame that waits, if there is one.
    pub fn next(&mut self) -> (frame: Option<Vec<u8>>)
        ensures
            (match frame {
                Some(f) => old(self)@.queue.len() > 0 && f@ == old(self)@.queue[0],
                None => old(self)@.queue.len() == 0,
            }),
            final(self)@ == old(self)@.taken(),
    {
        proof {
            use_type_invariant(&*self);
        }
        let ghost before = self.queue.deep_view();
        let mut queue: VecDeque<Vec<u8>> = VecDeque::new();
        std::mem::swap(&mut queue, &mut self.queue);
        let frame = queue.pop_front();
        assert(frame matches Some(f) ==> f.deep_view() =~= f@);
        assert(before.len() > 0 ==> queue.deep_view() =~= before.drop_first());
        assert(before.len() == 0 ==> queue.deep_view() =~= before);
        self.queue = queue;
        frame
    }

    /// Cancels the receiver: what waits is dropped, and nothing is
    /// accepted any more.
    pub fn cancel(&mut self)
        ensures
            final(self)@ == old(self)@.cancel(),
    {
        let queue: VecDeque<Vec<u8>> = VecDeque::new();
        assert(queue.deep_view() =~= Seq::<Seq<u8>>::empty());
        self.queue = queue;
        self.cancelled = true;
    }
}

} // verus!
