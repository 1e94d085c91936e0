//! One drone's transport state: its outbound queue, the latest response, and
//! the counter of blocking commands that a barrier waits for.
//!
//! The state is plain data. Whoever owns the socket calls `next_to_send`
//! before each transmission and `receive` for each datagram that arrives;
//! the interpreter calls `add_command` and polls `await_blocks`.
use crate::command::{CommandView, SdkCommand};
use crate::text::{chars_of, string_of, trim, trim_bounds};
use std::collections::VecDeque;
use vstd::prelude::*;
use vstd::slice::slice_subrange;
use vstd::string::StringSliceAdditionalSpecFns;
use vstd::utf8::{decode_utf8, encode_utf8_decode_utf8, valid_utf8};

verus! {

/// Milliseconds the sender rests between two looks at the queue.
pub const SEND_INTERVAL_MS: u64 = 20;

/// Milliseconds the receiver rests between two datagrams.
pub const RECEIVE_INTERVAL_MS: u64 = 20;

/// Milliseconds between two polls of a barrier.
pub const POLL_INTERVAL_MS: u64 = 20;

/// The largest datagram the receiver takes in, in bytes.
pub const RECEIVE_BUFFER: usize = 1500;

/// The transport state of one drone.
pub struct Drone {
    id: String,
    queue: VecDeque<SdkCommand>,
    last_response: String,
    ack: bool,
    block_counter: usize,
    in_flight: usize,
}

/// A drone's state as plain values.
pub struct DroneView {
    /// The identifier the drone was connected under.
    pub id: Seq<char>,
    /// The commands not yet transmitted, oldest first.
    pub queue: Seq<CommandView>,
    /// The latest response, trimmed; empty before the first one.
    pub last_response: Seq<char>,
    /// Whether any response has arrived yet.
    pub ack: bool,
    /// Blocking commands enqueued and not yet acknowledged.
    pub block_counter: nat,
    /// Blocking commands transmitted and not yet acknowledged.
    pub in_flight: nat,
}

/// What a barrier poll answers.
#[derive(Clone, Copy, Debug, PartialEq, Eq, Structural)]
pub enum BarrierPoll {
    /// No blocking command is outstanding.
    Drained,
    /// Some are: look again after this many milliseconds.
    Wait(u64),
}

/// Something that happens to a drone's state.
pub enum Event {
    /// The interpreter enqueues a command.
    Enqueue(CommandView),
    /// The sender looks at the queue and transmits its head, if any.
    Send,
    /// A datagram arrives.
    Frame(Seq<u8>),
}

/// The number of blocking commands in a queue.
pub open spec fn blocking_count(queue: Seq<CommandView>) -> nat
    decreases queue.len(),
{
    if queue.len() == 0 {
        0
    } else {
        blocking_count(queue.drop_last()) + if queue.last().blocking {
            1nat
        } else {
            0nat
        }
    }
}

impl DroneView {
    /// The state right after connecting.
    pub open spec fn fresh(id: Seq<char>) -> DroneView {
        DroneView {
            id,
            queue: Seq::empty(),
            last_response: Seq::empty(),
            ack: false,
            block_counter: 0,
            in_flight: 0,
        }
    }

    /// The counter counts the blocking commands still queued and those in
    /// flight, and nothing else.
    pub open spec fn well_formed(self) -> bool {
        self.block_counter == blocking_count(self.queue) + self.in_flight
    }

    /// The state after `c` joined the back of the queue.
    pub open spec fn enqueue(self, c: CommandView) -> DroneView {
        DroneView {
            queue: self.queue.push(c),
            block_counter: if c.blocking {
                self.block_counter + 1
            } else {
                self.block_counter
            },
            ..self
        }
    }

    /// The state after the head of the queue left for the wire. A blocking
    /// command is then in flight; any other is forgotten.
    pub open spec fn take(self) -> DroneView
        recommends
            self.queue.len() > 0,
    {
        DroneView {
            queue: self.queue.drop_first(),
            in_flight: if self.queue[0].blocking {
                self.in_flight + 1
            } else {
                self.in_flight
            },
            ..self
        }
    }

    /// The state after a datagram arrived. Valid UTF-8 becomes the latest
    /// response and acknowledges every blocking command in flight; anything
    /// else leaves the state as it was.
    pub open spec fn respond(self, frame: Seq<u8>) -> DroneView {
        if valid_utf8(frame) {
            DroneView {
                last_response: trim(decode_utf8(frame)),
                ack: true,
                block_counter: (self.block_counter - self.in_flight) as nat,
                in_flight: 0,
                ..self
            }
        } else {
            self
        }
    }

    /// The state after one event.
    pub open spec fn step(self, e: Event) -> DroneView {
        match e {
            Event::Enqueue(c) => self.enqueue(c),
            Event::Send => if self.queue.len() > 0 {
                self.take()
            } else {
                self
            },
            Event::Frame(frame) => self.respond(frame),
        }
    }

    /// The state after a series of events.
    pub open spec fn run(self, events: Seq<Event>) -> DroneView
        decreases events.len(),
    {
        if events.len() == 0 {
            self
        } else {
            self.run(events.drop_last()).step(events.last())
        }
    }

    /// The commands transmitted during a series of events, in the order of
    /// their transmission.
    pub open spec fn transmitted(self, events: Seq<Event>) -> Seq<CommandView>
        decreases events.len(),
    {
        if events.len() == 0 {
            Seq::empty()
        } else {
            let before = self.run(events.drop_last());
            let earlier = self.transmitted(events.drop_last());
            if events.last() is Send && before.queue.len() > 0 {
                earlier.push(before.queue[0])
            } else {
                earlier
            }
        }
    }
}

/// The commands enqueued during a series of events, in the order of their
/// arrival.
pub open spec fn enqueued(events: Seq<Event>) -> Seq<CommandView>
    decreases events.len(),
{
    if events.len() == 0 {
        Seq::empty()
    } else {
        let earlier = enqueued(events.drop_last());
        match events.last() {
            Event::Enqueue(c) => earlier.push(c),
            _ => earlier,
        }
    }
}

/// `core::str::from_utf8` accepts exactly the byte sequences that are valid
/// UTF-8, and the string slice it returns has the very bytes it was given.
#[verifier::external_body]
fn utf8_text(frame: &[u8]) -> (r: Option<&str>)
    ensures
        r is Some <==> valid_utf8(frame@),
        r matches Some(text) ==> text.spec_bytes() == frame@,
{
    match core::str::from_utf8(frame) {
        Ok(text) => Some(text),
        Err(_) => None,
    }
}

impl View for Drone {
    type V = DroneView;

    closed spec fn view(&self) -> DroneView {
        DroneView {
            id: self.id@,
            queue: Seq::new(self.queue@.len(), |i: int| self.queue@[i]@),
            last_response: self.last_response@,
            ack: self.ack,
            block_counter: self.block_counter as nat,
            in_flight: self.in_flight as nat,
        }
    }
}

impl Drone {
    /// The state of a drone that was just connected under `addr`: nothing
    /// queued, nothing heard, nothing outstanding.
    pub fn connect(addr: &str) -> (d: Drone)
        ensures
            d@ == DroneView::fresh(addr@),
            d@.well_formed(),
    {
        let d = Drone {
            id: addr.to_owned(),
            queue: VecDeque::new(),
            last_response: String::new(),
            ack: false,
            block_counter: 0,
            in_flight: 0,
        };
        assert(d@.queue =~= Seq::empty());
        d
    }

    /// Enqueues `cmd` behind everything already queued. A blocking command is
    /// counted before it joins the queue.
    pub fn add_command(&mut self, cmd: SdkCommand)
        requires
            old(self)@.well_formed(),
            cmd.blocking ==> old(self)@.block_counter < usize::MAX,
        ensures
            final(self)@ == old(self)@.enqueue(cmd@),
            final(self)@.well_formed(),
    {
        if cmd.blocking {
            self.block_counter = self.block_counter + 1;
        }
        self.queue.push_back(cmd);
        proof {
            assert(self@.queue =~= old(self)@.queue.push(cmd@));
            assert(self@.queue.drop_last() =~= old(self)@.queue);
        }
    }

    /// Takes the head of the queue for transmission, if there is one. Taking
    /// a blocking command puts it in flight.
    pub fn next_to_send(&mut self) -> (r: Option<SdkCommand>)
        requires
            old(self)@.well_formed(),
        ensures
            final(self)@.well_formed(),
            match r {
                Some(c) => old(self)@.queue.len() > 0 && c@ == old(self)@.queue[0] && final(self)@
                    == old(self)@.take(),
                None => old(self)@.queue.len() == 0 && final(self)@ == old(self)@,
            },
    {
        match self.queue.pop_front() {
            Some(c) => {
                proof {
                    assert(self@.queue =~= old(self)@.queue.drop_first());
                    lemma_blocking_count_drop_first(old(self)@.queue);
                }
                if c.blocking {
                    self.in_flight = self.in_flight + 1;
                }
                Some(c)
            },
            None => {
                assert(self@.queue =~= old(self)@.queue);
                None
            },
        }
    }

    /// Takes in one datagram from the drone.
    pub fn receive(&mut self, frame: &[u8])
        requires
            old(self)@.well_formed(),
        ensures
            final(self)@ == old(self)@.respond(frame@),
            final(self)@.well_formed(),
    {
        match utf8_text(frame) {
            Some(text) => {
                proof {
                    encode_utf8_decode_utf8(text@);
                }
                let chars = chars_of(text);
                let (from, to) = trim_bounds(chars.as_slice());
                self.last_response = string_of(slice_subrange(chars.as_slice(), from, to));
                self.ack = true;
                self.block_counter = self.block_counter - self.in_flight;
                self.in_flight = 0;
                assert(self@.queue =~= old(self)@.queue);
            },
            None => {},
        }
    }

    /// One poll of a barrier on this drone.
    pub fn await_blocks(&self) -> (r: BarrierPoll)
        ensures
            r == if self@.block_counter == 0 {
                BarrierPoll::Drained
            } else {
                BarrierPoll::Wait(POLL_INTERVAL_MS)
            },
    {
        if self.block_counter == 0 {
            BarrierPoll::Drained
        } else {
            BarrierPoll::Wait(POLL_INTERVAL_MS)
        }
    }

    /// Whether the counter is exact.
    pub fn is_well_formed(&self) -> (r: bool)
        ensures
            r == self@.well_formed(),
    {
        let mut blocking: usize = 0;
        let mut i: usize = 0;
        while i < self.queue.len()
            invariant
                i <= self.queue.len(),
                blocking <= i,
                blocking == blocking_count(self@.queue.take(i as int)),
            decreases self.queue.len() - i,
        {
            proof {
                let upto = self@.queue.take(i as int + 1);
                assert(upto.drop_last() =~= self@.queue.take(i as int));
                assert(upto.last() == self.queue@[i as int]@);
            }
            if self.queue[i].blocking {
                blocking = blocking + 1;
            }
            i = i + 1;
        }
        assert(self@.queue.take(self.queue.len() as int) =~= self@.queue);
        blocking <= self.block_counter && self.block_counter - blocking == self.in_flight
    }

    /// The identifier the drone was connected under.
    pub fn id(&self) -> (r: &str)
        ensures
            r@ == self@.id,
    {
        self.id.as_str()
    }

    /// The latest response, or the empty string before the first one.
    pub fn last_response(&self) -> (r: String)
        ensures
            r@ == self@.last_response,
    {
        self.last_response.clone()
    }

    /// Whether any response has arrived yet.
    pub fn acked(&self) -> (r: bool)
        ensures
            r == self@.ack,
    {
        self.ack
    }

    /// Blocking commands enqueued and not yet acknowledged.
    pub fn block_counter(&self) -> (r: usize)
        ensures
            r == self@.block_counter,
    {
        self.block_counter
    }

    /// Commands waiting for transmission.
    pub fn queued(&self) -> (r: usize)
        ensures
            r == self@.queue.len(),
    {
        self.queue.len()
    }
}

/// Removing the head of a queue removes it from the count if it is blocking.
pub proof fn lemma_blocking_count_drop_first(queue: Seq<CommandView>)
    requires
        queue.len() > 0,
    ensures
        blocking_count(queue) == blocking_count(queue.drop_first()) + if queue[0].blocking {
            1nat
        } else {
            0nat
        },
    decreases queue.len(),
{
    if queue.len() == 1 {
        assert(queue.drop_first() =~= Seq::empty());
        assert(queue.drop_last() =~= Seq::empty());
    } else {
        lemma_blocking_count_drop_first(queue.drop_last());
        assert(queue.drop_last().drop_first() =~= queue.drop_first().drop_last());
    }
}

/// A count of zero means that no command in the queue is blocking.
pub proof fn lemma_blocking_count_zero(queue: Seq<CommandView>)
    ensures
        blocking_count(queue) == 0 <==> forall|i: int|
            0 <= i < queue.len() ==> !(#[trigger] queue[i]).blocking,
    decreases queue.len(),
{
    if queue.len() > 0 {
        lemma_blocking_count_zero(queue.drop_last());
        if blocking_count(queue) == 0 {
            assert forall|i: int| 0 <= i < queue.len() implies !(#[trigger] queue[i]).blocking by {
                if i < queue.len() - 1 {
                    assert(queue.drop_last()[i] == queue[i]);
                }
            }
        } else if !queue.last().blocking {
            let rest = queue.drop_last();
            let i = choose|i: int| 0 <= i < rest.len() && (#[trigger] rest[i]).blocking;
            assert(queue[i].blocking);
        }
    }
}

/// First in, first out: whatever happens to a drone, the commands
/// transmitted so far followed by those still queued are the commands that
/// were queued at the start followed by those enqueued since, in that order.
/// So of two commands enqueued one after the other, the second is never
/// transmitted before the first.
pub proof fn lemma_fifo(d: DroneView, events: Seq<Event>)
    ensures
        d.transmitted(events) + d.run(events).queue == d.queue + enqueued(events),
    decreases events.len(),
{
    if events.len() == 0 {
        assert(d.transmitted(events) + d.run(events).queue =~= d.queue + enqueued(events));
    } else {
        let earlier = events.drop_last();
        lemma_fifo(d, earlier);
        let before = d.run(earlier);
        let sent = d.transmitted(earlier);
        assert(sent + before.queue == d.queue + enqueued(earlier));
        match events.last() {
            Event::Enqueue(c) => {
                assert(sent + before.queue.push(c) =~= (sent + before.queue).push(c));
                assert(d.queue + enqueued(earlier).push(c) =~= (d.queue + enqueued(earlier)).push(
                    c,
                ));
            },
            Event::Send => {
                if before.queue.len() > 0 {
                    assert(sent.push(before.queue[0]) + before.queue.drop_first() =~= sent
                        + before.queue);
                }
            },
            Event::Frame(frame) => {},
        }
    }
}

/// The counter stays exact: whatever happens to a well-formed drone, its
/// counter still counts the blocking commands queued or in flight.
pub proof fn lemma_counter_exact(d: DroneView, events: Seq<Event>)
    requires
        d.well_formed(),
    ensures
        d.run(events).well_formed(),
    decreases events.len(),
{
    if events.len() > 0 {
        lemma_counter_exact(d, events.drop_last());
        let before = d.run(events.drop_last());
        match events.last() {
            Event::Enqueue(c) => {
                assert(before.queue.push(c).drop_last() =~= before.queue);
            },
            Event::Send => {
                if before.queue.len() > 0 {
                    lemma_blocking_count_drop_first(before.queue);
                }
            },
            Event::Frame(frame) => {},
        }
    }
}

/// A barrier passes a drone only when every blocking command enqueued so far
/// has been transmitted and acknowledged: none is left in the queue and none
/// is in flight.
pub proof fn lemma_drained(d: DroneView)
    requires
        d.well_formed(),
        d.block_counter == 0,
    ensures
        d.in_flight == 0,
        forall|i: int| 0 <= i < d.queue.len() ==> !(#[trigger] d.queue[i]).blocking,
{
    lemma_blocking_count_zero(d.queue);
}

} // verus!
