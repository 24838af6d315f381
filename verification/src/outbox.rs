//! the backlog a capability grows only once its socket has backed up

use crate::error::{SendError, TrySendError};
use crate::message::Message;
use crate::tickets::{
    drop_ticket, has_ticket, law_without_keeps_order, lemma_rest_contains, lemma_without, without,
};
use crate::wire::{within_limit, SendOutcome};
use tokio::sync::mpsc;
use vstd::prelude::*;
use vstd::seq_lib::lemma_seq_contains_after_push;

verus! {

/// how many messages may wait here before a sender is told to back off
pub const DEPTH: usize = 8;

/// `tokio::sync::mpsc::Sender`
#[verifier::external_type_specification]
#[verifier::external_body]
#[verifier::reject_recursive_types(T)]
pub struct ExSender<T>(mpsc::Sender<T>);

/// `tokio::sync::mpsc::Receiver`
#[verifier::external_type_specification]
#[verifier::external_body]
#[verifier::reject_recursive_types(T)]
pub struct ExReceiver<T>(mpsc::Receiver<T>);

/// the messages in a channel, the next to come out first
pub uninterp spec fn queued(receiver: mpsc::Receiver<Message>) -> Seq<Message>;

/// how many messages a channel was made for
pub uninterp spec fn bound(receiver: mpsc::Receiver<Message>) -> nat;

/// does a channel still take messages?
pub uninterp spec fn open(receiver: mpsc::Receiver<Message>) -> bool;

/// are these the two ends of one channel?
pub uninterp spec fn joined(
    sender: mpsc::Sender<Message>,
    receiver: mpsc::Receiver<Message>,
) -> bool;

/// `mpsc::channel` makes an open channel of nothing, for `depth` messages
///
/// It panics where `depth` is zero or beyond what a semaphore can count, which is far above
/// [`u16::MAX`].
#[verifier::external_body]
fn channel(depth: usize) -> (ends: (mpsc::Sender<Message>, mpsc::Receiver<Message>))
    requires
        0 < depth <= u16::MAX,
    ensures
        joined(ends.0, ends.1),
        queued(ends.1) == Seq::<Message>::empty(),
        bound(ends.1) == depth,
        open(ends.1),
{
    mpsc::channel(depth)
}

/// `Sender::try_send` puts `message` behind what is queued, if the channel is open and not full,
/// and gives it back otherwise
///
/// The sender has no copy and the receiver is not in use meanwhile, so nothing else takes or
/// frees a place.
#[verifier::external_body]
fn channel_push(
    sender: &mpsc::Sender<Message>,
    receiver: &mut mpsc::Receiver<Message>,
    message: Message,
) -> (pushed: Result<(), TrySendError>)
    requires
        joined(*sender, *old(receiver)),
    ensures
        joined(*sender, *final(receiver)),
        bound(*final(receiver)) == bound(*old(receiver)),
        open(*final(receiver)) == open(*old(receiver)),
        pushed == (if !open(*old(receiver)) {
            Err(TrySendError::Closed(message))
        } else if queued(*old(receiver)).len() < bound(*old(receiver)) {
            Ok(())
        } else {
            Err(TrySendError::Full(message))
        }),
        queued(*final(receiver)) == (if pushed is Ok {
            queued(*old(receiver)).push(message)
        } else {
            queued(*old(receiver))
        }),
{
    match sender.try_send(message) {
        Ok(()) => Ok(()),
        Err(mpsc::error::TrySendError::Full(m)) => Err(TrySendError::Full(m)),
        Err(mpsc::error::TrySendError::Closed(m)) => Err(TrySendError::Closed(m)),
    }
}

/// `Receiver::try_recv` takes the next message, and there is none only if nothing is queued
///
/// No send is under way meanwhile, so it never waits for one to complete.
#[verifier::external_body]
fn channel_pop(receiver: &mut mpsc::Receiver<Message>, sender: &mpsc::Sender<Message>) -> (next:
    Option<Message>)
    requires
        joined(*sender, *old(receiver)),
    ensures
        joined(*sender, *final(receiver)),
        bound(*final(receiver)) == bound(*old(receiver)),
        open(*final(receiver)) == open(*old(receiver)),
        next == (if queued(*old(receiver)).len() == 0 {
            None
        } else {
            Some(queued(*old(receiver)).first())
        }),
        queued(*final(receiver)) == (if queued(*old(receiver)).len() == 0 {
            queued(*old(receiver))
        } else {
            queued(*old(receiver)).drop_first()
        }),
{
    receiver.try_recv().ok()
}

/// `Receiver::close` lets nothing more in and keeps what is queued
#[verifier::external_body]
fn channel_close(receiver: &mut mpsc::Receiver<Message>, sender: &mpsc::Sender<Message>)
    requires
        joined(*sender, *old(receiver)),
    ensures
        joined(*sender, *final(receiver)),
        bound(*final(receiver)) == bound(*old(receiver)),
        queued(*final(receiver)) == queued(*old(receiver)),
        !open(*final(receiver)),
{
    receiver.close();
}

/// everything that is queued, in order
fn drain_all(receiver: &mut mpsc::Receiver<Message>, sender: &mpsc::Sender<Message>) -> (all: Vec<
    Message,
>)
    requires
        joined(*sender, *old(receiver)),
    ensures
        joined(*sender, *final(receiver)),
        bound(*final(receiver)) == bound(*old(receiver)),
        open(*final(receiver)) == open(*old(receiver)),
        queued(*final(receiver)) == Seq::<Message>::empty(),
        all@ == queued(*old(receiver)),
{
    let mut all: Vec<Message> = Vec::new();
    loop
        invariant
            joined(*sender, *receiver),
            bound(*receiver) == bound(*old(receiver)),
            open(*receiver) == open(*old(receiver)),
            all@ + queued(*receiver) == queued(*old(receiver)),
        ensures
            queued(*receiver).len() == 0,
        decreases queued(*receiver).len(),
    {
        let ghost before = queued(*receiver);
        let ghost taken = all@;
        match channel_pop(receiver, sender) {
            Some(message) => {
                all.push(message);
                assert(all@ + queued(*receiver) == taken + before);
            },
            None => {
                break;
            },
        }
    }
    all
}

/// what an [`Outbox`] holds
pub struct OutboxView {
    /// the messages that wait for the drain task
    pub queue: Seq<Message>,
    /// what the drain task has taken and not reported on yet
    pub held: Option<Message>,
    /// messages handed over that are not on the wire yet
    pub pending: nat,
    /// the tickets of the senders that wait for a place, the longest waiting first
    pub line: Seq<u64>,
    /// the tickets of the senders that a place is kept for
    pub granted: Seq<u64>,
    /// the next ticket to give out
    pub next_ticket: u64,
    /// is the drain task still there to take messages?
    pub open: bool,
    /// has the capability that feeds this gone?
    pub retired: bool,
}

impl OutboxView {
    /// a backlog that nothing was ever put into
    pub open spec fn fresh() -> OutboxView {
        OutboxView {
            queue: Seq::empty(),
            held: None,
            pending: 0,
            line: Seq::empty(),
            granted: Seq::empty(),
            next_ticket: 0,
            open: true,
            retired: false,
        }
    }

    /// how many messages the drain task holds
    pub open spec fn in_hand(self) -> nat {
        if self.held is Some {
            1
        } else {
            0
        }
    }

    /// Places are taken by messages and kept for senders, and no place is free while anybody waits.
    /// While the drain task is there, exactly what waits and what it holds is counted; without it
    /// nothing waits. No message is too large, and no ticket is held twice.
    pub open spec fn wf(self) -> bool {
        &&& self.queue.len() + self.granted.len() <= DEPTH
        &&& self.open ==> self.pending == self.queue.len() + self.in_hand()
        &&& self.open && self.line.len() != 0 ==> self.queue.len() + self.granted.len() == DEPTH
        &&& !self.open ==> {
            &&& self.queue.len() == 0
            &&& self.held is None
            &&& self.line.len() == 0
            &&& self.granted.len() == 0
            &&& self.pending <= DEPTH + 1
        }
        &&& forall|i: int| 0 <= i < self.queue.len() ==> within_limit(#[trigger] self.queue[i])
        &&& self.held matches Some(m) ==> within_limit(m)
        &&& self.line.no_duplicates()
        &&& self.granted.no_duplicates()
        &&& forall|t: u64| #[trigger] self.line.contains(t) ==> t < self.next_ticket
        &&& forall|t: u64| #[trigger]
            self.granted.contains(t) ==> t < self.next_ticket && !self.line.contains(t)
    }

    /// is there a place for one more that is kept for nobody?
    pub open spec fn has_room(self) -> bool {
        self.open && self.queue.len() + self.granted.len() < DEPTH
    }

    /// does the holder of `ticket` wait here, unless there is nothing left to wait for?
    pub open spec fn knows(self, ticket: u64) -> bool {
        self.open ==> self.line.contains(ticket) || self.granted.contains(ticket)
    }

    /// `message` behind what waits
    pub open spec fn pushed(self, message: Message) -> OutboxView {
        OutboxView { queue: self.queue.push(message), pending: self.pending + 1, ..self }
    }

    /// one more sender at the end of the line
    pub open spec fn lined_up(self) -> OutboxView {
        OutboxView {
            line: self.line.push(self.next_ticket),
            next_ticket: (self.next_ticket + 1) as u64,
            ..self
        }
    }

    /// a place that came free kept for whoever waits longest
    pub open spec fn passed_on(self) -> OutboxView {
        if self.line.len() == 0 {
            self
        } else {
            OutboxView {
                line: self.line.drop_first(),
                granted: self.granted.push(self.line.first()),
                ..self
            }
        }
    }

    /// `message` in the place that was kept for the holder of `ticket`
    pub open spec fn claimed(self, ticket: u64, message: Message) -> OutboxView {
        OutboxView { granted: without(self.granted, ticket), ..self }.pushed(message)
    }

    /// the holder of `ticket` no longer waiting
    pub open spec fn left(self, ticket: u64) -> OutboxView {
        if self.granted.contains(ticket) {
            OutboxView { granted: without(self.granted, ticket), ..self }.passed_on()
        } else {
            OutboxView { line: without(self.line, ticket), ..self }
        }
    }

    /// the first message gone from the queue, and held
    pub open spec fn taken(self) -> OutboxView {
        OutboxView {
            queue: self.queue.drop_first(),
            held: Some(self.queue.first()),
            ..self
        }.passed_on()
    }

    /// the held message on the wire
    pub open spec fn settled(self) -> OutboxView {
        OutboxView { held: None, pending: (self.pending - 1) as nat, ..self }
    }

    /// the drain task gone with what it held and all that waited, none of which counts any less for it
    pub open spec fn gone(self) -> OutboxView {
        OutboxView {
            queue: Seq::empty(),
            held: None,
            line: Seq::empty(),
            granted: Seq::empty(),
            open: false,
            ..self
        }
    }

    /// the held message lost, and the drain task gone with all that waited
    pub open spec fn failed(self) -> OutboxView {
        self.settled().gone()
    }
}

/// why a message that may wait is not queued
pub enum Blocked {
    /// the queue is full: wait with this ticket, and then [`Outbox::claim`]
    InLine(u64, Message),
    /// it will not be sent
    Refused(SendError),
}

/// what the drain task does next
pub enum Drain {
    /// send this, and report with [`Outbox::sent`]
    Send(Message),
    /// nothing waits: come back when something was queued
    Idle,
    /// nothing waits and nothing can come
    Finished,
}

/// what came of the message that the drain task held
pub enum Settled {
    /// not sent yet: wait until the socket is writable and send it again
    Again(Message),
    /// on the wire, so it is done with
    Done(Message),
    /// not to be sent: it is lost and so is everything that waited behind it, in order
    Stopped(Message, Vec<Message>),
}

/// messages accepted for a socket that was full when they came
pub struct Outbox {
    sender: mpsc::Sender<Message>,
    receiver: mpsc::Receiver<Message>,
    /// messages handed to the drain task that aren't on the wire yet
    ///
    /// Shuts the inline path of [`crate::Ref::try_send`] while anything is waiting: a message
    /// that skipped the queue would overtake it. It goes down only *after* a send, so the message
    /// that the drain task is holding still counts.
    pending: usize,
    in_flight: bool,
    /// the message that the drain task is holding
    held: Ghost<Option<Message>>,
    line: Vec<u64>,
    granted: Vec<u64>,
    next_ticket: u64,
    retired: bool,
    /// is the drain task gone?
    stopped: bool,
}

impl View for Outbox {
    type V = OutboxView;

    closed spec fn view(&self) -> OutboxView {
        OutboxView {
            queue: queued(self.receiver),
            held: self.held@,
            pending: self.pending as nat,
            line: self.line@,
            granted: self.granted@,
            next_ticket: self.next_ticket,
            open: !self.stopped,
            retired: self.retired,
        }
    }
}

impl Outbox {
    /// the two ends belong together and the count is right
    pub closed spec fn wf(&self) -> bool {
        &&& joined(self.sender, self.receiver)
        &&& bound(self.receiver) == DEPTH
        &&& open(self.receiver) == !self.stopped
        &&& self.in_flight == self.held@ is Some
        &&& self@.wf()
    }

    /// what [`Outbox::wf`] says of the contents
    pub proof fn lemma_wf(&self)
        requires
            self.wf(),
        ensures
            self@.wf(),
    {
    }

    /// an empty backlog
    pub fn build() -> (outbox: Outbox)
        ensures
            outbox.wf(),
            outbox@ == OutboxView::fresh(),
    {
        let (sender, receiver) = channel(DEPTH);
        Outbox {
            sender,
            receiver,
            pending: 0,
            in_flight: false,
            held: Ghost(None),
            line: Vec::new(),
            granted: Vec::new(),
            next_ticket: 0,
            retired: false,
            stopped: false,
        }
    }

    /// is anything still waiting to reach the wire?
    pub fn is_backed_up(&self) -> (waiting: bool)
        requires
            self.wf(),
        ensures
            waiting == (self@.pending != 0),
            self@.open ==> waiting == (self@.queue.len() != 0 || self@.held is Some),
    {
        self.pending != 0
    }

    /// does the drain task hold a message?
    pub fn is_in_flight(&self) -> (held: bool)
        requires
            self.wf(),
        ensures
            held == self@.held is Some,
    {
        self.in_flight
    }

    /// is the drain task still there to take messages?
    pub fn is_open(&self) -> (open: bool)
        ensures
            open == self@.open,
    {
        !self.stopped
    }

    /// can another ticket be given out?
    pub fn can_wait(&self) -> (can: bool)
        ensures
            can == (self@.next_ticket < u64::MAX),
    {
        self.next_ticket < u64::MAX
    }

    /// does the holder of `ticket` wait here, unless there is nothing left to wait for?
    pub fn knows(&self, ticket: u64) -> (known: bool)
        ensures
            known == self@.knows(ticket),
    {
        self.stopped || has_ticket(&self.line, ticket) || has_ticket(&self.granted, ticket)
    }

    /// is there a place that neither a message nor a sender has?
    fn has_room(&self) -> (room: bool)
        requires
            self.wf(),
        ensures
            room == self@.has_room(),
    {
        if self.stopped {
            return false;
        }
        let queued: usize = if self.in_flight {
            self.pending - 1
        } else {
            self.pending
        };
        queued + self.granted.len() < DEPTH
    }

    /// queue `message` behind whatever is already waiting, or give it straight back
    ///
    /// A place that is kept for somebody who waits is not to be had this way.
    pub fn push(&mut self, message: Message) -> (pushed: Result<(), TrySendError>)
        requires
            old(self).wf(),
            within_limit(message),
        ensures
            final(self).wf(),
            pushed == (if !old(self)@.open {
                Err(TrySendError::Closed(message))
            } else if old(self)@.has_room() {
                Ok(())
            } else {
                Err(TrySendError::Full(message))
            }),
            final(self)@ == (if old(self)@.has_room() {
                old(self)@.pushed(message)
            } else {
                old(self)@
            }),
    {
        if !self.stopped && !self.has_room() {
            return Err(TrySendError::Full(message));
        }
        self.enqueue(message)
    }

    /// puts `message` into a place, if there is anybody left to take it
    fn enqueue(&mut self, message: Message) -> (queued: Result<(), TrySendError>)
        requires
            joined(old(self).sender, old(self).receiver),
            bound(old(self).receiver) == DEPTH,
            open(old(self).receiver) == old(self)@.open,
            old(self)@.open ==> old(self)@.queue.len() < DEPTH,
            old(self)@.pending <= DEPTH + 1,
        ensures
            joined(final(self).sender, final(self).receiver),
            bound(final(self).receiver) == DEPTH,
            open(final(self).receiver) == final(self)@.open,
            final(self).in_flight == old(self).in_flight,
            final(self)@ == (if old(self)@.open {
                old(self)@.pushed(message)
            } else {
                old(self)@
            }),
            queued == (if old(self)@.open {
                Ok(())
            } else {
                Err(TrySendError::Closed(message))
            }),
    {
        self.pending = self.pending + 1;
        match channel_push(&self.sender, &mut self.receiver, message) {
            Ok(()) => Ok(()),
            Err(e) => {
                self.pending = self.pending - 1;
                Err(e)
            },
        }
    }

    /// queue `message`, or line up for a place
    ///
    /// While it waits it is not counted, so it does not hold the inline path shut.
    pub fn send(&mut self, message: Message) -> (sent: Result<(), Blocked>)
        requires
            old(self).wf(),
            within_limit(message),
            old(self)@.next_ticket < u64::MAX,
        ensures
            final(self).wf(),
            sent == (if !old(self)@.open {
                Err(Blocked::Refused(SendError::Closed(message)))
            } else if old(self)@.has_room() {
                Ok(())
            } else {
                Err(Blocked::InLine(old(self)@.next_ticket, message))
            }),
            final(self)@ == (if !old(self)@.open {
                old(self)@
            } else if old(self)@.has_room() {
                old(self)@.pushed(message)
            } else {
                old(self)@.lined_up()
            }),
    {
        if !self.stopped && !self.has_room() {
            let ticket: u64 = self.next_ticket;
            proof {
                lemma_lined_up_wf(self@);
            }
            self.line.push(ticket);
            self.next_ticket = ticket + 1;
            return Err(Blocked::InLine(ticket, message));
        }
        match self.enqueue(message) {
            Ok(()) => Ok(()),
            Err(e) => Err(Blocked::Refused(SendError::Closed(e.into_message()))),
        }
    }

    /// queue `message` in the place that is kept for the holder of `ticket`, if it is their turn
    pub fn claim(&mut self, ticket: u64, message: Message) -> (sent: Result<(), Blocked>)
        requires
            old(self).wf(),
            within_limit(message),
            old(self)@.knows(ticket),
        ensures
            final(self).wf(),
            sent == (if !old(self)@.open {
                Err(Blocked::Refused(SendError::Closed(message)))
            } else if old(self)@.granted.contains(ticket) {
                Ok(())
            } else {
                Err(Blocked::InLine(ticket, message))
            }),
            final(self)@ == (if old(self)@.open && old(self)@.granted.contains(ticket) {
                old(self)@.claimed(ticket, message)
            } else {
                old(self)@
            }),
    {
        if !self.stopped {
            if !has_ticket(&self.granted, ticket) {
                return Err(Blocked::InLine(ticket, message));
            }
            proof {
                lemma_claimed_wf(self@, ticket, message);
                lemma_without(self.granted@, ticket);
            }
            drop_ticket(&mut self.granted, ticket);
        }
        match self.enqueue(message) {
            Ok(()) => Ok(()),
            Err(e) => Err(Blocked::Refused(SendError::Closed(e.into_message()))),
        }
    }

    /// the holder of `ticket` no longer cares, and a place that was kept for them goes to the next
    pub fn leave(&mut self, ticket: u64)
        requires
            old(self).wf(),
        ensures
            final(self).wf(),
            final(self)@ == old(self)@.left(ticket),
    {
        proof {
            lemma_left_wf(self@, ticket);
        }
        if has_ticket(&self.granted, ticket) {
            drop_ticket(&mut self.granted, ticket);
            self.pass_on();
        } else {
            drop_ticket(&mut self.line, ticket);
        }
    }

    /// keeps a place that came free for whoever waits longest
    fn pass_on(&mut self)
        ensures
            final(self)@ == old(self)@.passed_on(),
            final(self).sender == old(self).sender,
            final(self).receiver == old(self).receiver,
            final(self).in_flight == old(self).in_flight,
            final(self).held == old(self).held,
    {
        if self.line.len() != 0 {
            let first: u64 = self.line.remove(0);
            self.granted.push(first);
            assert(self.line@ == old(self).line@.drop_first());
        }
    }

    /// the capability that feeds this is gone, so nothing more will be queued
    ///
    /// What is queued stays, and is still drained.
    pub fn retire(&mut self)
        requires
            old(self).wf(),
        ensures
            final(self).wf(),
            final(self)@ == (OutboxView { retired: true, ..old(self)@ }),
    {
        self.retired = true;
    }

    /// the drain task's next step, once it holds nothing
    pub fn next(&mut self) -> (step: Drain)
        requires
            old(self).wf(),
            old(self)@.held is None,
        ensures
            final(self).wf(),
            old(self)@.queue.len() != 0 ==> step == Drain::Send(old(self)@.queue.first())
                && final(self)@ == old(self)@.taken(),
            old(self)@.queue.len() == 0 ==> final(self)@ == old(self)@ && step == (if
                old(self)@.open && !old(self)@.retired {
                Drain::Idle
            } else {
                Drain::Finished
            }),
    {
        proof {
            if self@.queue.len() != 0 {
                lemma_taken_wf(self@);
            }
        }
        match channel_pop(&mut self.receiver, &self.sender) {
            Some(message) => {
                self.in_flight = true;
                self.held = Ghost(Some(message));
                self.pass_on();
                Drain::Send(message)
            },
            None => {
                if self.retired || self.stopped {
                    Drain::Finished
                } else {
                    Drain::Idle
                }
            },
        }
    }

    /// the drain task reports on `message`, which it took with [`Outbox::next`]
    pub fn sent(&mut self, message: Message, outcome: SendOutcome) -> (settled: Settled)
        requires
            old(self).wf(),
            old(self)@.held == Some(message),
        ensures
            final(self).wf(),
            match outcome {
                SendOutcome::WouldBlock => settled == Settled::Again(message) && final(self)@
                    == old(self)@,
                SendOutcome::Sent => settled == Settled::Done(message) && final(self)@
                    == old(self)@.settled(),
                SendOutcome::Failed => final(self)@ == old(self)@.failed() && (settled matches
                    Settled::Stopped(lost, behind) && lost == message && behind@
                    == old(self)@.queue),
            },
    {
        match outcome {
            SendOutcome::WouldBlock => Settled::Again(message),
            SendOutcome::Sent => {
                self.in_flight = false;
                self.held = Ghost(None);
                self.pending = self.pending - 1;
                Settled::Done(message)
            },
            SendOutcome::Failed => {
                self.pending = self.pending - 1;
                let behind = self.shut();
                Settled::Stopped(message, behind)
            },
        }
    }

    /// the drain task is gone, e.g. because its runtime has shut down; gives back what waited, in
    /// order
    ///
    /// What the task held it takes along. From here on nothing can be queued.
    pub fn drain_gone(&mut self) -> (behind: Vec<Message>)
        requires
            old(self).wf(),
        ensures
            final(self).wf(),
            final(self)@ == old(self)@.gone(),
            behind@ == old(self)@.queue,
    {
        self.shut()
    }

    fn shut(&mut self) -> (behind: Vec<Message>)
        requires
            joined(old(self).sender, old(self).receiver),
            bound(old(self).receiver) == DEPTH,
            old(self)@.pending <= DEPTH + 1,
        ensures
            final(self).wf(),
            final(self)@ == old(self)@.gone(),
            behind@ == old(self)@.queue,
    {
        self.in_flight = false;
        self.held = Ghost(None);
        self.line = Vec::new();
        self.granted = Vec::new();
        self.stopped = true;
        channel_close(&mut self.receiver, &self.sender);
        drain_all(&mut self.receiver, &self.sender)
    }
}

proof fn lemma_lined_up_wf(outbox: OutboxView)
    requires
        outbox.wf(),
        outbox.open,
        !outbox.has_room(),
        outbox.next_ticket < u64::MAX,
    ensures
        outbox.lined_up().wf(),
{
    let after = outbox.lined_up();
    assert forall|t: u64| #[trigger] after.line.contains(t) implies t < after.next_ticket by {
        lemma_seq_contains_after_push(outbox.line, outbox.next_ticket, t);
    }
    assert forall|t: u64| #[trigger] after.granted.contains(t) implies t < after.next_ticket
        && !after.line.contains(t) by {
        assert(outbox.granted.contains(t));
        lemma_seq_contains_after_push(outbox.line, outbox.next_ticket, t);
    }
    assert(after.line.no_duplicates()) by {
        assert(!outbox.line.contains(outbox.next_ticket));
    }
}

/// Keeping a place that came free for the first in line leaves things in order.
proof fn lemma_passed_on_wf(outbox: OutboxView)
    requires
        outbox.line.len() == 0 ==> outbox.wf(),
        outbox.line.len() != 0 ==> outbox.open && outbox.queue.len() + outbox.granted.len() + 1
            == DEPTH && (OutboxView { line: Seq::empty(), ..outbox }).wf(),
        outbox.line.no_duplicates(),
        forall|t: u64| #[trigger]
            outbox.line.contains(t) ==> t < outbox.next_ticket && !outbox.granted.contains(t),
    ensures
        outbox.passed_on().wf(),
{
    if outbox.line.len() != 0 {
        let bare = OutboxView { line: Seq::empty(), ..outbox };
        let after = outbox.passed_on();
        let first = outbox.line.first();
        assert(outbox.line.contains(first));
        lemma_rest_contains(outbox.line, first);
        assert forall|t: u64| #[trigger] after.line.contains(t) implies t < after.next_ticket by {
            lemma_rest_contains(outbox.line, t);
        }
        assert forall|t: u64| #[trigger] after.granted.contains(t) implies t < after.next_ticket
            && !after.line.contains(t) by {
            lemma_seq_contains_after_push(outbox.granted, first, t);
            lemma_rest_contains(outbox.line, t);
            if outbox.granted.contains(t) {
                assert(bare.granted.contains(t));
            }
        }
        assert forall|i: int| 0 <= i < after.queue.len() implies within_limit(
            #[trigger] after.queue[i],
        ) by {
            assert(within_limit(bare.queue[i]));
        }
    }
}

proof fn lemma_claimed_wf(outbox: OutboxView, ticket: u64, message: Message)
    requires
        outbox.wf(),
        outbox.open,
        outbox.granted.contains(ticket),
        within_limit(message),
    ensures
        outbox.claimed(ticket, message).wf(),
{
    lemma_without(outbox.granted, ticket);
    let after = outbox.claimed(ticket, message);
    assert forall|t: u64| #[trigger] after.granted.contains(t) implies t < after.next_ticket
        && !after.line.contains(t) by {
        assert(outbox.granted.contains(t));
    }
}

proof fn lemma_left_wf(outbox: OutboxView, ticket: u64)
    requires
        outbox.wf(),
    ensures
        outbox.left(ticket).wf(),
{
    lemma_without(outbox.granted, ticket);
    lemma_without(outbox.line, ticket);
    if outbox.granted.contains(ticket) {
        let freed = OutboxView { granted: without(outbox.granted, ticket), ..outbox };
        assert forall|t: u64| #[trigger] freed.granted.contains(t) implies t < freed.next_ticket
            && !freed.line.contains(t) by {
            assert(outbox.granted.contains(t));
        }
        assert forall|t: u64| #[trigger] freed.line.contains(t) implies t < freed.next_ticket
            && !freed.granted.contains(t) by {
            assert(outbox.line.contains(t));
        }
        lemma_passed_on_wf(freed);
    } else {
        let after = outbox.left(ticket);
        assert forall|t: u64| #[trigger] after.granted.contains(t) implies t < after.next_ticket
            && !after.line.contains(t) by {
            assert(outbox.granted.contains(t));
        }
    }
}

proof fn lemma_taken_wf(outbox: OutboxView)
    requires
        outbox.wf(),
        outbox.held is None,
        outbox.queue.len() != 0,
    ensures
        outbox.taken().wf(),
{
    let freed = OutboxView {
        queue: outbox.queue.drop_first(),
        held: Some(outbox.queue.first()),
        ..outbox
    };
    assert(within_limit(outbox.queue[0]));
    assert forall|i: int| 0 <= i < freed.queue.len() implies within_limit(
        #[trigger] freed.queue[i],
    ) by {
        assert(within_limit(outbox.queue[i + 1]));
    }
    assert forall|t: u64| #[trigger] freed.line.contains(t) implies t < freed.next_ticket
        && !freed.granted.contains(t) by {
        assert(outbox.line.contains(t));
    }
    lemma_passed_on_wf(freed);
}

/// Whatever senders do with an outbox, and whatever its drain task does, leaves it in order.
pub proof fn law_outbox_stays_in_order(outbox: OutboxView, message: Message, ticket: u64)
    requires
        outbox.wf(),
    ensures
        within_limit(message) && outbox.has_room() ==> outbox.pushed(message).wf(),
        outbox.open && !outbox.has_room() && outbox.next_ticket < u64::MAX
            ==> outbox.lined_up().wf(),
        within_limit(message) && outbox.open && outbox.granted.contains(ticket) ==> outbox.claimed(
            ticket,
            message,
        ).wf(),
        outbox.left(ticket).wf(),
        outbox.held is None && outbox.queue.len() != 0 ==> outbox.taken().wf(),
        outbox.held is Some ==> outbox.settled().wf() && outbox.failed().wf(),
        outbox.gone().wf(),
{
    if outbox.open && !outbox.has_room() && outbox.next_ticket < u64::MAX {
        lemma_lined_up_wf(outbox);
    }
    if within_limit(message) && outbox.open && outbox.granted.contains(ticket) {
        lemma_claimed_wf(outbox, ticket, message);
    }
    lemma_left_wf(outbox, ticket);
    law_draining_keeps_order(outbox);
}

/// Whatever a drain task does leaves its outbox in order.
pub proof fn law_draining_keeps_order(outbox: OutboxView)
    requires
        outbox.wf(),
    ensures
        outbox.held is None && outbox.queue.len() != 0 ==> outbox.taken().wf(),
        outbox.held is Some ==> outbox.settled().wf() && outbox.failed().wf(),
        outbox.gone().wf(),
{
    if outbox.held is None && outbox.queue.len() != 0 {
        lemma_taken_wf(outbox);
    }
}

/// Nobody jumps the line: while a sender waits there is no place for anybody who comes later.
pub proof fn law_nobody_jumps_the_line(outbox: OutboxView)
    requires
        outbox.wf(),
        outbox.line.len() != 0,
    ensures
        !outbox.has_room(),
{
}

/// A place that comes free goes to the sender that waits longest, and to nobody else.
pub proof fn law_freed_place_goes_to_the_first(outbox: OutboxView)
    requires
        outbox.wf(),
        outbox.held is None,
        outbox.queue.len() != 0,
        outbox.line.len() != 0,
    ensures
        outbox.taken().granted.contains(outbox.line.first()),
        outbox.taken().line == outbox.line.drop_first(),
        !outbox.taken().has_room(),
{
    lemma_seq_contains_after_push(outbox.granted, outbox.line.first(), outbox.line.first());
}

/// Who waits goes on waiting, or has a place kept, whatever others do meanwhile; and a place that is
/// kept stays kept.
pub proof fn law_ticket_stays_good(
    outbox: OutboxView,
    ticket: u64,
    message: Message,
    other: u64,
)
    requires
        outbox.wf(),
        outbox.knows(ticket),
        other != ticket,
    ensures
        outbox.pushed(message).knows(ticket),
        outbox.lined_up().knows(ticket),
        outbox.claimed(other, message).knows(ticket),
        outbox.left(other).knows(ticket),
        outbox.taken().knows(ticket),
        outbox.settled().knows(ticket),
        outbox.failed().knows(ticket),
        outbox.gone().knows(ticket),
        outbox.granted.contains(ticket) ==> {
            &&& outbox.pushed(message).granted.contains(ticket)
            &&& outbox.lined_up().granted.contains(ticket)
            &&& outbox.claimed(other, message).granted.contains(ticket)
            &&& outbox.left(other).granted.contains(ticket)
            &&& outbox.taken().granted.contains(ticket)
            &&& outbox.settled().granted.contains(ticket)
        },
{
    lemma_without(outbox.granted, other);
    lemma_without(outbox.line, other);
    lemma_seq_contains_after_push(outbox.line, outbox.next_ticket, ticket);
    if outbox.line.len() != 0 {
        lemma_rest_contains(outbox.line, ticket);
        lemma_seq_contains_after_push(outbox.granted, outbox.line.first(), ticket);
        lemma_seq_contains_after_push(without(outbox.granted, other), outbox.line.first(), ticket);
    }
}

/// what comes out if the drain task takes and sends one message after the other until none is left
pub open spec fn drained(outbox: OutboxView) -> Seq<Message>
    decreases outbox.queue.len(),
{
    if outbox.queue.len() == 0 {
        Seq::empty()
    } else {
        seq![outbox.queue.first()] + drained(outbox.taken().settled())
    }
}

/// Everything that waits comes out, in order.
pub proof fn law_everything_comes_out(outbox: OutboxView)
    ensures
        drained(outbox) == outbox.queue,
    decreases outbox.queue.len(),
{
    if outbox.queue.len() != 0 {
        law_everything_comes_out(outbox.taken().settled());
        assert(outbox.queue == seq![outbox.queue.first()] + outbox.queue.drop_first());
    }
}

/// is `after` what was before, with `message` behind all that waits and counted, and nothing else
/// different?
pub open spec fn one_more(before: OutboxView, after: OutboxView, message: Message) -> bool {
    &&& after.queue.len() == before.queue.len() + 1
    &&& after.queue.last() == message
    &&& after.queue.drop_last() == before.queue
    &&& after.pending == before.pending + 1
    &&& after.held == before.held
    &&& after.line == before.line
    &&& after.granted == before.granted
    &&& after.next_ticket == before.next_ticket
    &&& after.open == before.open
    &&& after.retired == before.retired
}

/// do the two hold the same messages, counted alike, and stand alike otherwise, but for who waits?
pub open spec fn same_messages(before: OutboxView, after: OutboxView) -> bool {
    &&& after.queue == before.queue
    &&& after.held == before.held
    &&& after.pending == before.pending
    &&& after.open == before.open
    &&& after.retired == before.retired
}

/// do the same senders wait in both, in the same order, and with the same places kept?
pub open spec fn same_line(before: OutboxView, after: OutboxView) -> bool {
    &&& after.line == before.line
    &&& after.granted == before.granted
    &&& after.next_ticket == before.next_ticket
}

/// How much may wait before a sender is told to back off: eight, messages and places that are kept
/// together. A closed outbox has no room at all.
pub proof fn law_room_is_what_is_left_of_eight(outbox: OutboxView)
    ensures
        DEPTH == 8,
        outbox.has_room() <==> outbox.open && outbox.queue.len() + outbox.granted.len() < 8,
        outbox.has_room() ==> outbox.queue.len() < 8,
{
}

/// A backlog starts with nothing in it and nobody waiting, open, and fed by a capability.
pub proof fn law_backlog_starts_empty()
    ensures
        OutboxView::fresh().queue.len() == 0,
        OutboxView::fresh().held is None,
        OutboxView::fresh().pending == 0,
        OutboxView::fresh().line.len() == 0,
        OutboxView::fresh().granted.len() == 0,
        OutboxView::fresh().next_ticket == 0,
        OutboxView::fresh().open,
        !OutboxView::fresh().retired,
        OutboxView::fresh().has_room(),
{
}

/// Queueing puts the message last and changes nothing about what waits before it, nor about who
/// waits.
pub proof fn law_queued_is_last(outbox: OutboxView, message: Message)
    ensures
        one_more(outbox, outbox.pushed(message), message),
        forall|i: int|
            0 <= i < outbox.queue.len() ==> #[trigger] outbox.pushed(message).queue[i]
                == outbox.queue[i],
{
    assert(outbox.pushed(message).queue.drop_last() == outbox.queue);
}

/// A sender lines up last, with a ticket that nobody had, and touches no message and nobody's place.
pub proof fn law_lining_up_is_at_the_end(outbox: OutboxView)
    ensures
        same_messages(outbox, outbox.lined_up()),
        outbox.lined_up().granted == outbox.granted,
        outbox.lined_up().line.len() == outbox.line.len() + 1,
        outbox.lined_up().line.last() == outbox.next_ticket,
        outbox.lined_up().line.drop_last() == outbox.line,
        outbox.next_ticket < u64::MAX ==> outbox.lined_up().next_ticket == outbox.next_ticket + 1,
{
    assert(outbox.lined_up().line.drop_last() == outbox.line);
}

/// A place that comes free is kept for the longest waiting, who leaves the line, and for nobody if
/// nobody waits; it touches no message, and no place that is kept already.
pub proof fn law_free_place_is_kept_for_the_first(outbox: OutboxView)
    ensures
        same_messages(outbox, outbox.passed_on()),
        outbox.passed_on().next_ticket == outbox.next_ticket,
        outbox.line.len() == 0 ==> outbox.passed_on() == outbox,
        outbox.line.len() != 0 ==> {
            &&& outbox.passed_on().line == outbox.line.drop_first()
            &&& outbox.passed_on().granted.len() == outbox.granted.len() + 1
            &&& outbox.passed_on().granted.last() == outbox.line.first()
            &&& outbox.passed_on().granted.drop_last() == outbox.granted
        },
{
    if outbox.line.len() != 0 {
        assert(outbox.passed_on().granted.drop_last() == outbox.granted);
    }
}

/// Claiming a place uses up that place and no other, puts the message last, and leaves the line
/// alone.
pub proof fn law_claim_uses_one_place(outbox: OutboxView, i: int, message: Message)
    requires
        outbox.granted.no_duplicates(),
        0 <= i < outbox.granted.len(),
    ensures
        ({
            let after = outbox.claimed(outbox.granted[i], message);
            &&& one_more(OutboxView { granted: after.granted, ..outbox }, after, message)
            &&& after.granted == outbox.granted.remove(i)
        }),
{
    let after = outbox.claimed(outbox.granted[i], message);
    law_without_keeps_order(outbox.granted, i);
    assert(after.queue.drop_last() == outbox.queue);
}

/// Whoever gives up the line leaves everybody else in it, in the same order, and touches no message
/// and no place that is kept.
pub proof fn law_leaving_the_line_moves_nobody(outbox: OutboxView, i: int)
    requires
        outbox.line.no_duplicates(),
        0 <= i < outbox.line.len(),
        !outbox.granted.contains(outbox.line[i]),
    ensures
        ({
            let after = outbox.left(outbox.line[i]);
            &&& same_messages(outbox, after)
            &&& after.line == outbox.line.remove(i)
            &&& after.granted == outbox.granted
            &&& after.next_ticket == outbox.next_ticket
        }),
{
    law_without_keeps_order(outbox.line, i);
}

/// Whoever gives up a place that is kept hands it to the first in line, if anybody waits, and
/// touches no message and no other place.
pub proof fn law_given_up_place_goes_to_the_first(outbox: OutboxView, i: int)
    requires
        outbox.granted.no_duplicates(),
        0 <= i < outbox.granted.len(),
    ensures
        ({
            let after = outbox.left(outbox.granted[i]);
            &&& same_messages(outbox, after)
            &&& after.next_ticket == outbox.next_ticket
            &&& outbox.line.len() == 0 ==> after.line == outbox.line && after.granted
                == outbox.granted.remove(i)
            &&& outbox.line.len() != 0 ==> after.line == outbox.line.drop_first() && after.granted
                == outbox.granted.remove(i).push(outbox.line.first())
        }),
{
    assert(outbox.granted.contains(outbox.granted[i]));
    law_without_keeps_order(outbox.granted, i);
}

/// A ticket that nobody waits with can be given back without a trace.
pub proof fn law_strange_ticket_changes_nothing(outbox: OutboxView, ticket: u64)
    requires
        !outbox.line.contains(ticket),
        !outbox.granted.contains(ticket),
    ensures
        outbox.left(ticket) == outbox,
{
    lemma_without(outbox.line, ticket);
}

/// A ticket is good while its holder is in line or has a place kept, and any is once there is
/// nothing left to wait for.
pub proof fn law_ticket_is_good_while_it_is_held(outbox: OutboxView, ticket: u64)
    ensures
        outbox.knows(ticket) <==> !outbox.open || outbox.line.contains(ticket)
            || outbox.granted.contains(ticket),
{
}

/// The drain task takes the message that waits longest and no other, holds it, and it counts as
/// before.
pub proof fn law_taken_is_the_first(outbox: OutboxView)
    requires
        outbox.queue.len() != 0,
    ensures
        outbox.taken().held == Some(outbox.queue[0]),
        outbox.taken().queue.len() == outbox.queue.len() - 1,
        forall|i: int|
            0 <= i < outbox.taken().queue.len() ==> #[trigger] outbox.taken().queue[i]
                == outbox.queue[i + 1],
        outbox.taken().pending == outbox.pending,
        outbox.taken().open == outbox.open,
        outbox.taken().retired == outbox.retired,
        same_line(outbox.passed_on(), outbox.taken()),
{
}

/// A send that succeeded settles what was held and nothing else: what waits, and who waits, stay,
/// and one message less is counted.
pub proof fn law_settling_is_of_what_was_held(outbox: OutboxView)
    requires
        outbox.pending != 0,
    ensures
        outbox.settled().held is None,
        outbox.settled().pending == outbox.pending - 1,
        outbox.settled().queue == outbox.queue,
        outbox.settled().open == outbox.open,
        outbox.settled().retired == outbox.retired,
        same_line(outbox, outbox.settled()),
{
}

/// A drain task that is gone, or whose send failed, leaves an outbox that takes nothing, holds
/// nothing and keeps nobody waiting; only a send that failed is counted any less.
pub proof fn law_without_a_drain_task_nothing_is_kept(outbox: OutboxView)
    ensures
        outbox.gone().queue.len() == 0,
        outbox.gone().held is None,
        outbox.gone().line.len() == 0,
        outbox.gone().granted.len() == 0,
        !outbox.gone().open,
        outbox.gone().pending == outbox.pending,
        outbox.gone().next_ticket == outbox.next_ticket,
        outbox.gone().retired == outbox.retired,
        outbox.failed() == (OutboxView { pending: outbox.failed().pending, ..outbox.gone() }),
        outbox.pending != 0 ==> outbox.failed().pending == outbox.pending - 1,
{
}

} // verus!
