//! what becomes of messages that several senders hand to one capability
//!
//! Senders and the drain task take turns in any order. [`Flow`] follows them: what is on the wire,
//! what the drain task holds, what waits, and what was accepted, each message with its sender. A
//! message counts as on the wire once its send is reported.

use crate::capability::{DeathStep, InnerView, SendStep, WaitStep};
use crate::directory::SocketId;
use crate::error::{SendError, TrySendError};
use crate::message::Message;
use crate::outbox::{
    law_freed_place_goes_to_the_first, law_outbox_stays_in_order, law_queued_is_last,
    law_ticket_stays_good, one_more, same_messages, OutboxView, DEPTH,
};
use crate::wire::{within_limit, SendOutcome, MAX_FDS, MAX_MESSAGE_SIZE};
use vstd::prelude::*;
use vstd::seq_lib::lemma_seq_contains_after_push;

verus! {

/// a message and who sent it
pub struct Parcel {
    pub sender: int,
    pub message: Message,
}

/// how far a sender has got with its message
pub enum Phase {
    /// it has none
    Idle,
    /// it was told [`SendStep::SendNow`]
    Sending(Message),
    /// it was told [`SendStep::NeedOutbox`]
    Building(Message),
    /// it was told [`WaitStep::InLine`]
    InLine(u64, Message),
}

impl Phase {
    /// is the message that the sender has, if any, not too large?
    pub open spec fn within_limit(self) -> bool {
        match self {
            Phase::Idle => true,
            Phase::Sending(m) => within_limit(m),
            Phase::Building(m) => within_limit(m),
            Phase::InLine(_, m) => within_limit(m),
        }
    }
}

/// one capability in use
pub struct Flow {
    pub inner: InnerView,
    /// how far each sender has got; one that is not listed has no message
    pub phases: Map<int, Phase>,
    /// what was sent, in order
    pub wire: Seq<Parcel>,
    /// what the drain task holds
    pub held: Option<Parcel>,
    /// what waits in the outbox
    pub waiting: Seq<Parcel>,
    /// what senders were told is taken, in the order they were told
    pub accepted: Seq<Parcel>,
}

/// one turn of a sender or of the drain task
pub enum FlowStep {
    /// [`crate::Ref::try_send`]
    TrySend(int, Message),
    /// [`crate::Ref::send`] for a message that found the outbox full
    Wait(int, Message),
    /// [`crate::Ref::claim`] by a sender that waits
    Claim(int),
    /// [`crate::Ref::leave`] by a sender that waits, which keeps its message
    Leave(int),
    /// [`crate::Ref::inline_sent`], after one send on the socket
    InlineSent(int, SendOutcome),
    /// [`crate::Ref::outbox_built`]
    OutboxBuilt(int, bool),
    /// [`crate::outbox::Outbox::next`], with something waiting
    Take,
    /// [`crate::outbox::Outbox::sent`], after one send on the socket
    Sent(SendOutcome),
    /// [`crate::outbox::Outbox::drain_gone`]
    Gone,
}

/// the parcels of one sender, in order
pub open spec fn of(parcels: Seq<Parcel>, sender: int) -> Seq<Parcel> {
    parcels.filter(|p: Parcel| p.sender == sender)
}

/// none or one
pub open spec fn at_most_one(parcel: Option<Parcel>) -> Seq<Parcel> {
    match parcel {
        Some(p) => seq![p],
        None => Seq::empty(),
    }
}

impl Flow {
    /// a capability that nothing was sent to yet
    pub open spec fn start(fd: i32, id: Option<SocketId>) -> Flow {
        Flow {
            inner: InnerView::fresh(fd, id),
            phases: Map::empty(),
            wire: Seq::empty(),
            held: None,
            waiting: Seq::empty(),
            accepted: Seq::empty(),
        }
    }

    /// how far this sender has got
    pub open spec fn phase(self, sender: int) -> Phase {
        if self.phases.contains_key(sender) {
            self.phases[sender]
        } else {
            Phase::Idle
        }
    }

    /// everything on the wire, then what the drain task holds, then what waits
    pub open spec fn under_way(self) -> Seq<Parcel> {
        self.wire + at_most_one(self.held) + self.waiting
    }

    /// has no send of the drain task failed, and is the task still there?
    pub open spec fn intact(self) -> bool {
        self.inner.outbox matches Some(o) ==> o.open
    }

    /// the same with the sender somewhere else
    pub open spec fn to(self, sender: int, inner: InnerView, phase: Phase) -> Flow {
        Flow { inner, phases: self.phases.insert(sender, phase), ..self }
    }

    /// what a sender with `message` makes of its next step
    ///
    /// What it is told says what is accepted, and nothing about the wire: that grows from what comes of
    /// a send on the socket.
    pub open spec fn after(
        self,
        sender: int,
        message: Message,
        inner: InnerView,
        step: SendStep,
    ) -> Flow {
        let parcel = Parcel { sender, message };
        match step {
            SendStep::SendNow(m) => self.to(sender, inner, Phase::Sending(m)),
            SendStep::NeedOutbox(m) => self.to(sender, inner, Phase::Building(m)),
            SendStep::Delivered(_) => Flow {
                accepted: self.accepted.push(parcel),
                ..self.to(sender, inner, Phase::Idle)
            },
            SendStep::Queued => Flow {
                waiting: self.waiting.push(parcel),
                accepted: self.accepted.push(parcel),
                ..self.to(sender, inner, Phase::Idle)
            },
            SendStep::Refused(_) => self.to(sender, inner, Phase::Idle),
        }
    }

    /// what a sender that waits for room makes of its next step
    pub open spec fn after_wait(
        self,
        sender: int,
        message: Message,
        inner: InnerView,
        step: WaitStep,
    ) -> Flow {
        match step {
            WaitStep::SendNow(m) => self.after(sender, message, inner, SendStep::SendNow(m)),
            WaitStep::NeedOutbox(m) => self.after(sender, message, inner, SendStep::NeedOutbox(m)),
            WaitStep::Delivered(m) => self.after(sender, message, inner, SendStep::Delivered(m)),
            WaitStep::Queued => self.after(sender, message, inner, SendStep::Queued),
            WaitStep::InLine(t, m) => self.to(sender, inner, Phase::InLine(t, m)),
            WaitStep::Refused(_) => self.to(sender, inner, Phase::Idle),
        }
    }
}

impl FlowStep {
    /// the sender whose turn this is, if it is a sender's
    pub open spec fn sender(self) -> Option<int> {
        match self {
            FlowStep::TrySend(sender, _) => Some(sender),
            FlowStep::Wait(sender, _) => Some(sender),
            FlowStep::Claim(sender) => Some(sender),
            FlowStep::Leave(sender) => Some(sender),
            FlowStep::InlineSent(sender, _) => Some(sender),
            FlowStep::OutboxBuilt(sender, _) => Some(sender),
            _ => None,
        }
    }

    /// can this be the next turn?
    pub open spec fn possible(self, flow: Flow) -> bool {
        match self {
            FlowStep::TrySend(sender, message) => flow.phase(sender) is Idle,
            FlowStep::Wait(sender, message) => flow.phase(sender) is Idle && within_limit(message)
                && flow.inner.can_wait(),
            FlowStep::Claim(sender) => flow.phase(sender) is InLine,
            FlowStep::Leave(sender) => flow.phase(sender) is InLine,
            FlowStep::InlineSent(sender, outcome) => flow.phase(sender) is Sending,
            FlowStep::OutboxBuilt(sender, built) => flow.phase(sender) is Building,
            FlowStep::Take => flow.inner.outbox matches Some(o) && o.held is None && o.queue.len()
                != 0,
            FlowStep::Sent(outcome) => flow.inner.outbox matches Some(o) && o.held is Some,
            FlowStep::Gone => flow.inner.outbox is Some,
        }
    }

    /// where it leads
    pub open spec fn done(self, flow: Flow) -> Flow {
        match self {
            FlowStep::TrySend(sender, message) => {
                let (inner, step) = flow.inner.try_send(message);
                flow.after(sender, message, inner, step)
            },
            FlowStep::Wait(sender, message) => {
                let (inner, step) = flow.inner.send(SendStep::Refused(TrySendError::Full(message)));
                flow.after_wait(sender, message, inner, step)
            },
            FlowStep::Claim(sender) => {
                let (ticket, message) = (flow.phase(sender)->InLine_0, flow.phase(sender)->InLine_1);
                let (inner, step) = flow.inner.claim(ticket, message);
                flow.after_wait(sender, message, inner, step)
            },
            FlowStep::Leave(sender) => {
                flow.to(sender, flow.inner.left(flow.phase(sender)->InLine_0), Phase::Idle)
            },
            FlowStep::InlineSent(sender, outcome) => {
                let message = flow.phase(sender)->Sending_0;
                let (inner, step) = flow.inner.inline_sent(message, outcome);
                Flow {
                    wire: flow.wire + (if outcome is Sent {
                        seq![Parcel { sender, message }]
                    } else {
                        Seq::empty()
                    }),
                    ..flow.after(sender, message, inner, step)
                }
            },
            FlowStep::OutboxBuilt(sender, built) => {
                let message = flow.phase(sender)->Building_0;
                let (inner, step) = flow.inner.outbox_built(message, built);
                flow.after(sender, message, inner, step)
            },
            FlowStep::Take => {
                Flow {
                    inner: flow.inner.with_outbox(flow.inner.outbox->0.taken()),
                    held: Some(flow.waiting.first()),
                    waiting: flow.waiting.drop_first(),
                    ..flow
                }
            },
            FlowStep::Sent(SendOutcome::WouldBlock) => flow,
            FlowStep::Sent(SendOutcome::Sent) => {
                Flow {
                    inner: flow.inner.with_outbox(flow.inner.outbox->0.settled()),
                    wire: flow.wire + at_most_one(flow.held),
                    held: None,
                    ..flow
                }
            },
            FlowStep::Sent(SendOutcome::Failed) => {
                Flow {
                    inner: flow.inner.with_outbox(flow.inner.outbox->0.failed()),
                    held: None,
                    waiting: Seq::empty(),
                    ..flow
                }
            },
            FlowStep::Gone => {
                Flow {
                    inner: flow.inner.with_outbox(flow.inner.outbox->0.gone()),
                    held: None,
                    waiting: Seq::empty(),
                    ..flow
                }
            },
        }
    }
}

/// can all of `steps` be taken here, one after the other?
pub open spec fn all_possible(flow: Flow, steps: Seq<FlowStep>) -> bool
    decreases steps.len(),
{
    steps.len() == 0 || (steps.first().possible(flow) && all_possible(
        steps.first().done(flow),
        steps.drop_first(),
    ))
}

/// where all of `steps` lead
pub open spec fn all_done(flow: Flow, steps: Seq<FlowStep>) -> Flow
    decreases steps.len(),
{
    if steps.len() == 0 {
        flow
    } else {
        all_done(steps.first().done(flow), steps.drop_first())
    }
}

impl Flow {
    /// What is followed is what the outbox holds; no sender has anything waiting or held when it
    /// sends past the outbox; and every sender's messages are under way in the order they were
    /// accepted.
    pub open spec fn ordered(self) -> bool {
        &&& self.inner.wf()
        &&& match self.inner.outbox {
            None => self.waiting.len() == 0 && self.held is None,
            Some(o) => {
                &&& o.queue.len() == self.waiting.len()
                &&& forall|i: int|
                    0 <= i < o.queue.len() ==> #[trigger] o.queue[i] == self.waiting[i].message
                &&& o.held == (match self.held {
                    Some(p) => Some(p.message),
                    None => None,
                })
            },
        }
        &&& forall|s: int| #[trigger]
            self.phase(s) is Sending ==> of(self.waiting, s).len() == 0 && of(
                at_most_one(self.held),
                s,
            ).len() == 0
        &&& self.intact() ==> forall|s: int| #[trigger]
            of(self.accepted, s) == of(self.under_way(), s)
    }

    /// No message that was accepted, or that a sender has got somewhere with, is too large.
    pub open spec fn bounded(self) -> bool {
        &&& forall|i: int|
            0 <= i < self.accepted.len() ==> within_limit((#[trigger] self.accepted[i]).message)
        &&& forall|s: int|
            (#[trigger] self.phase(s)).within_limit()
    }

    /// Every sender that waits has a ticket of its own, which is good.
    pub open spec fn lined_up(self) -> bool {
        &&& forall|s: int|
            (#[trigger] self.phase(s) matches Phase::InLine(t, _) ==> self.inner.knows(t) && t
                < self.inner.outbox->0.next_ticket)
        &&& forall|s: int, r: int|
            #![trigger self.phase(s), self.phase(r)]
            s != r && self.phase(s) is InLine && self.phase(r) is InLine ==> self.phase(s)->InLine_0
                != self.phase(r)->InLine_0
    }

    /// everything is as it should be
    pub open spec fn wf(self) -> bool {
        &&& self.ordered()
        &&& self.bounded()
        &&& self.lined_up()
    }
}

/// does the outbox hold the same messages, if there is one?
spec fn same_backlog(a: InnerView, b: InnerView) -> bool {
    match (a.outbox, b.outbox) {
        (None, None) => true,
        (Some(x), Some(y)) => x.queue == y.queue && x.held == y.held && x.open == y.open,
        _ => false,
    }
}

proof fn lemma_of_concat(a: Seq<Parcel>, b: Seq<Parcel>, s: int)
    ensures
        of(a + b, s) == of(a, s) + of(b, s),
{
    Seq::filter_distributes_over_add(a, b, |p: Parcel| p.sender == s);
}

proof fn lemma_of_one(p: Parcel, s: int)
    ensures
        of(seq![p], s) == (if p.sender == s {
            seq![p]
        } else {
            Seq::<Parcel>::empty()
        }),
{
    reveal_with_fuel(Seq::filter, 2);
    assert(seq![p].drop_last() == Seq::<Parcel>::empty());
}

proof fn lemma_of_push(a: Seq<Parcel>, p: Parcel, s: int)
    ensures
        of(a.push(p), s) == of(a, s) + of(seq![p], s),
{
    assert(a.push(p) == a + seq![p]);
    lemma_of_concat(a, seq![p], s);
}

proof fn lemma_of_none(a: Seq<Parcel>, s: int)
    requires
        a.len() == 0,
    ensures
        of(a, s) == Seq::<Parcel>::empty(),
{
    assert(a == Seq::<Parcel>::empty());
    reveal(Seq::filter);
}

proof fn lemma_under_way(flow: Flow, s: int)
    ensures
        of(flow.under_way(), s) == of(flow.wire, s) + of(at_most_one(flow.held), s) + of(
            flow.waiting,
            s,
        ),
{
    lemma_of_concat(flow.wire + at_most_one(flow.held), flow.waiting, s);
    lemma_of_concat(flow.wire, at_most_one(flow.held), s);
}

/// A sender's message put behind what waits.
proof fn lemma_queued_keeps_order(flow: Flow, sender: int, message: Message, inner: InnerView)
    requires
        flow.ordered(),
        inner.wf(),
        flow.inner.outbox matches Some(o) && o.open && (inner.outbox matches Some(n) && n.open
            && n.queue == o.queue.push(message) && n.held == o.held),
    ensures
        flow.after(sender, message, inner, SendStep::Queued).ordered(),
{
    let parcel = Parcel { sender, message };
    let next = flow.after(sender, message, inner, SendStep::Queued);
    assert forall|s: int| #[trigger] next.phase(s) is Sending implies of(next.waiting, s).len() == 0
        && of(at_most_one(next.held), s).len() == 0 by {
        assert(s != sender);
        assert(flow.phase(s) is Sending);
        lemma_of_push(flow.waiting, parcel, s);
        lemma_of_one(parcel, s);
    }
    assert forall|s: int| #[trigger] of(next.accepted, s) == of(next.under_way(), s) by {
        assert(of(flow.accepted, s) == of(flow.under_way(), s));
        assert(next.under_way() == flow.under_way().push(parcel));
        lemma_of_push(flow.under_way(), parcel, s);
        lemma_of_push(flow.accepted, parcel, s);
    }
}

/// A sender that only gets somewhere else without sending.
proof fn lemma_moved_keeps_order(flow: Flow, sender: int, inner: InnerView, phase: Phase)
    requires
        flow.ordered(),
        inner.wf(),
        same_backlog(flow.inner, inner),
        phase is Sending ==> flow.waiting.len() == 0 && flow.held is None,
    ensures
        flow.to(sender, inner, phase).ordered(),
{
    let next = flow.to(sender, inner, phase);
    assert forall|s: int| #[trigger] next.phase(s) is Sending implies of(next.waiting, s).len() == 0
        && of(at_most_one(next.held), s).len() == 0 by {
        if s == sender {
            lemma_of_none(next.waiting, s);
            lemma_of_none(at_most_one(next.held), s);
        } else {
            assert(flow.phase(s) is Sending);
        }
    }
    if next.intact() {
        assert forall|s: int| #[trigger] of(next.accepted, s) == of(next.under_way(), s) by {
            assert(of(flow.accepted, s) == of(flow.under_way(), s));
        }
    }
}

/// A message sent past the outbox, which holds nothing of that sender.
proof fn lemma_delivered_keeps_order(flow: Flow, sender: int, message: Message)
    requires
        flow.ordered(),
        flow.phase(sender) is Sending,
    ensures
        (Flow {
            wire: flow.wire + seq![Parcel { sender, message }],
            ..flow.after(sender, message, flow.inner, SendStep::Delivered(message))
        }).ordered(),
{
    let parcel = Parcel { sender, message };
    let next = Flow {
        wire: flow.wire + seq![parcel],
        ..flow.after(sender, message, flow.inner, SendStep::Delivered(message))
    };
    assert(next.wire == flow.wire.push(parcel));
    assert forall|s: int| #[trigger] next.phase(s) is Sending implies of(next.waiting, s).len() == 0
        && of(at_most_one(next.held), s).len() == 0 by {
        assert(s != sender);
        assert(flow.phase(s) is Sending);
    }
    if next.intact() {
        assert forall|s: int| #[trigger] of(next.accepted, s) == of(next.under_way(), s) by {
            assert(of(flow.accepted, s) == of(flow.under_way(), s));
            lemma_under_way(flow, s);
            lemma_under_way(next, s);
            lemma_of_push(flow.wire, parcel, s);
            lemma_of_push(flow.accepted, parcel, s);
            lemma_of_one(parcel, s);
            if s == sender {
                assert(of(flow.waiting, s) == Seq::<Parcel>::empty());
                assert(of(at_most_one(flow.held), s) == Seq::<Parcel>::empty());
            }
            assert(of(next.accepted, s) == of(next.under_way(), s));
        }
    }
}

/// A sender with a message that the outbox is asked to take.
proof fn lemma_enqueued_keeps_order(flow: Flow, sender: int, message: Message)
    requires
        flow.ordered(),
        within_limit(message),
    ensures
        ({
            let (inner, step) = flow.inner.enqueue(message);
            flow.after(sender, message, inner, step).ordered()
        }),
{
    match flow.inner.outbox {
        None => lemma_moved_keeps_order(flow, sender, flow.inner, Phase::Building(message)),
        Some(o) => if o.open && o.has_room() {
            law_outbox_stays_in_order(o, message, 0);
            lemma_queued_keeps_order(
                flow,
                sender,
                message,
                flow.inner.with_outbox(o.pushed(message)),
            );
        } else {
            lemma_moved_keeps_order(flow, sender, flow.inner, Phase::Idle);
        },
    }
}

/// A drain task that is gone with all that waits.
proof fn lemma_gone_keeps_order(flow: Flow, next: Flow)
    requires
        next.inner.wf(),
        next.inner.outbox matches Some(o) && o.queue.len() == 0 && o.held is None && !o.open,
        next.held is None,
        next.waiting.len() == 0,
        next.phases == flow.phases,
    ensures
        next.ordered(),
{
    assert forall|s: int| #[trigger] next.phase(s) is Sending implies of(next.waiting, s).len() == 0
        && of(at_most_one(next.held), s).len() == 0 by {
        lemma_of_none(next.waiting, s);
        lemma_of_none(at_most_one(next.held), s);
    }
}

proof fn lemma_turn_stays_ordered(flow: Flow, step: FlowStep)
    requires
        flow.wf(),
        step.possible(flow),
    ensures
        step.done(flow).ordered(),
{
    let next = step.done(flow);
    match step {
        FlowStep::TrySend(sender, message) => {
            if !within_limit(message) {
                lemma_moved_keeps_order(flow, sender, flow.inner, Phase::Idle);
            } else if message@.fds.len() <= MAX_FDS && !flow.inner.backed_up() {
                lemma_moved_keeps_order(flow, sender, flow.inner, Phase::Sending(message));
            } else {
                lemma_enqueued_keeps_order(flow, sender, message);
            }
        },
        FlowStep::Wait(sender, message) => {
            match flow.inner.outbox {
                Some(o) if o.open && !o.has_room() => {
                    law_outbox_stays_in_order(o, message, 0);
                    lemma_moved_keeps_order(
                        flow,
                        sender,
                        flow.inner.with_outbox(o.lined_up()),
                        Phase::InLine(o.next_ticket, message),
                    );
                },
                _ => lemma_enqueued_keeps_order(flow, sender, message),
            }
        },
        FlowStep::Claim(sender) => {
            let (ticket, message) = (flow.phase(sender)->InLine_0, flow.phase(sender)->InLine_1);
            let o = flow.inner.outbox->0;
            assert(flow.inner.knows(ticket));
            assert(within_limit(message));
            if o.open && o.granted.contains(ticket) {
                law_outbox_stays_in_order(o, message, ticket);
                lemma_queued_keeps_order(
                    flow,
                    sender,
                    message,
                    flow.inner.with_outbox(o.claimed(ticket, message)),
                );
            } else if o.open {
                lemma_moved_keeps_order(flow, sender, flow.inner, Phase::InLine(ticket, message));
            } else {
                lemma_moved_keeps_order(flow, sender, flow.inner, Phase::Idle);
            }
        },
        FlowStep::Leave(sender) => {
            let (ticket, message) = (flow.phase(sender)->InLine_0, flow.phase(sender)->InLine_1);
            assert(flow.inner.knows(ticket));
            law_outbox_stays_in_order(flow.inner.outbox->0, message, ticket);
            lemma_moved_keeps_order(flow, sender, flow.inner.left(ticket), Phase::Idle);
        },
        FlowStep::InlineSent(sender, outcome) => {
            let message = flow.phase(sender)->Sending_0;
            assert(within_limit(message));
            if !(outcome is Sent) {
                assert(flow.wire + Seq::<Parcel>::empty() == flow.wire);
            }
            match outcome {
                SendOutcome::Sent => lemma_delivered_keeps_order(flow, sender, message),
                SendOutcome::WouldBlock => lemma_enqueued_keeps_order(flow, sender, message),
                SendOutcome::Failed => lemma_moved_keeps_order(
                    flow,
                    sender,
                    flow.inner,
                    Phase::Idle,
                ),
            }
        },
        FlowStep::OutboxBuilt(sender, built) => {
            let message = flow.phase(sender)->Building_0;
            assert(within_limit(message));
            if !built {
                lemma_moved_keeps_order(flow, sender, flow.inner, Phase::Idle);
            } else if flow.inner.outbox is None {
                let installed = Flow {
                    inner: flow.inner.with_outbox(OutboxView::fresh()),
                    ..flow
                };
                assert(installed.ordered()) by {
                    assert forall|s: int| #[trigger] installed.phase(s) is Sending implies of(
                        installed.waiting,
                        s,
                    ).len() == 0 && of(at_most_one(installed.held), s).len() == 0 by {
                        assert(flow.phase(s) is Sending);
                    }
                    assert forall|s: int| #[trigger]
                        of(installed.accepted, s) == of(installed.under_way(), s) by {
                        assert(of(flow.accepted, s) == of(flow.under_way(), s));
                    }
                }
                lemma_enqueued_keeps_order(installed, sender, message);
            } else {
                lemma_enqueued_keeps_order(flow, sender, message);
            }
        },
        FlowStep::Take => {
            law_outbox_stays_in_order(flow.inner.outbox->0, flow.waiting[0].message, 0);
            assert(flow.inner.outbox->0.queue[0] == flow.waiting[0].message);
            assert(next.under_way() == flow.under_way());
            assert forall|s: int| #[trigger] next.phase(s) is Sending implies of(
                next.waiting,
                s,
            ).len() == 0 && of(at_most_one(next.held), s).len() == 0 by {
                assert(flow.phase(s) is Sending);
                assert(flow.waiting == at_most_one(next.held) + next.waiting);
                lemma_of_concat(at_most_one(next.held), next.waiting, s);
            }
            if next.intact() {
                assert forall|s: int| #[trigger] of(next.accepted, s) == of(next.under_way(), s) by {
                    assert(of(flow.accepted, s) == of(flow.under_way(), s));
                }
            }
        },
        FlowStep::Sent(SendOutcome::WouldBlock) => {},
        FlowStep::Sent(SendOutcome::Sent) => {
            assert(next.under_way() == flow.under_way());
            assert forall|s: int| #[trigger] next.phase(s) is Sending implies of(
                next.waiting,
                s,
            ).len() == 0 && of(at_most_one(next.held), s).len() == 0 by {
                assert(flow.phase(s) is Sending);
                lemma_of_none(at_most_one(next.held), s);
            }
            if next.intact() {
                assert forall|s: int| #[trigger] of(next.accepted, s) == of(next.under_way(), s) by {
                    assert(of(flow.accepted, s) == of(flow.under_way(), s));
                }
            }
        },
        FlowStep::Sent(SendOutcome::Failed) => lemma_gone_keeps_order(flow, next),
        FlowStep::Gone => lemma_gone_keeps_order(flow, next),
    }
}

proof fn lemma_turn_stays_bounded(flow: Flow, step: FlowStep)
    requires
        flow.bounded(),
        step.possible(flow),
    ensures
        step.done(flow).bounded(),
{
    let next = step.done(flow);
    let turned = step.sender();
    if let Some(sender) = turned {
        assert(flow.phase(sender).within_limit());
    }
    assert forall|i: int| 0 <= i < next.accepted.len() implies within_limit(
        (#[trigger] next.accepted[i]).message,
    ) by {
        if i < flow.accepted.len() {
            assert(next.accepted[i] == flow.accepted[i]);
        }
    }
    assert forall|s: int| (#[trigger] next.phase(s)).within_limit() by {
        if turned != Some(s) {
            assert(next.phase(s) == flow.phase(s));
        }
    }
}

/// What happens to an outbox in one turn leaves the tickets of others good.
proof fn lemma_turn_stays_lined_up(flow: Flow, step: FlowStep)
    requires
        flow.wf(),
        step.possible(flow),
    ensures
        step.done(flow).lined_up(),
{
    let next = step.done(flow);
    let turned = step.sender();
    assert forall|s: int|
        (#[trigger] next.phase(s) matches Phase::InLine(t, _) ==> next.inner.knows(t) && t
            < next.inner.outbox->0.next_ticket) by {
        if turned == Some(s) {
            assert(flow.phase(s) matches Phase::InLine(t, _) ==> flow.inner.knows(t));
            if let FlowStep::Wait(_, _) = step {
                let o = flow.inner.outbox->0;
                lemma_seq_contains_after_push(o.line, o.next_ticket, o.next_ticket);
            }
        } else if next.phase(s) is InLine {
            assert(next.phase(s) == flow.phase(s));
            let t = flow.phase(s)->InLine_0;
            let o = flow.inner.outbox->0;
            assert(flow.inner.knows(t));
            let other: u64 = match step {
                FlowStep::Claim(sender) => flow.phase(sender)->InLine_0,
                FlowStep::Leave(sender) => flow.phase(sender)->InLine_0,
                _ => if t == 0 {
                    1
                } else {
                    0
                },
            };
            assert(other != t);
            let message = match step {
                FlowStep::TrySend(_, m) => m,
                FlowStep::Wait(_, m) => m,
                FlowStep::Claim(sender) => flow.phase(sender)->InLine_1,
                FlowStep::InlineSent(sender, _) => flow.phase(sender)->Sending_0,
                FlowStep::OutboxBuilt(sender, _) => flow.phase(sender)->Building_0,
                _ => flow.phase(s)->InLine_1,
            };
            law_ticket_stays_good(o, t, message, other);
        }
    }
    assert forall|s: int, r: int|
        #![trigger next.phase(s), next.phase(r)]
        s != r && next.phase(s) is InLine && next.phase(r) is InLine implies next.phase(
        s,
    )->InLine_0 != next.phase(r)->InLine_0 by {
        if turned != Some(s) {
            assert(next.phase(s) == flow.phase(s));
        }
        if turned != Some(r) {
            assert(next.phase(r) == flow.phase(r));
        }
        assert(flow.phase(s) is InLine && flow.phase(r) is InLine ==> flow.phase(s)->InLine_0
            != flow.phase(r)->InLine_0);
    }
}

/// Every turn leaves every sender's messages in order and within the limit, and every ticket good.
pub proof fn law_turn_keeps_order(flow: Flow, step: FlowStep)
    requires
        flow.wf(),
        step.possible(flow),
    ensures
        step.done(flow).wf(),
{
    lemma_turn_stays_ordered(flow, step);
    lemma_turn_stays_bounded(flow, step);
    lemma_turn_stays_lined_up(flow, step);
}

proof fn lemma_start_is_in_order(fd: i32, id: Option<SocketId>)
    ensures
        Flow::start(fd, id).wf(),
{
    let start = Flow::start(fd, id);
    assert(start.under_way() == start.accepted);
    assert forall|s: int| start.phase(s) is Idle by {}
}

proof fn lemma_turns_keep_order(flow: Flow, steps: Seq<FlowStep>)
    requires
        flow.wf(),
        all_possible(flow, steps),
    ensures
        all_done(flow, steps).wf(),
    decreases steps.len(),
{
    if steps.len() != 0 {
        law_turn_keeps_order(flow, steps.first());
        lemma_turns_keep_order(steps.first().done(flow), steps.drop_first());
    }
}

/// However senders and the drain task take turns, as long as the drain task is there and none of
/// its sends has failed nothing that was accepted is lost, and no message overtakes another of the
/// same sender: each sender's messages are on the wire, held or waiting in exactly the order they
/// were accepted.
pub proof fn law_accepted_stays_in_order(
    fd: i32,
    id: Option<SocketId>,
    steps: Seq<FlowStep>,
    sender: int,
)
    requires
        all_possible(Flow::start(fd, id), steps),
        all_done(Flow::start(fd, id), steps).intact(),
    ensures
        ({
            let end = all_done(Flow::start(fd, id), steps);
            of(end.under_way(), sender) == of(end.accepted, sender)
        }),
{
    lemma_start_is_in_order(fd, id);
    lemma_turns_keep_order(Flow::start(fd, id), steps);
    let end = all_done(Flow::start(fd, id), steps);
    assert(of(end.accepted, sender) == of(end.under_way(), sender));
}

/// Once the backlog is drained, everything that was accepted is on the wire, each sender's messages
/// in the order they were accepted.
pub proof fn law_drained_is_all_on_the_wire(
    fd: i32,
    id: Option<SocketId>,
    steps: Seq<FlowStep>,
    sender: int,
)
    requires
        all_possible(Flow::start(fd, id), steps),
        all_done(Flow::start(fd, id), steps).intact(),
        !all_done(Flow::start(fd, id), steps).inner.backed_up(),
    ensures
        ({
            let end = all_done(Flow::start(fd, id), steps);
            of(end.wire, sender) == of(end.accepted, sender)
        }),
{
    law_accepted_stays_in_order(fd, id, steps, sender);
    lemma_start_is_in_order(fd, id);
    lemma_turns_keep_order(Flow::start(fd, id), steps);
    let end = all_done(Flow::start(fd, id), steps);
    assert(end.under_way() == end.wire);
}

/// Nothing that is too large is ever accepted, so nothing that is too large reaches the wire: a
/// receive buffer has room for every message that a sender was told is taken.
pub proof fn law_accepted_is_within_the_limit(
    fd: i32,
    id: Option<SocketId>,
    steps: Seq<FlowStep>,
    i: int,
)
    requires
        all_possible(Flow::start(fd, id), steps),
        0 <= i < all_done(Flow::start(fd, id), steps).accepted.len(),
    ensures
        within_limit(all_done(Flow::start(fd, id), steps).accepted[i].message),
{
    lemma_start_is_in_order(fd, id);
    lemma_turns_keep_order(Flow::start(fd, id), steps);
}

/// Whoever waits for room has a ticket that is good until it is used: it is in line, or a place is
/// kept for it, as long as there is anything to wait for.
pub proof fn law_who_waits_is_not_forgotten(
    fd: i32,
    id: Option<SocketId>,
    steps: Seq<FlowStep>,
    sender: int,
)
    requires
        all_possible(Flow::start(fd, id), steps),
        all_done(Flow::start(fd, id), steps).phase(sender) is InLine,
    ensures
        ({
            let end = all_done(Flow::start(fd, id), steps);
            end.inner.knows(end.phase(sender)->InLine_0)
        }),
{
    lemma_start_is_in_order(fd, id);
    lemma_turns_keep_order(Flow::start(fd, id), steps);
}

/// does this step hand on `message` itself, if it hands on any?
pub open spec fn hands_on(step: SendStep, message: Message) -> bool {
    match step {
        SendStep::SendNow(m) => m == message,
        SendStep::NeedOutbox(m) => m == message,
        SendStep::Delivered(m) => m == message,
        SendStep::Queued => true,
        SendStep::Refused(e) => e.message() == message,
    }
}

/// A message that is not taken comes back as it was, at every stage of a send.
pub proof fn law_untaken_comes_back(
    inner: InnerView,
    message: Message,
    outcome: SendOutcome,
    built: bool,
)
    ensures
        hands_on(inner.try_send(message).1, message),
        hands_on(inner.inline_sent(message, outcome).1, message),
        hands_on(inner.outbox_built(message, built).1, message),
{
}

/// A message is refused as too large exactly if its payload exceeds [`MAX_MESSAGE_SIZE`], before
/// anything leaves the process and without a trace.
pub proof fn law_too_large_is_refused_at_once(inner: InnerView, message: Message)
    ensures
        inner.try_send(message).1 == SendStep::Refused(TrySendError::TooLarge(message))
            <==> message@.data.len() > MAX_MESSAGE_SIZE,
        message@.data.len() > MAX_MESSAGE_SIZE ==> inner.try_send(message).0 == inner,
{
}

/// While anything is waiting or held, no message goes past it.
pub proof fn law_nothing_overtakes(inner: InnerView, message: Message)
    requires
        inner.wf(),
        inner.outbox matches Some(o) && o.open && (o.queue.len() != 0 || o.held is Some),
    ensures
        !(inner.try_send(message).1 is SendNow),
{
}

/// `Full` is said only of an outbox that is there, open and full of messages and of places kept for
/// those who wait, and changes nothing.
pub proof fn law_full_means_full(
    inner: InnerView,
    message: Message,
    outcome: SendOutcome,
    built: bool,
)
    requires
        inner.wf(),
    ensures
        inner.try_send(message).1 == SendStep::Refused(TrySendError::Full(message)) ==> (
        inner.outbox matches Some(o) && o.open && o.queue.len() + o.granted.len() == DEPTH) && inner.try_send(
            message,
        ).0 == inner,
        inner.inline_sent(message, outcome).1 == SendStep::Refused(TrySendError::Full(message)) ==> (
        inner.outbox matches Some(o) && o.open && o.queue.len() + o.granted.len() == DEPTH) && inner.inline_sent(
            message,
            outcome,
        ).0 == inner,
        inner.outbox_built(message, built).1 == SendStep::Refused(TrySendError::Full(message)) ==> (
        inner.outbox matches Some(o) && o.open && o.queue.len() + o.granted.len() == DEPTH) && inner.outbox_built(
            message,
            built,
        ).0 == inner,
{
}

/// A merely full socket or outbox is never reported as a dead peer: as long as no send has failed
/// and the outbox could be built, no message is refused with `Closed`.
pub proof fn law_backpressure_is_not_death(inner: InnerView, message: Message)
    requires
        inner.outbox matches Some(o) ==> o.open,
    ensures
        inner.try_send(message).1 != SendStep::Refused(TrySendError::Closed(message)),
        inner.inline_sent(message, SendOutcome::WouldBlock).1 != SendStep::Refused(
            TrySendError::Closed(message),
        ),
        inner.outbox_built(message, true).1 != SendStep::Refused(TrySendError::Closed(message)),
{
}

/// A peer that is gone is reported as `Closed`, whether the socket or the drain task found out, and
/// so is a drain task that is gone; also to those who wait for room.
pub proof fn law_death_is_reported(inner: InnerView, message: Message, ticket: u64)
    ensures
        inner.inline_sent(message, SendOutcome::Failed).1 == SendStep::Refused(
            TrySendError::Closed(message),
        ),
        (inner.outbox matches Some(o) && !o.open) ==> inner.inline_sent(
            message,
            SendOutcome::WouldBlock,
        ).1 == SendStep::Refused(TrySendError::Closed(message)),
        (inner.backed_up() && !inner.outbox->0.open && message@.data.len() <= MAX_MESSAGE_SIZE)
            ==> inner.try_send(message).1 == SendStep::Refused(TrySendError::Closed(message)),
        (inner.outbox matches Some(o) && !o.open) ==> inner.claim(ticket, message).1
            == WaitStep::Refused(SendError::Closed(message)) && inner.send(
            SendStep::Refused(TrySendError::Full(message)),
        ).1 == WaitStep::Refused(SendError::Closed(message)),
{
}

/// A sender that was told `Full` is never sent off to build an outbox: it takes a place that nobody
/// has, or lines up behind those who came before.
pub proof fn law_waiting_lines_up(inner: InnerView, message: Message)
    requires
        inner.wf(),
        inner.outbox matches Some(o) && o.open,
    ensures
        inner.send(SendStep::Refused(TrySendError::Full(message))).1 == (if inner.outbox->0.has_room() {
            WaitStep::Queued
        } else {
            WaitStep::InLine(inner.outbox->0.next_ticket, message)
        }),
        inner.outbox->0.line.len() != 0 ==> {
            &&& inner.send(SendStep::Refused(TrySendError::Full(message))).1 is InLine
            &&& inner.enqueue(message).1 == SendStep::Refused(TrySendError::Full(message))
        },
{
}

/// Places go to senders in the order they lined up in: whoever is first in line when a message
/// leaves the outbox has a place kept from then on, which nobody else gets, and claims it.
pub proof fn law_first_come_first_served(inner: InnerView, message: Message, newcomer: Message)
    requires
        inner.wf(),
        inner.outbox matches Some(o) && o.held is None && o.queue.len() != 0 && o.line.len() != 0,
    ensures
        ({
            let first = inner.outbox->0.line.first();
            let next = inner.with_outbox(inner.outbox->0.taken());
            &&& next.claim(first, message).1 == WaitStep::Queued
            &&& next.enqueue(newcomer).1 == SendStep::Refused(TrySendError::Full(newcomer))
        }),
{
    law_freed_place_goes_to_the_first(inner.outbox->0);
}

/// The outbox and the death watch are built once: what is there stays, however often another one is
/// offered.
pub proof fn law_built_once(inner: InnerView, message: Message, built: Option<i32>)
    ensures
        inner.outbox is Some ==> !inner.installs(true) && inner.outbox_built(message, true)
            == inner.enqueue(message),
        inner.watch is Some ==> inner.watched(built) == inner,
        inner.watch is None ==> inner.watched(built).watch == built,
{
}

/// do the two differ in nothing but the outbox?
pub open spec fn same_but_outbox(before: InnerView, after: InnerView) -> bool {
    &&& after.fd == before.fd
    &&& after.id == before.id
    &&& after.strong == before.strong
    &&& after.watch == before.watch
}

/// is `message` behind all that waited in the outbox, and nothing else different?
pub open spec fn took(before: InnerView, after: InnerView, message: Message) -> bool {
    &&& same_but_outbox(before, after)
    &&& before.outbox matches Some(b) && after.outbox matches Some(a) && one_more(b, a, message)
}

/// A sender is told that its message is delivered exactly where the kernel took it, whatever the
/// message and whatever the capability: nothing else that can be asked comes to that.
pub proof fn law_delivered_means_sent(
    inner: InnerView,
    message: Message,
    outcome: SendOutcome,
    built: bool,
    tried: SendStep,
    ticket: u64,
)
    ensures
        inner.inline_sent(message, outcome).1 is Delivered <==> outcome is Sent,
        !(inner.try_send(message).1 is Delivered),
        !(inner.outbox_built(message, built).1 is Delivered),
        inner.send(tried).1 is Delivered <==> tried is Delivered,
        !(inner.claim(ticket, message).1 is Delivered),
{
}

/// What the kernel took changes nothing here; a broken socket is a peer that is gone; and a full
/// socket leads to the outbox: to build one if there is none, to a place in it if it is open and
/// has one, and to the message handed back otherwise.
pub proof fn law_full_socket_leads_to_the_outbox(inner: InnerView, message: Message)
    ensures
        inner.inline_sent(message, SendOutcome::Sent) == (inner, SendStep::Delivered(message)),
        inner.inline_sent(message, SendOutcome::Failed) == (
            inner,
            SendStep::Refused(TrySendError::Closed(message)),
        ),
        match inner.outbox {
            None => inner.inline_sent(message, SendOutcome::WouldBlock) == (
                inner,
                SendStep::NeedOutbox(message),
            ),
            Some(o) => if !o.open {
                inner.inline_sent(message, SendOutcome::WouldBlock) == (
                    inner,
                    SendStep::Refused(TrySendError::Closed(message)),
                )
            } else if o.queue.len() + o.granted.len() < 8 {
                &&& inner.inline_sent(message, SendOutcome::WouldBlock).1 == SendStep::Queued
                &&& took(inner, inner.inline_sent(message, SendOutcome::WouldBlock).0, message)
            } else {
                inner.inline_sent(message, SendOutcome::WouldBlock) == (
                    inner,
                    SendStep::Refused(TrySendError::Full(message)),
                )
            },
        },
{
    if let Some(o) = inner.outbox {
        law_queued_is_last(o, message);
    }
}

/// A message goes straight to the socket exactly if one packet can carry it and nothing accepted is
/// still to be sent. One that cannot, and is not too large, fares just as one that met a full
/// socket.
pub proof fn law_inline_first_then_the_outbox(inner: InnerView, message: Message)
    ensures
        inner.try_send(message).1 is SendNow <==> message@.data.len() <= 8192
            && message@.fds.len() <= 253 && (inner.outbox matches Some(o) ==> o.pending == 0),
        inner.try_send(message).1 is SendNow ==> inner.try_send(message) == (
            inner,
            SendStep::SendNow(message),
        ),
        message@.data.len() > 8192 ==> inner.try_send(message) == (
            inner,
            SendStep::Refused(TrySendError::TooLarge(message)),
        ),
        message@.data.len() <= 8192 && !(inner.try_send(message).1 is SendNow) ==> inner.try_send(
            message,
        ) == inner.inline_sent(message, SendOutcome::WouldBlock),
{
}

/// An outbox that was built where there was none has the message in it, alone; one that is there
/// already is used as if nothing had been built; and where none can be built the peer is as good as
/// gone.
pub proof fn law_built_outbox_holds_the_message(inner: InnerView, message: Message, built: bool)
    ensures
        inner.installs(built) <==> built && inner.outbox is None,
        !built ==> inner.outbox_built(message, built) == (
            inner,
            SendStep::Refused(TrySendError::Closed(message)),
        ),
        built && inner.outbox is Some ==> inner.outbox_built(message, built) == inner.inline_sent(
            message,
            SendOutcome::WouldBlock,
        ),
        built && inner.outbox is None ==> {
            &&& inner.outbox_built(message, built).1 == SendStep::Queued
            &&& same_but_outbox(inner, inner.outbox_built(message, built).0)
            &&& inner.outbox_built(message, built).0.outbox matches Some(o)
            &&& o.queue == seq![message]
            &&& o.held is None
            &&& o.pending == 1
            &&& o.line.len() == 0
            &&& o.granted.len() == 0
            &&& o.next_ticket == 0
            &&& o.open
            &&& !o.retired
        },
{
}

/// A sender that waits is told just what one that does not is told, but for `Full`: a refusal stays
/// a refusal with the same message, and what was delivered, queued or is still to be done stays
/// that.
pub proof fn law_waiting_changes_no_other_answer(inner: InnerView, m: Message)
    ensures
        inner.send(SendStep::Refused(TrySendError::Closed(m))) == (
            inner,
            WaitStep::Refused(SendError::Closed(m)),
        ),
        inner.send(SendStep::Refused(TrySendError::TooLarge(m))) == (
            inner,
            WaitStep::Refused(SendError::TooLarge(m)),
        ),
        inner.send(SendStep::Delivered(m)) == (inner, WaitStep::Delivered(m)),
        inner.send(SendStep::Queued) == (inner, WaitStep::Queued),
        inner.send(SendStep::SendNow(m)) == (inner, WaitStep::SendNow(m)),
        inner.send(SendStep::NeedOutbox(m)) == (inner, WaitStep::NeedOutbox(m)),
{
}

/// A sender that was told `Full` and waits gets a place if there is one by now, lines up last if
/// there is none, and has its message back if nobody is left to take it.
pub proof fn law_full_turns_into_waiting(inner: InnerView, m: Message)
    ensures
        ({
            let full = SendStep::Refused(TrySendError::Full(m));
            match inner.outbox {
                None => inner.send(full) == (inner, WaitStep::NeedOutbox(m)),
                Some(o) => if !o.open {
                    inner.send(full) == (inner, WaitStep::Refused(SendError::Closed(m)))
                } else if o.queue.len() + o.granted.len() < 8 {
                    inner.send(full).1 == WaitStep::Queued && took(inner, inner.send(full).0, m)
                } else {
                    &&& inner.send(full).1 == WaitStep::InLine(o.next_ticket, m)
                    &&& same_but_outbox(inner, inner.send(full).0)
                    &&& inner.send(full).0.outbox matches Some(a)
                    &&& same_messages(o, a)
                    &&& a.granted == o.granted
                    &&& a.line == o.line.push(o.next_ticket)
                    &&& o.next_ticket < u64::MAX ==> a.next_ticket == o.next_ticket + 1
                },
            }
        }),
{
    if let Some(o) = inner.outbox {
        law_queued_is_last(o, m);
    }
}

/// Who waits gets in exactly if a place is kept for them; otherwise they wait on without a trace,
/// or have the message back if nobody is left to take it.
pub proof fn law_place_is_claimed_by_its_holder(inner: InnerView, ticket: u64, m: Message)
    requires
        inner.outbox is Some,
    ensures
        ({
            let o = inner.outbox->0;
            let (after, step) = inner.claim(ticket, m);
            &&& !o.open ==> (after, step) == (inner, WaitStep::Refused(SendError::Closed(m)))
            &&& o.open && !o.granted.contains(ticket) ==> (after, step) == (
                inner,
                WaitStep::InLine(ticket, m),
            )
            &&& o.open && o.granted.contains(ticket) ==> {
                &&& step == WaitStep::Queued
                &&& same_but_outbox(inner, after)
                &&& after.outbox == Some(o.claimed(ticket, m))
            }
        }),
{
}

/// Giving a ticket back is between its holder and the outbox, and nothing else is touched.
pub proof fn law_leaving_touches_only_the_line(inner: InnerView, ticket: u64)
    ensures
        same_but_outbox(inner, inner.left(ticket)),
        inner.outbox is None ==> inner.left(ticket) == inner,
        inner.outbox matches Some(o) ==> inner.left(ticket).outbox == Some(o.left(ticket)),
{
}

/// A death is claimed exactly where it was observed, whatever waits here: otherwise the watch that
/// is there is waited on, or one is asked for.
pub proof fn law_death_is_claimed_only_where_it_was_seen(inner: InnerView, dead: bool)
    ensures
        inner.death_step(dead) == DeathStep::Resolved <==> dead,
        !dead && inner.watch is Some ==> inner.death_step(dead) == DeathStep::AwaitHangup(
            inner.watch->0,
        ),
        !dead && inner.watch is None ==> inner.death_step(dead) == DeathStep::NeedWatch,
{
}

/// Registering a watch touches nothing but the watch.
pub proof fn law_watching_touches_only_the_watch(inner: InnerView, built: Option<i32>)
    ensures
        inner.watched(built).watch == (if inner.watch is Some {
            inner.watch
        } else {
            built
        }),
        inner.watched(built).fd == inner.fd,
        inner.watched(built).id == inner.id,
        inner.watched(built).strong == inner.strong,
        inner.watched(built).outbox == inner.outbox,
{
}

/// A capability starts with one share, and with neither an outbox nor a watch.
pub proof fn law_capability_starts_bare(fd: i32, id: Option<SocketId>)
    ensures
        InnerView::fresh(fd, id).fd == fd,
        InnerView::fresh(fd, id).id == id,
        InnerView::fresh(fd, id).strong == 1,
        InnerView::fresh(fd, id).outbox is None,
        InnerView::fresh(fd, id).watch is None,
{
}

/// Changing the outbox changes the outbox and nothing else.
pub proof fn law_outbox_is_one_part_of_it(inner: InnerView, outbox: OutboxView)
    ensures
        same_but_outbox(inner, inner.with_outbox(outbox)),
        inner.with_outbox(outbox).outbox == Some(outbox),
{
}

/// When a capability is backed up, when a sender can line up, when a ticket is good, and which
/// messages may go on.
pub proof fn law_what_can_be_asked_when(inner: InnerView, ticket: u64, m: Message)
    ensures
        inner.backed_up() <==> (inner.outbox matches Some(o) && o.pending != 0),
        inner.can_wait() <==> (inner.outbox matches Some(o) ==> o.next_ticket < u64::MAX),
        inner.knows(ticket) <==> (inner.outbox matches Some(o) && (!o.open || o.line.contains(ticket)
            || o.granted.contains(ticket))),
        SendStep::SendNow(m).sendable() <==> m@.data.len() <= 8192,
        SendStep::NeedOutbox(m).sendable() <==> m@.data.len() <= 8192,
        SendStep::Refused(TrySendError::Full(m)).sendable() <==> m@.data.len() <= 8192,
        SendStep::Refused(TrySendError::TooLarge(m)).sendable(),
        SendStep::Refused(TrySendError::Closed(m)).sendable(),
        SendStep::Delivered(m).sendable(),
        SendStep::Queued.sendable(),
{
}

} // verus!
