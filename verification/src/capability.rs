//! `Ref`, a sending capability, and the two-tier send that keeps it cheap
//!
//! A `Ref` is a share of what [`Refs`] keeps about one socket. Shares are counted there: a share is
//! made by [`Ref::from_owned_fd`], [`Ref::share`] or [`WeakRef::upgrade`], and given up by
//! [`Ref::release`]. The last one to go leaves a [`LastRef`], which takes the rest down.

use crate::directory::{
    directory_contains, directory_file, directory_get, directory_len, directory_new,
    directory_remove_if, filed, Directory, SocketId,
};
use crate::error::{SendError, TrySendError};
use crate::message::Message;
use crate::outbox::{Blocked, Drain, Outbox, OutboxView, Settled};
use crate::wire::{within_limit, SendOutcome, MAX_FDS, MAX_MESSAGE_SIZE};
use std::collections::HashMap;
use vstd::prelude::*;

verus! {

broadcast use vstd::std_specs::hash::group_hash_axioms;

// ---------------------------------------------------------------- the sending half of one socket

/// what a sender has to do next with its message
pub enum SendStep {
    /// try one non-blocking send, and report with [`Ref::inline_sent`]
    SendNow(Message),
    /// set up a drain task, and report with [`Ref::outbox_built`]
    NeedOutbox(Message),
    /// nothing: it is on the wire, so it is done with
    Delivered(Message),
    /// nothing: it waits in the outbox
    Queued,
    /// nothing: it was not taken
    Refused(TrySendError),
}

impl SendStep {
    /// can the message of this step go on the wire, if there is one that may?
    pub open spec fn sendable(self) -> bool {
        match self {
            SendStep::SendNow(m) => within_limit(m),
            SendStep::NeedOutbox(m) => within_limit(m),
            SendStep::Refused(TrySendError::Full(m)) => within_limit(m),
            _ => true,
        }
    }
}

/// what a sender that waits for room has to do next with its message
pub enum WaitStep {
    /// as [`SendStep::SendNow`]
    SendNow(Message),
    /// as [`SendStep::NeedOutbox`]
    NeedOutbox(Message),
    /// as [`SendStep::Delivered`]
    Delivered(Message),
    /// as [`SendStep::Queued`]
    Queued,
    /// wait with this ticket until a message has left the outbox, and then [`Ref::claim`]
    InLine(u64, Message),
    /// nothing: it will not be delivered
    Refused(SendError),
}

/// what somebody waiting for a node's death has to do next
#[derive(Clone, Copy, Debug, PartialEq, Eq, Structural)]
pub enum DeathStep {
    /// nothing: it has happened
    Resolved,
    /// register a copy of the descriptor with the reactor, and report with [`Ref::watch_built`]
    NeedWatch,
    /// wait until the registered descriptor hangs up
    AwaitHangup(i32),
    /// wait forever, since no hangup can be observed
    Never,
}

/// what is kept about the socket behind a capability
pub struct RefInner {
    /// the socket's descriptor
    fd: i32,
    /// what this is filed under, if anything
    ///
    /// A capability that cannot be filed is still a perfectly good capability. It is just never
    /// recognised.
    id: Option<SocketId>,
    /// how many shares there are
    strong: u64,
    /// built only once the socket has backed up
    outbox: Option<Outbox>,
    /// the descriptor that is registered for hangups, built only if somebody waits for one
    watch: Option<i32>,
}

/// what a [`RefInner`] holds
pub struct InnerView {
    pub fd: i32,
    pub id: Option<SocketId>,
    pub strong: nat,
    pub outbox: Option<OutboxView>,
    pub watch: Option<i32>,
}

impl InnerView {
    /// one share of a socket that nothing was sent to yet
    pub open spec fn fresh(fd: i32, id: Option<SocketId>) -> InnerView {
        InnerView { fd, id, strong: 1, outbox: None, watch: None }
    }

    /// the outbox's count is right
    pub open spec fn wf(self) -> bool {
        self.outbox matches Some(o) ==> o.wf()
    }

    /// is anything still waiting to reach the wire?
    pub open spec fn backed_up(self) -> bool {
        self.outbox matches Some(o) && o.pending != 0
    }

    /// the same with another outbox
    pub open spec fn with_outbox(self, outbox: OutboxView) -> InnerView {
        InnerView { outbox: Some(outbox), ..self }
    }

    /// puts `message` behind whatever waits, if there is an outbox and it has room
    pub open spec fn enqueue(self, message: Message) -> (InnerView, SendStep) {
        match self.outbox {
            None => (self, SendStep::NeedOutbox(message)),
            Some(o) => if !o.open {
                (self, SendStep::Refused(TrySendError::Closed(message)))
            } else if o.has_room() {
                (self.with_outbox(o.pushed(message)), SendStep::Queued)
            } else {
                (self, SendStep::Refused(TrySendError::Full(message)))
            },
        }
    }

    /// An oversized message is refused. Any other goes straight to the socket where one packet can
    /// carry it and nothing waits that it would overtake, and to the outbox otherwise.
    pub open spec fn try_send(self, message: Message) -> (InnerView, SendStep) {
        if !within_limit(message) {
            (self, SendStep::Refused(TrySendError::TooLarge(message)))
        } else if message@.fds.len() <= MAX_FDS && !self.backed_up() {
            (self, SendStep::SendNow(message))
        } else {
            self.enqueue(message)
        }
    }

    /// Only a full socket leads from the inline send to the outbox.
    pub open spec fn inline_sent(self, message: Message, outcome: SendOutcome) -> (
        InnerView,
        SendStep,
    ) {
        match outcome {
            SendOutcome::Sent => (self, SendStep::Delivered(message)),
            SendOutcome::WouldBlock => self.enqueue(message),
            SendOutcome::Failed => (self, SendStep::Refused(TrySendError::Closed(message))),
        }
    }

    /// is there no outbox yet, so that one just set up takes its place?
    pub open spec fn installs(self, built: bool) -> bool {
        built && self.outbox is None
    }

    /// The outbox that is there stays; one that could not be built makes the peer as good as gone.
    pub open spec fn outbox_built(self, message: Message, built: bool) -> (InnerView, SendStep) {
        if !built {
            (self, SendStep::Refused(TrySendError::Closed(message)))
        } else if self.outbox is None {
            self.with_outbox(OutboxView::fresh()).enqueue(message)
        } else {
            self.enqueue(message)
        }
    }

    /// A sender that waits differs in one point: where the outbox is full, it lines up.
    pub open spec fn send(self, tried: SendStep) -> (InnerView, WaitStep) {
        match tried {
            SendStep::SendNow(m) => (self, WaitStep::SendNow(m)),
            SendStep::NeedOutbox(m) => (self, WaitStep::NeedOutbox(m)),
            SendStep::Delivered(m) => (self, WaitStep::Delivered(m)),
            SendStep::Queued => (self, WaitStep::Queued),
            SendStep::Refused(TrySendError::TooLarge(m)) => (
                self,
                WaitStep::Refused(SendError::TooLarge(m)),
            ),
            SendStep::Refused(TrySendError::Closed(m)) => (
                self,
                WaitStep::Refused(SendError::Closed(m)),
            ),
            SendStep::Refused(TrySendError::Full(m)) => match self.outbox {
                None => (self, WaitStep::NeedOutbox(m)),
                Some(o) => if !o.open {
                    (self, WaitStep::Refused(SendError::Closed(m)))
                } else if o.has_room() {
                    (self.with_outbox(o.pushed(m)), WaitStep::Queued)
                } else {
                    (self.with_outbox(o.lined_up()), WaitStep::InLine(o.next_ticket, m))
                },
            },
        }
    }

    /// can another sender line up?
    pub open spec fn can_wait(self) -> bool {
        self.outbox matches Some(o) ==> o.next_ticket < u64::MAX
    }

    /// does the holder of `ticket` wait here, unless there is nothing left to wait for?
    pub open spec fn knows(self, ticket: u64) -> bool {
        self.outbox matches Some(o) && o.knows(ticket)
    }

    /// Who waits gets the place that is kept for them, waits on, or is told that nobody is there.
    pub open spec fn claim(self, ticket: u64, message: Message) -> (InnerView, WaitStep) {
        let o = self.outbox->0;
        if !o.open {
            (self, WaitStep::Refused(SendError::Closed(message)))
        } else if o.granted.contains(ticket) {
            (self.with_outbox(o.claimed(ticket, message)), WaitStep::Queued)
        } else {
            (self, WaitStep::InLine(ticket, message))
        }
    }

    /// the holder of `ticket` no longer waiting
    pub open spec fn left(self, ticket: u64) -> InnerView {
        match self.outbox {
            Some(o) => self.with_outbox(o.left(ticket)),
            None => self,
        }
    }

    /// what to wait for, `dead` being whether the socket has hung up already
    pub open spec fn death_step(self, dead: bool) -> DeathStep {
        if dead {
            DeathStep::Resolved
        } else {
            match self.watch {
                Some(watch) => DeathStep::AwaitHangup(watch),
                None => DeathStep::NeedWatch,
            }
        }
    }

    /// the first descriptor that was registered is the one that is watched
    pub open spec fn watched(self, built: Option<i32>) -> InnerView {
        match self.watch {
            Some(_) => self,
            None => InnerView { watch: built, ..self },
        }
    }
}

impl View for RefInner {
    type V = InnerView;

    closed spec fn view(&self) -> InnerView {
        InnerView {
            fd: self.fd,
            id: self.id,
            strong: self.strong as nat,
            outbox: match self.outbox {
                Some(o) => Some(o@),
                None => None,
            },
            watch: self.watch,
        }
    }
}

impl RefInner {
    /// the outbox is in order
    pub closed spec fn wf(&self) -> bool {
        &&& self.outbox matches Some(o) ==> o.wf()
        &&& self@.wf()
    }

    fn new(fd: i32, id: Option<SocketId>) -> (inner: RefInner)
        ensures
            inner.wf(),
            inner@ == InnerView::fresh(fd, id),
    {
        RefInner { fd, id, strong: 1, outbox: None, watch: None }
    }

    fn enqueue(&mut self, message: Message) -> (step: SendStep)
        requires
            old(self).wf(),
            within_limit(message),
        ensures
            final(self).wf(),
            (final(self)@, step) == old(self)@.enqueue(message),
    {
        match self.outbox.take() {
            None => SendStep::NeedOutbox(message),
            Some(mut outbox) => {
                let pushed = outbox.push(message);
                proof {
                    outbox.lemma_wf();
                }
                self.outbox = Some(outbox);
                match pushed {
                    Ok(()) => SendStep::Queued,
                    Err(e) => SendStep::Refused(e),
                }
            },
        }
    }

    fn try_send(&mut self, message: Message) -> (step: SendStep)
        requires
            old(self).wf(),
        ensures
            final(self).wf(),
            (final(self)@, step) == old(self)@.try_send(message),
    {
        if message.data().len() > MAX_MESSAGE_SIZE {
            return SendStep::Refused(TrySendError::TooLarge(message));
        }
        let backed_up: bool = match &self.outbox {
            Some(outbox) => outbox.is_backed_up(),
            None => false,
        };
        if message.fds().len() <= MAX_FDS && !backed_up {
            return SendStep::SendNow(message);
        }
        self.enqueue(message)
    }

    fn inline_sent(&mut self, message: Message, outcome: SendOutcome) -> (step: SendStep)
        requires
            old(self).wf(),
            within_limit(message),
        ensures
            final(self).wf(),
            (final(self)@, step) == old(self)@.inline_sent(message, outcome),
    {
        match outcome {
            SendOutcome::Sent => SendStep::Delivered(message),
            SendOutcome::WouldBlock => self.enqueue(message),
            SendOutcome::Failed => SendStep::Refused(TrySendError::Closed(message)),
        }
    }

    fn outbox_built(&mut self, message: Message, built: bool) -> (step: SendStep)
        requires
            old(self).wf(),
            within_limit(message),
        ensures
            final(self).wf(),
            (final(self)@, step) == old(self)@.outbox_built(message, built),
    {
        if !built {
            return SendStep::Refused(TrySendError::Closed(message));
        }
        if self.outbox.is_none() {
            self.outbox = Some(Outbox::build());
        }
        self.enqueue(message)
    }

    fn send(&mut self, tried: SendStep) -> (step: WaitStep)
        requires
            old(self).wf(),
            tried.sendable(),
            old(self)@.can_wait(),
        ensures
            final(self).wf(),
            (final(self)@, step) == old(self)@.send(tried),
    {
        let message = match tried {
            SendStep::SendNow(m) => return WaitStep::SendNow(m),
            SendStep::NeedOutbox(m) => return WaitStep::NeedOutbox(m),
            SendStep::Delivered(m) => return WaitStep::Delivered(m),
            SendStep::Queued => return WaitStep::Queued,
            SendStep::Refused(TrySendError::TooLarge(m)) => {
                return WaitStep::Refused(SendError::TooLarge(m));
            },
            SendStep::Refused(TrySendError::Closed(m)) => {
                return WaitStep::Refused(SendError::Closed(m));
            },
            SendStep::Refused(TrySendError::Full(m)) => m,
        };
        match self.outbox.take() {
            None => WaitStep::NeedOutbox(message),
            Some(mut outbox) => {
                let sent = outbox.send(message);
                proof {
                    outbox.lemma_wf();
                }
                self.outbox = Some(outbox);
                match sent {
                    Ok(()) => WaitStep::Queued,
                    Err(Blocked::InLine(ticket, m)) => WaitStep::InLine(ticket, m),
                    Err(Blocked::Refused(e)) => WaitStep::Refused(e),
                }
            },
        }
    }

    fn claim(&mut self, ticket: u64, message: Message) -> (step: WaitStep)
        requires
            old(self).wf(),
            within_limit(message),
            old(self)@.knows(ticket),
        ensures
            final(self).wf(),
            (final(self)@, step) == old(self)@.claim(ticket, message),
    {
        match self.outbox.take() {
            None => WaitStep::NeedOutbox(message),
            Some(mut outbox) => {
                let sent = outbox.claim(ticket, message);
                proof {
                    outbox.lemma_wf();
                }
                self.outbox = Some(outbox);
                match sent {
                    Ok(()) => WaitStep::Queued,
                    Err(Blocked::InLine(ticket, m)) => WaitStep::InLine(ticket, m),
                    Err(Blocked::Refused(e)) => WaitStep::Refused(e),
                }
            },
        }
    }

    fn leave(&mut self, ticket: u64)
        requires
            old(self).wf(),
        ensures
            final(self).wf(),
            final(self)@ == old(self)@.left(ticket),
    {
        match self.outbox.take() {
            None => {},
            Some(mut outbox) => {
                outbox.leave(ticket);
                proof {
                    outbox.lemma_wf();
                }
                self.outbox = Some(outbox);
            },
        }
    }
}

// ---------------------------------------------------------------- every capability there is

/// what is known of every capability in this process
///
/// A socket that arrives twice is recognised by its identity, so it *is* the same capability rather
/// than two that happen to reach the same place. What a capability costs is then paid once for a
/// peer, and not once per arrival.
pub struct Refs {
    /// which key a socket's identity is filed under
    filed: Directory,
    /// what is kept about each socket, by key
    inners: HashMap<u64, RefInner>,
    /// what is left to drain of capabilities that were taken down, by key
    orphans: HashMap<u64, Outbox>,
    /// the next key to give out: none is ever given out twice
    next: u64,
}

/// what [`Refs`] holds
pub struct RefsView {
    pub filed: Map<SocketId, u64>,
    pub inners: Map<u64, InnerView>,
    pub orphans: Map<u64, OutboxView>,
    pub next: u64,
}

impl RefsView {
    /// nothing at all
    pub open spec fn fresh() -> RefsView {
        RefsView { filed: Map::empty(), inners: Map::empty(), orphans: Map::empty(), next: 0 }
    }

    /// are there shares of this key?
    pub open spec fn holds(self, key: u64) -> bool {
        self.inners.contains_key(key) && self.inners[key].strong > 0
    }

    /// does a socket with this identity have shares here?
    pub open spec fn live(self, id: SocketId) -> bool {
        self.filed.contains_key(id) && self.holds(self.filed[id])
    }

    /// What is filed is there and knows what it is filed under; what has shares and an identity is
    /// filed; finitely many keys are in use, all of which were given out; and what is left to drain
    /// belongs to no capability, and has a drain task.
    pub open spec fn wf(self) -> bool {
        &&& forall|id: SocketId| #[trigger]
            self.filed.contains_key(id) ==> self.inners.contains_key(self.filed[id])
                && self.inners[self.filed[id]].id == Some(id)
        &&& forall|key: u64| #[trigger]
            self.holds(key) ==> (self.inners[key].id matches Some(id) ==> self.filed.contains_key(id)
                && self.filed[id] == key)
        &&& forall|key: u64| #[trigger]
            self.inners.contains_key(key) ==> key < self.next && self.inners[key].wf()
        &&& forall|key: u64| #[trigger] self.orphans.contains_key(key) ==> self.orphan_wf(key)
        &&& self.inners.dom().finite()
    }

    /// is what is left to drain under `key` in order?
    pub open spec fn orphan_wf(self, key: u64) -> bool {
        &&& key < self.next
        &&& !self.inners.contains_key(key)
        &&& self.orphans[key].wf()
        &&& self.orphans[key].open
        &&& self.orphans[key].retired
    }

    /// the same with something else kept under `key`
    pub open spec fn with(self, key: u64, inner: InnerView) -> RefsView {
        RefsView { inners: self.inners.insert(key, inner), ..self }
    }

    /// one share of `key` more
    pub open spec fn shared(self, key: u64) -> RefsView {
        self.with(key, InnerView { strong: self.inners[key].strong + 1, ..self.inners[key] })
    }

    /// one share of `key` less
    pub open spec fn released(self, key: u64) -> RefsView {
        self.with(
            key,
            InnerView { strong: (self.inners[key].strong - 1) as nat, ..self.inners[key] },
        )
    }

    /// can a share for this identity be made without a count running over?
    pub open spec fn can_intern(self, id: Option<SocketId>) -> bool {
        if self.recognises(id) {
            self.inners[self.filed[id->0]].strong < u64::MAX
        } else {
            self.next < u64::MAX
        }
    }

    /// is `id` the identity of a socket that has shares here already?
    pub open spec fn recognises(self, id: Option<SocketId>) -> bool {
        id matches Some(i) && self.live(i)
    }

    /// the key that a socket with identity `id` gets: its own if it is recognised, or a new one
    pub open spec fn interned_key(self, id: Option<SocketId>) -> u64 {
        if self.recognises(id) {
            self.filed[id->0]
        } else {
            self.next
        }
    }

    /// A recognised socket gets one share more. Any other is kept under a new key, and filed if it
    /// has an identity, in place of what may be filed there without shares.
    pub open spec fn interned(self, fd: i32, id: Option<SocketId>) -> RefsView {
        if self.recognises(id) {
            self.shared(self.filed[id->0])
        } else {
            RefsView {
                filed: match id {
                    Some(i) => self.filed.insert(i, self.next),
                    None => self.filed,
                },
                inners: self.inners.insert(self.next, InnerView::fresh(fd, id)),
                next: (self.next + 1) as u64,
                ..self
            }
        }
    }

    /// the outbox of what `weak` names or named, if there is one
    pub open spec fn outbox_of(self, weak: Option<u64>) -> Option<OutboxView> {
        match weak {
            Some(key) => if self.inners.contains_key(key) {
                self.inners[key].outbox
            } else if self.orphans.contains_key(key) {
                Some(self.orphans[key])
            } else {
                None
            },
            None => None,
        }
    }

    /// the same with another outbox for what `weak` names or named; one without a drain task is kept
    /// only for a capability that is there
    pub open spec fn with_outbox_of(self, weak: Option<u64>, outbox: OutboxView) -> RefsView {
        let key = weak->0;
        if self.inners.contains_key(key) {
            self.with(key, self.inners[key].with_outbox(outbox))
        } else if outbox.open {
            RefsView { orphans: self.orphans.insert(key, outbox), ..self }
        } else {
            RefsView { orphans: self.orphans.remove(key), ..self }
        }
    }

    /// the same with nothing left to drain of what `weak` named
    pub open spec fn without_orphan(self, weak: Option<u64>) -> RefsView {
        RefsView { orphans: self.orphans.remove(weak->0), ..self }
    }

    /// the same without the outbox of what `key` means or meant
    pub open spec fn hollow(self, key: u64) -> RefsView {
        if self.inners.contains_key(key) {
            self.with(key, InnerView { outbox: None, ..self.inners[key] })
        } else {
            RefsView { orphans: self.orphans.remove(key), ..self }
        }
    }

    /// does the drain task of `key` have to go on when that is taken down?
    pub open spec fn draining(self, key: u64) -> bool {
        self.inners[key].outbox matches Some(o) && o.open
    }

    /// is what is filed under the identity of `key` without shares?
    pub open spec fn filed_dead(self, key: u64) -> bool {
        self.inners[key].id matches Some(id) && self.filed.contains_key(id) && !self.holds(
            self.filed[id],
        )
    }

    /// `key` gone, and with it what is filed under its identity unless that has shares; what is left
    /// to drain stays
    pub open spec fn unfiled(self, key: u64) -> RefsView {
        RefsView {
            filed: if self.filed_dead(key) {
                self.filed.remove(self.inners[key].id->0)
            } else {
                self.filed
            },
            inners: self.inners.remove(key),
            orphans: if self.draining(key) {
                self.orphans.insert(
                    key,
                    OutboxView { retired: true, ..self.inners[key].outbox->0 },
                )
            } else {
                self.orphans
            },
            ..self
        }
    }
}

/// a share of a capability to send to one node
///
/// Handing one to a peer hands them the same authority. Two are equal when they are shares of the
/// same capability; see [`Ref::is_same`].
#[derive(Debug, PartialEq, Eq, Structural, Hash)]
pub struct Ref {
    key: u64,
}

/// a capability you can reach for but are not keeping alive
///
/// [`WeakRef::upgrade`] succeeds exactly while somebody in this process still holds a [`Ref`] to the
/// same socket, which is a narrower thing than the node being alive.
#[derive(Clone, Copy, Debug, PartialEq, Eq, Structural, Hash)]
pub struct WeakRef {
    key: Option<u64>,
}

/// the duty to take down a capability whose last share is gone; see [`LastRef::unfile`]
#[derive(Debug, PartialEq, Eq, Structural)]
pub struct LastRef {
    key: u64,
}

/// what is left of a capability that was taken down
pub struct Retired {
    /// the socket's descriptor, to be closed
    pub fd: i32,
    /// the descriptor that was registered for hangups, to be closed
    pub watch: Option<i32>,
    /// is there a drain task, which is to go on until it is told that it is finished?
    pub draining: bool,
}

impl View for Ref {
    type V = u64;

    closed spec fn view(&self) -> u64 {
        self.key
    }
}

impl View for WeakRef {
    type V = Option<u64>;

    closed spec fn view(&self) -> Option<u64> {
        self.key
    }
}

impl View for LastRef {
    type V = u64;

    closed spec fn view(&self) -> u64 {
        self.key
    }
}

/// what each of `inners` holds
spec fn inner_views(inners: Map<u64, RefInner>) -> Map<u64, InnerView> {
    inners.map_values(|inner: RefInner| inner@)
}

/// what each of `outboxes` holds
spec fn outbox_views(outboxes: Map<u64, Outbox>) -> Map<u64, OutboxView> {
    outboxes.map_values(|outbox: Outbox| outbox@)
}

impl View for Refs {
    type V = RefsView;

    closed spec fn view(&self) -> RefsView {
        RefsView {
            filed: filed(self.filed),
            inners: inner_views(self.inners@),
            orphans: outbox_views(self.orphans@),
            next: self.next,
        }
    }
}

/// does `key` have no shares among `inners`?
fn is_spent(inners: &HashMap<u64, RefInner>, key: u64) -> (spent: bool)
    ensures
        spent == !(inners@.contains_key(key) && inners@[key]@.strong > 0),
{
    match inners.get(&key) {
        Some(inner) => inner.strong == 0,
        None => true,
    }
}

impl Refs {
    /// the books are in order
    pub closed spec fn wf(&self) -> bool {
        &&& self@.wf()
        &&& forall|key: u64| #[trigger] self.inners@.contains_key(key) ==> self.inners@[key].wf()
        &&& forall|key: u64| #[trigger] self.orphans@.contains_key(key) ==> self.orphans@[key].wf()
    }

    /// what [`Refs::wf`] says of the contents
    pub proof fn lemma_wf(&self)
        requires
            self.wf(),
        ensures
            self@.wf(),
    {
    }

    /// nothing at all
    pub fn new() -> (refs: Refs)
        ensures
            refs.wf(),
            refs@ == RefsView::fresh(),
    {
        let refs = Refs {
            filed: directory_new(),
            inners: HashMap::new(),
            orphans: HashMap::new(),
            next: 0,
        };
        assert(refs@.filed == Map::<SocketId, u64>::empty());
        assert(refs@.inners == Map::<u64, InnerView>::empty());
        assert(refs@.orphans == Map::<u64, OutboxView>::empty());
        refs
    }

    /// takes what is kept under `key` out
    fn take(&mut self, key: u64) -> (inner: RefInner)
        requires
            old(self).wf(),
            old(self)@.inners.contains_key(key),
        ensures
            inner.wf(),
            inner@ == old(self)@.inners[key],
            final(self)@ == (RefsView { inners: old(self)@.inners.remove(key), ..old(self)@ }),
            final(self).inners@ == old(self).inners@.remove(key),
            final(self).orphans == old(self).orphans,
    {
        let taken = self.inners.remove(&key);
        assert(self@.inners == old(self)@.inners.remove(key));
        taken.unwrap()
    }

    /// puts `inner` back under the key that it was taken from, `before` being what was held then
    fn put(&mut self, key: u64, inner: RefInner, Ghost(before): Ghost<RefsView>)
        requires
            before.wf(),
            before.inners.contains_key(key),
            old(self)@ == (RefsView { inners: before.inners.remove(key), ..before }),
            forall|k: u64| #[trigger]
                old(self).inners@.contains_key(k) ==> old(self).inners@[k].wf(),
            forall|k: u64| #[trigger]
                old(self).orphans@.contains_key(k) ==> old(self).orphans@[k].wf(),
            inner.wf(),
            inner@.id == before.inners[key].id,
            inner@.strong > 0 ==> before.holds(key),
        ensures
            final(self).wf(),
            final(self)@ == before.with(key, inner@),
    {
        self.inners.insert(key, inner);
        proof {
            assert(self@.inners == old(self)@.inners.insert(key, inner@));
            assert(self@.inners == before.inners.insert(key, inner@));
            lemma_with_wf(before, key, inner@);
            assert forall|k: u64| #[trigger] self.inners@.contains_key(k) implies self.inners@[k].wf() by {
                if k != key {
                    assert(old(self).inners@.contains_key(k));
                }
            }
        }
    }
}

/// Another state of what is kept under a key, with the same identity and no share out of nothing,
/// leaves the books in order.
proof fn lemma_with_wf(refs: RefsView, key: u64, inner: InnerView)
    requires
        refs.wf(),
        refs.inners.contains_key(key),
        inner.wf(),
        inner.id == refs.inners[key].id,
        inner.strong > 0 ==> refs.holds(key),
    ensures
        refs.with(key, inner).wf(),
{
    let after = refs.with(key, inner);
    assert forall|k: u64| #[trigger] after.holds(k) implies (after.inners[k].id matches Some(id)
        ==> after.filed.contains_key(id) && after.filed[id] == k) by {
        assert(refs.holds(k));
    }
    assert forall|k: u64| #[trigger] after.inners.contains_key(k) implies k < after.next
        && after.inners[k].wf() by {
        assert(refs.inners.contains_key(k));
    }
    assert forall|k: u64| #[trigger] after.orphans.contains_key(k) implies after.orphan_wf(k) by {
        assert(refs.orphan_wf(k));
    }
}

/// Making a share leaves the books in order.
proof fn lemma_interned_wf(refs: RefsView, fd: i32, id: Option<SocketId>)
    requires
        refs.wf(),
        refs.can_intern(id),
    ensures
        refs.interned(fd, id).wf(),
        refs.interned(fd, id).holds(refs.interned_key(id)),
{
    let after = refs.interned(fd, id);
    if refs.recognises(id) {
        let key = refs.filed[id->0];
        lemma_with_wf(refs, key, after.inners[key]);
    } else {
        assert forall|i: SocketId| #[trigger] after.filed.contains_key(i) implies
            after.inners.contains_key(after.filed[i]) && after.inners[after.filed[i]].id == Some(
            i,
        ) by {
            if id != Some(i) {
                assert(refs.filed.contains_key(i));
                assert(refs.inners.contains_key(refs.filed[i]));
            }
        }
        assert forall|k: u64| #[trigger] after.holds(k) implies (after.inners[k].id matches Some(i)
            ==> after.filed.contains_key(i) && after.filed[i] == k) by {
            if k != refs.next {
                assert(refs.holds(k));
            }
        }
        assert forall|k: u64| #[trigger] after.inners.contains_key(k) implies k < after.next
            && after.inners[k].wf() by {
            if k != refs.next {
                assert(refs.inners.contains_key(k));
            }
        }
        assert forall|k: u64| #[trigger] after.orphans.contains_key(k) implies after.orphan_wf(
            k,
        ) by {
            assert(refs.orphan_wf(k));
        }
    }
}

/// Taking a capability without shares down leaves the books in order.
proof fn lemma_unfiled_wf(refs: RefsView, key: u64)
    requires
        refs.wf(),
        refs.inners.contains_key(key),
        !refs.holds(key),
    ensures
        refs.unfiled(key).wf(),
{
    let after = refs.unfiled(key);
    assert forall|i: SocketId| #[trigger] after.filed.contains_key(i) implies
        after.inners.contains_key(after.filed[i]) && after.inners[after.filed[i]].id == Some(i) by {
        assert(refs.filed.contains_key(i));
    }
    assert forall|k: u64| #[trigger] after.holds(k) implies (after.inners[k].id matches Some(i)
        ==> after.filed.contains_key(i) && after.filed[i] == k) by {
        assert(refs.holds(k));
    }
    assert forall|k: u64| #[trigger] after.inners.contains_key(k) implies k < after.next
        && after.inners[k].wf() by {
        assert(refs.inners.contains_key(k));
    }
    assert forall|k: u64| #[trigger] after.orphans.contains_key(k) implies after.orphan_wf(k) by {
        if refs.orphans.contains_key(k) {
            assert(refs.orphan_wf(k));
        }
    }
}

/// Another outbox for what has one, or had one when it was taken down, leaves the books in order.
proof fn lemma_with_outbox_of_wf(refs: RefsView, weak: Option<u64>, outbox: OutboxView)
    requires
        refs.wf(),
        refs.outbox_of(weak) is Some,
        outbox.wf(),
        outbox.retired == refs.outbox_of(weak)->0.retired,
    ensures
        refs.with_outbox_of(weak, outbox).wf(),
{
    let key = weak->0;
    let after = refs.with_outbox_of(weak, outbox);
    if refs.inners.contains_key(key) {
        lemma_with_wf(refs, key, refs.inners[key].with_outbox(outbox));
    } else {
        lemma_other_orphans_wf(refs, after);
    }
}

/// What is filed and kept is in order whatever is left to drain, as long as that is in order too.
proof fn lemma_other_orphans_wf(refs: RefsView, after: RefsView)
    requires
        refs.wf(),
        after == (RefsView { orphans: after.orphans, ..refs }),
        forall|k: u64| #[trigger]
            after.orphans.contains_key(k) ==> (refs.orphans.contains_key(k) && after.orphans[k]
                == refs.orphans[k]) || after.orphan_wf(k),
    ensures
        after.wf(),
{
    assert forall|k: u64| #[trigger] after.holds(k) implies (after.inners[k].id matches Some(i)
        ==> after.filed.contains_key(i) && after.filed[i] == k) by {
        assert(refs.holds(k));
    }
    assert forall|k: u64| #[trigger] after.orphans.contains_key(k) implies after.orphan_wf(k) by {
        if refs.orphans.contains_key(k) {
            assert(refs.orphan_wf(k));
        }
    }
}

impl Ref {
    /// a share of the capability to send to the socket `fd`, whose identity is `id` if it has one
    ///
    /// If this socket is one that somebody here already has a share of, you get another share of
    /// that, and `fd` back as the redundant descriptor it is.
    pub fn from_owned_fd(refs: &mut Refs, fd: i32, id: Option<SocketId>) -> (made: (
        Ref,
        Option<i32>,
    ))
        requires
            old(refs).wf(),
            old(refs)@.can_intern(id),
        ensures
            final(refs).wf(),
            final(refs)@ == old(refs)@.interned(fd, id),
            final(refs)@.holds(made.0@),
            made.0@ == old(refs)@.interned_key(id),
            made.1 == (if old(refs)@.recognises(id) {
                Some(fd)
            } else {
                None
            }),
    {
        Self::from_fd(refs, fd, id)
    }

    pub(crate) fn from_fd(refs: &mut Refs, fd: i32, id: Option<SocketId>) -> (made: (
        Ref,
        Option<i32>,
    ))
        requires
            old(refs).wf(),
            old(refs)@.can_intern(id),
        ensures
            final(refs).wf(),
            final(refs)@ == old(refs)@.interned(fd, id),
            final(refs)@.holds(made.0@),
            made.0@ == old(refs)@.interned_key(id),
            made.1 == (if old(refs)@.recognises(id) {
                Some(fd)
            } else {
                None
            }),
    {
        let key: u64 = refs.next;
        if let Some(i) = id {
            if let Some(present) = directory_get(&refs.filed, i) {
                if !is_spent(&refs.inners, present) {
                    let mut inner = refs.take(present);
                    inner.strong = inner.strong + 1;
                    refs.put(present, inner, Ghost(old(refs)@));
                    return (Ref { key: present }, Some(fd));
                }
            }
            directory_file(&mut refs.filed, i, key);
        }
        refs.next = key + 1;
        refs.inners.insert(key, RefInner::new(fd, id));
        proof {
            assert(refs@.inners == old(refs)@.inners.insert(key, InnerView::fresh(fd, id)));
            lemma_interned_wf(old(refs)@, fd, id);
            assert forall|k: u64| #[trigger] refs.inners@.contains_key(k) implies refs.inners@[k].wf() by {
                if k != key {
                    assert(old(refs).inners@.contains_key(k));
                }
            }
        }
        (Ref { key }, None)
    }
}

impl Ref {
    /// do these two capabilities send to the same socket?
    ///
    /// True exactly when both are shares of the same capability, which for two that have an
    /// identity is when both came from descriptors naming one socket; the recognition itself
    /// happened when each was made.
    pub fn is_same(&self, other: &Ref) -> (same: bool)
        ensures
            same == (self@ == other@),
            same == (*self == *other),
    {
        self.key == other.key
    }

    /// another share of this capability
    pub fn share(&self, refs: &mut Refs) -> (share: Ref)
        requires
            old(refs).wf(),
            old(refs)@.holds(self@),
            old(refs)@.inners[self@].strong < u64::MAX,
        ensures
            final(refs).wf(),
            final(refs)@ == old(refs)@.shared(self@),
            final(refs)@.holds(self@),
            share == *self,
    {
        let mut inner = refs.take(self.key);
        inner.strong = inner.strong + 1;
        refs.put(self.key, inner, Ghost(old(refs)@));
        Ref { key: self.key }
    }

    /// gives this share up; if it was the last, what is kept has to be taken down
    pub fn release(self, refs: &mut Refs) -> (last: Option<LastRef>)
        requires
            old(refs).wf(),
            old(refs)@.holds(self@),
        ensures
            final(refs).wf(),
            final(refs)@ == old(refs)@.released(self@),
            last is Some <==> !final(refs)@.holds(self@),
            last is Some <==> old(refs)@.inners[self@].strong == 1,
            last matches Some(l) ==> l@ == self@,
    {
        let mut inner = refs.take(self.key);
        inner.strong = inner.strong - 1;
        let spent: bool = inner.strong == 0;
        refs.put(self.key, inner, Ghost(old(refs)@));
        if spent {
            Some(LastRef { key: self.key })
        } else {
            None
        }
    }

    /// a [`WeakRef`] to this capability
    pub fn downgrade(&self) -> (weak: WeakRef)
        ensures
            weak@ == Some(self@),
    {
        WeakRef { key: Some(self.key) }
    }

    /// the socket's descriptor, for sending and for putting this capability on a message
    pub fn borrowed_fd(&self, refs: &Refs) -> (fd: i32)
        requires
            refs.wf(),
            refs@.holds(self@),
        ensures
            fd == refs@.inners[self@].fd,
    {
        refs.inners.get(&self.key).unwrap().fd
    }

    /// the socket's identity, if it has one
    pub fn socket_id(&self, refs: &Refs) -> (id: Option<SocketId>)
        requires
            refs.wf(),
            refs@.holds(self@),
        ensures
            id == refs@.inners[self@].id,
    {
        refs.inners.get(&self.key).unwrap().id
    }

    /// hands `message` to the peer without ever waiting: the first step
    ///
    /// Tries the socket first, so in the common case there is no queue and no task wakeup. Only a
    /// socket that is backed up leads to the queue, and only a full queue gives `Full` back.
    pub fn try_send(&self, refs: &mut Refs, message: Message) -> (step: SendStep)
        requires
            old(refs).wf(),
            old(refs)@.holds(self@),
        ensures
            final(refs).wf(),
            final(refs)@ == old(refs)@.with(
                self@,
                old(refs)@.inners[self@].try_send(message).0,
            ),
            step == old(refs)@.inners[self@].try_send(message).1,
            !(step is Delivered),
    {
        let mut inner = refs.take(self.key);
        let step = inner.try_send(message);
        refs.put(self.key, inner, Ghost(old(refs)@));
        step
    }

    /// continues after [`SendStep::SendNow`]
    pub fn inline_sent(&self, refs: &mut Refs, message: Message, outcome: SendOutcome) -> (step:
        SendStep)
        requires
            old(refs).wf(),
            old(refs)@.holds(self@),
            within_limit(message),
        ensures
            final(refs).wf(),
            final(refs)@ == old(refs)@.with(
                self@,
                old(refs)@.inners[self@].inline_sent(message, outcome).0,
            ),
            step == old(refs)@.inners[self@].inline_sent(message, outcome).1,
            step is Delivered <==> outcome is Sent,
    {
        let mut inner = refs.take(self.key);
        let step = inner.inline_sent(message, outcome);
        refs.put(self.key, inner, Ghost(old(refs)@));
        step
    }

    /// continues after [`SendStep::NeedOutbox`], `built` being whether a drain task could be set up
    ///
    /// Says besides whether that task is the one to run: a concurrent sender may have got there
    /// first, and theirs is as good.
    pub fn outbox_built(&self, refs: &mut Refs, message: Message, built: bool) -> (step: (
        SendStep,
        bool,
    ))
        requires
            old(refs).wf(),
            old(refs)@.holds(self@),
            within_limit(message),
        ensures
            final(refs).wf(),
            final(refs)@ == old(refs)@.with(
                self@,
                old(refs)@.inners[self@].outbox_built(message, built).0,
            ),
            step.0 == old(refs)@.inners[self@].outbox_built(message, built).1,
            step.1 == old(refs)@.inners[self@].installs(built),
    {
        let mut inner = refs.take(self.key);
        let installs: bool = built && inner.outbox.is_none();
        let step = inner.outbox_built(message, built);
        refs.put(self.key, inner, Ghost(old(refs)@));
        (step, installs)
    }

    /// hands a message to the peer, waiting for room if there is none: what to do where
    /// [`Ref::try_send`] or one of its continuations came to `tried`
    ///
    /// Because it waits out backpressure, the only things it can report are a peer that is gone and
    /// a message that is too large. After [`WaitStep::InLine`], go on with [`Ref::claim`].
    pub fn send(&self, refs: &mut Refs, tried: SendStep) -> (step: WaitStep)
        requires
            old(refs).wf(),
            old(refs)@.holds(self@),
            tried.sendable(),
            old(refs)@.inners[self@].can_wait(),
        ensures
            final(refs).wf(),
            final(refs)@ == old(refs)@.with(self@, old(refs)@.inners[self@].send(tried).0),
            step == old(refs)@.inners[self@].send(tried).1,
            step is Delivered <==> tried is Delivered,
    {
        let mut inner = refs.take(self.key);
        let step = inner.send(tried);
        refs.put(self.key, inner, Ghost(old(refs)@));
        step
    }

    /// can another sender wait for room?
    pub fn can_wait(&self, refs: &Refs) -> (can: bool)
        requires
            refs.wf(),
            refs@.holds(self@),
        ensures
            can == refs@.inners[self@].can_wait(),
    {
        match &refs.inners.get(&self.key).unwrap().outbox {
            Some(outbox) => outbox.can_wait(),
            None => true,
        }
    }

    /// is `ticket` one to wait for room with, unless there is nothing left to wait for?
    pub fn knows(&self, refs: &Refs, ticket: u64) -> (known: bool)
        requires
            refs.wf(),
            refs@.holds(self@),
        ensures
            known == refs@.inners[self@].knows(ticket),
    {
        match &refs.inners.get(&self.key).unwrap().outbox {
            Some(outbox) => outbox.knows(ticket),
            None => false,
        }
    }

    /// continues after [`WaitStep::InLine`], once a message has left the outbox
    ///
    /// Senders get their places in the order they lined up in.
    pub fn claim(&self, refs: &mut Refs, ticket: u64, message: Message) -> (step: WaitStep)
        requires
            old(refs).wf(),
            old(refs)@.holds(self@),
            within_limit(message),
            old(refs)@.inners[self@].knows(ticket),
        ensures
            final(refs).wf(),
            final(refs)@ == old(refs)@.with(
                self@,
                old(refs)@.inners[self@].claim(ticket, message).0,
            ),
            step == old(refs)@.inners[self@].claim(ticket, message).1,
    {
        let mut inner = refs.take(self.key);
        let step = inner.claim(ticket, message);
        refs.put(self.key, inner, Ghost(old(refs)@));
        step
    }

    /// gives a ticket from [`WaitStep::InLine`] back, because its holder no longer cares
    pub fn leave(&self, refs: &mut Refs, ticket: u64)
        requires
            old(refs).wf(),
            old(refs)@.holds(self@),
        ensures
            final(refs).wf(),
            final(refs)@ == old(refs)@.with(self@, old(refs)@.inners[self@].left(ticket)),
    {
        let mut inner = refs.take(self.key);
        inner.leave(ticket);
        refs.put(self.key, inner, Ghost(old(refs)@));
    }

    /// how to wait for the node behind this capability to go, `dead` being whether it is gone
    /// already
    pub fn death_notification(&self, refs: &Refs, dead: bool) -> (step: DeathStep)
        requires
            refs.wf(),
            refs@.holds(self@),
        ensures
            step == refs@.inners[self@].death_step(dead),
            step == DeathStep::Resolved <==> dead,
    {
        if dead {
            return DeathStep::Resolved;
        }
        match refs.inners.get(&self.key).unwrap().watch {
            Some(watch) => DeathStep::AwaitHangup(watch),
            None => DeathStep::NeedWatch,
        }
    }

    /// continues after [`DeathStep::NeedWatch`], `built` being the descriptor that was registered,
    /// if one could be
    ///
    /// Hands the descriptor back where another one is watched already, as the redundant one it is.
    pub fn watch_built(&self, refs: &mut Refs, built: Option<i32>) -> (step: (
        DeathStep,
        Option<i32>,
    ))
        requires
            old(refs).wf(),
            old(refs)@.holds(self@),
        ensures
            final(refs).wf(),
            final(refs)@ == old(refs)@.with(self@, old(refs)@.inners[self@].watched(built)),
            step.0 == (if built is None {
                DeathStep::Never
            } else {
                final(refs)@.inners[self@].death_step(false)
            }),
            step.1 == (if old(refs)@.inners[self@].watch is Some {
                built
            } else {
                None
            }),
    {
        let mut inner = refs.take(self.key);
        let redundant: Option<i32> = match inner.watch {
            Some(_) => built,
            None => {
                inner.watch = built;
                None
            },
        };
        let watch: Option<i32> = inner.watch;
        refs.put(self.key, inner, Ghost(old(refs)@));
        match (built, watch) {
            (Some(_), Some(w)) => (DeathStep::AwaitHangup(w), redundant),
            _ => (DeathStep::Never, redundant),
        }
    }
}

impl WeakRef {
    /// a `WeakRef` that never upgrades
    ///
    /// For a field that has to exist before the capability it will point at does.
    pub fn new() -> (weak: WeakRef)
        ensures
            weak@ is None,
    {
        WeakRef { key: None }
    }

    /// a share of the capability, if there is one still
    pub fn upgrade(&self, refs: &mut Refs) -> (share: Option<Ref>)
        requires
            old(refs).wf(),
            self@ matches Some(key) ==> (old(refs)@.holds(key) ==> old(refs)@.inners[key].strong
                < u64::MAX),
        ensures
            final(refs).wf(),
            share is Some <==> (self@ matches Some(key) && old(refs)@.holds(key)),
            match share {
                Some(r) => Some(r@) == self@ && final(refs)@.holds(r@) && final(refs)@
                    == old(refs)@.shared(r@),
                None => final(refs)@ == old(refs)@,
            },
    {
        match self.key {
            None => None,
            Some(key) => {
                if is_spent(&refs.inners, key) {
                    return None;
                }
                let mut inner = refs.take(key);
                inner.strong = inner.strong + 1;
                refs.put(key, inner, Ghost(old(refs)@));
                Some(Ref { key })
            },
        }
    }

    /// can [`WeakRef::upgrade`] be called without a count running over?
    pub fn can_upgrade(&self, refs: &Refs) -> (can: bool)
        requires
            refs.wf(),
        ensures
            can == (self@ matches Some(key) ==> (refs@.holds(key) ==> refs@.inners[key].strong
                < u64::MAX)),
    {
        match self.key {
            None => true,
            Some(key) => match refs.inners.get(&key) {
                None => true,
                Some(inner) => inner.strong < u64::MAX,
            },
        }
    }

    /// could [`WeakRef::upgrade`] succeed right now?
    pub fn is_live(&self, refs: &Refs) -> (live: bool)
        requires
            refs.wf(),
        ensures
            live == (self@ matches Some(key) && refs@.holds(key)),
    {
        match self.key {
            None => false,
            Some(key) => !is_spent(&refs.inners, key),
        }
    }
}

impl Default for WeakRef {
    fn default() -> (weak: WeakRef)
        ensures
            weak@ is None,
    {
        WeakRef::new()
    }
}

/// Two weak references are equal exactly if they name the same capability, or none; and a weak
/// reference goes on naming it when it is gone.
pub proof fn law_weak_equality_is_identity(a: WeakRef, b: WeakRef)
    ensures
        a == b <==> a@ == b@,
{
}

/// Two shares are equal exactly if they are shares of the same capability.
pub proof fn law_equality_is_identity(a: Ref, b: Ref)
    ensures
        a == b <==> a@ == b@,
{
}

impl LastRef {
    /// takes down a capability whose last share is gone
    ///
    /// Its descriptor is still open here, so its identity still means what it meant when it was
    /// filed. What is filed there may be another's by now, made after the last share went; that one
    /// stays if it has shares.
    pub fn unfile(self, refs: &mut Refs) -> (retired: Retired)
        requires
            old(refs).wf(),
            old(refs)@.inners.contains_key(self@),
            !old(refs)@.holds(self@),
        ensures
            final(refs).wf(),
            final(refs)@ == old(refs)@.unfiled(self@),
            forall|other: u64|
                other != self@ ==> #[trigger] final(refs)@.outbox_of(Some(other))
                    == old(refs)@.outbox_of(Some(other)),
            retired.fd == old(refs)@.inners[self@].fd,
            retired.watch == old(refs)@.inners[self@].watch,
            retired.draining == old(refs)@.draining(self@),
    {
        let id: Option<SocketId> = refs.inners.get(&self.key).unwrap().id;
        if let Some(i) = id {
            let inners = &refs.inners;
            let doomed = |key: u64| -> (spent: bool)
                ensures
                    spent == !(inners@.contains_key(key) && inners@[key]@.strong > 0),
            {
                is_spent(inners, key)
            };
            directory_remove_if(&mut refs.filed, i, doomed);
        }
        let taken = refs.inners.remove(&self.key);
        proof {
            assert(refs@.inners == old(refs)@.inners.remove(self.key));
            lemma_unfiled_wf(old(refs)@, self.key);
        }
        let inner = taken.unwrap();
        let mut draining: bool = false;
        if let Some(mut outbox) = inner.outbox {
            if outbox.is_open() {
                outbox.retire();
                draining = true;
                refs.orphans.insert(self.key, outbox);
            }
        }
        proof {
            assert(refs@.orphans == old(refs)@.unfiled(self.key).orphans);
        }
        Retired { fd: inner.fd, watch: inner.watch, draining }
    }
}

impl Refs {
    /// can [`Ref::from_owned_fd`] make a share for this identity without a count running over?
    pub fn can_intern(&self, id: Option<SocketId>) -> (can: bool)
        requires
            self.wf(),
        ensures
            can == self@.can_intern(id),
    {
        if let Some(i) = id {
            if let Some(key) = directory_get(&self.filed, i) {
                if let Some(inner) = self.inners.get(&key) {
                    if inner.strong > 0 {
                        return inner.strong < u64::MAX;
                    }
                }
            }
        }
        self.next < u64::MAX
    }

    /// does `r` belong here, and can another share of it be made?
    pub fn can_share(&self, r: &Ref) -> (can: bool)
        requires
            self.wf(),
        ensures
            can == (self@.holds(r@) && self@.inners[r@].strong < u64::MAX),
    {
        match self.inners.get(&r.key) {
            None => false,
            Some(inner) => inner.strong > 0 && inner.strong < u64::MAX,
        }
    }

    /// is anything filed under this identity?
    pub fn is_filed(&self, id: SocketId) -> (found: bool)
        ensures
            found == self@.filed.contains_key(id),
    {
        directory_contains(&self.filed, id)
    }

    /// how many identities anything is filed under
    pub fn filed_len(&self) -> (len: usize)
        ensures
            len == self@.filed.dom().len(),
    {
        directory_len(&self.filed)
    }

    /// takes the outbox of what `key` means or meant out
    fn take_outbox(&mut self, key: u64) -> (taken: Option<Outbox>)
        requires
            old(self).wf(),
        ensures
            final(self).wf(),
            match (taken, old(self)@.outbox_of(Some(key))) {
                (Some(o), Some(was)) => o.wf() && o@ == was && final(self)@ == old(self)@.hollow(
                    key,
                ),
                (None, None) => final(self)@ == old(self)@,
                _ => false,
            },
    {
        if self.inners.contains_key(&key) {
            let mut inner = self.take(key);
            let taken = inner.outbox.take();
            self.put(key, inner, Ghost(old(self)@));
            proof {
                if taken is None {
                    assert(old(self)@.with(key, old(self)@.inners[key]).inners
                        == old(self)@.inners);
                }
            }
            taken
        } else {
            let taken = self.orphans.remove(&key);
            proof {
                assert(self@.orphans == old(self)@.orphans.remove(key));
                if taken is None {
                    assert(self@.orphans == old(self)@.orphans);
                }
                lemma_other_orphans_wf(old(self)@, self@);
            }
            taken
        }
    }

    /// puts an outbox back that was taken out, `before` being what was held then
    fn put_outbox(&mut self, key: u64, outbox: Outbox, Ghost(before): Ghost<RefsView>)
        requires
            old(self).wf(),
            before.wf(),
            before.outbox_of(Some(key)) is Some,
            old(self)@ == before.hollow(key),
            outbox.wf(),
            outbox@.retired == before.outbox_of(Some(key))->0.retired,
        ensures
            final(self).wf(),
            final(self)@ == before.with_outbox_of(Some(key), outbox@),
    {
        proof {
            outbox.lemma_wf();
            lemma_with_outbox_of_wf(before, Some(key), outbox@);
            assert(self@.inners.contains_key(key) == before.inners.contains_key(key));
        }
        if self.inners.contains_key(&key) {
            let mut inner = self.take(key);
            inner.outbox = Some(outbox);
            self.put(key, inner, Ghost(old(self)@));
            assert(self@.inners == before.with_outbox_of(Some(key), outbox@).inners);
        } else if outbox.is_open() {
            self.orphans.insert(key, outbox);
            proof {
                assert(self@.orphans == old(self)@.orphans.insert(key, outbox@));
                assert(self@.orphans == before.orphans.insert(key, outbox@));
                assert forall|k: u64| #[trigger] self.orphans@.contains_key(k) implies
                    self.orphans@[k].wf() by {
                    if k != key {
                        assert(old(self).orphans@.contains_key(k));
                    }
                }
            }
        }
    }

    /// the next step of the drain task of what `of` names or named, if that has an outbox and the
    /// task holds no message
    ///
    /// A capability that was taken down is forgotten here once its drain task is finished.
    pub fn drain_next(&mut self, of: WeakRef) -> (step: Option<Drain>)
        requires
            old(self).wf(),
        ensures
            final(self).wf(),
            step is Some <==> (old(self)@.outbox_of(of@) matches Some(o) && o.held is None),
            match step {
                None => final(self)@ == old(self)@,
                Some(next) => {
                    let o = old(self)@.outbox_of(of@)->0;
                    if o.queue.len() != 0 {
                        &&& next == Drain::Send(o.queue.first())
                        &&& final(self)@ == old(self)@.with_outbox_of(of@, o.taken())
                    } else if o.open && !o.retired {
                        &&& next == Drain::Idle
                        &&& final(self)@ == old(self)@
                    } else {
                        &&& next == Drain::Finished
                        &&& final(self)@ == old(self)@.without_orphan(of@)
                    }
                },
            },
    {
        let key: u64 = match of.key {
            Some(key) => key,
            None => return None,
        };
        let mut outbox = match self.take_outbox(key) {
            Some(outbox) => outbox,
            None => return None,
        };
        proof {
            lemma_same_outbox(old(self)@, key);
        }
        if outbox.is_in_flight() {
            self.put_outbox(key, outbox, Ghost(old(self)@));
            return None;
        }
        let step = outbox.next();
        match step {
            Drain::Finished if !self.inners.contains_key(&key) => {},
            _ => {
                self.put_outbox(key, outbox, Ghost(old(self)@));
            },
        }
        proof {
            if self@.inners.contains_key(key) {
                assert(old(self)@.without_orphan(of@).orphans == old(self)@.orphans);
            }
        }
        Some(step)
    }

    /// the drain task of what `of` names or named reports on `message`, which it took with
    /// [`Refs::drain_next`]; gives it back if the task has been given up meanwhile
    pub fn drain_sent(&mut self, of: WeakRef, message: Message, outcome: SendOutcome) -> (settled:
        Result<Settled, Message>)
        requires
            old(self).wf(),
            old(self)@.outbox_of(of@) matches Some(o) ==> (o.held is None || o.held == Some(
                message,
            )),
        ensures
            final(self).wf(),
            settled is Ok <==> (old(self)@.outbox_of(of@) matches Some(o) && o.held is Some),
            match settled {
                Err(m) => m == message && final(self)@ == old(self)@,
                Ok(s) => {
                    let o = old(self)@.outbox_of(of@)->0;
                    match outcome {
                        SendOutcome::WouldBlock => s == Settled::Again(message) && final(self)@
                            == old(self)@,
                        SendOutcome::Sent => s == Settled::Done(message) && final(self)@
                            == old(self)@.with_outbox_of(of@, o.settled()),
                        SendOutcome::Failed => final(self)@ == old(self)@.with_outbox_of(
                            of@,
                            o.failed(),
                        ) && (s matches Settled::Stopped(lost, behind) && lost == message && behind@
                            == o.queue),
                    }
                },
            },
    {
        let key: u64 = match of.key {
            Some(key) => key,
            None => return Err(message),
        };
        let mut outbox = match self.take_outbox(key) {
            Some(outbox) => outbox,
            None => return Err(message),
        };
        proof {
            lemma_same_outbox(old(self)@, key);
        }
        let settled: Result<Settled, Message> = if outbox.is_in_flight() {
            Ok(outbox.sent(message, outcome))
        } else {
            Err(message)
        };
        self.put_outbox(key, outbox, Ghost(old(self)@));
        settled
    }

    /// the drain task of what `of` names or named is gone, e.g. because its runtime has shut down;
    /// gives back what waited, in order
    ///
    /// What the task held it takes along. From here on nothing is queued for that capability.
    pub fn drain_gone(&mut self, of: WeakRef) -> (behind: Vec<Message>)
        requires
            old(self).wf(),
        ensures
            final(self).wf(),
            match old(self)@.outbox_of(of@) {
                Some(o) => behind@ == o.queue && final(self)@ == old(self)@.with_outbox_of(
                    of@,
                    o.gone(),
                ),
                None => behind@.len() == 0 && final(self)@ == old(self)@,
            },
    {
        let key: u64 = match of.key {
            Some(key) => key,
            None => return Vec::new(),
        };
        match self.take_outbox(key) {
            Some(mut outbox) => {
                let behind = outbox.drain_gone();
                self.put_outbox(key, outbox, Ghost(old(self)@));
                behind
            },
            None => Vec::new(),
        }
    }
}

/// Putting back what was taken out changes nothing.
proof fn lemma_same_outbox(refs: RefsView, key: u64)
    requires
        refs.wf(),
        refs.outbox_of(Some(key)) is Some,
    ensures
        refs.with_outbox_of(Some(key), refs.outbox_of(Some(key))->0) == refs,
{
    let same = refs.with_outbox_of(Some(key), refs.outbox_of(Some(key))->0);
    if refs.orphans.contains_key(key) {
        assert(refs.orphan_wf(key));
    }
    assert(same.inners == refs.inners);
    assert(same.orphans == refs.orphans);
}

} // verus!
