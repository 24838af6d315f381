//! the receiving side: what turns packets on a socket back into handler calls
//!
//! Each loop has a share of its handler. Where a handler is filed for [`Ref::local_handler`], it is
//! known by a number and the number of its kind.

use crate::capability::{Ref, Refs};
use crate::death::{Death, DeathView};
use crate::directory::SocketId;
use crate::flow::{all_done, all_possible, law_accepted_is_within_the_limit, Flow, FlowStep};
use crate::local::{
    law_filing_keeps_order, law_numbering_keeps_order, law_other_filings_stay, law_taking_out_keeps_order, LocalEntry,
    LocalEntryView, Locals, LocalsView,
};
use crate::wire::{Received, UCred, MAX_MESSAGE_SIZE};
use std::sync::Arc;
use vstd::prelude::*;
use vstd::seq_lib::lemma_seq_contains_after_push;

verus! {

/// a node on a socketpair, reached with the [`Ref`] handed back beside it
///
/// Deliberately does not hold that `Ref`: a node keeping a capability to itself would pin its own
/// socket open, and the socket hanging up is the signal that nobody can reach this node any more.
/// Dropping it ends its receive loop; see [`Node::abort`] and [`Node::to_service`].
pub struct Node<H> {
    handler: Arc<H>,
    /// the number that its receive loop has too, and nothing else
    number: u64,
}

/// what a [`Node`] holds
pub struct NodeView<H> {
    pub handler: Arc<H>,
    pub number: u64,
}

impl<H> NodeView<H> {
    /// is this the receive loop that feeds the node?
    pub open spec fn fed_by(self, task: LoopView<H>) -> bool {
        task.number == Some(self.number)
    }
}

/// `Arc::clone` makes another pointer to the same value
#[verifier::external_body]
fn share_of<H>(handler: &Arc<H>) -> (share: Arc<H>)
    ensures
        share == *handler,
{
    handler.clone()
}

/// what happens to a receive loop
pub enum LoopEvent<F> {
    /// a packet came off the socket
    Packet(Received<F>),
    /// receiving failed
    Failed,
    /// the node was dropped
    Aborted,
    /// the handler panicked
    Panicked,
}

/// what a receive loop does next
pub enum LoopStep<F> {
    /// hand the first `len` bytes of the buffer to the handler, and what came with them
    Deliver { len: usize, fds: F, creds: Option<UCred> },
    /// drop a packet that did not fit into the buffer, and what came with it
    Discard { bytes: usize, fds: F },
    /// close the socket, drop what is left of the last packet, and then [`RecvLoop::bury`]; `ok` unless
    /// it failed
    Stop { ok: bool, socket: i32, left: Option<F> },
}

/// the task that feeds a node's handler
pub struct RecvLoop<H> {
    handler: Arc<H>,
    /// the number of the node that this feeds, if it feeds one of its own
    number: Option<u64>,
    /// the socket, until the loop stops
    socket: Option<i32>,
    /// the handler's filing, until the loop is buried
    local: Option<LocalEntry>,
    death: Death,
}

/// what a [`RecvLoop`] holds
pub struct LoopView<H> {
    pub handler: Arc<H>,
    pub number: Option<u64>,
    pub socket: Option<i32>,
    pub local: Option<LocalEntryView>,
    pub death: DeathView,
}

impl<H> LoopView<H> {
    /// Its handler is filed under its number if it says so, and it is dead only once its socket is closed and its
    /// handler no longer filed.
    pub open spec fn wf(self, locals: LocalsView) -> bool {
        &&& locals.wf()
        &&& self.death.wf()
        &&& self.local matches Some(entry) ==> locals.has(entry) && self.number == Some(entry.filed)
        &&& self.death.dead ==> self.socket is None && self.local is None
    }

    /// one that feeds `handler` from `socket`, and that no capability leads to
    pub open spec fn serving(socket: i32, handler: Arc<H>) -> LoopView<H> {
        LoopView {
            handler,
            number: None,
            socket: Some(socket),
            local: None,
            death: DeathView::fresh(),
        }
    }

    /// is it still receiving?
    pub open spec fn running(self) -> bool {
        self.socket is Some
    }

    /// its socket given up
    pub open spec fn stopped(self) -> LoopView<H> {
        LoopView { socket: None, ..self }
    }

    /// its handler no longer filed, and its death declared
    pub open spec fn buried(self) -> LoopView<H> {
        LoopView { local: None, death: self.death.declared(), ..self }
    }

    /// A packet of no bytes is a hangup, one that did not fit is discarded, and any other is
    /// delivered whole. Everything else that can happen ends the loop.
    pub open spec fn step<F>(self, event: LoopEvent<F>) -> (LoopView<H>, LoopStep<F>) {
        match event {
            LoopEvent::Packet(packet) => if packet.bytes == 0 {
                (
                    self.stopped(),
                    LoopStep::Stop { ok: true, socket: self.socket->0, left: Some(packet.fds) },
                )
            } else if packet.bytes > MAX_MESSAGE_SIZE {
                (self, LoopStep::Discard { bytes: packet.bytes, fds: packet.fds })
            } else {
                (
                    self,
                    LoopStep::Deliver {
                        len: packet.bytes,
                        fds: packet.fds,
                        creds: packet.creds,
                    },
                )
            },
            _ => (
                self.stopped(),
                LoopStep::Stop { ok: false, socket: self.socket->0, left: None },
            ),
        }
    }
}

impl<H> View for RecvLoop<H> {
    type V = LoopView<H>;

    closed spec fn view(&self) -> LoopView<H> {
        LoopView {
            handler: self.handler,
            number: self.number,
            socket: self.socket,
            local: match self.local {
                Some(entry) => Some(entry@),
                None => None,
            },
            death: self.death@,
        }
    }
}

impl<H> View for Node<H> {
    type V = NodeView<H>;

    closed spec fn view(&self) -> NodeView<H> {
        NodeView { handler: self.handler, number: self.number }
    }
}

/// a node, the task that feeds it, and the one capability that reaches it
pub struct NewNode<H> {
    pub node: Node<H>,
    pub task: RecvLoop<H>,
    pub node_ref: Ref,
    /// the sending end's descriptor again, if that was a capability already
    pub redundant: Option<i32>,
}

impl<H> Node<H> {
    /// builds a node for a handler on a new socketpair: `tx` is its sending end, with the identity
    /// `id` if it has one, and `rx` its receiving end
    ///
    /// The `Ref` is the caller's; the node has no copy of its own. The handler is filed for
    /// [`Ref::local_handler`], as `tag` of this `kind`, exactly if the sending end has an identity.
    pub fn new(
        refs: &mut Refs,
        locals: &mut Locals,
        tx: i32,
        id: Option<SocketId>,
        rx: i32,
        handler: H,
        tag: u64,
        kind: u64,
    ) -> (made: NewNode<H>)
        requires
            old(refs).wf(),
            old(refs)@.can_intern(id),
            old(locals)@.wf(),
            old(locals)@.next < u64::MAX,
        ensures
            final(refs).wf(),
            final(refs)@ == old(refs)@.interned(tx, id),
            final(refs)@.holds(made.node_ref@),
            made.node_ref@ == old(refs)@.interned_key(id),
            made.redundant == (if old(refs)@.recognises(id) {
                Some(tx)
            } else {
                None
            }),
            final(locals)@ == (match id {
                Some(i) => old(locals)@.with(i, tag, kind),
                None => old(locals)@.numbered(),
            }),
            *made.node@.handler == handler,
            made.node@.number == old(locals)@.next,
            made.task@.wf(final(locals)@),
            made.node@.fed_by(made.task@),
            made.task@ == (LoopView {
                handler: made.node@.handler,
                number: Some(made.node@.number),
                socket: Some(rx),
                local: match id {
                    Some(i) => Some(LocalEntryView { id: i, filed: old(locals)@.next }),
                    None => None,
                },
                death: DeathView::fresh(),
            }),
    {
        Node::new_raw(refs, locals, tx, id, rx, Arc::new(handler), tag, kind)
    }

    /// [`Node::new`] for a handler you already share elsewhere
    pub fn new_raw(
        refs: &mut Refs,
        locals: &mut Locals,
        tx: i32,
        id: Option<SocketId>,
        rx: i32,
        handler: Arc<H>,
        tag: u64,
        kind: u64,
    ) -> (made: NewNode<H>)
        requires
            old(refs).wf(),
            old(refs)@.can_intern(id),
            old(locals)@.wf(),
            old(locals)@.next < u64::MAX,
        ensures
            final(refs).wf(),
            final(refs)@ == old(refs)@.interned(tx, id),
            final(refs)@.holds(made.node_ref@),
            made.node_ref@ == old(refs)@.interned_key(id),
            made.redundant == (if old(refs)@.recognises(id) {
                Some(tx)
            } else {
                None
            }),
            final(locals)@ == (match id {
                Some(i) => old(locals)@.with(i, tag, kind),
                None => old(locals)@.numbered(),
            }),
            made.node@ == (NodeView { handler, number: old(locals)@.next }),
            made.task@.wf(final(locals)@),
            made.node@.fed_by(made.task@),
            made.task@ == (LoopView {
                handler: made.node@.handler,
                number: Some(made.node@.number),
                socket: Some(rx),
                local: match id {
                    Some(i) => Some(LocalEntryView { id: i, filed: old(locals)@.next }),
                    None => None,
                },
                death: DeathView::fresh(),
            }),
    {
        let death = Death::new();
        let (node_ref, redundant) = Ref::from_fd(refs, tx, id);
        let number: u64 = locals.next_number();
        let local: Option<LocalEntry> = match id {
            Some(i) => Some(LocalEntry::file(locals, i, tag, kind)),
            None => {
                locals.number();
                None
            },
        };
        let task = RecvLoop {
            handler: share_of(&handler),
            number: Some(number),
            socket: Some(rx),
            local,
            death,
        };
        NewNode { node: Node { handler, number }, task, node_ref, redundant }
    }

    /// is this the receive loop that feeds the node?
    pub fn is_fed_by(&self, task: &RecvLoop<H>) -> (own: bool)
        ensures
            own == self@.fed_by(task@),
    {
        match task.number {
            Some(number) => number == self.number,
            None => false,
        }
    }

    /// has this node stopped receiving?
    ///
    /// It is a latch: never false again once true.
    pub fn is_dead(&self, task: &RecvLoop<H>) -> (dead: bool)
        requires
            self@.fed_by(task@),
        ensures
            dead == task@.death.dead,
    {
        task.death.is_dead()
    }

    /// how to wait until this node stops receiving: nothing to wait for, or the ticket to be woken by
    pub fn death_notification(&self, task: &mut RecvLoop<H>) -> (ticket: Option<u64>)
        requires
            self@.fed_by(old(task)@),
            old(task)@.death.wf(),
            old(task)@.death.next < u64::MAX,
        ensures
            final(task)@.death.wf(),
            ticket is None <==> old(task)@.death.dead,
            ticket matches Some(t) ==> t == old(task)@.death.next && final(task)@ == (LoopView {
                death: old(task)@.death.enabled(),
                ..old(task)@
            }) && final(task)@.death.waiting.contains(t),
            ticket is None ==> final(task)@ == (LoopView {
                death: old(task)@.death.enabled().left(old(task)@.death.next),
                ..old(task)@
            }),
    {
        let ticket: u64 = task.death.enable();
        if task.death.wait(ticket) {
            None
        } else {
            Some(ticket)
        }
    }

    /// the handler this node is feeding
    ///
    /// The pointer rather than the handler itself, so a caller can take a share of what the receive
    /// loop is already holding.
    pub fn handler(&self) -> (handler: &Arc<H>)
        ensures
            *handler == self@.handler,
    {
        &self.handler
    }

    /// gives up the handle and lets the receive loop run on, so that the node lives exactly as long
    /// as somebody can reach it
    ///
    /// All there is to let go of is the node's own share of the handler, which comes back. The loop
    /// has its own, and nothing is left that would end it early: it takes this node to [`Node::abort`]
    /// the loop with its number.
    pub fn to_service(self) -> (share: Arc<H>)
        ensures
            share == self@.handler,
    {
        self.handler
    }

    /// drops the node, which ends its receive loop if that is still running; the socket that comes
    /// back is to be closed
    pub fn abort(self, task: &mut RecvLoop<H>) -> (socket: Option<i32>)
        requires
            self@.fed_by(old(task)@),
        ensures
            socket == old(task)@.socket,
            final(task)@ == old(task)@.stopped(),
    {
        task.socket.take()
    }
}

impl<H> RecvLoop<H> {
    fn serving(socket: i32, handler: Arc<H>) -> (task: RecvLoop<H>)
        ensures
            task@ == LoopView::serving(socket, handler),
    {
        RecvLoop {
            handler,
            number: None,
            socket: Some(socket),
            local: None,
            death: Death::new(),
        }
    }

    /// the handler this feeds
    pub fn handler(&self) -> (handler: &Arc<H>)
        ensures
            *handler == self@.handler,
    {
        &self.handler
    }

    /// is it still receiving?
    pub fn is_running(&self) -> (running: bool)
        ensures
            running == self@.running(),
    {
        self.socket.is_some()
    }

    /// can another ticket be given out by [`Node::death_notification`]?
    pub fn can_enable(&self) -> (can: bool)
        ensures
            can == (self@.death.next < u64::MAX),
    {
        self.death.can_enable()
    }

    /// gives a ticket from [`Node::death_notification`] back, because its holder no longer cares
    pub fn leave(&mut self, ticket: u64)
        requires
            old(self)@.death.wf(),
        ensures
            final(self)@ == (LoopView { death: old(self)@.death.left(ticket), ..old(self)@ }),
            final(self)@.death.wf(),
    {
        self.death.leave(ticket);
    }

    /// what to do about `event`
    ///
    /// A packet that did not fit can only come from a peer that does not keep to
    /// [`MAX_MESSAGE_SIZE`]. It is dropped rather than delivered as a silently shortened payload.
    pub fn step<F>(&mut self, event: LoopEvent<F>) -> (step: LoopStep<F>)
        requires
            old(self)@.running(),
        ensures
            (final(self)@, step) == old(self)@.step(event),
    {
        match event {
            LoopEvent::Packet(packet) => {
                if packet.bytes == 0 {
                    let socket: i32 = self.socket.take().unwrap();
                    return LoopStep::Stop { ok: true, socket, left: Some(packet.fds) };
                }
                if packet.truncated(MAX_MESSAGE_SIZE) {
                    return LoopStep::Discard { bytes: packet.bytes, fds: packet.fds };
                }
                LoopStep::Deliver { len: packet.bytes, fds: packet.fds, creds: packet.creds }
            },
            _ => {
                let socket: i32 = self.socket.take().unwrap();
                LoopStep::Stop { ok: false, socket, left: None }
            },
        }
    }

    /// what is left to do once the loop has stopped and its socket is closed: the handler is filed no
    /// more, and whoever comes back is to be woken
    pub fn bury(&mut self, locals: &mut Locals) -> (woken: Vec<u64>)
        requires
            old(self)@.wf(old(locals)@),
            !old(self)@.running(),
        ensures
            final(self)@.wf(final(locals)@),
            final(self)@ == old(self)@.buried(),
            final(locals)@ == (match old(self)@.local {
                Some(entry) => old(locals)@.without(entry),
                None => old(locals)@,
            }),
            woken@ == old(self)@.death.waiting,
    {
        match self.local.take() {
            Some(entry) => entry.unfile(locals),
            None => {},
        }
        self.death.declare()
    }
}

/// a connection that a [`BoundNode`] accepted
#[derive(Clone, Copy, Debug, PartialEq, Eq, Structural)]
pub struct Connection {
    pub socket: i32,
    /// has its receive loop ended?
    pub ended: bool,
}

/// the task that accepts a [`BoundNode`]'s connections
///
/// All of them feed the one handler, and all of them end with the loop.
pub struct AcceptLoop<H> {
    handler: Arc<H>,
    /// the number of the node that this accepts for
    number: u64,
    connections: Vec<Connection>,
}

/// what a [`AcceptLoop`] holds
pub struct AcceptView<H> {
    pub handler: Arc<H>,
    pub number: u64,
    pub connections: Seq<Connection>,
}

/// those of `connections` that have not ended, in order
pub open spec fn running(connections: Seq<Connection>) -> Seq<Connection> {
    connections.filter(|c: Connection| !c.ended)
}

/// `connections` with the one on `socket` ended
pub open spec fn with_ended(connections: Seq<Connection>, socket: i32) -> Seq<Connection> {
    connections.map_values(
        |c: Connection| Connection { socket: c.socket, ended: c.ended || c.socket == socket },
    )
}

/// the sockets of `connections`, in order
pub open spec fn sockets(connections: Seq<Connection>) -> Seq<i32> {
    connections.map_values(|c: Connection| c.socket)
}

/// what an accept task does next
pub enum AcceptStep<H> {
    /// run this receive loop
    Serve(RecvLoop<H>),
    /// close these sockets, and end
    Stop(Vec<i32>),
}

impl<H> View for AcceptLoop<H> {
    type V = AcceptView<H>;

    closed spec fn view(&self) -> AcceptView<H> {
        AcceptView {
            handler: self.handler,
            number: self.number,
            connections: self.connections@,
        }
    }
}

/// a node listening on a path instead of a socketpair
///
/// A path is the one name that isn't itself a capability, so it's the door you knock on before you
/// have any.
pub struct BoundNode<H> {
    handler: Arc<H>,
    /// the number that its accept task has too, and nothing else
    number: u64,
    /// we made this socket file, so it's ours to unlink again
    path: Vec<u8>,
}

/// what a [`BoundNode`] holds
pub struct BoundView<H> {
    pub handler: Arc<H>,
    pub number: u64,
    pub path: Seq<u8>,
}

impl<H> BoundView<H> {
    /// is this the task that accepts the node's connections?
    pub open spec fn fed_by(self, task: AcceptView<H>) -> bool {
        task.number == self.number
    }
}

impl<H> View for BoundNode<H> {
    type V = BoundView<H>;

    closed spec fn view(&self) -> BoundView<H> {
        BoundView { handler: self.handler, number: self.number, path: self.path@ }
    }
}

impl<H> BoundNode<H> {
    /// builds a node for a handler on a socket that was just bound to `path`
    pub fn bind(locals: &mut Locals, path: Vec<u8>, handler: H) -> (made: (
        BoundNode<H>,
        AcceptLoop<H>,
    ))
        requires
            old(locals)@.wf(),
            old(locals)@.next < u64::MAX,
        ensures
            final(locals)@.wf(),
            final(locals)@ == old(locals)@.numbered(),
            made.0@.path == path@,
            made.0@.number == old(locals)@.next,
            *made.0@.handler == handler,
            made.0@.fed_by(made.1@),
            made.1@ == (AcceptView {
                handler: made.0@.handler,
                number: made.0@.number,
                connections: Seq::empty(),
            }),
    {
        BoundNode::bind_raw(locals, path, Arc::new(handler))
    }

    /// [`BoundNode::bind`] for a handler you already share elsewhere
    pub fn bind_raw(locals: &mut Locals, path: Vec<u8>, handler: Arc<H>) -> (made: (
        BoundNode<H>,
        AcceptLoop<H>,
    ))
        requires
            old(locals)@.wf(),
            old(locals)@.next < u64::MAX,
        ensures
            final(locals)@.wf(),
            final(locals)@ == old(locals)@.numbered(),
            made.0@ == (BoundView { handler, number: old(locals)@.next, path: path@ }),
            made.0@.fed_by(made.1@),
            made.1@ == (AcceptView {
                handler,
                number: old(locals)@.next,
                connections: Seq::empty(),
            }),
    {
        let number: u64 = locals.number();
        let share = share_of(&handler);
        (
            BoundNode { handler, number, path },
            AcceptLoop { handler: share, number, connections: Vec::new() },
        )
    }

    /// is this the task that accepts the node's connections?
    pub fn is_fed_by(&self, task: &AcceptLoop<H>) -> (own: bool)
        ensures
            own == self@.fed_by(task@),
    {
        task.number == self.number
    }

    /// the handler shared by every connection this node accepts
    pub fn handler(&self) -> (handler: &Arc<H>)
        ensures
            *handler == self@.handler,
    {
        &self.handler
    }

    /// drops the node, which ends its accept task and every connection with it; the path is to be
    /// unlinked and the sockets closed
    pub fn close(self, task: &mut AcceptLoop<H>) -> (left: (Vec<u8>, Vec<i32>))
        requires
            self@.fed_by(old(task)@),
        ensures
            left.0@ == self@.path,
            left.1@ == sockets(running(old(task)@.connections)),
            final(task)@ == (AcceptView { connections: Seq::empty(), ..old(task)@ }),
    {
        let open = task.stop();
        (self.path, open)
    }
}

proof fn lemma_running_last(connections: Seq<Connection>)
    requires
        connections.len() != 0,
    ensures
        running(connections) == (if connections.last().ended {
            running(connections.drop_last())
        } else {
            running(connections.drop_last()).push(connections.last())
        }),
{
    reveal(Seq::filter);
}

impl<H> AcceptLoop<H> {
    /// lets go of every connection that has ended, so this doesn't grow forever
    fn reap(&mut self)
        ensures
            final(self)@ == (AcceptView { connections: running(old(self)@.connections), ..old(
                self,
            )@ }),
    {
        let mut kept: Vec<Connection> = Vec::new();
        assert(kept@ == running(self.connections@.take(0))) by {
            reveal(Seq::filter);
        }
        let mut i: usize = 0;
        while i < self.connections.len()
            invariant
                0 <= i <= self.connections.len(),
                *self == *old(self),
                kept@ == running(self.connections@.take(i as int)),
            decreases self.connections.len() - i,
        {
            let connection: Connection = self.connections[i];
            proof {
                assert(self.connections@.take(i + 1).drop_last() == self.connections@.take(
                    i as int,
                ));
                lemma_running_last(self.connections@.take(i + 1));
            }
            if !connection.ended {
                kept.push(connection);
            }
            i += 1;
        }
        assert(self.connections@.take(i as int) == self.connections@);
        self.connections = kept;
    }

    /// a connection came in on `socket`, `registered` being whether it can be served
    ///
    /// Connections that ended since are let go of. One that cannot be served ends the task.
    pub fn accepted(&mut self, socket: i32, registered: bool) -> (step: AcceptStep<H>)
        ensures
            registered ==> (step matches AcceptStep::Serve(task) && task@ == LoopView::serving(
                socket,
                old(self)@.handler,
            )) && final(self)@ == (AcceptView {
                connections: running(old(self)@.connections).push(
                    Connection { socket, ended: false },
                ),
                ..old(self)@
            }),
            !registered ==> (step matches AcceptStep::Stop(open) && open@ == sockets(
                running(old(self)@.connections),
            ).push(socket)) && final(self)@ == (AcceptView {
                connections: Seq::empty(),
                ..old(self)@
            }),
    {
        self.reap();
        if registered {
            self.connections.push(Connection { socket, ended: false });
            return AcceptStep::Serve(RecvLoop::serving(socket, share_of(&self.handler)));
        }
        let mut open = self.stop_reaped();
        open.push(socket);
        AcceptStep::Stop(open)
    }

    /// the connection on `socket` has ended
    pub fn ended(&mut self, socket: i32)
        ensures
            final(self)@ == (AcceptView {
                connections: with_ended(old(self)@.connections, socket),
                ..old(self)@
            }),
    {
        let mut i: usize = 0;
        while i < self.connections.len()
            invariant
                0 <= i <= self.connections.len(),
                self.handler == old(self).handler,
                self.number == old(self).number,
                self.connections.len() == old(self).connections.len(),
                forall|j: int|
                    0 <= j < i ==> #[trigger] self.connections@[j] == with_ended(
                        old(self).connections@,
                        socket,
                    )[j],
                forall|j: int|
                    i <= j < self.connections.len() ==> #[trigger] self.connections@[j]
                        == old(self).connections@[j],
            decreases self.connections.len() - i,
        {
            let connection: Connection = self.connections[i];
            if connection.socket == socket {
                self.connections.set(i, Connection { socket, ended: true });
            }
            i += 1;
        }
        assert(self.connections@ == with_ended(old(self).connections@, socket));
    }

    /// ends the task, because accepting failed; the sockets that come back are to be closed
    pub fn stop(&mut self) -> (open: Vec<i32>)
        ensures
            open@ == sockets(running(old(self)@.connections)),
            final(self)@ == (AcceptView { connections: Seq::empty(), ..old(self)@ }),
    {
        self.reap();
        self.stop_reaped()
    }

    fn stop_reaped(&mut self) -> (open: Vec<i32>)
        ensures
            open@ == sockets(old(self)@.connections),
            final(self)@ == (AcceptView { connections: Seq::empty(), ..old(self)@ }),
    {
        let mut open: Vec<i32> = Vec::new();
        let mut i: usize = 0;
        while i < self.connections.len()
            invariant
                0 <= i <= self.connections.len(),
                *self == *old(self),
                open@ == sockets(self.connections@.take(i as int)),
            decreases self.connections.len() - i,
        {
            open.push(self.connections[i].socket);
            i += 1;
            assert(open@ == sockets(self.connections@.take(i as int)));
        }
        assert(self.connections@.take(i as int) == self.connections@);
        self.connections = Vec::new();
        open
    }
}

/// Whatever is accepted by a capability arrives whole: one of the messages that its senders were
/// told are taken is delivered with its own length, unless it is empty, which looks like a hangup.
pub proof fn law_accepted_arrives_whole<H, F>(
    fd: i32,
    id: Option<SocketId>,
    steps: Seq<FlowStep>,
    i: int,
    task: LoopView<H>,
    packet: Received<F>,
)
    requires
        all_possible(Flow::start(fd, id), steps),
        0 <= i < all_done(Flow::start(fd, id), steps).accepted.len(),
        packet.bytes == all_done(Flow::start(fd, id), steps).accepted[i].message@.data.len(),
    ensures
        packet.bytes != 0 ==> task.step(LoopEvent::Packet(packet)) == (
            task,
            LoopStep::Deliver { len: packet.bytes, fds: packet.fds, creds: packet.creds },
        ),
        packet.bytes == 0 ==> task.step(LoopEvent::Packet(packet)).1 is Stop
            && !task.step(LoopEvent::Packet(packet)).0.running(),
{
    law_accepted_is_within_the_limit(fd, id, steps, i);
}

/// Nothing longer than the receive buffer is ever delivered, and nothing is delivered shortened.
pub proof fn law_nothing_is_delivered_shortened<H, F>(task: LoopView<H>, packet: Received<F>)
    ensures
        task.step(LoopEvent::Packet(packet)).1 matches LoopStep::Deliver { len, .. } ==> len
            == packet.bytes && 0 < len <= MAX_MESSAGE_SIZE,
{
}

/// However a receive loop ends, its death is declared once it is buried: on a hangup, on a failure,
/// on the drop of its node and on a panic.
pub proof fn law_every_end_is_declared<H, F>(task: LoopView<H>, event: LoopEvent<F>)
    requires
        task.running(),
        event matches LoopEvent::Packet(packet) ==> packet.bytes == 0,
    ensures
        task.step(event).1 is Stop,
        !task.step(event).0.running(),
        task.step(event).0.buried().death.dead,
        task.stopped() == task.step(event).0,
{
}

/// A node that is dead has closed its socket: whoever finds it dead finds its capabilities dead too.
pub proof fn law_dead_has_hung_up<H>(task: LoopView<H>, locals: LocalsView)
    requires
        task.wf(locals),
        task.death.dead,
    ensures
        !task.running(),
        task.local is None,
{
}

/// Nodes do not disturb each other: a handler filed or taken out for another leaves a receive loop
/// in order.
pub proof fn law_loops_leave_each_other_alone<H>(
    task: LoopView<H>,
    locals: LocalsView,
    id: SocketId,
    handler: u64,
    kind: u64,
    entry: LocalEntryView,
)
    requires
        task.wf(locals),
        locals.next < u64::MAX,
        locals.has(entry),
        task.number != Some(entry.filed),
    ensures
        task.wf(locals.with(id, handler, kind)),
        task.wf(locals.numbered()),
        task.wf(locals.without(entry)),
{
    law_filing_keeps_order(locals, id, handler, kind);
    law_numbering_keeps_order(locals);
    law_taking_out_keeps_order(locals, entry);
    if let Some(own) = task.local {
        law_other_filings_stay(locals, id, handler, kind, entry, own);
    }
}

/// Every connection that is kept is one that runs, so what is kept is bounded by what runs; and none
/// that runs is let go of.
pub proof fn law_only_running_are_kept(connections: Seq<Connection>, c: Connection)
    ensures
        running(connections).contains(c) <==> connections.contains(c) && !c.ended,
        running(connections).len() <= connections.len(),
    decreases connections.len(),
{
    if connections.len() == 0 {
        reveal(Seq::filter);
    } else {
        let init = connections.drop_last();
        law_only_running_are_kept(init, c);
        lemma_running_last(connections);
        assert(connections == init.push(connections.last()));
        lemma_seq_contains_after_push(init, connections.last(), c);
        lemma_seq_contains_after_push(running(init), connections.last(), c);
    }
}

/// do the two differ in nothing but the socket?
pub open spec fn same_but_socket<H>(before: LoopView<H>, after: LoopView<H>) -> bool {
    &&& after.handler == before.handler
    &&& after.number == before.number
    &&& after.local == before.local
    &&& after.death == before.death
}

/// Every packet is accounted for: one that fits goes to the handler whole, with the descriptors and
/// the credentials it came with; one that does not is dropped with its descriptors, and the loop
/// goes on; and one without a byte ends the loop in good order, giving up its socket and what came
/// with the packet.
pub proof fn law_every_packet_is_accounted_for<H, F>(task: LoopView<H>, packet: Received<F>)
    ensures
        ({
            let (after, step) = task.step(LoopEvent::Packet(packet));
            &&& 0 < packet.bytes <= 8192 ==> after == task && step == (LoopStep::Deliver {
                len: packet.bytes,
                fds: packet.fds,
                creds: packet.creds,
            })
            &&& packet.bytes > 8192 ==> after == task && step == (LoopStep::Discard {
                bytes: packet.bytes,
                fds: packet.fds,
            })
            &&& packet.bytes == 0 ==> after.socket is None && same_but_socket(task, after) && step
                == (LoopStep::Stop { ok: true, socket: task.socket->0, left: Some(packet.fds) })
        }),
{
}

/// A failure, a drop of the node and a panic each end the loop, not in good order, and give up its
/// socket and nothing else.
pub proof fn law_other_ends_are_failures<H, F>(task: LoopView<H>, event: LoopEvent<F>)
    requires
        !(event is Packet),
    ensures
        task.step(event).1 == (LoopStep::Stop {
            ok: false,
            socket: task.socket->0,
            left: None::<F>,
        }),
        task.step(event).0.socket is None,
        same_but_socket(task, task.step(event).0),
{
}

/// Ending a loop gives up its socket and nothing else; burying it takes its filing and declares its
/// death, which wakes everybody, and nothing else.
pub proof fn law_ending_and_burying_are_two_things<H>(task: LoopView<H>)
    ensures
        task.stopped().socket is None,
        same_but_socket(task, task.stopped()),
        task.running() <==> task.socket is Some,
        task.buried().socket == task.socket,
        task.buried().handler == task.handler,
        task.buried().number == task.number,
        task.buried().local is None,
        task.buried().death.dead,
        task.buried().death.waiting.len() == 0,
        task.buried().death.next == task.death.next,
{
}

/// A connection's loop feeds the handler it was made for from the socket it was made for, is alive,
/// and is nobody's but the accept loop's: no node has its number and no capability leads to it.
pub proof fn law_connection_feeds_the_handler<H>(socket: i32, handler: Arc<H>, node: NodeView<H>)
    ensures
        ({
            let task = LoopView::serving(socket, handler);
            &&& task.handler == handler
            &&& task.socket == Some(socket)
            &&& task.number is None
            &&& task.local is None
            &&& !task.death.dead
            &&& task.death.waiting.len() == 0
            &&& task.death.next == 0
            &&& task.running()
            &&& !node.fed_by(task)
        }),
{
}

/// A node is fed by the loop with its number and by no other.
pub proof fn law_number_says_whose_loop_it_is<H>(
    node: NodeView<H>,
    task: LoopView<H>,
    bound: BoundView<H>,
    accept: AcceptView<H>,
)
    ensures
        node.fed_by(task) <==> task.number == Some(node.number),
        bound.fed_by(accept) <==> accept.number == bound.number,
{
}

/// The connections that run are kept in the order they came in, one that has ended is left out, and
/// no other is.
pub proof fn law_running_are_kept_in_order(connections: Seq<Connection>, c: Connection)
    ensures
        running(Seq::empty()).len() == 0,
        running(connections.push(c)) == (if c.ended {
            running(connections)
        } else {
            running(connections).push(c)
        }),
{
    reveal(Seq::filter);
    let pushed = connections.push(c);
    lemma_running_last(pushed);
    assert(pushed.drop_last() == connections);
}

/// A connection that ends is marked, on that socket and no other, and what was marked stays so; the
/// sockets are those of the connections, one each, in order.
pub proof fn law_ending_marks_that_socket(connections: Seq<Connection>, socket: i32, i: int)
    requires
        0 <= i < connections.len(),
    ensures
        with_ended(connections, socket).len() == connections.len(),
        with_ended(connections, socket)[i].socket == connections[i].socket,
        with_ended(connections, socket)[i].ended <==> connections[i].ended || connections[i].socket
            == socket,
        sockets(connections).len() == connections.len(),
        sockets(connections)[i] == connections[i].socket,
        sockets(with_ended(connections, socket)) == sockets(connections),
{
    assert(sockets(with_ended(connections, socket)) == sockets(connections));
}

} // verus!
