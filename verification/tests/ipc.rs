//! the library driven against real sockets, one system call at a time

use rustix::event::{poll, PollFd, PollFlags, Timespec};
use rustix::fd::{AsFd, AsRawFd, BorrowedFd, OwnedFd};
use rustix::fs::{fstat, open, unlink, Dir, Mode, OFlags};
use rustix::io::{dup, read, Errno};
use rustix::net::sockopt::set_socket_passcred;
use rustix::net::{
    accept_with, bind, connect, listen, recvmsg, sendmsg, socket_with, socketpair, AddressFamily,
    RecvAncillaryBuffer, RecvAncillaryMessage, RecvFlags, SendAncillaryBuffer,
    SendAncillaryMessage, SendFlags, SocketAddrUnix, SocketFlags, SocketType,
};
use std::collections::HashMap;
use std::io::{IoSlice, IoSliceMut};
use std::mem::MaybeUninit;
use std::sync::Arc;
use strong_ipc::capability::{DeathStep, SendStep, WaitStep};
use strong_ipc::directory::SocketId;
use strong_ipc::local::Locals;
use strong_ipc::message::SendFd;
use strong_ipc::node::{AcceptLoop, AcceptStep, LoopEvent, LoopStep, RecvLoop};
use strong_ipc::outbox::{Drain, Settled};
use strong_ipc::wire::{
    plan_send, send_numbers, Received, SendOutcome, UCred, MAX_ANCILLARY_BUFFER_SIZE,
};
use strong_ipc::{
    BoundNode, Message, Node, Ref, Refs, SendError, TrySendError, WeakRef, MAX_MESSAGE_SIZE,
};

const PAYLOAD: usize = 4096;

/// one delivered message: its payload, the descriptors that rode along, and who sent it
type Delivered = (Vec<u8>, Vec<i32>, Option<UCred>);

/// everything outside the library that a process has: descriptors by number, and drain tasks
struct World {
    refs: Refs,
    locals: Locals,
    fds: HashMap<i32, OwnedFd>,
    /// the descriptor each drain task sends on
    drains: HashMap<WeakRef, OwnedFd>,
    /// what a drain task could not send yet
    stuck: HashMap<WeakRef, Message>,
}

/// a node and its receive loop
struct Live<H> {
    node: Option<Node<H>>,
    task: RecvLoop<H>,
    rx: i32,
    woken: Vec<u64>,
}

impl World {
    fn new() -> World {
        World {
            refs: Refs::new(),
            locals: Locals::new(),
            fds: HashMap::new(),
            drains: HashMap::new(),
            stuck: HashMap::new(),
        }
    }

    fn adopt(&mut self, fd: OwnedFd) -> i32 {
        let n = fd.as_raw_fd();
        assert!(self.fds.insert(n, fd).is_none(), "descriptor {n} adopted twice");
        n
    }

    fn close(&mut self, n: i32) {
        assert!(self.fds.remove(&n).is_some(), "descriptor {n} closed twice");
    }

    fn dup(&mut self, n: i32) -> i32 {
        let copy = dup(&self.fds[&n]).expect("dup");
        self.adopt(copy)
    }

    fn identity(&self, n: i32) -> Option<SocketId> {
        let stat = fstat(&self.fds[&n]).ok()?;
        Some((stat.st_dev as u64, stat.st_ino as u64))
    }

    /// a capability from a descriptor
    fn intern(&mut self, n: i32) -> Ref {
        let id = self.identity(n);
        assert!(self.refs.can_intern(id));
        let (r, redundant) = Ref::from_owned_fd(&mut self.refs, n, id);
        if let Some(redundant) = redundant {
            self.close(redundant);
        }
        r
    }

    fn share(&mut self, r: &Ref) -> Ref {
        assert!(self.refs.can_share(r));
        r.share(&mut self.refs)
    }

    fn drop_ref(&mut self, r: Ref) {
        let weak = r.downgrade();
        if let Some(last) = r.release(&mut self.refs) {
            let retired = last.unfile(&mut self.refs);
            self.close(retired.fd);
            if let Some(watch) = retired.watch {
                self.close(watch);
            }
            assert_eq!(retired.draining, self.drains.contains_key(&weak));
        }
    }

    fn dispose(&mut self, mut message: Message) {
        while let Some(fd) = message.take_fd() {
            match fd {
                SendFd::Owned(n) => self.close(n),
                SendFd::Ref(r) => self.drop_ref(r),
            }
        }
    }

    fn node<H>(&mut self, handler: Arc<H>, tag: u64, kind: u64) -> (Live<H>, Ref) {
        let (tx, rx) = socketpair(
            AddressFamily::UNIX,
            SocketType::SEQPACKET,
            SocketFlags::CLOEXEC | SocketFlags::NONBLOCK,
            None,
        )
        .expect("socketpair");
        set_socket_passcred(&rx, true).expect("passcred");
        let (tx, rx) = (self.adopt(tx), self.adopt(rx));
        let id = self.identity(tx);
        assert!(self.refs.can_intern(id) && self.locals.can_file());
        let made =
            Node::new_raw(&mut self.refs, &mut self.locals, tx, id, rx, handler, tag, kind);
        assert!(made.redundant.is_none());
        let live = Live { node: Some(made.node), task: made.task, rx, woken: Vec::new() };
        (live, made.node_ref)
    }

    fn kernel_send(&self, fd: BorrowedFd<'_>, message: &Message) -> SendOutcome {
        let Ok(plan) = plan_send(message) else {
            return SendOutcome::Failed;
        };
        assert_eq!(plan.data_len, message.data().len());
        let numbers = send_numbers(message, &self.refs);
        let fds: Vec<BorrowedFd<'_>> = numbers.iter().map(|n| self.fds[n].as_fd()).collect();
        let mut space = vec![MaybeUninit::<u8>::uninit(); plan.control_len + 8];
        let mut control = SendAncillaryBuffer::new(&mut space);
        if !fds.is_empty() {
            assert!(control.push(SendAncillaryMessage::ScmRights(&fds)));
        }
        let data = [IoSlice::new(message.data())];
        match sendmsg(fd, &data, &mut control, SendFlags::DONTWAIT | SendFlags::NOSIGNAL) {
            Ok(_) => SendOutcome::Sent,
            Err(Errno::WOULDBLOCK) => SendOutcome::WouldBlock,
            Err(_) => SendOutcome::Failed,
        }
    }

    /// carries a send through to its end
    fn carry(&mut self, r: &Ref, mut step: SendStep) -> SendStep {
        loop {
            step = match step {
                SendStep::SendNow(message) => {
                    let n = r.borrowed_fd(&self.refs);
                    let outcome = self.kernel_send(self.fds[&n].as_fd(), &message);
                    r.inline_sent(&mut self.refs, message, outcome)
                }
                SendStep::NeedOutbox(message) => {
                    let n = r.borrowed_fd(&self.refs);
                    let copy = dup(&self.fds[&n]).expect("dup");
                    let (next, installed) = r.outbox_built(&mut self.refs, message, true);
                    if installed {
                        self.drains.insert(r.downgrade(), copy);
                    }
                    next
                }
                done => return done,
            }
        }
    }

    fn try_send(&mut self, r: &Ref, message: Message) -> Result<(), TrySendError> {
        let step = r.try_send(&mut self.refs, message);
        match self.carry(r, step) {
            SendStep::Delivered(message) => {
                self.dispose(message);
                Ok(())
            }
            SendStep::Queued => Ok(()),
            SendStep::Refused(e) => Err(e),
            _ => unreachable!(),
        }
    }

    /// like `try_send`, but draining where it has to wait for room
    fn send(&mut self, r: &Ref, message: Message) -> Result<(), SendError> {
        let step = r.try_send(&mut self.refs, message);
        let tried = self.carry(r, step);
        assert!(r.can_wait(&self.refs));
        let mut step = r.send(&mut self.refs, tried);
        loop {
            match step {
                WaitStep::Delivered(message) => {
                    self.dispose(message);
                    return Ok(());
                }
                WaitStep::Queued => return Ok(()),
                WaitStep::Refused(e) => return Err(e),
                WaitStep::InLine(ticket, message) => {
                    self.drain(r.downgrade());
                    assert!(r.knows(&self.refs, ticket));
                    step = r.claim(&mut self.refs, ticket, message);
                }
                WaitStep::SendNow(_) | WaitStep::NeedOutbox(_) => unreachable!(),
            }
        }
    }

    /// runs a drain task until it has to wait; `true` if it is finished
    fn drain(&mut self, of: WeakRef) -> bool {
        loop {
            let message = match self.stuck.remove(&of) {
                Some(message) => message,
                None => match self.refs.drain_next(of) {
                    Some(Drain::Send(message)) => message,
                    Some(Drain::Idle) | None => return false,
                    Some(Drain::Finished) => {
                        self.drains.remove(&of);
                        return true;
                    }
                },
            };
            let outcome = self.kernel_send(self.drains[&of].as_fd(), &message);
            let settled = match self.refs.drain_sent(of, message, outcome) {
                Ok(settled) => settled,
                Err(_) => panic!("the drain task held a message nobody gave it"),
            };
            match settled {
                Settled::Again(message) => {
                    self.stuck.insert(of, message);
                    return false;
                }
                Settled::Done(message) => self.dispose(message),
                Settled::Stopped(message, behind) => {
                    self.dispose(message);
                    for lost in behind {
                        self.dispose(lost);
                    }
                }
            }
        }
    }

    /// one packet, or `None` if none is there
    fn receive(&mut self, rx: i32, buf: &mut [u8]) -> Option<Received<Vec<i32>>> {
        let mut space = vec![MaybeUninit::<u8>::uninit(); MAX_ANCILLARY_BUFFER_SIZE + 8];
        let mut control = RecvAncillaryBuffer::new(&mut space);
        let mut iov = [IoSliceMut::new(buf)];
        let flags = RecvFlags::DONTWAIT | RecvFlags::TRUNC | RecvFlags::CMSG_CLOEXEC;
        let got = match recvmsg(&self.fds[&rx], &mut iov, &mut control, flags) {
            Ok(got) => got,
            Err(Errno::WOULDBLOCK) => return None,
            Err(Errno::CONNRESET) => return Some(Received { bytes: 0, fds: Vec::new(), creds: None }),
            Err(e) => panic!("recvmsg: {e}"),
        };
        let mut creds = None;
        let mut arrived = Vec::new();
        for part in control.drain() {
            match part {
                RecvAncillaryMessage::ScmRights(fds) => arrived.extend(fds),
                RecvAncillaryMessage::ScmCredentials(c) => {
                    creds = Some(UCred {
                        pid: c.pid.as_raw_nonzero().get(),
                        uid: c.uid.as_raw(),
                        gid: c.gid.as_raw(),
                    });
                }
                _ => {}
            }
        }
        let fds = arrived.into_iter().map(|fd| self.adopt(fd)).collect();
        Some(Received { bytes: got.bytes, fds, creds })
    }

    /// lets a receive loop run until it has to wait or ends
    fn pump<H>(&mut self, live: &mut Live<H>) -> Vec<Delivered> {
        let mut out = Vec::new();
        let mut buf = vec![0u8; MAX_MESSAGE_SIZE];
        while live.task.is_running() {
            let Some(packet) = self.receive(live.rx, &mut buf) else {
                break;
            };
            match live.task.step(LoopEvent::Packet(packet)) {
                LoopStep::Deliver { len, fds, creds } => {
                    out.push((buf[..len].to_vec(), fds, creds));
                }
                LoopStep::Discard { fds, .. } => {
                    for fd in fds {
                        self.close(fd);
                    }
                }
                LoopStep::Stop { ok, socket, left } => {
                    assert!(ok, "a hangup is not a failure");
                    for fd in left.into_iter().flatten() {
                        self.close(fd);
                    }
                    self.end(live, socket);
                }
            }
        }
        out
    }

    fn end<H>(&mut self, live: &mut Live<H>, socket: i32) {
        assert_eq!(socket, live.rx);
        self.close(socket);
        live.woken = live.task.bury(&mut self.locals);
    }

    fn drop_node<H>(&mut self, live: &mut Live<H>) {
        let node = live.node.take().expect("the node is still there");
        assert!(node.is_fed_by(&live.task));
        if let Some(socket) = node.abort(&mut live.task) {
            self.end(live, socket);
        }
    }

    fn is_dead(&self, r: &Ref) -> bool {
        let n = r.borrowed_fd(&self.refs);
        self.hung_up(n)
    }

    fn hung_up(&self, n: i32) -> bool {
        let mut fds = [PollFd::new(&self.fds[&n], PollFlags::empty())];
        let now = Timespec { tv_sec: 0, tv_nsec: 0 };
        poll(&mut fds, Some(&now)).expect("poll");
        fds[0].revents().intersects(PollFlags::HUP | PollFlags::ERR)
    }

    /// what waiting for the node's death comes to right now
    fn death(&mut self, r: &Ref) -> bool {
        let dead = self.is_dead(r);
        let step = match r.death_notification(&self.refs, dead) {
            DeathStep::NeedWatch => {
                let n = r.borrowed_fd(&self.refs);
                let copy = self.dup(n);
                let (step, redundant) = r.watch_built(&mut self.refs, Some(copy));
                assert!(redundant.is_none());
                step
            }
            step => step,
        };
        match step {
            DeathStep::Resolved => true,
            DeathStep::AwaitHangup(watch) => self.hung_up(watch),
            DeathStep::NeedWatch | DeathStep::Never => panic!("nothing to wait for"),
        }
    }

    /// hands `r` over on `to` and gives what came out at `live`
    fn round_trip<H>(&mut self, to: &Ref, live: &mut Live<H>, r: &Ref, payload: &[u8]) -> Ref {
        let mut message = Message::from_data(payload.to_vec());
        message.add_ref(&mut self.refs, r);
        assert!(self.try_send(to, message).is_ok(), "send the capability");
        let mut got = self.pump(live);
        assert_eq!(got.len(), 1);
        let (data, fds, _) = got.pop().unwrap();
        assert_eq!(data, payload);
        assert_eq!(fds.len(), 1, "one capability");
        self.intern(fds[0])
    }
}

fn is_node_dead<H>(live: &Live<H>) -> bool {
    live.node.as_ref().expect("the node is still there").is_dead(&live.task)
}

fn numbered(seq: u32, fill: u8) -> Message {
    let mut data = vec![fill; PAYLOAD];
    data[..4].copy_from_slice(&seq.to_le_bytes());
    Message::from_data(data)
}

fn seq_of(data: &[u8]) -> u32 {
    u32::from_le_bytes(data[..4].try_into().unwrap())
}

// ---------------------------------------------------------------- the registry

#[test]
fn dropping_a_ref_unfiles_it() {
    let mut w = World::new();
    let (_live, first) = w.node(Arc::new(()), 0, 0);
    let n = first.borrowed_fd(&w.refs);
    let id = w.identity(n).expect("fstat");
    assert!(w.refs.is_filed(id), "a live Ref should be filed");

    // a second descriptor for the same socket is the case the registry exists for
    let copy = w.dup(n);
    let second = w.intern(copy);
    assert!(first.is_same(&second), "a dup of the socket was not recognised");
    assert_eq!(w.refs.filed_len(), 1, "one socket should occupy one entry");

    w.drop_ref(second);
    assert!(w.refs.is_filed(id), "a Ref with another clone outstanding must stay filed");

    w.drop_ref(first);
    assert!(
        !w.refs.is_filed(id),
        "the last Ref to a socket left its entry behind, so the next socket to be issued this \
         inode number would be mistaken for it"
    );
    assert_eq!(w.refs.filed_len(), 0);
}

#[test]
fn an_unfiled_ref_removes_nothing_on_the_way_out() {
    let mut w = World::new();
    let (_live, filed) = w.node(Arc::new(()), 0, 0);
    let n = filed.borrowed_fd(&w.refs);
    let id = w.identity(n).expect("fstat");

    // what is made when there is no identity: same socket, no entry of its own
    let copy = w.dup(n);
    let (unfiled, redundant) = Ref::from_owned_fd(&mut w.refs, copy, None);
    assert!(redundant.is_none());
    assert!(!filed.is_same(&unfiled), "an unfiled Ref is nobody's twin");
    assert_eq!(unfiled.socket_id(&w.refs), None);

    w.drop_ref(unfiled);
    assert!(
        w.refs.is_filed(id),
        "dropping an unfiled Ref took someone else's entry with it"
    );
    assert_eq!(filed.socket_id(&w.refs), Some(id));
}

#[test]
fn an_arrival_while_the_last_ref_goes_is_not_taken_down_with_it() {
    let mut w = World::new();
    let (_live, first) = w.node(Arc::new(()), 0, 0);
    let n = first.borrowed_fd(&w.refs);
    let id = w.identity(n).expect("fstat");
    let copy = w.dup(n);

    // the last share is gone, but what is kept is not taken down yet
    let last = first.release(&mut w.refs).expect("it was the last");
    let second = w.intern(copy);
    assert!(w.refs.is_filed(id));
    let retired = last.unfile(&mut w.refs);
    assert_eq!(retired.fd, n);
    w.close(retired.fd);
    assert!(w.refs.is_filed(id), "a live entry went with a dead one");

    let copy = w.dup(copy);
    let third = w.intern(copy);
    assert!(second.is_same(&third));
}

// ---------------------------------------------------------------- identity

#[test]
fn the_same_capability_is_recognised_across_arrivals() {
    let mut w = World::new();
    let (mut collector, collector_ref) = w.node(Arc::new(()), 0, 0);
    let (_subject, subject_ref) = w.node(Arc::new(()), 1, 0);

    let first = w.round_trip(&collector_ref, &mut collector, &subject_ref, b"here it is");
    let again = w.round_trip(&collector_ref, &mut collector, &subject_ref, b"here it is again");
    assert!(
        first.is_same(&again),
        "the same capability arriving twice produced two unrelated Refs"
    );
    assert!(
        first.is_same(&subject_ref),
        "a capability handed out and received back is not the one we handed out"
    );
    assert!(first == subject_ref);
}

#[test]
fn duplicates_within_one_message_collapse() {
    let mut w = World::new();
    let (mut collector, collector_ref) = w.node(Arc::new(()), 0, 0);
    let (_subject, subject_ref) = w.node(Arc::new(()), 1, 0);

    let mut message = Message::from_data(b"three times".to_vec());
    for _ in 0..3 {
        message.add_ref(&mut w.refs, &subject_ref);
    }
    assert!(w.send(&collector_ref, message).is_ok(), "peer closed");

    let (_, fds, _) = w.pump(&mut collector).remove(0);
    assert_eq!(fds.len(), 3, "all three descriptors should arrive");
    let received: Vec<Ref> = fds.into_iter().map(|fd| w.intern(fd)).collect();
    assert!(
        received[0].is_same(&received[1]) && received[1].is_same(&received[2]),
        "three copies of one capability produced more than one Ref"
    );
}

#[test]
fn distinct_nodes_stay_distinct_across_inode_reuse() {
    let mut w = World::new();
    let (mut collector, collector_ref) = w.node(Arc::new(()), 0, 0);

    let mut previous: Option<WeakRef> = None;
    for round in 0..64 {
        let (mut subject, subject_ref) = w.node(Arc::new(()), 1, 0);
        let payload = format!("round {round}").into_bytes();
        let received = w.round_trip(&collector_ref, &mut collector, &subject_ref, &payload);
        assert!(
            received.is_same(&subject_ref),
            "round {round}: received capability is not the one sent"
        );
        if let Some(previous) = previous {
            assert!(
                previous != received.downgrade(),
                "round {round}: a new node's capability was mistaken for a dead one's"
            );
            assert!(!previous.is_live(&w.refs));
        }
        previous = Some(received.downgrade());
        // everything of this round goes, freeing its socket's inode number for the next
        w.drop_ref(received);
        w.drop_ref(subject_ref);
        assert!(w.pump(&mut subject).is_empty());
        assert!(is_node_dead(&subject));
    }
}

#[test]
fn refs_key_a_hashmap_of_per_peer_state() {
    let mut w = World::new();
    let (mut collector, collector_ref) = w.node(Arc::new(()), 0, 0);
    let (mut a, a_ref) = w.node(Arc::new(()), 1, 0);
    let (mut b, b_ref) = w.node(Arc::new(()), 2, 0);

    let mut seen: HashMap<Ref, u32> = HashMap::new();
    for sender in [&a_ref, &b_ref, &a_ref, &a_ref, &b_ref] {
        let received = w.round_trip(&collector_ref, &mut collector, sender, b"tally me");
        if seen.contains_key(&received) {
            *seen.get_mut(&received).unwrap() += 1;
            w.drop_ref(received);
        } else {
            seen.insert(received, 1);
        }
    }

    assert_eq!(seen.len(), 2, "two peers should occupy two entries");
    assert_eq!(seen.get(&a_ref), Some(&3), "peer a sent three times");
    assert_eq!(seen.get(&b_ref), Some(&2), "peer b sent twice");

    // and the keys are usable as capabilities, not just as identities
    for peer in seen.keys() {
        assert!(w.send(peer, Message::from_data(b"tallied".to_vec())).is_ok(), "peer closed");
    }
    assert_eq!(w.pump(&mut a)[0].0, b"tallied");
    assert_eq!(w.pump(&mut b)[0].0, b"tallied");
}

#[test]
fn a_recognised_ref_keeps_its_node_alive() {
    let mut w = World::new();
    let (mut collector, collector_ref) = w.node(Arc::new(()), 0, 0);
    let (mut subject, subject_ref) = w.node(Arc::new(()), 1, 0);
    let received = w.round_trip(&collector_ref, &mut collector, &subject_ref, b"hold this");

    // the capability we sent is gone; the one that arrived is not, and it is the same one
    w.drop_ref(subject_ref);
    w.pump(&mut subject);
    assert!(!is_node_dead(&subject), "the received capability stopped counting");
    assert!(!w.is_dead(&received), "the subject hung up while still held");

    w.drop_ref(received);
    w.pump(&mut subject);
    assert!(
        is_node_dead(&subject),
        "dropping the last capability should hang the subject's socket up"
    );
}

// ---------------------------------------------------------------- backpressure and order

#[test]
fn a_full_queue_is_reported_as_full_never_as_closed() {
    let mut w = World::new();
    let (mut live, target) = w.node(Arc::new(()), 0, 0);

    // nothing is received in this loop, so the socket and then the queue fill
    let mut accepted = 0u32;
    let mut rejected = None;
    for seq in 0..100_000u32 {
        match w.try_send(&target, numbered(seq, 0xAB)) {
            Ok(()) => accepted += 1,
            Err(TrySendError::Full(returned)) => {
                rejected = Some(returned);
                break;
            }
            Err(TrySendError::Closed(_)) => {
                panic!("a merely-full queue was reported as a dead peer at seq {seq}")
            }
            Err(TrySendError::TooLarge(_)) => unreachable!("fixed {PAYLOAD} B payload"),
        }
    }
    let mut rejected =
        rejected.expect("the queue never filled, so backpressure was never exercised");
    assert!(accepted > 0, "nothing was accepted at all");
    assert_eq!(seq_of(rejected.data()), accepted);

    // let everything land, retrying the one that bounced
    let mut seen: Vec<u32> = Vec::new();
    loop {
        match w.try_send(&target, rejected) {
            Ok(()) => break,
            Err(TrySendError::Full(m)) => {
                rejected = m;
                seen.extend(w.pump(&mut live).iter().map(|d| seq_of(&d.0)));
                w.drain(target.downgrade());
            }
            Err(_) => panic!("peer closed while retrying"),
        }
    }
    let total = accepted + 1;
    while (seen.len() as u32) < total {
        w.drain(target.downgrade());
        let got = w.pump(&mut live);
        assert!(!got.is_empty(), "{total} messages were accepted but only {} arrived", seen.len());
        seen.extend(got.iter().map(|d| seq_of(&d.0)));
    }
    // the retried one lands in its own position too
    let expected: Vec<u32> = (0..total).collect();
    assert_eq!(seen, expected, "backpressure reordered accepted messages");
}

#[test]
fn strict_ordering_across_the_fast_path_boundary() {
    const MESSAGES: u32 = 50_000;
    let mut w = World::new();
    let (mut live, target) = w.node(Arc::new(()), 0, 0);
    // a second node just to have a capability worth attaching to every message
    let (_cap, cap_ref) = w.node(Arc::new(()), 1, 0);

    let (mut queue_full, mut received, mut out_of_order) = (0u64, 0u64, 0u64);
    let (mut corrupt, mut fds_seen, mut next_expected) = (0u64, 0u64, 0u64);
    let mut check = |w: &mut World, live: &mut Live<()>, at_most: usize| {
        let mut buf = vec![0u8; MAX_MESSAGE_SIZE];
        for _ in 0..at_most {
            let Some(packet) = w.receive(live.rx, &mut buf) else {
                break;
            };
            let LoopStep::Deliver { len, fds, .. } = live.task.step(LoopEvent::Packet(packet))
            else {
                panic!("not delivered");
            };
            let data = &buf[..len];
            received += 1;
            fds_seen += fds.len() as u64;
            for fd in fds {
                w.close(fd);
            }
            let seq = seq_of(data) as u64;
            if seq != next_expected {
                out_of_order += 1;
            }
            next_expected = seq + 1;
            let tag = (seq as u8).wrapping_mul(31);
            if data[4..].iter().any(|b| *b != tag) {
                corrupt += 1;
            }
        }
        received
    };

    for seq in 0..MESSAGES {
        let mut message = numbered(seq, (seq as u8).wrapping_mul(31));
        message.add_ref(&mut w.refs, &cap_ref);
        loop {
            match w.try_send(&target, message) {
                Ok(()) => break,
                Err(TrySendError::Full(m)) => {
                    message = m;
                    queue_full += 1;
                    // let the two sides go on in turns of different lengths
                    check(&mut w, &mut live, 1 + (queue_full % 7) as usize);
                    if queue_full % 3 != 0 {
                        w.drain(target.downgrade());
                    }
                }
                Err(TrySendError::Closed(_)) => panic!("target ref closed at seq {seq}"),
                Err(TrySendError::TooLarge(_)) => {
                    unreachable!("payload is a fixed {PAYLOAD} B, under the limit")
                }
            }
        }
        if seq % 1024 == 0 {
            check(&mut w, &mut live, 16);
        }
    }
    let mut arrived = 0;
    while arrived < MESSAGES as u64 {
        w.drain(target.downgrade());
        let now = check(&mut w, &mut live, 64);
        assert!(now > arrived, "not every message arrived");
        arrived = now;
    }
    assert!(queue_full > 0, "the fallback path was never exercised");
    assert_eq!(received, MESSAGES as u64, "not every message arrived");
    assert_eq!(out_of_order, 0, "messages arrived out of order");
    assert_eq!(corrupt, 0, "payload corrupted");
    assert_eq!(fds_seen, received, "expected exactly one capability per message");
}

#[test]
fn dropping_the_last_ref_still_drains_the_queue() {
    let mut w = World::new();
    let mut server = Server::bind(&mut w, "drain", Arc::new(()));
    let client = server.connect(&mut w);

    // fill the socket, then the queue, so there is a real backlog to lose
    let mut accepted = 0u32;
    for seq in 0..100_000u32 {
        match w.try_send(&client, numbered(seq, 0x5A)) {
            Ok(()) => accepted += 1,
            Err(TrySendError::Full(_)) => break,
            Err(TrySendError::Closed(_)) => panic!("closed while filling"),
            Err(TrySendError::TooLarge(_)) => unreachable!("fixed {PAYLOAD} B payload"),
        }
    }
    assert!(accepted > 0, "nothing was accepted");

    // the last Ref goes away while the backlog is still queued
    let weak = client.downgrade();
    w.drop_ref(client);

    let mut seen: Vec<u32> = Vec::new();
    let mut finished = false;
    while (seen.len() as u32) < accepted {
        seen.extend(server.pump(&mut w).iter().map(|m| seq_of(&m.1)));
        finished = finished || w.drain(weak);
        assert!(!server.connections.is_empty() || seen.len() as u32 == accepted);
    }
    assert!(finished, "the drain task never finished");
    assert_eq!(
        seen,
        (0..accepted).collect::<Vec<_>>(),
        "queue drained out of order"
    );
    // with the backlog gone the socket hangs up at last
    server.pump(&mut w);
    assert!(server.connections.is_empty());
    server.close(&mut w);
}

#[test]
fn the_outbox_can_be_built_from_a_non_runtime_thread() {
    assert!(
        tokio::runtime::Handle::try_current().is_err(),
        "this thread was supposed to have no runtime context"
    );
    let mut w = World::new();
    let mut server = Server::bind(&mut w, "offthread", Arc::new(()));
    let client = server.connect(&mut w);

    // the socket fills partway through, so it is this thread that ends up building the outbox
    let mut accepted = 0u32;
    for seq in 0..100_000u32 {
        match w.try_send(&client, numbered(seq, 0x5A)) {
            Ok(()) => accepted += 1,
            Err(TrySendError::Full(_)) => break,
            Err(TrySendError::Closed(_)) => panic!("closed while filling off-runtime"),
            Err(TrySendError::TooLarge(_)) => unreachable!("fixed {PAYLOAD} B payload"),
        }
    }
    assert!(accepted > 0, "nothing was accepted from the off-runtime thread");
    assert_eq!(w.drains.len(), 1, "the outbox was built once");

    let mut seen: Vec<u32> = Vec::new();
    while (seen.len() as u32) < accepted {
        let got = server.pump(&mut w);
        assert!(!got.is_empty(), "messages sent from an off-runtime thread were lost");
        seen.extend(got.iter().map(|m| seq_of(&m.1)));
        w.drain(client.downgrade());
    }
    assert_eq!(seen, (0..accepted).collect::<Vec<_>>(), "off-runtime sends reordered");
    server.close(&mut w);
}

#[test]
fn a_drain_task_that_is_gone_closes_the_queue_and_not_the_socket() {
    let mut w = World::new();
    let (mut live, target) = w.node(Arc::new(()), 0, 0);
    let mut accepted = 0u32;
    while w.try_send(&target, numbered(accepted, 1)).is_ok() {
        accepted += 1;
    }
    // what waited comes back, in order; what the task held went with it
    w.drain(target.downgrade());
    let held = w.stuck.remove(&target.downgrade()).expect("the socket is full");
    let behind = w.refs.drain_gone(target.downgrade());
    let first = seq_of(held.data());
    let waited: Vec<u32> = behind.iter().map(|m| seq_of(m.data())).collect();
    assert_eq!(waited, (first + 1..accepted).collect::<Vec<_>>());
    assert!(w.refs.drain_sent(target.downgrade(), held, SendOutcome::Sent).is_err());
    assert!(w.refs.drain_gone(target.downgrade()).is_empty());

    // nothing more is queued, and a send that would have to wait is told so
    assert!(matches!(w.try_send(&target, numbered(0, 1)), Err(TrySendError::Closed(_))));
    assert!(matches!(w.send(&target, numbered(0, 1)), Err(SendError::Closed(_))));
    let seen: Vec<u32> = w.pump(&mut live).iter().map(|d| seq_of(&d.0)).collect();
    assert_eq!(seen, (0..first).collect::<Vec<_>>());
    assert!(!is_node_dead(&live));
}

#[test]
fn a_message_that_finds_no_room_waits_for_it() {
    let mut w = World::new();
    let (mut live, target) = w.node(Arc::new(()), 0, 0);
    let mut accepted = 0u32;
    while w.try_send(&target, numbered(accepted, 1)).is_ok() {
        accepted += 1;
    }
    let step = target.try_send(&mut w.refs, numbered(accepted, 1));
    let WaitStep::InLine(ticket, message) = target.send(&mut w.refs, step) else {
        panic!("there was room");
    };
    // the drain task takes one: a newcomer does not get in front of the one who waits
    let Some(Drain::Send(held)) = w.refs.drain_next(target.downgrade()) else {
        panic!("nothing to drain");
    };
    w.stuck.insert(target.downgrade(), held);
    assert!(matches!(w.try_send(&target, numbered(u32::MAX, 1)), Err(TrySendError::Full(_))));
    assert!(matches!(target.claim(&mut w.refs, ticket, message), WaitStep::Queued));
    // and one that goes on draining where it has to wait gets its turn too
    assert!(w.pump(&mut live).len() as u32 <= accepted);
    assert!(w.send(&target, numbered(accepted + 1, 1)).is_ok());
    let mut last = None;
    loop {
        let got = w.pump(&mut live);
        if got.is_empty() {
            break;
        }
        last = got.last().map(|d| seq_of(&d.0));
        w.drain(target.downgrade());
    }
    assert_eq!(last, Some(accepted + 1));
}

// ---------------------------------------------------------------- who outlives whom

#[test]
fn a_ref_outliving_its_node_reports_closed() {
    let mut w = World::new();
    let (mut live, orphan) = w.node(Arc::new(()), 0, 0);
    w.drop_node(&mut live);
    assert!(
        matches!(
            w.try_send(&orphan, Message::from_data(b"anyone there?".to_vec())),
            Err(TrySendError::Closed(_))
        ),
        "sending through a ref whose node is gone should report Closed"
    );
}

#[test]
fn a_ref_notices_its_node_going_away() {
    let mut w = World::new();
    let (mut live, orphan) = w.node(Arc::new(()), 0, 0);

    assert!(!w.is_dead(&orphan), "a live node's ref reported dead");
    assert!(!w.death(&orphan), "death fired while the node was still alive");

    w.drop_node(&mut live);
    assert!(w.death(&orphan), "death_notification never resolved after the node was dropped");
    assert!(w.is_dead(&orphan), "is_dead disagrees with death_notification");

    // the whole point: this is knowable before a send fails
    assert!(matches!(
        w.try_send(&orphan, Message::from_data(b"?".to_vec())),
        Err(TrySendError::Closed(_))
    ));
}

#[test]
fn a_watch_is_registered_once_and_never_without_a_descriptor() {
    let mut w = World::new();
    let (_live, r) = w.node(Arc::new(()), 0, 0);
    assert_eq!(r.death_notification(&w.refs, true), DeathStep::Resolved);
    assert_eq!(r.death_notification(&w.refs, false), DeathStep::NeedWatch);
    // nothing could be registered: wait forever rather than claim a death
    assert_eq!(r.watch_built(&mut w.refs, None), (DeathStep::Never, None));
    assert_eq!(r.watch_built(&mut w.refs, Some(70)), (DeathStep::AwaitHangup(70), None));
    // a concurrent waiter registered another one
    assert_eq!(r.watch_built(&mut w.refs, Some(71)), (DeathStep::AwaitHangup(70), Some(71)));
    assert_eq!(r.death_notification(&w.refs, false), DeathStep::AwaitHangup(70));
}

#[test]
fn a_node_notices_its_last_ref_going_away() {
    let mut w = World::new();
    let (mut live, node_ref) = w.node(Arc::new(()), 0, 0);
    let second = w.share(&node_ref);

    assert!(!is_node_dead(&live), "a fresh node reported dead");
    let node = live.node.take().unwrap();
    let ticket = node.death_notification(&mut live.task).expect("a live node's death fired");
    live.node = Some(node);

    // one of two refs going is not the last word
    w.drop_ref(node_ref);
    w.pump(&mut live);
    assert!(live.woken.is_empty(), "the node gave up while a Ref to it was still alive");
    assert!(!is_node_dead(&live));

    // the last one is
    w.drop_ref(second);
    w.pump(&mut live);
    assert_eq!(live.woken, vec![ticket], "the node never noticed its last Ref going away");
    assert!(is_node_dead(&live), "is_dead disagrees with death_notification");
    let node = live.node.take().unwrap();
    assert_eq!(node.death_notification(&mut live.task), None);
}

#[test]
fn a_node_reports_a_receive_loop_that_stopped_on_its_own() {
    let mut w = World::new();
    let (mut live, node_ref) = w.node(Arc::new(()), 0, 0);

    // an empty message is a zero-length read, indistinguishable from a hangup
    assert!(w.send(&node_ref, Message::from_data(Vec::new())).is_ok());
    assert!(w.pump(&mut live).is_empty());
    assert!(is_node_dead(&live), "the node never reported its receive loop stopping");
    assert!(
        w.is_dead(&node_ref),
        "a node that stopped receiving left its Refs thinking they could still reach it"
    );
}

#[test]
fn every_way_of_ending_a_receive_loop_is_a_death() {
    for event in [LoopEvent::Failed, LoopEvent::Aborted, LoopEvent::Panicked] {
        let mut w = World::new();
        let (mut live, node_ref) = w.node(Arc::new(()), 9, 3);
        let event: LoopEvent<Vec<i32>> = event;
        let LoopStep::Stop { ok, socket, left } = live.task.step(event) else {
            panic!("the loop went on");
        };
        assert!(!ok && left.is_none());
        assert!(!is_node_dead(&live), "dead before its socket was closed");
        w.end(&mut live, socket);
        assert!(is_node_dead(&live));
        assert_eq!(node_ref.local_handler(&w.refs, &w.locals, 3), None);
    }
}

// ---------------------------------------------------------------- payloads and descriptors

#[test]
fn payloads_arrive_intact() {
    let mut w = World::new();
    let (mut live, target) = w.node(Arc::new(()), 0, 0);
    for len in [1usize, 2, 64, 512, 4096, 8191, 8192] {
        let payload: Vec<u8> = (0..len).map(|i| (i % 251) as u8).collect();
        assert!(w.try_send(&target, Message::from_data(payload.clone())).is_ok());
        let (got, fds, _) = w.pump(&mut live).remove(0);
        assert_eq!(got.len(), len, "wrong length for a {len} B payload");
        assert_eq!(got, payload, "corrupted {len} B payload");
        assert!(fds.is_empty(), "unexpected descriptors on a {len} B payload");
    }
}

#[test]
fn zero_length_message_looks_like_a_hangup() {
    let mut w = World::new();
    let (mut live, target) = w.node(Arc::new(()), 0, 0);
    assert!(w.try_send(&target, Message::from_data(Vec::new())).is_ok());
    assert!(
        w.pump(&mut live).is_empty(),
        "a zero-length message was delivered to the handler"
    );
    assert!(
        matches!(
            w.try_send(&target, Message::from_data(b"after".to_vec())),
            Err(TrySendError::Closed(_))
        ),
        "the recv loop survived a zero-length message, or the sender was not told"
    );
}

#[test]
fn reply_travels_back_over_an_attached_capability() {
    let mut w = World::new();
    let (mut echo, echo_ref) = w.node(Arc::new(()), 0, 0);
    let (mut mine, mine_ref) = w.node(Arc::new(()), 1, 0);

    let mut message = Message::from_data(b"ping".to_vec());
    message.add_ref(&mut w.refs, &mine_ref);
    assert!(w.try_send(&echo_ref, message).is_ok());

    // the echo replies on the capability it was handed
    let (data, fds, _) = w.pump(&mut echo).remove(0);
    let reply = w.intern(fds[0]);
    assert!(w.try_send(&reply, Message::from_data(data)).is_ok());

    let (got, _, _) = w.pump(&mut mine).remove(0);
    assert_eq!(got, b"ping");
}

#[test]
fn a_forwarded_descriptor_is_usable_on_the_far_side() {
    let mut w = World::new();
    let pid = rustix::process::getpid().as_raw_nonzero();
    let path = format!("/tmp/strong-ipc-fdtest-{pid}");
    let mode = Mode::RUSR | Mode::WUSR;
    let file = open(path.as_str(), OFlags::CREATE | OFlags::TRUNC | OFlags::WRONLY, mode).unwrap();
    rustix::io::write(&file, b"capability payload").unwrap();
    let file = open(path.as_str(), OFlags::RDONLY, Mode::empty()).unwrap();
    let _ = unlink(path.as_str());

    let (mut live, target) = w.node(Arc::new(()), 0, 0);
    let mut message = Message::from_data(b"here is a file".to_vec());
    let n = w.adopt(file);
    message.add_fd(n);
    assert!(w.try_send(&target, message).is_ok());

    let (got, fds, _) = w.pump(&mut live).remove(0);
    assert_eq!(got, b"here is a file");
    assert_eq!(fds.len(), 1, "the descriptor did not arrive");

    // the descriptor the kernel installed must name the same open file
    let mut contents = [0u8; 64];
    let len = read(&w.fds[&fds[0]], &mut contents[..]).unwrap();
    assert_eq!(&contents[..len], b"capability payload");
}

#[test]
fn messages_arrive_stamped_with_peer_credentials() {
    let mut w = World::new();
    let (mut live, target) = w.node(Arc::new(()), 0, 0);
    assert!(w.send(&target, Message::from_data(b"who am i".to_vec())).is_ok(), "peer closed");
    let (_, _, creds) = w.pump(&mut live).remove(0);
    let creds = creds.expect("no credentials on the message");
    assert_eq!(
        creds.pid,
        rustix::process::getpid().as_raw_nonzero().get(),
        "credentials named a different process"
    );
    assert_eq!(creds.uid, rustix::process::getuid().as_raw());
    assert_eq!(creds.gid, rustix::process::getgid().as_raw());
}

#[test]
fn oversized_messages_are_refused_at_the_sender() {
    let mut w = World::new();
    let (mut live, target) = w.node(Arc::new(()), 0, 0);

    // the largest accepted payload still goes through
    assert!(
        w.send(&target, Message::from_data(vec![1u8; MAX_MESSAGE_SIZE])).is_ok(),
        "a payload of exactly MAX_MESSAGE_SIZE should be accepted"
    );
    let (got, _, _) = w.pump(&mut live).remove(0);
    assert_eq!(got.len(), MAX_MESSAGE_SIZE);

    // one byte more is refused, and comes back intact
    for over in [1usize, 8, 4096, 57344] {
        let len = MAX_MESSAGE_SIZE + over;
        match w.try_send(&target, Message::from_data(vec![2u8; len])) {
            Err(TrySendError::TooLarge(returned)) => {
                assert_eq!(
                    returned.data().len(),
                    len,
                    "the refused message was not handed back intact"
                );
            }
            _ => panic!("expected TooLarge for a {len} B payload"),
        }
    }
    // and `send` reports it too, rather than waiting forever for room that would never help
    assert!(
        matches!(
            w.send(&target, Message::from_data(vec![3u8; MAX_MESSAGE_SIZE + 1])),
            Err(SendError::TooLarge(_))
        ),
        "send should refuse an oversized payload rather than block on it"
    );
    // nothing oversized reached the handler
    assert!(w.pump(&mut live).is_empty(), "an oversized message was delivered anyway");
}

#[test]
fn a_packet_over_the_limit_is_discarded_and_the_loop_goes_on() {
    let mut w = World::new();
    let (mut live, target) = w.node(Arc::new(()), 0, 0);
    // a peer that does not keep to the limit
    let n = target.borrowed_fd(&w.refs);
    let data = vec![9u8; MAX_MESSAGE_SIZE + 1];
    let iov = [IoSlice::new(&data)];
    let mut none = SendAncillaryBuffer::default();
    sendmsg(&w.fds[&n], &iov, &mut none, SendFlags::DONTWAIT).unwrap();
    assert!(w.try_send(&target, Message::from_data(b"ok".to_vec())).is_ok());
    let got = w.pump(&mut live);
    assert_eq!(got.len(), 1);
    assert_eq!(got[0].0, b"ok");
    assert!(!is_node_dead(&live));
}

fn expect_count(counts: &[usize]) {
    let mut w = World::new();
    let (mut live, target) = w.node(Arc::new(()), 0, 0);
    let null = open("/dev/null", OFlags::RDONLY, Mode::empty()).expect("open /dev/null");
    for &n in counts {
        let mut message = Message::from_data(format!("carrying {n}").into_bytes());
        for _ in 0..n {
            let fd = w.adopt(dup(&null).expect("dup /dev/null"));
            message.add_fd(fd);
        }
        assert!(w.try_send(&target, message).is_ok(), "send of {n} descriptors failed");
        let (_, fds, _) = w.pump(&mut live).remove(0);
        assert_eq!(fds.len(), n, "sent {n} descriptors, handler saw {}", fds.len());
        for fd in fds {
            w.close(fd);
        }
    }
}

#[test]
fn descriptors_within_the_inline_buffer() {
    expect_count(&[0, 1, 2, 8, 15, 16]);
}

#[test]
fn descriptors_above_the_inline_buffer() {
    expect_count(&[17, 32, 64, 128, 253]);
}

/// how many descriptors this process has open
fn open_fds() -> usize {
    let flags = OFlags::RDONLY | OFlags::DIRECTORY;
    let fds = open("/proc/self/fd", flags, Mode::empty()).expect("open /proc/self/fd");
    Dir::read_from(&fds).expect("read /proc/self/fd").count()
}

#[test]
fn received_descriptors_are_reclaimed() {
    let mut w = World::new();
    let (mut live, target) = w.node(Arc::new(()), 0, 0);
    let null = open("/dev/null", OFlags::RDONLY, Mode::empty()).expect("open /dev/null");
    let before = open_fds();
    for _ in 0..2_000 {
        let mut message = Message::from_data(b"churn".to_vec());
        for _ in 0..4 {
            let fd = w.adopt(dup(&null).expect("dup /dev/null"));
            message.add_fd(fd);
        }
        assert!(w.try_send(&target, message).is_ok());
        for (_, fds, _) in w.pump(&mut live) {
            for fd in fds {
                w.close(fd);
            }
        }
    }
    let after = open_fds();
    assert_eq!(
        after, before,
        "descriptors leaked: {before} open before, {after} after 2000 messages x 4 caps"
    );
}

#[test]
fn more_descriptors_than_a_packet_carries_end_the_drain_task() {
    let mut w = World::new();
    let (mut live, target) = w.node(Arc::new(()), 0, 0);
    let null = open("/dev/null", OFlags::RDONLY, Mode::empty()).expect("open /dev/null");
    let mut message = Message::from_data(b"too many".to_vec());
    for _ in 0..254 {
        let fd = w.adopt(dup(&null).expect("dup /dev/null"));
        message.add_fd(fd);
    }
    assert!(plan_send(&message).is_err());
    // it is queued and not sent inline, and only the drain task finds out
    assert!(w.try_send(&target, message).is_ok());
    w.drain(target.downgrade());
    assert!(w.pump(&mut live).is_empty());
    // the peer is alive, so what fits is still sent inline
    assert!(w.try_send(&target, Message::from_data(b"fine".to_vec())).is_ok());
    assert_eq!(w.pump(&mut live)[0].0, b"fine");
}

// ---------------------------------------------------------------- local handlers

const COUNTER: u64 = 1;
const OTHER: u64 = 2;

struct Counter(&'static str);

#[test]
fn reaches_its_own_handler() {
    let mut w = World::new();
    let handler = Arc::new(Counter("mine"));
    let (live, node_ref) = w.node(handler.clone(), 11, COUNTER);
    let got = node_ref.local_handler(&w.refs, &w.locals, COUNTER).expect("should be local");
    assert_eq!(got, 11);
    assert_eq!(live.node.as_ref().unwrap().handler().0, "mine");
    assert!(Arc::ptr_eq(live.node.as_ref().unwrap().handler(), &handler));
    assert!(Arc::ptr_eq(live.task.handler(), &handler));
}

#[test]
fn survives_a_round_trip_through_a_socket() {
    let mut w = World::new();
    let (mut relay, relay_ref) = w.node(Arc::new(()), 1, OTHER);
    let (_live, node_ref) = w.node(Arc::new(Counter("bounced")), 12, COUNTER);
    let returned = w.round_trip(&relay_ref, &mut relay, &node_ref, &[0u8; 4]);
    // recognition first: the ref that came back is the one that went out
    assert_eq!(returned, node_ref);
    let got = returned
        .local_handler(&w.refs, &w.locals, COUNTER)
        .expect("a returned capability still leads home");
    assert_eq!(got, 12);
}

#[test]
fn refuses_the_wrong_handler_type() {
    let mut w = World::new();
    let (_live, node_ref) = w.node(Arc::new(Counter("mine")), 13, COUNTER);
    assert!(node_ref.local_handler(&w.refs, &w.locals, COUNTER).is_some());
    assert!(
        node_ref.local_handler(&w.refs, &w.locals, OTHER).is_none(),
        "a downcast to the wrong handler must refuse, not hand back the wrong one"
    );
}

#[test]
fn outlives_to_service() {
    let mut w = World::new();
    let (mut live, node_ref) = w.node(Arc::new(Counter("service")), 14, COUNTER);
    let share = live.node.take().unwrap().to_service();
    assert_eq!(share.0, "service");
    drop(share);
    // the node is still receiving: the refs decide its lifetime now, and we hold one
    let got = node_ref
        .local_handler(&w.refs, &w.locals, COUNTER)
        .expect("a service is still a local node");
    assert_eq!(got, 14);
    assert!(live.task.is_running());
    assert_eq!(live.task.handler().0, "service");
}

#[test]
fn unfiled_when_the_node_handle_drops() {
    let mut w = World::new();
    let (mut live, node_ref) = w.node(Arc::new(Counter("dropped")), 15, COUNTER);
    assert!(node_ref.local_handler(&w.refs, &w.locals, COUNTER).is_some());
    w.drop_node(&mut live);
    assert!(
        node_ref.local_handler(&w.refs, &w.locals, COUNTER).is_none(),
        "entry outlived the node it belonged to"
    );
}

#[test]
fn unfiled_when_a_service_loses_its_last_ref() {
    let mut w = World::new();
    let (mut live, node_ref) = w.node(Arc::new(Counter("abandoned")), 16, COUNTER);
    live.node.take().unwrap().to_service();
    let watcher = w.share(&node_ref);
    let id = watcher.socket_id(&w.refs).expect("an identity");
    w.drop_ref(node_ref);
    w.pump(&mut live);
    assert!(
        watcher.local_handler(&w.refs, &w.locals, COUNTER).is_some(),
        "we still hold a ref, so the node is still alive"
    );
    w.drop_ref(watcher);
    w.pump(&mut live);
    assert!(w.locals.local_handler(id, COUNTER).is_none());
}

#[test]
fn a_reused_inode_does_not_inherit_a_stale_entry() {
    let mut w = World::new();
    for i in 0..64u64 {
        let name = if i % 2 == 0 { "even" } else { "odd" };
        let (mut live, node_ref) = w.node(Arc::new(Counter(name)), i, COUNTER);
        let got = node_ref
            .local_handler(&w.refs, &w.locals, COUNTER)
            .expect("its own entry, not a predecessor's");
        assert_eq!(got, i, "reached a stale handler from a previous node");
        assert_eq!(live.node.as_ref().unwrap().handler().0, name);
        w.drop_node(&mut live);
        w.drop_ref(node_ref);
    }
}

#[test]
fn a_foreign_ref_is_not_local() {
    let mut w = World::new();
    let mut server = Server::bind(&mut w, "local", Arc::new(Counter("bound")));
    let connected = server.connect(&mut w);
    assert!(
        connected.local_handler(&w.refs, &w.locals, COUNTER).is_none(),
        "an accepted connection has no node of its own to reach"
    );
    server.close(&mut w);
}

// ---------------------------------------------------------------- bound nodes

/// a bound node, its listening socket, and the connections it accepted
struct Server<H> {
    node: Option<BoundNode<H>>,
    task: AcceptLoop<H>,
    listener: i32,
    path: String,
    connections: Vec<(i32, RecvLoop<H>)>,
}

impl<H> Server<H> {
    fn bind(w: &mut World, name: &str, handler: Arc<H>) -> Server<H> {
        let pid = rustix::process::getpid().as_raw_nonzero();
        let path = format!("/tmp/strong-ipc-test-{pid}-{name}.sock");
        let _ = unlink(path.as_str());
        Server::bind_at(w, path, handler).expect("bind")
    }

    fn bind_at(w: &mut World, path: String, handler: Arc<H>) -> Result<Server<H>, Errno> {
        let flags = SocketFlags::CLOEXEC | SocketFlags::NONBLOCK;
        let fd = socket_with(AddressFamily::UNIX, SocketType::SEQPACKET, flags, None)?;
        bind(&fd, &SocketAddrUnix::new(path.as_str())?)?;
        listen(&fd, 16)?;
        let listener = w.adopt(fd);
        let (node, task) = BoundNode::bind_raw(&mut w.locals, path.clone().into_bytes(), handler);
        Ok(Server { node: Some(node), task, listener, path, connections: Vec::new() })
    }

    fn is_bound(path: &str) -> bool {
        rustix::fs::stat(path).is_ok()
    }

    fn connect(&mut self, w: &mut World) -> Ref {
        let flags = SocketFlags::CLOEXEC | SocketFlags::NONBLOCK;
        let fd = socket_with(AddressFamily::UNIX, SocketType::SEQPACKET, flags, None).unwrap();
        connect(&fd, &SocketAddrUnix::new(self.path.as_str()).unwrap()).unwrap();
        let n = w.adopt(fd);
        let r = w.intern(n);
        self.accept(w);
        r
    }

    fn accept(&mut self, w: &mut World) {
        let flags = SocketFlags::CLOEXEC | SocketFlags::NONBLOCK;
        let accepted = accept_with(&w.fds[&self.listener], flags).expect("accept");
        let n = w.adopt(accepted);
        match self.task.accepted(n, true) {
            AcceptStep::Serve(task) => self.connections.push((n, task)),
            AcceptStep::Stop(_) => panic!("the accept task ended"),
        }
    }

    /// what came in on each connection
    fn pump(&mut self, w: &mut World) -> Vec<(Arc<H>, Vec<u8>, Vec<i32>)> {
        let mut out = Vec::new();
        let mut buf = vec![0u8; MAX_MESSAGE_SIZE];
        let mut ended = Vec::new();
        for (n, task) in &mut self.connections {
            while task.is_running() {
                let Some(packet) = w.receive(*n, &mut buf) else {
                    break;
                };
                match task.step(LoopEvent::Packet(packet)) {
                    LoopStep::Deliver { len, fds, .. } => {
                        out.push((task.handler().clone(), buf[..len].to_vec(), fds));
                    }
                    LoopStep::Discard { .. } => panic!("a packet did not fit"),
                    LoopStep::Stop { ok, socket, .. } => {
                        assert!(ok);
                        w.close(socket);
                        assert!(task.bury(&mut w.locals).is_empty());
                        ended.push(socket);
                    }
                }
            }
        }
        for socket in ended {
            self.task.ended(socket);
            self.connections.retain(|c| c.0 != socket);
        }
        out
    }

    fn close(&mut self, w: &mut World) {
        let node = self.node.take().unwrap();
        assert!(node.is_fed_by(&self.task));
        let (path, open) = node.close(&mut self.task);
        assert_eq!(path, self.path.as_bytes());
        unlink(path.as_slice()).expect("unlink");
        for socket in open {
            w.close(socket);
        }
        w.close(self.listener);
    }
}

/// replies on the capability each message came with, tagging the reply
fn echo(w: &mut World, server: &mut Server<&'static str>) {
    for (tag, data, fds) in server.pump(w) {
        let reply = w.intern(fds[0]);
        let mut out = tag.as_bytes().to_vec();
        out.extend_from_slice(&data);
        assert!(w.try_send(&reply, Message::from_data(out)).is_ok());
    }
}

#[test]
fn connect_and_echo_over_a_bound_socket() {
    let mut w = World::new();
    let mut server = Server::bind(&mut w, "echo", Arc::new("S:"));
    let server_ref = server.connect(&mut w);
    let (mut mine, mine_ref) = w.node(Arc::new(()), 0, 0);

    let mut message = Message::from_data(b"knock".to_vec());
    message.add_ref(&mut w.refs, &mine_ref);
    assert!(w.try_send(&server_ref, message).is_ok());
    echo(&mut w, &mut server);
    assert_eq!(w.pump(&mut mine)[0].0, b"S:knock");
    server.close(&mut w);
}

#[test]
fn binding_an_occupied_path_fails_rather_than_clobbering() {
    let mut w = World::new();
    let mut first = Server::bind(&mut w, "occupied", Arc::new("A:"));
    let path = first.path.clone();
    match Server::bind_at(&mut w, path.clone(), Arc::new("B:")) {
        Err(e) => assert_eq!(e, Errno::ADDRINUSE, "expected AddrInUse, got {e:?}"),
        Ok(_) => panic!("the second bind clobbered the first"),
    }
    assert!(Server::<()>::is_bound(&path));
    first.close(&mut w);
}

#[test]
fn dropping_the_node_unlinks_the_socket_file() {
    let mut w = World::new();
    let mut server = Server::bind(&mut w, "unlink", Arc::new("U:"));
    let path = server.path.clone();
    assert!(Server::<()>::is_bound(&path), "bind did not create the socket file");
    server.close(&mut w);
    assert!(
        !Server::<()>::is_bound(&path),
        "the socket file outlived the BoundNode that created it"
    );
}

#[test]
fn concurrent_clients_share_one_handler() {
    let mut w = World::new();
    let mut server = Server::bind(&mut w, "shared", Arc::new("S:"));
    let a = server.connect(&mut w);
    let b = server.connect(&mut w);
    assert!(!a.is_same(&b), "two connections are two capabilities");
    let (one, two) = (server.connections[0].1.handler(), server.connections[1].1.handler());
    assert!(Arc::ptr_eq(one, two));
    assert!(Arc::ptr_eq(one, server.node.as_ref().unwrap().handler()));
    let (mut mine, mine_ref) = w.node(Arc::new(()), 0, 0);

    for (r, body) in [(&a, &b"one"[..]), (&b, &b"two"[..])] {
        let mut m = Message::from_data(body.to_vec());
        m.add_ref(&mut w.refs, &mine_ref);
        assert!(w.try_send(r, m).is_ok());
    }
    echo(&mut w, &mut server);
    let mut got: Vec<Vec<u8>> = w.pump(&mut mine).into_iter().map(|d| d.0).collect();
    got.sort();
    assert_eq!(got, vec![b"S:one".to_vec(), b"S:two".to_vec()]);
    server.close(&mut w);
}

#[test]
fn a_connected_ref_notices_the_server_going_away() {
    let mut w = World::new();
    let mut server = Server::bind(&mut w, "death", Arc::new("D:"));
    let client = server.connect(&mut w);
    assert!(!w.is_dead(&client));
    assert!(!w.death(&client));
    server.close(&mut w);
    assert!(w.death(&client), "client ref never noticed the bound node going away");
    assert!(w.is_dead(&client));
}

/// is a receive loop on `socket` to be run?
fn serves<H>(step: AcceptStep<H>, socket: i32) -> bool {
    let AcceptStep::Serve(mut task) = step else {
        return false;
    };
    let event: LoopEvent<()> = LoopEvent::Failed;
    matches!(task.step(event), LoopStep::Stop { ok: false, socket: s, left: None } if s == socket)
}

#[test]
fn ended_connections_are_let_go_of() {
    let mut locals = Locals::new();
    assert!(locals.can_file());
    let (node, mut task) = BoundNode::bind(&mut locals, b"/nowhere".to_vec(), "h");
    let (other, _) = BoundNode::bind(&mut locals, b"/elsewhere".to_vec(), "h");
    assert!(node.is_fed_by(&task) && !other.is_fed_by(&task));
    for socket in 0..4 {
        assert!(serves(task.accepted(socket, true), socket));
    }
    task.ended(1);
    task.ended(2);
    // a descriptor number that is free again comes back for a new connection
    assert!(serves(task.accepted(2, true), 2));
    match task.accepted(7, false) {
        AcceptStep::Stop(open) => assert_eq!(open, vec![0, 3, 2, 7]),
        AcceptStep::Serve(_) => panic!("served what could not be registered"),
    }
    assert!(task.stop().is_empty());
    let (path, open) = node.close(&mut task);
    assert_eq!(path, b"/nowhere");
    assert!(open.is_empty());
}

// ---------------------------------------------------------------- weak references

#[test]
fn upgrades_while_a_strong_ref_is_held() {
    let mut w = World::new();
    let (_live, node_ref) = w.node(Arc::new(()), 0, 0);
    let weak = node_ref.downgrade();
    assert!(weak.is_live(&w.refs));
    let upgraded = weak.upgrade(&mut w.refs).expect("a strong ref is right here");
    assert_eq!(upgraded, node_ref, "upgrading gives back the same capability");
    w.drop_ref(node_ref);
    assert!(weak.is_live(&w.refs), "an upgraded share counts");
    w.drop_ref(upgraded);
    assert!(!weak.is_live(&w.refs));
}

#[test]
fn stops_upgrading_when_the_last_strong_ref_goes() {
    let mut w = World::new();
    let (mut live, node_ref) = w.node(Arc::new(()), 0, 0);
    let weak = node_ref.downgrade();
    live.node.take().unwrap().to_service();
    let up = weak.upgrade(&mut w.refs);
    assert!(up.is_some());
    w.drop_ref(up.unwrap());
    w.drop_ref(node_ref);
    assert!(
        weak.upgrade(&mut w.refs).is_none(),
        "nothing here is holding it up any more"
    );
    assert!(!weak.is_live(&w.refs));
}

#[test]
fn a_weak_ref_alone_does_not_keep_a_node_alive() {
    let mut w = World::new();
    let (mut live, node_ref) = w.node(Arc::new(()), 0, 0);
    let weak = node_ref.downgrade();
    live.node.take().unwrap().to_service();
    let watching = w.share(&node_ref);
    w.drop_ref(node_ref);
    w.drop_ref(watching);
    w.pump(&mut live);
    assert!(!live.task.is_running());
    assert!(weak.upgrade(&mut w.refs).is_none(), "a WeakRef kept its node alive");
}

#[test]
fn breaks_a_cycle_between_two_nodes() {
    // a parent holding its child, and the child reaching back
    let mut w = World::new();
    let (mut parent, parent_ref) = w.node(Arc::new(()), 0, 0);
    let (mut child, child_ref) = w.node(Arc::new(()), 1, 0);
    let held_by_parent = w.share(&child_ref);
    let held_by_child = parent_ref.downgrade();

    let watch_child = child_ref.downgrade();
    parent.node.take().unwrap().to_service();
    child.node.take().unwrap().to_service();
    w.drop_ref(child_ref);

    // the child is still up: the parent holds it
    let up = watch_child.upgrade(&mut w.refs);
    assert!(up.is_some());
    w.drop_ref(up.unwrap());
    assert!(held_by_child.is_live(&w.refs));

    // dropping the last outside ref to the parent must take both down
    w.drop_ref(parent_ref);
    w.pump(&mut parent);
    assert!(!parent.task.is_running(), "the parent's socket did not hang up");
    w.drop_ref(held_by_parent);
    w.pump(&mut child);
    assert!(
        watch_child.upgrade(&mut w.refs).is_none() && !child.task.is_running(),
        "the cycle did not collect: the child outlived its parent"
    );
    assert!(held_by_child.upgrade(&mut w.refs).is_none());
    assert_eq!(w.refs.filed_len(), 0);
}

#[test]
fn agrees_with_its_ref_on_identity() {
    let mut w = World::new();
    let (_a, a_ref) = w.node(Arc::new(()), 0, 0);
    let (_b, b_ref) = w.node(Arc::new(()), 1, 0);

    let copy = w.share(&a_ref);
    assert_eq!(a_ref.downgrade(), a_ref.downgrade());
    assert_eq!(a_ref.downgrade(), copy.downgrade());
    assert_ne!(a_ref.downgrade(), b_ref.downgrade());

    // usable as a map key, which is the point of having Hash agree with Eq
    let mut map = HashMap::new();
    map.insert(a_ref.downgrade(), "a");
    map.insert(b_ref.downgrade(), "b");
    assert_eq!(map.get(&a_ref.downgrade()), Some(&"a"));
    assert_eq!(map.len(), 2);
}

#[test]
fn identity_outlives_what_it_names() {
    let mut w = World::new();
    let (mut live, node_ref) = w.node(Arc::new(()), 0, 0);
    let weak = node_ref.downgrade();
    let same = node_ref.downgrade();
    live.node.take().unwrap().to_service();
    w.drop_ref(node_ref);
    assert!(weak.upgrade(&mut w.refs).is_none());
    assert_eq!(weak, same, "two dead WeakRefs still agree on what they named");

    // and nothing that comes later is given the same name
    let (_live, later) = w.node(Arc::new(()), 0, 0);
    assert_ne!(weak, later.downgrade());
}

#[test]
fn a_never_upgrading_weak_ref() {
    let mut w = World::new();
    let placeholder = WeakRef::new();
    assert!(placeholder.upgrade(&mut w.refs).is_none());
    assert!(!placeholder.is_live(&w.refs));
    assert_eq!(placeholder, WeakRef::default());
}

#[test]
fn an_in_process_holder_still_counts_as_a_local_strong_ref() {
    let mut w = World::new();
    let (mut target, target_ref) = w.node(Arc::new(()), 0, 0);
    let weak = target_ref.downgrade();
    target.node.take().unwrap().to_service();

    // a second node holding the only remaining capability
    let (mut keeper, keeper_ref) = w.node(Arc::new(()), 1, 0);
    let kept = w.round_trip(&keeper_ref, &mut keeper, &target_ref, &[0u8; 4]);

    w.drop_ref(target_ref);
    let up = weak.upgrade(&mut w.refs);
    assert!(
        up.is_some(),
        "an interned ref held elsewhere in-process is still a local strong ref"
    );
    assert!(up.unwrap().is_same(&kept));
}
