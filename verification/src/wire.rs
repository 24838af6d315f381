//! what one packet may hold, and how its control block is laid out
//!
//! Sizes follow the Linux ABI: a control block is a sequence of messages, each a header of
//! [`CMSG_HEADER`] bytes and a payload padded to a multiple of [`CMSG_WORD`]. Both depend on how wide
//! a `usize` is.

use crate::capability::{Refs, RefsView};
use crate::message::{Message, SendFd};
use vstd::prelude::*;

verus! {

/// the most descriptors one `SCM_RIGHTS` message can carry (the kernel's `SCM_MAX_FD`)
pub const MAX_FDS: usize = 253;

/// how many descriptors a message is expected to carry in the common case
///
/// Nothing is capped at this: it is the point past which descriptor lists spill to the heap.
pub const EXPECTED_FDS: usize = 8;

/// the largest payload a capability accepts, and the size of every receive buffer
pub const MAX_MESSAGE_SIZE: usize = 8192;

/// bytes of one descriptor in a control message
pub const FD_SIZE: usize = 4;

/// bytes of the credentials in a control message
pub const CREDENTIALS_SIZE: usize = 12;

/// control messages are padded to a multiple of this many bytes: those of a `usize`
pub const CMSG_WORD: usize = (usize::BITS / 8) as usize;

/// bytes of a control message's header: its length, its level and its type
pub const CMSG_HEADER: usize = CMSG_WORD + 8;

/// a control buffer for [`EXPECTED_FDS`] descriptors and one set of credentials, each with its
/// header and its padding; see [`law_buffer_sizes`]
pub const EXPECTED_ANCILLARY_BUFFER_SIZE: usize = CMSG_HEADER + 32 + CMSG_HEADER + 8 + CMSG_WORD;

/// a control buffer for [`MAX_FDS`] descriptors and one set of credentials, each with its header and
/// its padding; see [`law_buffer_sizes`]
pub const MAX_ANCILLARY_BUFFER_SIZE: usize = CMSG_HEADER + 1008 + CMSG_WORD + CMSG_HEADER + 8
    + CMSG_WORD;

/// the least multiple of [`CMSG_WORD`] that is not below `len`
pub open spec fn aligned(len: int) -> int {
    (len + CMSG_WORD - 1) / CMSG_WORD as int * CMSG_WORD
}

/// the room that a control message with `len` payload bytes takes
pub open spec fn space(len: int) -> int {
    CMSG_HEADER + aligned(len)
}

/// the bytes of control block that `fds` descriptors need: none at all, or one `SCM_RIGHTS` message
pub open spec fn control_space(fds: int) -> int {
    if fds == 0 {
        0
    } else {
        space(fds * FD_SIZE)
    }
}

/// `len` rounded up to a multiple of [`CMSG_WORD`]
pub fn cmsg_align(len: usize) -> (aligned_len: usize)
    requires
        len + CMSG_WORD <= usize::MAX,
    ensures
        aligned_len == aligned(len as int),
        aligned_len % CMSG_WORD == 0,
        len <= aligned_len < len + CMSG_WORD,
{
    proof {
        lemma_aligned(len as int);
    }
    (len + CMSG_WORD - 1) / CMSG_WORD * CMSG_WORD
}

/// Rounding up, with words as wide as they can be.
proof fn lemma_aligned(len: int)
    requires
        0 <= len,
    ensures
        CMSG_WORD == 4 || CMSG_WORD == 8,
        CMSG_WORD == 4 ==> aligned(len) == (len + 3) / 4 * 4,
        CMSG_WORD == 8 ==> aligned(len) == (len + 7) / 8 * 8,
        aligned(len) % CMSG_WORD as int == 0,
        len <= aligned(len) < len + CMSG_WORD,
{
    let word = CMSG_WORD as int;
    let words = (len + word - 1) / word;
    assert(word == 4 || word == 8);
    assert(word == 4 ==> words == (len + 3) / 4 && words * word == words * 4);
    assert(word == 8 ==> words == (len + 7) / 8 && words * word == words * 8);
}

/// the room that a control message with `len` payload bytes takes
pub fn cmsg_space(len: usize) -> (room: usize)
    requires
        len + CMSG_WORD + CMSG_HEADER <= usize::MAX,
    ensures
        room == space(len as int),
{
    CMSG_HEADER + cmsg_align(len)
}

/// is the payload of `message` one that a receive buffer has room for?
pub open spec fn within_limit(message: Message) -> bool {
    message@.data.len() <= MAX_MESSAGE_SIZE
}

/// is every capability on `fds` one that has shares in `refs`?
pub open spec fn all_held(fds: Seq<SendFd>, refs: RefsView) -> bool {
    forall|i: int|
        0 <= i < fds.len() ==> (#[trigger] fds[i] matches SendFd::Ref(r) ==> refs.holds(r@))
}

/// the descriptor numbers of `fds`, in order
pub open spec fn numbers(fds: Seq<SendFd>, refs: RefsView) -> Seq<i32> {
    fds.map_values(|fd: SendFd| fd.number(refs))
}

/// the descriptors that go into the control block of `message`: those that are attached to it, in
/// the order they were attached
pub fn send_numbers(message: &Message, refs: &Refs) -> (sent: Vec<i32>)
    requires
        refs.wf(),
        all_held(message@.fds, refs@),
    ensures
        sent@ == numbers(message@.fds, refs@),
        sent@.len() == message@.fds.len(),
        forall|i: int|
            0 <= i < sent@.len() ==> #[trigger] sent@[i] == message@.fds[i].number(refs@),
{
    let fds = message.fds();
    let mut sent: Vec<i32> = Vec::new();
    let mut i: usize = 0;
    while i < fds.len()
        invariant
            0 <= i <= fds.len(),
            fds@ == message@.fds,
            refs.wf(),
            all_held(message@.fds, refs@),
            sent@ == numbers(fds@.take(i as int), refs@),
        decreases fds.len() - i,
    {
        sent.push(fds[i].as_fd(refs));
        i += 1;
        assert(sent@ == numbers(fds@.take(i as int), refs@));
    }
    assert(fds@.take(i as int) == fds@);
    sent
}

/// how one message is put to the kernel: the lengths of its payload and of its control block
#[derive(Clone, Copy, Debug, PartialEq, Eq, Structural)]
pub struct SendPlan {
    pub data_len: usize,
    pub control_len: usize,
}

/// what `SCM_RIGHTS` cannot carry: more than [`MAX_FDS`] descriptors
#[derive(Clone, Copy, Debug, PartialEq, Eq, Structural)]
pub struct TooManyFds;

/// lays `message` out for one `sendmsg`
///
/// The control block is sized from the descriptors that are attached, so any number up to
/// [`MAX_FDS`] fits; a message without descriptors has no control block.
pub fn plan_send(message: &Message) -> (plan: Result<SendPlan, TooManyFds>)
    ensures
        plan is Ok <==> message@.fds.len() <= MAX_FDS,
        plan matches Ok(p) ==> p.data_len == message@.data.len() && p.control_len == control_space(
            message@.fds.len() as int,
        ),
{
    let fds: usize = message.fds().len();
    if fds > MAX_FDS {
        return Err(TooManyFds);
    }
    let control_len: usize = if fds == 0 {
        0
    } else {
        cmsg_space(fds * FD_SIZE)
    };
    Ok(SendPlan { data_len: message.data().len(), control_len })
}

/// what came of one non-blocking `sendmsg`
#[derive(Clone, Copy, Debug, PartialEq, Eq, Structural)]
pub enum SendOutcome {
    /// the whole packet is on the wire
    Sent,
    /// the socket buffer is full, and nothing was sent
    WouldBlock,
    /// the peer is gone, the socket is broken, or the packet cannot be built
    Failed,
}

/// reads the return value of a `sendmsg`; `would_block` says which error it left behind
pub fn outcome_of(sent: isize, would_block: bool) -> (outcome: SendOutcome)
    ensures
        outcome == (if sent >= 0 {
            SendOutcome::Sent
        } else if would_block {
            SendOutcome::WouldBlock
        } else {
            SendOutcome::Failed
        }),
{
    if sent >= 0 {
        SendOutcome::Sent
    } else if would_block {
        SendOutcome::WouldBlock
    } else {
        SendOutcome::Failed
    }
}

/// who sent a packet, as the kernel stamped it
#[derive(Clone, Copy, Debug, PartialEq, Eq, Structural)]
pub struct UCred {
    pub pid: i32,
    pub uid: u32,
    pub gid: u32,
}

/// one packet off the socket
///
/// `bytes` is the packet's own length, which is larger than the buffer where the packet did not
/// fit. `F` is the list of descriptors that came with it.
pub struct Received<F> {
    pub bytes: usize,
    pub fds: F,
    pub creds: Option<UCred>,
}

impl<F> Received<F> {
    /// did the packet not fit into a buffer of `room` bytes?
    pub fn truncated(&self, room: usize) -> (cut: bool)
        ensures
            cut == (self.bytes > room),
    {
        self.bytes > room
    }
}

/// The two buffer constants are what the layout gives: one `SCM_RIGHTS` message and one
/// `SCM_CREDENTIALS` message each.
pub proof fn law_buffer_sizes()
    ensures
        EXPECTED_ANCILLARY_BUFFER_SIZE == space(EXPECTED_FDS * FD_SIZE) + space(CREDENTIALS_SIZE as int),
        MAX_ANCILLARY_BUFFER_SIZE == space(MAX_FDS * FD_SIZE) + space(CREDENTIALS_SIZE as int),
{
    lemma_aligned(EXPECTED_FDS * FD_SIZE);
    lemma_aligned(MAX_FDS * FD_SIZE);
    lemma_aligned(CREDENTIALS_SIZE as int);
}

/// No control block that [`plan_send`] lays out overruns a receiver: with the credentials that
/// the kernel adds it fits into [`MAX_ANCILLARY_BUFFER_SIZE`].
pub proof fn law_control_block_fits_receiver(fds: int)
    requires
        0 <= fds <= MAX_FDS,
    ensures
        control_space(fds) + space(CREDENTIALS_SIZE as int) <= MAX_ANCILLARY_BUFFER_SIZE,
{
    lemma_aligned(fds * FD_SIZE);
    lemma_aligned(CREDENTIALS_SIZE as int);
}

/// A control block has room for exactly its descriptors, up to the padding of one word.
pub proof fn law_control_block_is_tight(fds: int)
    requires
        0 < fds,
    ensures
        fds * FD_SIZE <= control_space(fds) - CMSG_HEADER < fds * FD_SIZE + CMSG_WORD,
{
    lemma_aligned(fds * FD_SIZE);
}

/// What one packet may hold, and what its control block is made of.
pub proof fn law_limits(message: Message)
    ensures
        MAX_FDS == 253,
        EXPECTED_FDS == 8,
        MAX_MESSAGE_SIZE == 8192,
        FD_SIZE == 4,
        CREDENTIALS_SIZE == 12,
        CMSG_WORD * 8 == usize::BITS,
        CMSG_HEADER == CMSG_WORD + 8,
        within_limit(message) <==> message@.data.len() <= 8192,
{
}

/// Each control message is a header and the least whole number of words that its payload fits into;
/// a message without descriptors has none.
pub proof fn law_control_messages_are_whole_words(len: int, fds: int)
    requires
        0 <= len,
        0 < fds,
    ensures
        (space(len) - CMSG_HEADER) % CMSG_WORD as int == 0,
        len <= space(len) - CMSG_HEADER < len + CMSG_WORD,
        control_space(fds) == space(4 * fds),
        control_space(0) == 0,
{
    lemma_aligned(len);
}

/// The descriptors go out one for one and in order, each under its own number: one that is owned
/// under that, and a capability's under that of its socket.
pub proof fn law_descriptors_go_out_in_order(
    fds: Seq<SendFd>,
    fd: SendFd,
    refs: RefsView,
)
    ensures
        numbers(Seq::empty(), refs).len() == 0,
        numbers(fds.push(fd), refs) == numbers(fds, refs).push(fd.number(refs)),
        fd matches SendFd::Owned(own) ==> fd.number(refs) == own,
        fd matches SendFd::Ref(r) ==> fd.number(refs) == refs.inners[r@].fd,
        all_held(fds.push(fd), refs) <==> all_held(fds, refs) && (fd matches SendFd::Ref(r)
            ==> refs.holds(r@)),
{
    assert(numbers(fds.push(fd), refs) == numbers(fds, refs).push(fd.number(refs)));
    let all = fds.push(fd);
    if all_held(all, refs) {
        assert forall|i: int| 0 <= i < fds.len() implies (#[trigger] fds[i] matches SendFd::Ref(r)
            ==> refs.holds(r@)) by {
            assert(all[i] == fds[i]);
        }
        assert(all[fds.len() as int] == fd);
    }
}

} // verus!
