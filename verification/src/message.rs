//! what goes on the wire: a byte payload plus the capabilities riding along with it

use crate::capability::{Ref, Refs, RefsView};
use crate::wire::EXPECTED_FDS;
use smallvec::SmallVec;
use vstd::prelude::*;

verus! {

/// a descriptor to send along with a [`Message`]
///
/// Sending only borrows a descriptor: the kernel installs a copy at the receiver and leaves the
/// sender's alone. So this just keeps something that can name one at send time.
#[derive(Debug, PartialEq, Eq, Structural)]
pub enum SendFd {
    /// a descriptor owned outright, by its number
    Owned(i32),
    /// a share of a capability
    Ref(Ref),
}

impl SendFd {
    /// the number that this descriptor has
    pub open spec fn number(self, refs: RefsView) -> i32 {
        match self {
            SendFd::Owned(own) => own,
            SendFd::Ref(r) => refs.inners[r@].fd,
        }
    }

    /// the descriptor number to put on the wire
    pub fn as_fd(&self, refs: &Refs) -> (fd: i32)
        requires
            refs.wf(),
            self matches SendFd::Ref(r) ==> refs@.holds(r@),
        ensures
            fd == self.number(refs@),
            match *self {
                SendFd::Owned(own) => fd == own,
                SendFd::Ref(r) => fd == refs@.inners[r@].fd,
            },
    {
        match self {
            SendFd::Owned(own) => *own,
            SendFd::Ref(r) => r.borrowed_fd(refs),
        }
    }
}

/// the descriptors of one message, in the order they were attached
///
/// Inline up to [`EXPECTED_FDS`], on the heap beyond it.
#[verifier::external_body]
pub struct FdList {
    inner: SmallVec<[SendFd; EXPECTED_FDS]>,
}

/// what an [`FdList`] holds
pub uninterp spec fn attached(list: FdList) -> Seq<SendFd>;

/// `SmallVec::new` makes a list of nothing
#[verifier::external_body]
fn list_new() -> (list: FdList)
    ensures
        attached(list) == Seq::<SendFd>::empty(),
{
    FdList { inner: SmallVec::new() }
}

/// `SmallVec::push` puts an item behind those that are there
///
/// It panics where the list would outgrow the address space, which memory runs out before.
#[verifier::external_body]
fn list_push(list: &mut FdList, fd: SendFd)
    ensures
        attached(*final(list)) == attached(*old(list)).push(fd),
{
    list.inner.push(fd);
}

/// `SmallVec::pop` takes the last item off, and there is none only if the list is empty
#[verifier::external_body]
fn list_pop(list: &mut FdList) -> (fd: Option<SendFd>)
    ensures
        fd == (if attached(*old(list)).len() == 0 {
            None
        } else {
            Some(attached(*old(list)).last())
        }),
        attached(*final(list)) == (if attached(*old(list)).len() == 0 {
            attached(*old(list))
        } else {
            attached(*old(list)).drop_last()
        }),
{
    list.inner.pop()
}

/// `SmallVec::as_slice` shows the items in order
#[verifier::external_body]
fn list_slice(list: &FdList) -> (items: &[SendFd])
    ensures
        items@ == attached(*list),
{
    list.inner.as_slice()
}

/// a payload and the descriptors attached to it
pub struct Message {
    data: Vec<u8>,
    fds: FdList,
}

/// what a [`Message`] holds
pub struct MessageView {
    pub data: Seq<u8>,
    pub fds: Seq<SendFd>,
}

impl View for Message {
    type V = MessageView;

    closed spec fn view(&self) -> MessageView {
        MessageView { data: self.data@, fds: attached(self.fds) }
    }
}

impl Message {
    /// a message with the payload `data` and nothing attached
    pub fn from_data(data: Vec<u8>) -> (message: Message)
        ensures
            message@.data == data@,
            message@.fds == Seq::<SendFd>::empty(),
    {
        Message { data, fds: list_new() }
    }

    /// attaches a share of `r`
    ///
    /// `r` stays usable after, and can go on as many messages as you want.
    pub fn add_ref(&mut self, refs: &mut Refs, r: &Ref)
        requires
            old(refs).wf(),
            old(refs)@.holds(r@),
            old(refs)@.inners[r@].strong < u64::MAX,
        ensures
            final(refs).wf(),
            final(refs)@ == old(refs)@.shared(r@),
            final(self)@.data == old(self)@.data,
            final(self)@.fds == old(self)@.fds.push(SendFd::Ref(*r)),
    {
        let share = r.share(refs);
        list_push(&mut self.fds, SendFd::Ref(share));
    }

    /// attaches a descriptor by its number, e.g. to forward a received one
    pub fn add_fd(&mut self, fd: i32)
        ensures
            final(self)@.data == old(self)@.data,
            final(self)@.fds == old(self)@.fds.push(SendFd::Owned(fd)),
    {
        list_push(&mut self.fds, SendFd::Owned(fd));
    }

    /// the payload
    pub fn data(&self) -> (data: &[u8])
        ensures
            data@ == self@.data,
    {
        self.data.as_slice()
    }

    /// the attached descriptors, in the order they were attached
    pub fn fds(&self) -> (fds: &[SendFd])
        ensures
            fds@ == self@.fds,
    {
        list_slice(&self.fds)
    }

    /// takes the descriptor that was attached last off again
    pub fn take_fd(&mut self) -> (fd: Option<SendFd>)
        ensures
            final(self)@.data == old(self)@.data,
            fd == (if old(self)@.fds.len() == 0 {
                None
            } else {
                Some(old(self)@.fds.last())
            }),
            final(self)@.fds == (if old(self)@.fds.len() == 0 {
                old(self)@.fds
            } else {
                old(self)@.fds.drop_last()
            }),
    {
        list_pop(&mut self.fds)
    }
}

} // verus!
