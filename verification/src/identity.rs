//! what holds of capabilities and their identities, whatever is done with them

use crate::capability::{InnerView, RefsView, SendStep};
use crate::directory::{lemma_filed_is_bounded, SocketId};
use crate::error::TrySendError;
use crate::message::Message;
use crate::outbox::{law_draining_keeps_order, law_outbox_stays_in_order, OutboxView};
use crate::wire::{within_limit, SendOutcome};
use vstd::prelude::*;

verus! {

/// one thing that can be done with [`crate::Refs`]
pub enum RefsStep {
    /// a descriptor arrives: [`crate::Ref::from_owned_fd`]
    Intern(i32, Option<SocketId>),
    /// a share more: [`crate::Ref::share`], [`crate::WeakRef::upgrade`]
    Share(u64),
    /// a share less: [`crate::Ref::release`]
    Release(u64),
    /// a capability without shares is taken down: [`crate::capability::LastRef::unfile`]
    Unfile(u64),
    /// a capability is used, which changes nothing but its outbox and its watch
    Use(u64, InnerView),
    /// a drain task goes on with what is left of a capability that was taken down
    Drain(u64, OutboxView),
    /// nothing is left to drain of a capability that was taken down
    Drained(u64),
}

impl RefsStep {
    /// can this be done here?
    pub open spec fn possible(self, refs: RefsView) -> bool {
        match self {
            RefsStep::Intern(fd, id) => refs.can_intern(id),
            RefsStep::Share(key) => refs.holds(key),
            RefsStep::Release(key) => refs.holds(key),
            RefsStep::Unfile(key) => refs.inners.contains_key(key) && !refs.holds(key),
            RefsStep::Use(key, inner) => {
                &&& refs.inners.contains_key(key)
                &&& inner.wf()
                &&& inner.fd == refs.inners[key].fd
                &&& inner.id == refs.inners[key].id
                &&& inner.strong == refs.inners[key].strong
            },
            RefsStep::Drain(key, outbox) => {
                &&& refs.orphans.contains_key(key)
                &&& outbox.wf()
                &&& outbox.retired
            },
            RefsStep::Drained(key) => refs.orphans.contains_key(key),
        }
    }

    /// what is there afterwards
    pub open spec fn done(self, refs: RefsView) -> RefsView {
        match self {
            RefsStep::Intern(fd, id) => refs.interned(fd, id),
            RefsStep::Share(key) => refs.shared(key),
            RefsStep::Release(key) => refs.released(key),
            RefsStep::Unfile(key) => refs.unfiled(key),
            RefsStep::Use(key, inner) => refs.with(key, inner),
            RefsStep::Drain(key, outbox) => refs.with_outbox_of(Some(key), outbox),
            RefsStep::Drained(key) => refs.without_orphan(Some(key)),
        }
    }
}

/// can all of `steps` be done here, one after the other?
pub open spec fn all_possible(refs: RefsView, steps: Seq<RefsStep>) -> bool
    decreases steps.len(),
{
    steps.len() == 0 || (steps.first().possible(refs) && all_possible(
        steps.first().done(refs),
        steps.drop_first(),
    ))
}

/// what is there after all of `steps`
pub open spec fn all_done(refs: RefsView, steps: Seq<RefsStep>) -> RefsView
    decreases steps.len(),
{
    if steps.len() == 0 {
        refs
    } else {
        all_done(steps.first().done(refs), steps.drop_first())
    }
}

/// Whatever is done, the books stay in order.
pub proof fn law_step_keeps_order(refs: RefsView, step: RefsStep)
    requires
        refs.wf(),
        step.possible(refs),
    ensures
        step.done(refs).wf(),
{
    let after = step.done(refs);
    assert forall|id: SocketId| #[trigger] after.filed.contains_key(id) implies
        after.inners.contains_key(after.filed[id]) && after.inners[after.filed[id]].id == Some(id) by {
        if refs.filed.contains_key(id) {
            assert(refs.inners.contains_key(refs.filed[id]));
        }
    }
    assert forall|key: u64| #[trigger] after.holds(key) implies (after.inners[key].id matches Some(
        id,
    ) ==> after.filed.contains_key(id) && after.filed[id] == key) by {
        if refs.inners.contains_key(key) {
            assert(refs.holds(key));
        }
    }
    assert forall|key: u64| #[trigger] after.inners.contains_key(key) implies key < after.next
        && after.inners[key].wf() by {
        if refs.inners.contains_key(key) {
            assert(key < refs.next);
        }
    }
    assert forall|key: u64| #[trigger] after.orphans.contains_key(key) implies after.orphan_wf(
        key,
    ) by {
        if refs.orphans.contains_key(key) {
            assert(refs.orphan_wf(key));
        }
    }
}

/// Two shares of sockets with the same identity are shares of one capability.
pub proof fn law_one_capability_per_socket(refs: RefsView, a: u64, b: u64)
    requires
        refs.wf(),
        refs.holds(a),
        refs.holds(b),
        refs.inners[a].id is Some,
        refs.inners[a].id == refs.inners[b].id,
    ensures
        a == b,
{
}

/// A descriptor for a socket that somebody here has a share of is recognised: what arrives is
/// another share of that, and nothing new is kept or filed.
pub proof fn law_arrival_is_recognised(refs: RefsView, key: u64, fd: i32)
    requires
        refs.wf(),
        refs.holds(key),
        refs.inners[key].id is Some,
    ensures
        refs.interned_key(refs.inners[key].id) == key,
        refs.interned(fd, refs.inners[key].id) == refs.shared(key),
{
}

/// A descriptor that is not recognised is a capability of its own, unlike any there was before.
pub proof fn law_stranger_is_new(refs: RefsView, fd: i32, id: Option<SocketId>)
    requires
        refs.wf(),
        refs.can_intern(id),
        !refs.recognises(id),
    ensures
        !refs.inners.contains_key(refs.interned_key(id)),
        refs.interned(fd, id).inners[refs.interned_key(id)] == InnerView::fresh(fd, id),
        forall|key: u64|
            refs.inners.contains_key(key) ==> #[trigger] refs.interned(fd, id).inners[key]
                == refs.inners[key],
{
}

/// A socket without an identity is nobody's twin.
pub proof fn law_unfiled_is_nobodys_twin(refs: RefsView, fd: i32)
    requires
        refs.wf(),
        refs.can_intern(None),
    ensures
        !refs.inners.contains_key(refs.interned_key(None)),
        refs.interned(fd, None).filed == refs.filed,
{
}

/// Once a capability is taken down nothing without shares is filed under its identity, so the next
/// socket to be issued that inode number is not mistaken for it.
pub proof fn law_taken_down_leaves_no_entry(refs: RefsView, key: u64, id: SocketId)
    requires
        refs.wf(),
        refs.inners.contains_key(key),
        !refs.holds(key),
        refs.inners[key].id == Some(id),
    ensures
        refs.unfiled(key).filed.contains_key(id) ==> refs.unfiled(key).live(id),
        !refs.live(id) ==> !refs.unfiled(key).filed.contains_key(id),
        refs.unfiled(key).interned_key(Some(id)) != key,
{
    if refs.live(id) {
        assert(refs.holds(refs.filed[id]));
    }
}

/// Taking a capability down takes nobody else's entry out as long as that has shares.
pub proof fn law_taking_down_spares_the_living(refs: RefsView, key: u64, other: SocketId)
    requires
        refs.wf(),
        refs.inners.contains_key(key),
        !refs.holds(key),
        refs.live(other),
    ensures
        refs.unfiled(key).live(other),
        refs.unfiled(key).filed[other] == refs.filed[other],
{
}

/// Taking down a capability that was never filed takes no entry out.
pub proof fn law_unfiled_removes_nothing(refs: RefsView, key: u64)
    requires
        refs.inners[key].id is None,
    ensures
        refs.unfiled(key).filed == refs.filed,
{
}

/// As long as there is a share, a socket's identity stays filed, whatever is done with others.
pub proof fn law_held_stays_filed(refs: RefsView, steps: Seq<RefsStep>, key: u64, id: SocketId)
    requires
        refs.wf(),
        all_possible(refs, steps),
        refs.inners.contains_key(key),
        refs.inners[key].id == Some(id),
        all_done(refs, steps).holds(key),
    ensures
        all_done(refs, steps).filed.contains_key(id),
        all_done(refs, steps).filed[id] == key,
{
    law_steps_keep_order(refs, steps);
    law_key_means_one_socket(refs, steps, key);
}

/// Whatever is done in a row, the books stay in order.
pub proof fn law_steps_keep_order(refs: RefsView, steps: Seq<RefsStep>)
    requires
        refs.wf(),
        all_possible(refs, steps),
    ensures
        all_done(refs, steps).wf(),
    decreases steps.len(),
{
    if steps.len() != 0 {
        law_step_keeps_order(refs, steps.first());
        law_steps_keep_order(steps.first().done(refs), steps.drop_first());
    }
}

/// A key means one socket for good: as long as anything is kept under it, that has the same
/// descriptor and the same identity.
pub proof fn law_key_means_one_socket(refs: RefsView, steps: Seq<RefsStep>, key: u64)
    requires
        refs.wf(),
        all_possible(refs, steps),
        key < refs.next,
    ensures
        all_done(refs, steps).inners.contains_key(key) ==> refs.inners.contains_key(key)
            && all_done(refs, steps).inners[key].fd == refs.inners[key].fd && all_done(
            refs,
            steps,
        ).inners[key].id == refs.inners[key].id,
    decreases steps.len(),
{
    if steps.len() != 0 {
        law_step_keeps_order(refs, steps.first());
        law_key_means_one_socket(steps.first().done(refs), steps.drop_first(), key);
    }
}

/// A capability whose last share is gone never has a share again: a [`crate::WeakRef`] that cannot
/// be upgraded stays that way.
pub proof fn law_spent_stays_spent(refs: RefsView, steps: Seq<RefsStep>, key: u64)
    requires
        refs.wf(),
        all_possible(refs, steps),
        key < refs.next,
        !refs.holds(key),
    ensures
        !all_done(refs, steps).holds(key),
    decreases steps.len(),
{
    if steps.len() != 0 {
        law_step_keeps_order(refs, steps.first());
        let after = steps.first().done(refs);
        assert(!after.holds(key)) by {
            if after.holds(key) {
                assert(after.inners.contains_key(key));
                if steps.first() is Intern {
                    let id = steps.first()->Intern_1;
                    if refs.recognises(id) {
                        assert(refs.holds(refs.filed[id->0]));
                    }
                }
            }
        }
        law_spent_stays_spent(after, steps.drop_first(), key);
    }
}

/// What is filed is bounded by what is kept: no more identities than capabilities that are not
/// taken down.
pub proof fn law_filed_is_bounded(refs: RefsView)
    requires
        refs.wf(),
    ensures
        refs.filed.dom().finite(),
        refs.filed.dom().len() <= refs.inners.dom().len(),
{
    lemma_filed_is_bounded(refs.filed, refs.inners.dom(), |key: u64| refs.inners[key].id->0);
}

/// With nothing kept there is nothing filed.
pub proof fn law_nothing_outlives_the_last(refs: RefsView)
    requires
        refs.wf(),
        refs.inners.dom() == Set::<u64>::empty(),
    ensures
        refs.filed.dom() == Set::<SocketId>::empty(),
{
    assert forall|id: SocketId| !refs.filed.contains_key(id) by {
        if refs.filed.contains_key(id) {
            assert(refs.inners.contains_key(refs.filed[id]));
        }
    }
}

/// Sending through a capability, waiting for room, draining its outbox and watching for its death
/// touch nothing but its outbox and its watch: each is a [`RefsStep::Use`].
pub proof fn law_sending_is_use(
    refs: RefsView,
    key: u64,
    message: Message,
    outcome: SendOutcome,
    built: bool,
    tried: SendStep,
    ticket: u64,
    watch: Option<i32>,
)
    requires
        refs.wf(),
        refs.inners.contains_key(key),
        tried.sendable(),
        refs.inners[key].can_wait(),
    ensures
        RefsStep::Use(key, refs.inners[key].try_send(message).0).possible(refs),
        within_limit(message) ==> {
            &&& RefsStep::Use(key, refs.inners[key].inline_sent(message, outcome).0).possible(refs)
            &&& RefsStep::Use(key, refs.inners[key].outbox_built(message, built).0).possible(refs)
            &&& refs.inners[key].knows(ticket) ==> RefsStep::Use(
                key,
                refs.inners[key].claim(ticket, message).0,
            ).possible(refs)
        },
        RefsStep::Use(key, refs.inners[key].send(tried).0).possible(refs),
        RefsStep::Use(key, refs.inners[key].left(ticket)).possible(refs),
        RefsStep::Use(key, refs.inners[key].watched(watch)).possible(refs),
        refs.inners[key].outbox matches Some(o) ==> {
            &&& o.held is None && o.queue.len() != 0 ==> RefsStep::Use(
                key,
                refs.inners[key].with_outbox(o.taken()),
            ).possible(refs)
            &&& o.held is Some ==> RefsStep::Use(
                key,
                refs.inners[key].with_outbox(o.settled()),
            ).possible(refs)
            &&& o.held is Some ==> RefsStep::Use(
                key,
                refs.inners[key].with_outbox(o.failed()),
            ).possible(refs)
            &&& RefsStep::Use(key, refs.inners[key].with_outbox(o.gone())).possible(refs)
        },
{
    let inner = refs.inners[key];
    assert(OutboxView::fresh().wf());
    if let Some(o) = inner.outbox {
        law_outbox_stays_in_order(o, message, ticket);
        if let SendStep::Refused(TrySendError::Full(m)) = tried {
            law_outbox_stays_in_order(o, m, ticket);
        }
    }
}

/// Draining what is left of a capability that was taken down touches nothing else: each turn of its
/// drain task is a [`RefsStep::Drain`].
pub proof fn law_draining_touches_nothing_else(refs: RefsView, key: u64)
    requires
        refs.wf(),
        refs.orphans.contains_key(key),
    ensures
        ({
            let o = refs.orphans[key];
            &&& o.held is None && o.queue.len() != 0 ==> RefsStep::Drain(key, o.taken()).possible(
                refs,
            )
            &&& o.held is Some ==> RefsStep::Drain(key, o.settled()).possible(refs)
            &&& o.held is Some ==> RefsStep::Drain(key, o.failed()).possible(refs)
            &&& RefsStep::Drain(key, o.gone()).possible(refs)
        }),
{
    assert(refs.orphan_wf(key));
    law_draining_keeps_order(refs.orphans[key]);
}

/// what the drain task of what `key` meant has sent when it is told that it is finished, and what is
/// kept then
pub open spec fn drained_out(refs: RefsView, key: u64) -> (Seq<Message>, RefsView)
    decreases refs.orphans[key].queue.len(),
{
    let o = refs.orphans[key];
    if o.queue.len() == 0 {
        (Seq::empty(), refs.without_orphan(Some(key)))
    } else {
        let next = RefsView { orphans: refs.orphans.insert(key, o.taken().settled()), ..refs };
        let (rest, end) = drained_out(next, key);
        (seq![o.queue.first()] + rest, end)
    }
}

/// Everything that is left of a capability that was taken down comes out, in order, and after that
/// nothing is left of it.
proof fn lemma_drained_out(refs: RefsView, key: u64)
    ensures
        drained_out(refs, key).0 == refs.orphans[key].queue,
        drained_out(refs, key).1 == refs.without_orphan(Some(key)),
    decreases refs.orphans[key].queue.len(),
{
    let o = refs.orphans[key];
    if o.queue.len() != 0 {
        let next = RefsView { orphans: refs.orphans.insert(key, o.taken().settled()), ..refs };
        lemma_drained_out(next, key);
        assert(o.queue == seq![o.queue.first()] + o.queue.drop_first());
        assert(next.without_orphan(Some(key)).orphans == refs.without_orphan(Some(key)).orphans);
    }
}

/// Dropping the last share of a capability discards nothing that was accepted: what waits, and what
/// the drain task holds, is still there once it is taken down, all of it comes out in order, and
/// after that nothing is left.
pub proof fn law_taken_down_is_still_drained(refs: RefsView, key: u64)
    requires
        refs.wf(),
        refs.inners.contains_key(key),
        !refs.holds(key),
        refs.draining(key),
    ensures
        refs.unfiled(key).outbox_of(Some(key)) == Some(
            OutboxView { retired: true, ..refs.inners[key].outbox->0 },
        ),
        drained_out(refs.unfiled(key), key).0 == refs.inners[key].outbox->0.queue,
        drained_out(refs.unfiled(key), key).1.orphans == refs.orphans,
        drained_out(refs.unfiled(key), key).1.outbox_of(Some(key)) is None,
{
    lemma_drained_out(refs.unfiled(key), key);
    if refs.orphans.contains_key(key) {
        assert(refs.orphan_wf(key));
    }
    assert(refs.unfiled(key).without_orphan(Some(key)).orphans == refs.orphans);
}

/// how many shares there are of `key`
pub open spec fn strong(refs: RefsView, key: u64) -> int {
    if refs.inners.contains_key(key) {
        refs.inners[key].strong as int
    } else {
        0
    }
}

/// how many shares of `key` are made by `steps`, less those given up
pub open spec fn balance(refs: RefsView, steps: Seq<RefsStep>, key: u64) -> int
    decreases steps.len(),
{
    if steps.len() == 0 {
        0
    } else {
        let first: int = match steps.first() {
            RefsStep::Intern(_, id) => if refs.interned_key(id) == key {
                1
            } else {
                0
            },
            RefsStep::Share(shared) => if shared == key {
                1
            } else {
                0
            },
            RefsStep::Release(released) => if released == key {
                -1
            } else {
                0
            },
            _ => 0,
        };
        first + balance(steps.first().done(refs), steps.drop_first(), key)
    }
}

/// The count is right: there are as many shares of a capability as were made and not given up.
pub proof fn law_count_is_shares(refs: RefsView, steps: Seq<RefsStep>, key: u64)
    requires
        refs.wf(),
        all_possible(refs, steps),
    ensures
        strong(all_done(refs, steps), key) == strong(refs, key) + balance(refs, steps, key),
    decreases steps.len(),
{
    if steps.len() != 0 {
        let step = steps.first();
        law_step_keeps_order(refs, step);
        if step is Intern && refs.recognises(step->Intern_1) {
            assert(refs.inners.contains_key(refs.filed[step->Intern_1->0]));
        }
        law_count_is_shares(step.done(refs), steps.drop_first(), key);
    }
}

/// One of several shares going leaves the capability alone; the last one ends it.
pub proof fn law_last_share_decides(refs: RefsView, key: u64)
    requires
        refs.wf(),
        refs.holds(key),
    ensures
        refs.released(key).holds(key) <==> refs.inners[key].strong > 1,
        refs.shared(key).released(key) == refs,
{
    assert(refs.shared(key).released(key).inners == refs.inners);
}

/// do the two differ in nothing but what is kept under `key`?
pub open spec fn same_but_one(before: RefsView, after: RefsView, key: u64) -> bool {
    &&& after.filed == before.filed
    &&& after.orphans == before.orphans
    &&& after.next == before.next
    &&& forall|k: u64|
        k != key ==> (#[trigger] after.inners.contains_key(k) == before.inners.contains_key(k))
    &&& forall|k: u64|
        k != key && before.inners.contains_key(k) ==> #[trigger] after.inners[k]
            == before.inners[k]
}

/// There are no capabilities, nothing filed and nothing to drain to begin with.
pub proof fn law_books_start_empty(key: u64, id: SocketId)
    ensures
        !RefsView::fresh().inners.contains_key(key),
        !RefsView::fresh().filed.contains_key(id),
        !RefsView::fresh().orphans.contains_key(key),
        RefsView::fresh().next == 0,
        !RefsView::fresh().holds(key),
        RefsView::fresh().outbox_of(Some(key)) is None,
{
}

/// A key is held exactly while there are shares of it, and an identity lives exactly while what is
/// filed under it is held.
pub proof fn law_held_means_shares(refs: RefsView, key: u64, id: SocketId)
    ensures
        refs.holds(key) <==> strong(refs, key) > 0,
        refs.live(id) <==> refs.filed.contains_key(id) && strong(refs, refs.filed[id]) > 0,
{
}

/// A socket is recognised exactly if somebody here has a share of one with its identity; one
/// without an identity never is.
pub proof fn law_recognised_is_what_is_held(refs: RefsView, id: SocketId)
    requires
        refs.wf(),
    ensures
        refs.recognises(Some(id)) <==> exists|key: u64| #[trigger]
            refs.holds(key) && refs.inners[key].id == Some(id),
        !refs.recognises(None),
{
    if refs.recognises(Some(id)) {
        assert(refs.holds(refs.filed[id]));
    }
}

/// A share can be made of what is recognised until its count is full, and of anything else until
/// there is no key left.
pub proof fn law_share_can_be_made_until_counts_are_full(refs: RefsView, id: Option<SocketId>)
    ensures
        refs.recognises(id) ==> (refs.can_intern(id) <==> strong(refs, refs.filed[id->0])
            < u64::MAX),
        !refs.recognises(id) ==> (refs.can_intern(id) <==> refs.next < u64::MAX),
{
}

/// Using a capability, sharing it and giving a share up concern that capability and no other, and
/// of it nothing but what they are about.
pub proof fn law_only_that_capability(refs: RefsView, key: u64, inner: InnerView)
    requires
        refs.inners.contains_key(key),
    ensures
        same_but_one(refs, refs.with(key, inner), key),
        refs.with(key, inner).inners.contains_key(key),
        refs.with(key, inner).inners[key] == inner,
        same_but_one(refs, refs.shared(key), key),
        strong(refs.shared(key), key) == strong(refs, key) + 1,
        refs.shared(key).inners[key] == (InnerView {
            strong: refs.shared(key).inners[key].strong,
            ..refs.inners[key]
        }),
        same_but_one(refs, refs.released(key), key),
        refs.holds(key) ==> strong(refs.released(key), key) == strong(refs, key) - 1,
        refs.released(key).inners[key] == (InnerView {
            strong: refs.released(key).inners[key].strong,
            ..refs.inners[key]
        }),
{
}

/// A socket that is not recognised is kept under a key that was never used, with its descriptor,
/// its identity and one share. It is filed under its identity if it has one, and no other identity,
/// no other capability and nothing that is left to drain is touched.
pub proof fn law_stranger_touches_nobody(
    refs: RefsView,
    fd: i32,
    id: Option<SocketId>,
    other: SocketId,
)
    requires
        refs.wf(),
        refs.can_intern(id),
        !refs.recognises(id),
    ensures
        ({
            let after = refs.interned(fd, id);
            let key = refs.interned_key(id);
            &&& key == refs.next
            &&& after.next == refs.next + 1
            &&& after.orphans == refs.orphans
            &&& after.inners.contains_key(key)
            &&& after.inners[key].fd == fd
            &&& after.inners[key].id == id
            &&& after.inners[key].strong == 1
            &&& after.inners[key].outbox is None
            &&& after.inners[key].watch is None
            &&& forall|k: u64|
                k != key ==> (#[trigger] after.inners.contains_key(k)
                    == refs.inners.contains_key(k))
            &&& forall|k: u64|
                k != key && refs.inners.contains_key(k) ==> #[trigger] after.inners[k]
                    == refs.inners[k]
            &&& id is Some ==> after.filed.contains_key(id->0) && after.filed[id->0] == key
            &&& Some(other) != id ==> (after.filed.contains_key(other)
                == refs.filed.contains_key(other)) && (refs.filed.contains_key(other)
                ==> after.filed[other] == refs.filed[other])
        }),
{
}

/// Taking a capability down takes that one down and leaves every other alone: its shares, its
/// identity, and its backlog, be it that of a capability or what is left of one, and whether or not
/// anything is left of the one that goes.
pub proof fn law_taking_down_touches_nobody_else(
    refs: RefsView,
    key: u64,
    other: u64,
    elsewhere: SocketId,
)
    requires
        other != key,
    ensures
        !refs.unfiled(key).inners.contains_key(key),
        refs.unfiled(key).next == refs.next,
        refs.unfiled(key).outbox_of(Some(other)) == refs.outbox_of(Some(other)),
        refs.unfiled(key).inners.contains_key(other) == refs.inners.contains_key(other),
        refs.inners.contains_key(other) ==> refs.unfiled(key).inners[other] == refs.inners[other],
        refs.unfiled(key).orphans.contains_key(other) == refs.orphans.contains_key(other),
        refs.orphans.contains_key(other) ==> refs.unfiled(key).orphans[other]
            == refs.orphans[other],
        refs.inners[key].id != Some(elsewhere) ==> (refs.unfiled(key).filed.contains_key(elsewhere)
            == refs.filed.contains_key(elsewhere)) && (refs.filed.contains_key(elsewhere)
            ==> refs.unfiled(key).filed[elsewhere] == refs.filed[elsewhere]),
{
}

/// What is left to drain of a capability that goes is what its drain task was there for: all of it
/// if there is a task, and nothing otherwise.
pub proof fn law_backlog_is_left_to_its_drain_task(refs: RefsView, key: u64)
    requires
        refs.wf(),
        refs.inners.contains_key(key),
        !refs.holds(key),
    ensures
        refs.draining(key) <==> (refs.inners[key].outbox matches Some(o) && o.open),
        refs.unfiled(key).outbox_of(Some(key)) is Some <==> refs.draining(key),
        refs.draining(key) ==> {
            let was = refs.inners[key].outbox->0;
            let left = refs.unfiled(key).outbox_of(Some(key))->0;
            &&& left.queue == was.queue
            &&& left.held == was.held
            &&& left.pending == was.pending
            &&& left.open
            &&& left.retired
        },
{
    if refs.orphans.contains_key(key) {
        assert(refs.orphan_wf(key));
    }
}

/// A capability's outbox is its own as long as it is there, and what is left of it after that;
/// nothing else is.
pub proof fn law_each_has_its_own_outbox(refs: RefsView, key: u64)
    ensures
        refs.outbox_of(None) is None,
        refs.inners.contains_key(key) ==> refs.outbox_of(Some(key)) == refs.inners[key].outbox,
        !refs.inners.contains_key(key) && refs.orphans.contains_key(key) ==> refs.outbox_of(
            Some(key),
        ) == Some(refs.orphans[key]),
        !refs.inners.contains_key(key) && !refs.orphans.contains_key(key) ==> refs.outbox_of(
            Some(key),
        ) is None,
{
}

/// A drain task touches the outbox that it drains and nobody else's, and neither shares nor
/// identities. What is left of a capability that was taken down is kept exactly while there is a
/// task to drain it.
pub proof fn law_draining_is_of_one_outbox(
    refs: RefsView,
    key: u64,
    outbox: OutboxView,
    other: u64,
)
    requires
        refs.wf(),
        refs.outbox_of(Some(key)) is Some,
        other != key,
    ensures
        ({
            let after = refs.with_outbox_of(Some(key), outbox);
            &&& refs.inners.contains_key(key) || outbox.open ==> after.outbox_of(Some(key)) == Some(
                outbox,
            )
            &&& !refs.inners.contains_key(key) && !outbox.open ==> after.outbox_of(Some(key)) is None
            &&& after.outbox_of(Some(other)) == refs.outbox_of(Some(other))
            &&& after.filed == refs.filed
            &&& after.next == refs.next
            &&& forall|k: u64|
                (#[trigger] after.inners.contains_key(k) == refs.inners.contains_key(k))
            &&& refs.inners.contains_key(key) ==> after.inners[key] == (InnerView {
                outbox: Some(outbox),
                ..refs.inners[key]
            }) && after.orphans == refs.orphans
            &&& refs.inners.contains_key(other) ==> after.inners[other] == refs.inners[other]
        }),
{
}

/// Forgetting what was drained to the end touches nothing else.
pub proof fn law_forgetting_is_of_one(refs: RefsView, key: u64, other: u64)
    requires
        other != key,
    ensures
        ({
            let after = refs.without_orphan(Some(key));
            &&& !after.orphans.contains_key(key)
            &&& after.outbox_of(Some(other)) == refs.outbox_of(Some(other))
            &&& after.filed == refs.filed
            &&& after.inners == refs.inners
            &&& after.next == refs.next
        }),
{
}

} // verus!
