//! reaching the handler behind a capability that leads back to one of our own nodes
//!
//! A capability handed to a peer and handed back is recognised. When both ends are in one process,
//! that recognition is enough to reach the handler itself and skip the socket. A handler is known
//! here by a number and the number of its kind.

use crate::capability::{Ref, Refs};
use crate::directory::{
    directory_file, directory_get, directory_new, directory_remove_if, filed,
    lemma_filed_is_bounded, Directory, SocketId,
};
use std::collections::HashMap;
use vstd::prelude::*;

verus! {

broadcast use vstd::std_specs::hash::group_hash_axioms;

/// a handler, as it was filed
#[derive(Clone, Copy, Debug)]
pub struct LocalRecord {
    /// the socket that the node's capabilities send to
    pub id: SocketId,
    pub handler: u64,
    pub kind: u64,
}

/// every live local node's handler, by the socket its capabilities send to
pub struct Locals {
    /// which filing an identity leads to
    filed: Directory,
    /// what was filed, by the number of the filing
    records: HashMap<u64, LocalRecord>,
    /// the number of the next node, and of its filing if it has one: none is ever used twice
    next: u64,
}

/// what [`Locals`] holds
pub struct LocalsView {
    pub filed: Map<SocketId, u64>,
    pub records: Map<u64, LocalRecord>,
    pub next: u64,
}

impl LocalsView {
    /// nothing at all
    pub open spec fn fresh() -> LocalsView {
        LocalsView { filed: Map::empty(), records: Map::empty(), next: 0 }
    }

    /// What an identity leads to was filed under it; and finitely many numbers are in use, all of
    /// which were given out.
    pub open spec fn wf(self) -> bool {
        &&& forall|id: SocketId| #[trigger]
            self.filed.contains_key(id) ==> self.records.contains_key(self.filed[id])
                && self.records[self.filed[id]].id == id
        &&& forall|n: u64| #[trigger] self.records.contains_key(n) ==> n < self.next
        &&& self.records.dom().finite()
    }

    /// was `entry` filed here, and not taken out since?
    pub open spec fn has(self, entry: LocalEntryView) -> bool {
        self.records.contains_key(entry.filed) && self.records[entry.filed].id == entry.id
    }

    /// a handler filed under `id`, in place of what may be there
    pub open spec fn with(self, id: SocketId, handler: u64, kind: u64) -> LocalsView {
        LocalsView {
            filed: self.filed.insert(id, self.next),
            records: self.records.insert(self.next, LocalRecord { id, handler, kind }),
            next: (self.next + 1) as u64,
        }
    }

    /// a number given to a node that is not filed
    pub open spec fn numbered(self) -> LocalsView {
        LocalsView { next: (self.next + 1) as u64, ..self }
    }

    /// `entry` taken out, and what its identity leads to unless that is another filing
    pub open spec fn without(self, entry: LocalEntryView) -> LocalsView {
        LocalsView {
            filed: if self.filed.contains_key(entry.id) && self.filed[entry.id] == entry.filed {
                self.filed.remove(entry.id)
            } else {
                self.filed
            },
            records: self.records.remove(entry.filed),
            ..self
        }
    }

    /// the handler that `id` leads to, if there is one and it is of this kind
    pub open spec fn handler(self, id: SocketId, kind: u64) -> Option<u64> {
        if self.filed.contains_key(id) && self.records[self.filed[id]].kind == kind {
            Some(self.records[self.filed[id]].handler)
        } else {
            None
        }
    }
}

/// the duty to take a filed handler out again once its node can no longer receive
///
/// Held by the receive loop rather than by the node, which can be given up while the loop runs on.
#[derive(Debug)]
pub struct LocalEntry {
    id: SocketId,
    /// the number of the filing, so a late unfile cannot take somebody else's entry out
    filed: u64,
}

/// what a [`LocalEntry`] holds
pub struct LocalEntryView {
    pub id: SocketId,
    pub filed: u64,
}

impl View for LocalEntry {
    type V = LocalEntryView;

    closed spec fn view(&self) -> LocalEntryView {
        LocalEntryView { id: self.id, filed: self.filed }
    }
}

impl View for Locals {
    type V = LocalsView;

    closed spec fn view(&self) -> LocalsView {
        LocalsView { filed: filed(self.filed), records: self.records@, next: self.next }
    }
}

impl Locals {
    /// nothing at all
    pub fn new() -> (locals: Locals)
        ensures
            locals@.wf(),
            locals@ == LocalsView::fresh(),
    {
        let locals = Locals { filed: directory_new(), records: HashMap::new(), next: 0 };
        assert(locals@.filed == Map::<SocketId, u64>::empty());
        assert(locals@.records == Map::<u64, LocalRecord>::empty());
        locals
    }

    /// can another node be given a number?
    pub fn can_file(&self) -> (can: bool)
        ensures
            can == (self@.next < u64::MAX),
    {
        self.next < u64::MAX
    }

    /// the number that the next node gets
    pub(crate) fn next_number(&self) -> (n: u64)
        ensures
            n == self@.next,
    {
        self.next
    }

    /// a number for a node that is not filed
    pub fn number(&mut self) -> (n: u64)
        requires
            old(self)@.wf(),
            old(self)@.next < u64::MAX,
        ensures
            final(self)@.wf(),
            final(self)@ == old(self)@.numbered(),
            final(self)@.filed == old(self)@.filed,
            final(self)@.records == old(self)@.records,
            n == old(self)@.next,
    {
        let n: u64 = self.next;
        self.next = n + 1;
        proof {
            law_numbering_keeps_order(old(self)@);
        }
        n
    }

    /// the handler filed under `id`, if there is one and it is of this kind
    pub fn local_handler(&self, id: SocketId, kind: u64) -> (handler: Option<u64>)
        requires
            self@.wf(),
        ensures
            handler == self@.handler(id, kind),
    {
        match directory_get(&self.filed, id) {
            None => None,
            Some(n) => {
                let record: LocalRecord = *self.records.get(&n).unwrap();
                if record.kind == kind {
                    Some(record.handler)
                } else {
                    None
                }
            },
        }
    }
}

impl LocalEntry {
    /// files a handler under the socket that its node's capabilities send to
    pub fn file(locals: &mut Locals, id: SocketId, handler: u64, kind: u64) -> (entry: LocalEntry)
        requires
            old(locals)@.wf(),
            old(locals)@.next < u64::MAX,
        ensures
            final(locals)@.wf(),
            final(locals)@ == old(locals)@.with(id, handler, kind),
            entry@ == (LocalEntryView { id, filed: old(locals)@.next }),
            final(locals)@.has(entry@),
    {
        let n: u64 = locals.next;
        locals.records.insert(n, LocalRecord { id, handler, kind });
        directory_file(&mut locals.filed, id, n);
        locals.next = n + 1;
        proof {
            law_filing_keeps_order(old(locals)@, id, handler, kind);
        }
        LocalEntry { id, filed: n }
    }

    /// takes the handler out again
    pub fn unfile(self, locals: &mut Locals)
        requires
            old(locals)@.wf(),
            old(locals)@.has(self@),
        ensures
            final(locals)@.wf(),
            final(locals)@ == old(locals)@.without(self@),
    {
        let mine: u64 = self.filed;
        let doomed = |n: u64| -> (same: bool)
            ensures
                same == (n == mine),
        {
            n == mine
        };
        directory_remove_if(&mut locals.filed, self.id, doomed);
        locals.records.remove(&self.filed);
        proof {
            law_taking_out_keeps_order(old(locals)@, self@);
        }
    }
}

impl Ref {
    /// the handler behind this capability, if it leads to a node in *this* process and its handler
    /// is of this kind
    pub fn local_handler(&self, refs: &Refs, locals: &Locals, kind: u64) -> (handler: Option<u64>)
        requires
            refs.wf(),
            refs@.holds(self@),
            locals@.wf(),
        ensures
            handler == (match refs@.inners[self@].id {
                Some(id) => locals@.handler(id, kind),
                None => None,
            }),
    {
        match self.socket_id(refs) {
            Some(id) => locals.local_handler(id, kind),
            None => None,
        }
    }
}

/// Filing a handler leaves the books in order.
pub proof fn law_filing_keeps_order(locals: LocalsView, id: SocketId, handler: u64, kind: u64)
    requires
        locals.wf(),
        locals.next < u64::MAX,
    ensures
        locals.with(id, handler, kind).wf(),
{
    let after = locals.with(id, handler, kind);
    assert forall|i: SocketId| #[trigger] after.filed.contains_key(i) implies
        after.records.contains_key(after.filed[i]) && after.records[after.filed[i]].id == i by {
        if i != id {
            assert(locals.filed.contains_key(i));
            assert(locals.records.contains_key(locals.filed[i]));
        }
    }
    assert forall|n: u64| #[trigger] after.records.contains_key(n) implies n < after.next by {
        if n != locals.next {
            assert(locals.records.contains_key(n));
        }
    }
}

/// Giving a number to a node that is not filed leaves the books in order.
pub proof fn law_numbering_keeps_order(locals: LocalsView)
    requires
        locals.wf(),
        locals.next < u64::MAX,
    ensures
        locals.numbered().wf(),
{
    assert forall|n: u64| #[trigger] locals.numbered().records.contains_key(n) implies n
        < locals.numbered().next by {
        assert(locals.records.contains_key(n));
    }
}

/// Taking a handler out leaves the books in order.
pub proof fn law_taking_out_keeps_order(locals: LocalsView, entry: LocalEntryView)
    requires
        locals.wf(),
        locals.has(entry),
    ensures
        locals.without(entry).wf(),
{
    let after = locals.without(entry);
    assert forall|i: SocketId| #[trigger] after.filed.contains_key(i) implies
        after.records.contains_key(after.filed[i]) && after.records[after.filed[i]].id == i by {
        assert(locals.filed.contains_key(i));
        assert(locals.records.contains_key(locals.filed[i]));
    }
    assert forall|n: u64| #[trigger] after.records.contains_key(n) implies n < after.next by {
        assert(locals.records.contains_key(n));
    }
}

/// one thing that can be done with [`Locals`]
pub enum LocalsStep {
    /// a node is made and filed
    File(SocketId, u64, u64),
    /// a node is made and not filed
    Number,
    /// a handler is taken out
    TakeOut(LocalEntryView),
}

impl LocalsStep {
    /// can this be done here?
    pub open spec fn possible(self, locals: LocalsView) -> bool {
        match self {
            LocalsStep::TakeOut(entry) => locals.has(entry),
            _ => locals.next < u64::MAX,
        }
    }

    /// what is there afterwards
    pub open spec fn done(self, locals: LocalsView) -> LocalsView {
        match self {
            LocalsStep::File(id, handler, kind) => locals.with(id, handler, kind),
            LocalsStep::Number => locals.numbered(),
            LocalsStep::TakeOut(entry) => locals.without(entry),
        }
    }
}

/// can all of `steps` be done here, one after the other?
pub open spec fn all_possible(locals: LocalsView, steps: Seq<LocalsStep>) -> bool
    decreases steps.len(),
{
    steps.len() == 0 || (steps.first().possible(locals) && all_possible(
        steps.first().done(locals),
        steps.drop_first(),
    ))
}

/// what is there after all of `steps`
pub open spec fn all_done(locals: LocalsView, steps: Seq<LocalsStep>) -> LocalsView
    decreases steps.len(),
{
    if steps.len() == 0 {
        locals
    } else {
        all_done(steps.first().done(locals), steps.drop_first())
    }
}

/// A node's number is its own: what is made after it, whatever was done in between, has another.
pub proof fn law_numbers_never_come_back(
    locals: LocalsView,
    made: LocalsStep,
    steps: Seq<LocalsStep>,
)
    requires
        made.possible(locals),
        !(made is TakeOut),
        all_possible(made.done(locals), steps),
    ensures
        all_done(made.done(locals), steps).next > locals.next,
{
    lemma_next_grows(made.done(locals), steps);
}

proof fn lemma_next_grows(locals: LocalsView, steps: Seq<LocalsStep>)
    requires
        all_possible(locals, steps),
    ensures
        all_done(locals, steps).next >= locals.next,
    decreases steps.len(),
{
    if steps.len() != 0 {
        lemma_next_grows(steps.first().done(locals), steps.drop_first());
    }
}

/// No more identities lead to a handler than there are filings that were not taken out.
pub proof fn law_filed_is_bounded(locals: LocalsView)
    requires
        locals.wf(),
    ensures
        locals.filed.dom().finite(),
        locals.filed.dom().len() <= locals.records.dom().len(),
{
    lemma_filed_is_bounded(locals.filed, locals.records.dom(), |n: u64| locals.records[n].id);
}

/// What was filed is found under its kind, and refused under any other.
pub proof fn law_filed_is_found(
    locals: LocalsView,
    id: SocketId,
    handler: u64,
    kind: u64,
    other: u64,
)
    requires
        other != kind,
    ensures
        locals.with(id, handler, kind).handler(id, kind) == Some(handler),
        locals.with(id, handler, kind).handler(id, other) == None::<u64>,
{
}

/// Filing and taking out leave what other identities lead to alone.
pub proof fn law_others_are_left_alone(
    locals: LocalsView,
    id: SocketId,
    handler: u64,
    kind: u64,
    entry: LocalEntryView,
    other: SocketId,
    wanted: u64,
)
    requires
        locals.wf(),
        locals.next < u64::MAX,
        locals.has(entry),
    ensures
        other != id ==> locals.with(id, handler, kind).handler(other, wanted) == locals.handler(
            other,
            wanted,
        ),
        other != entry.id ==> locals.without(entry).handler(other, wanted) == locals.handler(
            other,
            wanted,
        ),
{
    if locals.filed.contains_key(other) {
        assert(locals.records.contains_key(locals.filed[other]));
        assert(locals.filed[other] < locals.next);
    }
}

/// Filing and taking out leave the other filings alone.
pub proof fn law_other_filings_stay(
    locals: LocalsView,
    id: SocketId,
    handler: u64,
    kind: u64,
    entry: LocalEntryView,
    other: LocalEntryView,
)
    requires
        locals.wf(),
        locals.has(other),
        other.filed != entry.filed,
    ensures
        locals.with(id, handler, kind).has(other),
        locals.without(entry).has(other),
{
    assert(other.filed < locals.next);
}

/// A handler that is taken out is not found any more: its filing is gone, and its identity leads to
/// nothing, unless another was filed there since.
pub proof fn law_taken_out_is_gone(locals: LocalsView, entry: LocalEntryView, kind: u64)
    requires
        locals.wf(),
        locals.has(entry),
    ensures
        !locals.without(entry).has(entry),
        locals.without(entry).filed.contains_key(entry.id) ==> locals.without(
            entry,
        ).filed[entry.id] != entry.filed,
        locals.filed.contains_key(entry.id) && locals.filed[entry.id] == entry.filed
            ==> locals.without(entry).handler(entry.id, kind) == None::<u64>,
{
}

/// A late unfile takes nobody else's entry out: where the kernel has given a socket's identity to
/// another, and that one's handler was filed, it stays, be it the same handler or not.
pub proof fn law_late_unfile_is_harmless(
    locals: LocalsView,
    entry: LocalEntryView,
    handler: u64,
    kind: u64,
)
    requires
        locals.wf(),
        locals.next < u64::MAX,
        locals.has(entry),
    ensures
        locals.with(entry.id, handler, kind).has(entry),
        locals.with(entry.id, handler, kind).without(entry).handler(entry.id, kind) == Some(handler),
{
    assert(entry.filed < locals.next);
}

/// There is no handler to begin with.
pub proof fn law_no_handler_to_begin_with(id: SocketId, kind: u64, entry: LocalEntryView)
    ensures
        LocalsView::fresh().handler(id, kind) is None,
        !LocalsView::fresh().has(entry),
        LocalsView::fresh().next == 0,
{
}

/// What is found is what was filed, and everything that was filed is found: the handler of the
/// filing that the identity leads to, if it is of the kind that is asked for.
pub proof fn law_found_is_what_was_filed(locals: LocalsView, id: SocketId, kind: u64, handler: u64)
    ensures
        locals.handler(id, kind) == Some(handler) <==> locals.filed.contains_key(id)
            && locals.records[locals.filed[id]].kind == kind
            && locals.records[locals.filed[id]].handler == handler,
        !locals.filed.contains_key(id) ==> locals.handler(id, kind) is None,
{
}

/// Giving a number to a node that is not filed leaves every filing and every handler alone.
pub proof fn law_numbering_files_nothing(
    locals: LocalsView,
    id: SocketId,
    kind: u64,
    entry: LocalEntryView,
)
    ensures
        locals.numbered().handler(id, kind) == locals.handler(id, kind),
        locals.numbered().filed == locals.filed,
        locals.numbered().records == locals.records,
        locals.numbered().has(entry) == locals.has(entry),
        locals.next < u64::MAX ==> locals.numbered().next == locals.next + 1,
{
}

/// Filing a handler makes one filing, with a number of its own, which its identity then leads to;
/// every other identity leads where it led, and every other filing stays as it was.
pub proof fn law_filing_is_one_filing(
    locals: LocalsView,
    id: SocketId,
    handler: u64,
    kind: u64,
    other: SocketId,
    n: u64,
)
    ensures
        ({
            let after = locals.with(id, handler, kind);
            &&& after.filed.contains_key(id) && after.filed[id] == locals.next
            &&& after.records.contains_key(locals.next)
            &&& after.records[locals.next].id == id
            &&& after.records[locals.next].handler == handler
            &&& after.records[locals.next].kind == kind
            &&& locals.next < u64::MAX ==> after.next == locals.next + 1
            &&& other != id ==> after.filed.contains_key(other) == locals.filed.contains_key(other)
            &&& other != id && locals.filed.contains_key(other) ==> after.filed[other]
                == locals.filed[other]
            &&& n != locals.next ==> after.records.contains_key(n) == locals.records.contains_key(n)
            &&& n != locals.next && locals.records.contains_key(n) ==> after.records[n]
                == locals.records[n]
        }),
{
}

/// Taking a filing out takes out that one and no other; its identity leads nowhere from then on if
/// it led there, and every other identity leads where it led. Numbers go on as they would have.
pub proof fn law_taking_out_is_of_one_filing(
    locals: LocalsView,
    entry: LocalEntryView,
    other: SocketId,
    n: u64,
)
    ensures
        ({
            let after = locals.without(entry);
            &&& after.next == locals.next
            &&& !after.records.contains_key(entry.filed)
            &&& n != entry.filed ==> after.records.contains_key(n) == locals.records.contains_key(n)
            &&& n != entry.filed && locals.records.contains_key(n) ==> after.records[n]
                == locals.records[n]
            &&& other != entry.id ==> after.filed.contains_key(other) == locals.filed.contains_key(
                other,
            )
            &&& other != entry.id && locals.filed.contains_key(other) ==> after.filed[other]
                == locals.filed[other]
            &&& after.filed.contains_key(entry.id) <==> locals.filed.contains_key(entry.id)
                && locals.filed[entry.id] != entry.filed
            &&& after.filed.contains_key(entry.id) ==> after.filed[entry.id]
                == locals.filed[entry.id]
        }),
{
}

/// A filing is there exactly if its number is in use for its identity.
pub proof fn law_filing_is_known_by_its_number(locals: LocalsView, entry: LocalEntryView)
    ensures
        locals.has(entry) <==> locals.records.contains_key(entry.filed)
            && locals.records[entry.filed].id == entry.id,
{
}

} // verus!
