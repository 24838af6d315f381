//! "the other end is gone": one flag, one wakeup

use crate::tickets::{drop_ticket, law_without_keeps_order, lemma_without, without};
use vstd::prelude::*;
use vstd::seq_lib::lemma_seq_contains_after_push;

verus! {

/// a one-way latch, and who waits for it: not dead, then dead, never back again
///
/// A waiter takes a ticket first and looks at the flag only then, so a death that comes in between
/// finds the ticket and is not missed.
pub struct Death {
    dead: bool,
    /// the tickets of those who wait
    waiting: Vec<u64>,
    /// the next ticket to give out
    next: u64,
}

/// what a [`Death`] holds
pub struct DeathView {
    pub dead: bool,
    pub waiting: Seq<u64>,
    pub next: u64,
}

impl DeathView {
    /// nobody dead and nobody waiting
    pub open spec fn fresh() -> DeathView {
        DeathView { dead: false, waiting: Seq::empty(), next: 0 }
    }

    /// Every ticket was given out, and none is held twice.
    pub open spec fn wf(self) -> bool {
        &&& forall|i: int| 0 <= i < self.waiting.len() ==> #[trigger] self.waiting[i] < self.next
        &&& self.waiting.no_duplicates()
    }

    /// one more waiting
    pub open spec fn enabled(self) -> DeathView {
        DeathView {
            waiting: self.waiting.push(self.next),
            next: (self.next + 1) as u64,
            ..self
        }
    }

    /// the holder of `ticket` no longer waiting
    pub open spec fn left(self, ticket: u64) -> DeathView {
        DeathView { waiting: without(self.waiting, ticket), ..self }
    }

    /// dead, and nobody left waiting
    pub open spec fn declared(self) -> DeathView {
        DeathView { dead: true, waiting: Seq::empty(), ..self }
    }
}

impl View for Death {
    type V = DeathView;

    closed spec fn view(&self) -> DeathView {
        DeathView { dead: self.dead, waiting: self.waiting@, next: self.next }
    }
}

impl Death {
    /// not dead, and nobody waiting
    pub fn new() -> (death: Death)
        ensures
            death@ == DeathView::fresh(),
            death@.wf(),
    {
        Death { dead: false, waiting: Vec::new(), next: 0 }
    }

    /// has it happened?
    pub fn is_dead(&self) -> (dead: bool)
        ensures
            dead == self@.dead,
    {
        self.dead
    }

    /// can another ticket be given out?
    pub fn can_enable(&self) -> (can: bool)
        ensures
            can == (self@.next < u64::MAX),
    {
        self.next < u64::MAX
    }

    /// takes a ticket, so that a death from here on wakes its holder
    pub fn enable(&mut self) -> (ticket: u64)
        requires
            old(self)@.wf(),
            old(self)@.next < u64::MAX,
        ensures
            final(self)@.wf(),
            final(self)@ == old(self)@.enabled(),
            ticket == old(self)@.next,
            !old(self)@.waiting.contains(ticket),
            final(self)@.waiting.contains(ticket),
    {
        let ticket: u64 = self.next;
        self.waiting.push(ticket);
        self.next = ticket + 1;
        assert(self@.waiting.last() == ticket);
        ticket
    }

    /// gives a ticket back, e.g. because its holder no longer cares
    pub fn leave(&mut self, ticket: u64)
        requires
            old(self)@.wf(),
        ensures
            final(self)@.wf(),
            final(self)@ == old(self)@.left(ticket),
    {
        proof {
            lemma_left_wf(self@, ticket);
        }
        drop_ticket(&mut self.waiting, ticket);
    }

    /// waits on: `true` if it has happened, and otherwise the holder of `ticket` parks until it is
    /// woken
    pub fn wait(&mut self, ticket: u64) -> (resolved: bool)
        requires
            old(self)@.wf(),
        ensures
            final(self)@.wf(),
            resolved == old(self)@.dead,
            final(self)@ == (if old(self)@.dead {
                old(self)@.left(ticket)
            } else {
                old(self)@
            }),
    {
        if self.dead {
            self.leave(ticket);
            true
        } else {
            false
        }
    }

    /// records the death, and says whom to wake
    pub fn declare(&mut self) -> (woken: Vec<u64>)
        requires
            old(self)@.wf(),
        ensures
            final(self)@.wf(),
            final(self)@ == old(self)@.declared(),
            woken@ == old(self)@.waiting,
    {
        self.dead = true;
        let mut woken: Vec<u64> = Vec::new();
        woken.append(&mut self.waiting);
        assert(woken@ == old(self)@.waiting);
        woken
    }
}

impl Default for Death {
    fn default() -> (death: Death)
        ensures
            death@ == DeathView::fresh(),
            death@.wf(),
    {
        Death::new()
    }
}

proof fn lemma_left_wf(death: DeathView, ticket: u64)
    requires
        death.wf(),
    ensures
        death.left(ticket).wf(),
{
    lemma_without(death.waiting, ticket);
    let after = death.left(ticket);
    assert forall|i: int| 0 <= i < after.waiting.len() implies #[trigger] after.waiting[i]
        < after.next by {
        assert(after.waiting.contains(after.waiting[i]));
        assert(death.waiting.contains(after.waiting[i]));
    }
}

/// one thing that can be done with a [`Death`]
pub enum DeathTurn {
    Enable,
    Leave(u64),
    Declare,
}

impl DeathTurn {
    /// what is there afterwards
    pub open spec fn done(self, death: DeathView) -> DeathView {
        match self {
            DeathTurn::Enable => death.enabled(),
            DeathTurn::Leave(ticket) => death.left(ticket),
            DeathTurn::Declare => death.declared(),
        }
    }
}

/// what is there after all of `turns`
pub open spec fn all_done(death: DeathView, turns: Seq<DeathTurn>) -> DeathView
    decreases turns.len(),
{
    if turns.len() == 0 {
        death
    } else {
        all_done(turns.first().done(death), turns.drop_first())
    }
}

/// It is a latch: once dead, dead whatever is done.
pub proof fn law_death_is_final(death: DeathView, turns: Seq<DeathTurn>)
    requires
        death.dead,
    ensures
        all_done(death, turns).dead,
    decreases turns.len(),
{
    if turns.len() != 0 {
        law_death_is_final(turns.first().done(death), turns.drop_first());
    }
}

/// No death is missed: whoever holds a ticket and does not give it back is, whatever others do
/// meanwhile, either among those that the next declaration wakes, or finds the flag up.
pub proof fn law_no_death_is_missed(death: DeathView, turns: Seq<DeathTurn>, ticket: u64)
    requires
        death.waiting.contains(ticket) || death.dead,
        forall|i: int| 0 <= i < turns.len() ==> #[trigger] turns[i] != DeathTurn::Leave(ticket),
    ensures
        all_done(death, turns).waiting.contains(ticket) || all_done(death, turns).dead,
        (exists|i: int| 0 <= i < turns.len() && #[trigger] turns[i] == DeathTurn::Declare)
            ==> all_done(death, turns).dead,
    decreases turns.len(),
{
    if turns.len() != 0 {
        let after = turns.first().done(death);
        let rest = turns.drop_first();
        assert(turns[0] != DeathTurn::Leave(ticket));
        match turns.first() {
            DeathTurn::Enable => {
                lemma_seq_contains_after_push(death.waiting, death.next, ticket);
            },
            DeathTurn::Leave(other) => {
                lemma_without(death.waiting, other);
            },
            DeathTurn::Declare => {},
        }
        assert forall|i: int| 0 <= i < rest.len() implies #[trigger] rest[i] != DeathTurn::Leave(
            ticket,
        ) by {
            assert(rest[i] == turns[i + 1]);
        }
        law_no_death_is_missed(after, rest, ticket);
        if exists|i: int| 0 <= i < turns.len() && #[trigger] turns[i] == DeathTurn::Declare {
            let i = choose|i: int| 0 <= i < turns.len() && #[trigger]
                turns[i] == DeathTurn::Declare;
            if i == 0 {
                law_death_is_final(after, rest);
            } else {
                assert(rest[i - 1] == turns[i]);
            }
        }
    }
}

/// Whoever takes a ticket while nobody is dead and keeps it is woken: at the first declaration that
/// comes, its ticket is among those waiting, which are the ones that are woken.
pub proof fn law_declaration_wakes(death: DeathView, turns: Seq<DeathTurn>, ticket: u64)
    requires
        death.waiting.contains(ticket),
        forall|i: int| 0 <= i < turns.len() ==> #[trigger] turns[i] != DeathTurn::Leave(ticket),
        exists|i: int| 0 <= i < turns.len() && #[trigger] turns[i] == DeathTurn::Declare,
    ensures
        exists|i: int|
            0 <= i < turns.len() && #[trigger] turns[i] == DeathTurn::Declare && all_done(
                death,
                turns.take(i),
            ).waiting.contains(ticket),
    decreases turns.len(),
{
    let first = choose|i: int| 0 <= i < turns.len() && #[trigger] turns[i] == DeathTurn::Declare;
    let rest = turns.drop_first();
    let after = turns.first().done(death);
    if turns[0] == DeathTurn::Declare {
        assert(turns.take(0).len() == 0);
    } else {
        assert(after.waiting.contains(ticket)) by {
            match turns.first() {
                DeathTurn::Enable => {
                    lemma_seq_contains_after_push(death.waiting, death.next, ticket);
                },
                DeathTurn::Leave(other) => {
                    lemma_without(death.waiting, other);
                },
                DeathTurn::Declare => {},
            }
        }
        assert forall|i: int| 0 <= i < rest.len() implies #[trigger] rest[i] != DeathTurn::Leave(
            ticket,
        ) by {
            assert(rest[i] == turns[i + 1]);
        }
        assert(rest[first - 1] == DeathTurn::Declare);
        law_declaration_wakes(after, rest, ticket);
        let j = choose|j: int|
            0 <= j < rest.len() && #[trigger] rest[j] == DeathTurn::Declare && all_done(
                after,
                rest.take(j),
            ).waiting.contains(ticket);
        assert(turns.take(j + 1).drop_first() == rest.take(j));
        assert(turns.take(j + 1).first() == turns.first());
        assert(turns[j + 1] == DeathTurn::Declare);
    }
}

/// Nobody is dead and nobody waits to begin with.
pub proof fn law_alive_to_begin_with()
    ensures
        !DeathView::fresh().dead,
        DeathView::fresh().waiting.len() == 0,
        DeathView::fresh().next == 0,
{
}

/// Only a declaration is a death: neither waiting for one nor giving up on it brings it about.
pub proof fn law_only_a_declaration_is_a_death(death: DeathView, turn: DeathTurn)
    ensures
        turn.done(death).dead <==> death.dead || turn is Declare,
        death.enabled().dead == death.dead,
        forall|ticket: u64| #[trigger] death.left(ticket).dead == death.dead,
        death.declared().dead,
{
}

/// Whoever begins to wait waits last, with a number that was not given out before; whoever gives up
/// leaves the others waiting, in the same order; and after a declaration nobody waits.
pub proof fn law_waiting_is_in_order(death: DeathView, i: int)
    requires
        death.waiting.no_duplicates(),
    ensures
        death.enabled().waiting.len() == death.waiting.len() + 1,
        death.enabled().waiting.last() == death.next,
        death.enabled().waiting.drop_last() == death.waiting,
        death.next < u64::MAX ==> death.enabled().next == death.next + 1,
        0 <= i < death.waiting.len() ==> death.left(death.waiting[i]).waiting
            == death.waiting.remove(i) && death.left(death.waiting[i]).next == death.next,
        death.declared().waiting.len() == 0,
        death.declared().next == death.next,
{
    assert(death.enabled().waiting.drop_last() == death.waiting);
    if 0 <= i < death.waiting.len() {
        law_without_keeps_order(death.waiting, i);
    }
}

/// Giving back a ticket that nobody waits with changes nothing.
pub proof fn law_strange_ticket_changes_nothing(death: DeathView, ticket: u64)
    requires
        !death.waiting.contains(ticket),
    ensures
        death.left(ticket) == death,
{
    lemma_without(death.waiting, ticket);
}

} // verus!
