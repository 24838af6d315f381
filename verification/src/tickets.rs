//! tickets: who waits, and in what order

use vstd::prelude::*;
use vstd::seq_lib::lemma_seq_contains_after_push;

verus! {

/// `tickets` but for one, in order
pub open spec fn without(tickets: Seq<u64>, ticket: u64) -> Seq<u64> {
    tickets.filter(|t: u64| t != ticket)
}

/// is `ticket` among `tickets`?
pub fn has_ticket(tickets: &Vec<u64>, ticket: u64) -> (found: bool)
    ensures
        found == tickets@.contains(ticket),
{
    let mut i: usize = 0;
    while i < tickets.len()
        invariant
            0 <= i <= tickets.len(),
            forall|j: int| 0 <= j < i ==> #[trigger] tickets@[j] != ticket,
        decreases tickets.len() - i,
    {
        if tickets[i] == ticket {
            return true;
        }
        i += 1;
    }
    false
}

/// takes `ticket` out of `tickets`
pub fn drop_ticket(tickets: &mut Vec<u64>, ticket: u64)
    ensures
        final(tickets)@ == without(old(tickets)@, ticket),
{
    let mut kept: Vec<u64> = Vec::new();
    assert(kept@ == without(tickets@.take(0), ticket)) by {
        reveal(Seq::filter);
    }
    let mut i: usize = 0;
    while i < tickets.len()
        invariant
            0 <= i <= tickets.len(),
            tickets@ == old(tickets)@,
            kept@ == without(tickets@.take(i as int), ticket),
        decreases tickets.len() - i,
    {
        let t: u64 = tickets[i];
        proof {
            assert(tickets@.take(i + 1).drop_last() == tickets@.take(i as int));
            lemma_without_last(tickets@.take(i + 1), ticket);
        }
        if t != ticket {
            kept.push(t);
        }
        i += 1;
    }
    assert(tickets@.take(i as int) == tickets@);
    *tickets = kept;
}

proof fn lemma_without_last(s: Seq<u64>, ticket: u64)
    requires
        s.len() != 0,
    ensures
        without(s, ticket) == (if s.last() != ticket {
            without(s.drop_last(), ticket).push(s.last())
        } else {
            without(s.drop_last(), ticket)
        }),
{
    reveal(Seq::filter);
}

/// What a sequence that does not repeat itself contains but for its first item.
pub proof fn lemma_rest_contains(s: Seq<u64>, t: u64)
    requires
        s.len() != 0,
        s.no_duplicates(),
    ensures
        s.drop_first().contains(t) <==> s.contains(t) && t != s.first(),
        s.drop_first().no_duplicates(),
{
    let rest = s.drop_first();
    if rest.contains(t) {
        let i = choose|i: int| 0 <= i < rest.len() && rest[i] == t;
        assert(s[i + 1] == t);
    }
    if s.contains(t) && t != s.first() {
        let i = choose|i: int| 0 <= i < s.len() && s[i] == t;
        assert(rest[i - 1] == t);
    }
}

/// What is left of `s` without a ticket.
pub proof fn lemma_without(s: Seq<u64>, ticket: u64)
    ensures
        forall|t: u64| #[trigger]
            without(s, ticket).contains(t) <==> s.contains(t) && t != ticket,
        s.no_duplicates() ==> without(s, ticket).no_duplicates(),
        s.no_duplicates() && s.contains(ticket) ==> without(s, ticket).len() == s.len() - 1,
        !s.contains(ticket) ==> without(s, ticket) == s,
        without(s, ticket).len() <= s.len(),
    decreases s.len(),
{
    if s.len() == 0 {
        reveal(Seq::filter);
    } else {
        let init = s.drop_last();
        lemma_without(init, ticket);
        lemma_without_last(s, ticket);
        assert(s == init.push(s.last()));
        assert forall|t: u64| #[trigger]
            without(s, ticket).contains(t) <==> s.contains(t) && t != ticket by {
            lemma_seq_contains_after_push(init, s.last(), t);
            lemma_seq_contains_after_push(without(init, ticket), s.last(), t);
            assert(without(init, ticket).contains(t) <==> init.contains(t) && t != ticket);
        }
        lemma_seq_contains_after_push(init, s.last(), ticket);
        if s.no_duplicates() {
            assert(!init.contains(s.last())) by {
                if init.contains(s.last()) {
                    let i = choose|i: int| 0 <= i < init.len() && init[i] == s.last();
                    assert(s[i] == s[s.len() - 1]);
                }
            }
            assert(!without(init, ticket).contains(s.last()));
        }
    }
}

/// Taking a ticket out takes out that one and keeps the others in the order they are in.
pub proof fn law_without_keeps_order(s: Seq<u64>, i: int)
    requires
        s.no_duplicates(),
        0 <= i < s.len(),
    ensures
        without(s, s[i]) == s.remove(i),
    decreases s.len(),
{
    let init = s.drop_last();
    lemma_without_last(s, s[i]);
    if i == s.len() - 1 {
        assert(!init.contains(s[i])) by {
            if init.contains(s[i]) {
                let j = choose|j: int| 0 <= j < init.len() && init[j] == s[i];
                assert(s[j] == s[i]);
            }
        }
        lemma_without(init, s[i]);
        assert(s.remove(i) == init);
    } else {
        assert(init[i] == s[i]);
        law_without_keeps_order(init, i);
        assert(s.last() != s[i]);
        assert(s.remove(i) == init.remove(i).push(s.last()));
    }
}

} // verus!
