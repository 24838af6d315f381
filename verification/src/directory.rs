//! a sharded hash map from a socket's identity to a number

use dashmap::mapref::entry::Entry;
use dashmap::DashMap;
use std::hash::RandomState;
use vstd::prelude::*;

verus! {

/// a socket's identity as the kernel sees it: the device its inode lives on, and the inode
///
/// Every descriptor naming one socket agrees on this, and descriptor numbers agree on nothing. It
/// is only unique while the socket is open: the kernel hands an inode number out again once it is
/// free.
pub type SocketId = (u64, u64);

/// what is filed under which identity
pub type Directory = DashMap<SocketId, u64, RandomState>;

/// `dashmap::DashMap`
#[verifier::external_type_specification]
#[verifier::external_body]
#[verifier::reject_recursive_types(K)]
#[verifier::reject_recursive_types(V)]
#[verifier::reject_recursive_types(S)]
pub struct ExDashMap<K, V, S>(DashMap<K, V, S>);

/// what a [`Directory`] holds
pub uninterp spec fn filed(directory: Directory) -> Map<SocketId, u64>;

/// `DashMap::new` makes a map of nothing
#[verifier::external_body]
pub(crate) fn directory_new() -> (directory: Directory)
    ensures
        filed(directory).dom() == Set::<SocketId>::empty(),
{
    DashMap::new()
}

/// `DashMap::get` finds what is filed under `id`, if anything is
#[verifier::external_body]
pub(crate) fn directory_get(directory: &Directory, id: SocketId) -> (found: Option<u64>)
    ensures
        found == (if filed(*directory).contains_key(id) {
            Some(filed(*directory)[id])
        } else {
            None
        }),
{
    directory.get(&id).map(|entry| *entry)
}

/// `DashMap::entry` opens the place of `id`, occupied or vacant; `OccupiedEntry::insert` replaces
/// what is there and `VacantEntry::insert` fills it, so either way `value` is filed under `id`
#[verifier::external_body]
pub(crate) fn directory_file(directory: &mut Directory, id: SocketId, value: u64)
    ensures
        filed(*final(directory)) == filed(*old(directory)).insert(id, value),
{
    match directory.entry(id) {
        Entry::Occupied(mut occupied) => { occupied.insert(value); },
        Entry::Vacant(vacant) => { vacant.insert(value); },
    }
}

/// `DashMap::remove_if` asks `doomed` about what is filed under `id`, if anything is, and removes
/// it exactly if the answer is yes
#[verifier::external_body]
pub(crate) fn directory_remove_if<P: Fn(u64) -> bool>(
    directory: &mut Directory,
    id: SocketId,
    doomed: P,
) -> (removed: bool)
    requires
        filed(*old(directory)).contains_key(id) ==> call_requires(
            doomed,
            (filed(*old(directory))[id],),
        ),
    ensures
        filed(*old(directory)).contains_key(id) ==> call_ensures(
            doomed,
            (filed(*old(directory))[id],),
            removed,
        ),
        !filed(*old(directory)).contains_key(id) ==> !removed,
        filed(*final(directory)) == (if removed {
            filed(*old(directory)).remove(id)
        } else {
            filed(*old(directory))
        }),
{
    directory.remove_if(&id, |_, value| doomed(*value)).is_some()
}

/// `DashMap::contains_key` says whether anything is filed under `id`
#[verifier::external_body]
pub(crate) fn directory_contains(directory: &Directory, id: SocketId) -> (found: bool)
    ensures
        found == filed(*directory).contains_key(id),
{
    directory.contains_key(&id)
}

/// `DashMap::len` counts the entries
#[verifier::external_body]
pub(crate) fn directory_len(directory: &Directory) -> (len: usize)
    ensures
        len == filed(*directory).dom().len(),
{
    directory.len()
}

/// No more identities are filed than there are numbers in use, where each that is filed leads to a
/// number in use and that leads back to it.
pub proof fn lemma_filed_is_bounded(
    filed: Map<SocketId, u64>,
    used: Set<u64>,
    back: spec_fn(u64) -> SocketId,
)
    requires
        used.finite(),
        forall|id: SocketId| #[trigger]
            filed.contains_key(id) ==> used.contains(filed[id]) && back(filed[id]) == id,
    ensures
        filed.dom().finite(),
        filed.dom().len() <= used.len(),
{
    let named = filed.dom().map(|id: SocketId| filed[id]);
    assert forall|n: u64| #[trigger] named.contains(n) implies used.contains(n) && filed.contains_key(
        back(n),
    ) by {
        let id = choose|id: SocketId| #[trigger] filed.dom().contains(id) && n == filed[id];
        assert(filed.contains_key(id));
    }
    assert(filed.dom() =~= named.map(back)) by {
        assert forall|id: SocketId| #[trigger] filed.dom().contains(id) implies named.map(
            back,
        ).contains(id) by {
            assert(filed.contains_key(id));
            assert(named.contains(filed[id]));
        }
    }
    vstd::set_lib::lemma_len_subset(named, used);
    named.lemma_map_finite(back);
    vstd::set_lib::lemma_map_size_bound(named, filed.dom(), back);
}

} // verus!
