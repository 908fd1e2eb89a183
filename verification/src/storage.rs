//! The node arena: stable-identity storage for tree nodes.
//!
//! Nodes live in a `slab::Slab<File>`, abstracted by `slab_nodes`, the map
//! from key to stored node. Nothing is ever removed during a build, so every
//! slab this crate constructs is *dense* — it has no vacant slot below the
//! end of its backing storage — and insertion hands out the keys 0, 1, 2, …
//! in order. `slab_next` names the key the next insertion will take and
//! `slab_dense` names density; both are facts of the slab value alone.

use vstd::prelude::*;
use slab::Slab;
use crate::file_tree::File;

verus! {

#[verifier::external_type_specification]
#[verifier::external_body]
#[verifier::reject_recursive_types(T)]
pub struct ExSlab<T>(Slab<T>);

/// The stored nodes, by key.
pub uninterp spec fn slab_nodes(s: Slab<File>) -> Map<usize, File>;

/// The key the next insertion will use (the head of the free list, or the
/// end of the backing storage when no slot is free).
pub uninterp spec fn slab_next(s: Slab<File>) -> usize;

/// Whether the slab has no vacant slot: every key below the end of its
/// backing storage is occupied. A slab nothing was ever removed from is
/// dense.
pub uninterp spec fn slab_dense(s: Slab<File>) -> bool;

/// Relies on `slab::Slab::new`: it returns an empty slab whose backing
/// storage is empty, so its next key is 0 and it is dense.
#[verifier::external_body]
pub fn slab_new() -> (r: Slab<File>)
    ensures
        slab_nodes(r).dom() == Set::<usize>::empty(),
        slab_next(r) == 0,
        slab_dense(r),
{
    Slab::new()
}

/// Relies on `slab::Slab::vacant_key`: it returns the key the next
/// insertion will use, without changing the slab.
#[verifier::external_body]
pub fn slab_vacant_key(s: &Slab<File>) -> (r: usize)
    ensures
        r == slab_next(*s),
{
    s.vacant_key()
}

/// Relies on `slab::Slab::insert`: it stores the value under the next
/// vacant key and returns that key. In a dense slab the next key is the end
/// of the backing storage, so the insertion appends: the slab stays dense
/// and the following key is one higher.
#[verifier::external_body]
pub fn slab_insert(s: &mut Slab<File>, f: File) -> (id: usize)
    ensures
        id == slab_next(*old(s)),
        !slab_nodes(*old(s)).dom().contains(id),
        slab_nodes(*final(s)) == slab_nodes(*old(s)).insert(id, f),
        slab_dense(*old(s)) ==> slab_dense(*final(s)) && slab_next(*final(s)) as int == id + 1,
{
    s.insert(f)
}

/// Relies on `slab::Slab`'s `Index` impl: it returns the value stored under
/// an occupied key.
#[verifier::external_body]
pub fn slab_get(s: &Slab<File>, id: usize) -> (r: &File)
    requires
        slab_nodes(*s).dom().contains(id),
    ensures
        *r == slab_nodes(*s)[id],
{
    &s[id]
}

/// Relies on `slab::Slab`'s `IndexMut` impl: it returns the value stored
/// under an occupied key, for mutation in place; occupancy, the free list
/// and the other slots are untouched.
#[verifier::external_body]
pub fn slab_get_mut(s: &mut Slab<File>, id: usize) -> (r: &mut File)
    requires
        slab_nodes(*old(s)).dom().contains(id),
    ensures
        *r == slab_nodes(*old(s))[id],
        slab_nodes(*final(s)) == slab_nodes(*old(s)).insert(id, *final(r)),
        slab_next(*final(s)) == slab_next(*old(s)),
        slab_dense(*old(s)) ==> slab_dense(*final(s)),
{
    &mut s[id]
}

} // verus!
