//! Ordered sets of tag ids, held in an `indexmap::IndexSet`.
//!
//! The order of insertion is kept and significant: the first tag of a window
//! is its primary tag.
use indexmap::IndexSet;
use vstd::prelude::*;

verus! {

/// The ordered set of `indexmap`, held opaque; its contents are read through
/// `tag_ids` only.
#[verifier::external_type_specification]
#[verifier::external_body]
#[verifier::reject_recursive_types(T)]
#[verifier::reject_recursive_types(S)]
pub struct ExIndexSet<T, S>(IndexSet<T, S>);

/// The ids an ordered tag set holds, in insertion order.
pub uninterp spec fn tag_ids(s: IndexSet<u32>) -> Seq<u32>;

/// Relies on `IndexSet::new`: a new set is empty.
#[verifier::external_body]
pub(crate) fn tag_set_new() -> (r: IndexSet<u32>)
    ensures
        tag_ids(r) == Seq::<u32>::empty(),
{
    IndexSet::new()
}

/// Relies on `IndexSet::clone`: the copy holds the same values in the same order.
#[verifier::external_body]
pub(crate) fn tag_set_clone(s: &IndexSet<u32>) -> (r: IndexSet<u32>)
    ensures
        tag_ids(r) == tag_ids(*s),
{
    s.clone()
}

/// Relies on `IndexSet::len`: the number of values held.
#[verifier::external_body]
pub(crate) fn tag_set_len(s: &IndexSet<u32>) -> (r: usize)
    ensures
        r == tag_ids(*s).len(),
{
    s.len()
}

/// Relies on `IndexSet::get_index`: the value at a position, if in range.
#[verifier::external_body]
pub(crate) fn tag_set_get_index(s: &IndexSet<u32>, index: usize) -> (r: Option<u32>)
    ensures
        r == if index < tag_ids(*s).len() {
            Some(tag_ids(*s)[index as int])
        } else {
            None::<u32>
        },
{
    s.get_index(index).copied()
}

/// Relies on `IndexSet::contains`: membership.
#[verifier::external_body]
pub(crate) fn tag_set_contains(s: &IndexSet<u32>, id: u32) -> (r: bool)
    ensures
        r == tag_ids(*s).contains(id),
{
    s.contains(&id)
}

/// Relies on `IndexSet::insert`: a value not yet held goes to the end; a held
/// one keeps its place. Returns whether the value was new.
#[verifier::external_body]
pub(crate) fn tag_set_insert(s: &mut IndexSet<u32>, id: u32) -> (r: bool)
    ensures
        r == !tag_ids(*old(s)).contains(id),
        tag_ids(*final(s)) == if r {
            tag_ids(*old(s)).push(id)
        } else {
            tag_ids(*old(s))
        },
{
    s.insert(id)
}

/// Relies on `IndexSet::shift_remove`: removes the value, keeping the order of
/// the others. Returns whether it was held.
#[verifier::external_body]
pub(crate) fn tag_set_shift_remove(s: &mut IndexSet<u32>, id: u32) -> (r: bool)
    ensures
        r == tag_ids(*old(s)).contains(id),
        tag_ids(*final(s)) == tag_ids(*old(s)).filter(|x: u32| x != id),
{
    s.shift_remove(&id)
}

} // verus!
