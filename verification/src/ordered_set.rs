//! Ordered sets of handles.
//!
//! A node's children, and the path that an ancestry query records, are kept in
//! an `IndexSet` of the `indexmap` crate: a set that remembers the order in
//! which its items came. The set is not verified: this module states, for each
//! method that the library calls, what the method does to the items.

use indexmap::IndexSet;
use std::collections::hash_map::RandomState;
use vstd::prelude::*;

verus! {

/// Makes `IndexSet` known as a type whose inside is not looked at.
#[verifier::external_type_specification]
#[verifier::external_body]
#[verifier::reject_recursive_types(T)]
#[verifier::reject_recursive_types(S)]
pub struct ExIndexSet<T, S>(IndexSet<T, S>);

/// The items of `s`, in the set's own order.
pub uninterp spec fn set_items(s: IndexSet<u64, RandomState>) -> Seq<u64>;

/// The test that every item but `x` passes.
pub open spec fn other_than(x: u64) -> spec_fn(u64) -> bool {
    |y: u64| y != x
}

/// The test that the items pass that `b` does not hold.
pub open spec fn not_in(b: Seq<u64>) -> spec_fn(u64) -> bool {
    |y: u64| !b.contains(y)
}

/// `s` with every occurrence of `x` taken out, the rest in their order.
pub open spec fn without(s: Seq<u64>, x: u64) -> Seq<u64> {
    s.filter(other_than(x))
}

/// `s` with `x` taken out as a swap-remove does it: the last item moves into
/// the place of `x`, and the sequence gets shorter by one.
pub open spec fn swap_out(s: Seq<u64>, x: u64) -> Seq<u64> {
    if s.contains(x) {
        s.update(s.index_of(x), s.last()).drop_last()
    } else {
        s
    }
}

/// The items of `a` that `b` does not hold, in the order of `a`.
pub open spec fn minus(a: Seq<u64>, b: Seq<u64>) -> Seq<u64> {
    a.filter(not_in(b))
}

/// Calls `IndexSet::with_capacity`. The new set is empty. The hint is bounded so
/// that the size of the allocation cannot overflow.
#[verifier::external_body]
pub(crate) fn set_with_capacity(capacity: usize) -> (s: IndexSet<u64, RandomState>)
    requires
        capacity <= crate::handles::MAX_HINT,
    ensures
        set_items(s) == Seq::<u64>::empty(),
{
    IndexSet::with_capacity(capacity)
}

/// Calls `IndexSet::clone`. The copy holds the same items in the same order.
#[verifier::external_body]
pub(crate) fn set_clone(s: &IndexSet<u64, RandomState>) -> (copy: IndexSet<u64, RandomState>)
    ensures
        set_items(copy) == set_items(*s),
{
    s.clone()
}

/// Calls `IndexSet::contains`.
#[verifier::external_body]
pub(crate) fn set_contains(s: &IndexSet<u64, RandomState>, x: u64) -> (found: bool)
    ensures
        found == set_items(*s).contains(x),
{
    s.contains(&x)
}

/// Calls `IndexSet::insert`. An item that the set lacks is put last and `true`
/// comes back; one that it holds leaves the set as it was.
#[verifier::external_body]
pub(crate) fn set_insert(s: &mut IndexSet<u64, RandomState>, x: u64) -> (added: bool)
    ensures
        added == !set_items(*old(s)).contains(x),
        set_items(*final(s)) == if added {
            set_items(*old(s)).push(x)
        } else {
            set_items(*old(s))
        },
{
    s.insert(x)
}

/// Calls `IndexSet::shift_remove`. The item leaves and the others keep their
/// order; the result says whether the set held it.
#[verifier::external_body]
pub(crate) fn set_shift_remove(s: &mut IndexSet<u64, RandomState>, x: u64) -> (found: bool)
    ensures
        found == set_items(*old(s)).contains(x),
        set_items(*final(s)) == without(set_items(*old(s)), x),
{
    s.shift_remove(&x)
}

/// Calls `IndexSet::swap_remove`. The item leaves and the last item takes its
/// place; the result says whether the set held it.
#[verifier::external_body]
pub(crate) fn set_swap_remove(s: &mut IndexSet<u64, RandomState>, x: u64) -> (found: bool)
    ensures
        found == set_items(*old(s)).contains(x),
        set_items(*final(s)) == swap_out(set_items(*old(s)), x),
{
    s.swap_remove(&x)
}

/// Walks `IndexSet::iter` and copies the items out, in the set's order. A set
/// holds each item once, so they are distinct.
#[verifier::external_body]
pub(crate) fn set_to_vec(s: &IndexSet<u64, RandomState>) -> (v: Vec<u64>)
    ensures
        v@ == set_items(*s),
        v@.no_duplicates(),
{
    s.iter().copied().collect()
}

/// Walks `IndexSet::difference` and copies out the items of `a` that `b` lacks,
/// in the order of `a`.
#[verifier::external_body]
pub(crate) fn set_difference(a: &IndexSet<u64, RandomState>, b: &IndexSet<u64, RandomState>) -> (v:
    Vec<u64>)
    ensures
        v@ == minus(set_items(*a), set_items(*b)),
{
    a.difference(b).copied().collect()
}

} // verus!
