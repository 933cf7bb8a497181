//! The handle allocator of the tree.
//!
//! Handles are granted and taken back by a slot map of the `slotmap` crate. The
//! slot map is not verified: this module states what the rest of the library
//! relies on, and nothing else in the library touches the slot map.

use slotmap::{DefaultKey, Key, KeyData, SlotMap};
use vstd::prelude::*;

verus! {

/// The most handles that can be live at one time.
pub const MAX_NODES: usize = 0xFFFF_FFFE;

/// Capacity hints above this are cut down to it before anything is allocated.
pub const MAX_HINT: usize = 0x0010_0000;

/// The 64-bit form of the slot map's null key. No slot map grants it: its
/// slot is `u32::MAX`, and a slot map never has a slot of that number.
pub const NULL_HANDLE: u64 = 0x0000_0001_FFFF_FFFF;

/// The slot that a handle names: the low half of its 64-bit form.
pub open spec fn slot_of(handle: u64) -> nat {
    (handle % 0x1_0000_0000) as nat
}

/// A slot map that holds no data: it only grants handles and takes them back.
///
/// A handle is the 64-bit form of a slot map key, so that it can be compared,
/// hashed and spoken of in contracts.
#[verifier::external_body]
pub struct Handles {
    slots: SlotMap<DefaultKey, ()>,
}

/// The handles that are live in `h`: the 64-bit forms of the keys that the slot
/// map holds.
pub uninterp spec fn live_handles(h: Handles) -> Set<u64>;

/// The handles that `h` cannot grant next: those that are live, and for each
/// free slot the handle that held it last. The slot map gives every slot a
/// version, which it changes whenever a key leaves the slot and again when the
/// next one enters it.
pub uninterp spec fn barred_handles(h: Handles) -> Set<u64>;

/// Calls `SlotMap::with_capacity`. A new slot map holds no key. The hint is
/// bounded so that the slot map's own `capacity + 1` cannot overflow.
#[verifier::external_body]
pub(crate) fn handles_with_capacity(capacity: usize) -> (h: Handles)
    requires
        capacity <= MAX_HINT,
    ensures
        live_handles(h) == Set::<u64>::empty(),
        live_handles(h).subset_of(barred_handles(h)),
{
    Handles { slots: SlotMap::with_capacity(capacity) }
}

/// Calls `SlotMap::insert` and turns the key into its 64-bit form with
/// `KeyData::as_ffi`. The key that comes back was not live before, nor was it
/// the last to hold the slot it gets, and it is not the null key; it is live
/// afterwards, and no other key has changed. What was barred stays barred,
/// but for the key that held the same slot last. The slot map panics when it
/// is asked for more than `MAX_NODES` keys at a time, so that case is left
/// out.
#[verifier::external_body]
pub(crate) fn handles_insert(h: &mut Handles) -> (key: u64)
    requires
        live_handles(*old(h)).finite(),
        live_handles(*old(h)).len() < MAX_NODES,
    ensures
        key != NULL_HANDLE,
        !live_handles(*old(h)).contains(key),
        !barred_handles(*old(h)).contains(key),
        live_handles(*final(h)) == live_handles(*old(h)).insert(key),
        live_handles(*final(h)).subset_of(barred_handles(*final(h))),
        forall|other: u64|
            barred_handles(*old(h)).contains(other) && slot_of(other) != slot_of(key)
                ==> #[trigger] barred_handles(*final(h)).contains(other),
{
    h.slots.insert(()).data().as_ffi()
}

/// Calls `SlotMap::remove` on the key that `KeyData::from_ffi` makes of a live
/// handle. That key is no longer live afterwards, and no other key has
/// changed; it is now the last that held its slot, so it stays barred.
#[verifier::external_body]
pub(crate) fn handles_remove(h: &mut Handles, key: u64)
    requires
        live_handles(*old(h)).contains(key),
    ensures
        live_handles(*final(h)) == live_handles(*old(h)).remove(key),
        barred_handles(*final(h)) == barred_handles(*old(h)),
{
    h.slots.remove(DefaultKey::from(KeyData::from_ffi(key)));
}

/// Calls `SlotMap::clear`, which removes every key. No key is live afterwards,
/// and each stays barred as the last that held its slot.
#[verifier::external_body]
pub(crate) fn handles_clear(h: &mut Handles)
    ensures
        live_handles(*final(h)) == Set::<u64>::empty(),
        barred_handles(*final(h)) == barred_handles(*old(h)),
{
    h.slots.clear();
}

impl Clone for Handles {
    /// Calls `SlotMap::clone`, which copies every slot with its version: the
    /// copy has the same live handles and bars the same ones.
    #[verifier::external_body]
    fn clone(&self) -> (copy: Self)
        ensures
            live_handles(copy) == live_handles(*self),
            barred_handles(copy) == barred_handles(*self),
    {
        Handles { slots: self.slots.clone() }
    }
}

} // verus!
