//! Remembering which blocks of a device turned out to be bad.

use vstd::prelude::*;

verus! {

/// The compressed bitmap of the `roaring` crate, a set of 32-bit integers.
/// The proofs know it by the integers it holds.
#[verifier::external_type_specification]
#[verifier::external_body]
pub struct ExRoaringBitmap(roaring::RoaringBitmap);

/// The integers a bitmap holds, each once, in rising order.
pub uninterp spec fn bitmap_values(bitmap: roaring::RoaringBitmap) -> Seq<u32>;

/// The set of the integers a bitmap holds.
pub open spec fn bitmap_set(bitmap: roaring::RoaringBitmap) -> Set<u32> {
    bitmap_values(bitmap).to_set()
}

/// `RoaringBitmap::new` creates an empty bitmap.
pub assume_specification[ roaring::RoaringBitmap::new ]() -> (bitmap: roaring::RoaringBitmap)
    ensures
        bitmap_values(bitmap) == Seq::<u32>::empty(),
;

/// `RoaringBitmap::insert` adds a value to the set and reports whether the
/// value was absent before.
pub assume_specification[ roaring::RoaringBitmap::insert ](
    bitmap: &mut roaring::RoaringBitmap,
    value: u32,
) -> (absent: bool)
    ensures
        bitmap_set(*final(bitmap)) == bitmap_set(*old(bitmap)).insert(value),
        absent == !bitmap_set(*old(bitmap)).contains(value),
;

/// `RoaringBitmap::contains` tells whether the set holds a value.
pub assume_specification[ roaring::RoaringBitmap::contains ](
    bitmap: &roaring::RoaringBitmap,
    value: u32,
) -> (present: bool)
    ensures
        present == bitmap_set(*bitmap).contains(value),
;

/// `RoaringBitmap::len` counts the distinct integers in the set.
pub assume_specification[ roaring::RoaringBitmap::len ](
    bitmap: &roaring::RoaringBitmap,
) -> (count: u64)
    ensures
        count == bitmap_set(*bitmap).len(),
;

/// Cloning a bitmap gives a bitmap that holds the same integers.
pub assume_specification[ <roaring::RoaringBitmap as Clone>::clone ](
    bitmap: &roaring::RoaringBitmap,
) -> (copy: roaring::RoaringBitmap)
    ensures
        bitmap_values(copy) == bitmap_values(*bitmap),
;

/// A set of 32-bit block indices.
pub trait BlockMarker {
    /// The indices marked so far.
    spec fn marked(&self) -> Set<u32>;

    /// Adds `position` to the set; marking an index twice is the same as
    /// marking it once.
    fn mark(&mut self, position: u32)
        ensures
            final(self).marked() == old(self).marked().insert(position),
    ;

    /// Whether `position` has been marked.
    fn is_marked(&self, position: u32) -> (found: bool)
        ensures
            found == self.marked().contains(position),
    ;

    /// How many distinct indices have been marked, reduced modulo 2^32.
    fn total_marked(&self) -> (count: u32)
        ensures
            self.marked().finite(),
            count == self.marked().len() % 0x1_0000_0000,
    ;
}

/// A block marker kept in a compressed bitmap, which stays small both for a
/// handful of failures and for a device that failed throughout.
#[derive(Clone, Debug)]
pub struct RoaringBlockMarker {
    store: roaring::RoaringBitmap,
}

impl RoaringBlockMarker {
    /// A marker with no block marked.
    pub fn new() -> (marker: RoaringBlockMarker)
        ensures
            marker.marked() == Set::<u32>::empty(),
    {
        let marker = RoaringBlockMarker { store: roaring::RoaringBitmap::new() };
        assert(marker.marked() =~= Set::<u32>::empty());
        marker
    }

    /// A marker of its own with the same blocks marked.
    pub fn duplicate(&self) -> (copy: RoaringBlockMarker)
        ensures
            copy.marked() == self.marked(),
    {
        RoaringBlockMarker { store: self.store.clone() }
    }
}

impl BlockMarker for RoaringBlockMarker {
    closed spec fn marked(&self) -> Set<u32> {
        bitmap_set(self.store)
    }

    fn mark(&mut self, position: u32) {
        self.store.insert(position);
    }

    fn is_marked(&self, position: u32) -> (found: bool) {
        self.store.contains(position)
    }

    fn total_marked(&self) -> (count: u32) {
        proof {
            vstd::seq_lib::seq_to_set_is_finite(bitmap_values(self.store));
        }
        let distinct: u64 = self.store.len();
        (distinct % 0x1_0000_0000) as u32
    }
}

/// Marking a block that is already marked changes nothing: neither the set
/// nor the count of marked blocks.
pub proof fn lemma_mark_is_idempotent(marked: Set<u32>, position: u32)
    requires
        marked.finite(),
    ensures
        marked.insert(position).insert(position) == marked.insert(position),
        marked.insert(position).insert(position).len() == marked.insert(position).len(),
        marked.contains(position) ==> marked.insert(position) == marked,
{
    assert(marked.insert(position).insert(position) =~= marked.insert(position));
    if marked.contains(position) {
        assert(marked.insert(position) =~= marked);
    }
}

} // verus!
