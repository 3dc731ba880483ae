//! Allocation of identifiers from a small fixed range, kept in a bitmap.

use crate::error::RelayError;
use vstd::prelude::*;

verus! {

/// How many identifiers a generator can allocate: `0` up to, but not
/// including, this number.
pub const ID_CAPACITY: usize = 1024;

/// A bitmap of `ID_CAPACITY` bits, as the crate `bitmaps` keeps it.
#[verifier::external_body]
pub struct IdBitmap {
    bits: bitmaps::Bitmap<1024>,
}

/// The indices of the bits of a bitmap that are set.
pub uninterp spec fn set_bits(bitmap: IdBitmap) -> Set<int>;

/// `bitmaps::Bitmap::new`: a bitmap in which no bit is set.
#[verifier::external_body]
fn bitmap_new() -> (bitmap: IdBitmap)
    ensures
        set_bits(bitmap) == Set::<int>::empty(),
{
    IdBitmap { bits: bitmaps::Bitmap::new() }
}

/// `bitmaps::Bitmap::get`: whether the bit at the index is set.
#[verifier::external_body]
fn bitmap_get(bitmap: &IdBitmap, index: usize) -> (bit: bool)
    requires
        index < ID_CAPACITY,
    ensures
        bit == set_bits(*bitmap).contains(index as int),
{
    bitmap.bits.get(index)
}

/// `bitmaps::Bitmap::set`: sets or clears the bit at the index and returns
/// what the bit was before. The other bits stay.
#[verifier::external_body]
fn bitmap_set(bitmap: &mut IdBitmap, index: usize, value: bool) -> (before: bool)
    requires
        index < ID_CAPACITY,
    ensures
        before == set_bits(*old(bitmap)).contains(index as int),
        value ==> set_bits(*final(bitmap)) == set_bits(*old(bitmap)).insert(index as int),
        !value ==> set_bits(*final(bitmap)) == set_bits(*old(bitmap)).remove(index as int),
{
    bitmap.bits.set(index, value)
}

/// `bitmaps::Bitmap::len`: the number of bits that are set.
#[verifier::external_body]
fn bitmap_len(bitmap: &IdBitmap) -> (n: usize)
    ensures
        n == set_bits(*bitmap).len(),
        n <= ID_CAPACITY,
{
    bitmap.bits.len()
}

/// An allocator of the identifiers `0` to `ID_CAPACITY - 1`, kept in memory.
pub struct MemoryIdGenerator {
    map: IdBitmap,
}

impl View for MemoryIdGenerator {
    type V = Set<int>;

    /// The identifiers that are allocated.
    closed spec fn view(&self) -> Set<int> {
        set_bits(self.map)
    }
}

impl MemoryIdGenerator {
    /// The internal invariant: only identifiers of the range are allocated.
    pub closed spec fn wf(&self) -> bool {
        forall|id: int| self@.contains(id) ==> 0 <= id < ID_CAPACITY
    }

    /// A generator with no identifier allocated.
    pub fn new() -> (generator: Self)
        ensures
            generator.wf(),
            generator@ == Set::<int>::empty(),
    {
        MemoryIdGenerator { map: bitmap_new() }
    }

    /// Allocates the identifier.
    pub fn allocate(&mut self, id: i64) -> (done: Result<(), RelayError>)
        requires
            old(self).wf(),
        ensures
            final(self).wf(),
            match done {
                Ok(_) => 0 <= id < ID_CAPACITY && !old(self)@.contains(id as int) && final(self)@
                    == old(self)@.insert(id as int),
                Err(e) => final(self)@ == old(self)@ && if 0 <= id < ID_CAPACITY {
                    e == RelayError::IdInUse && old(self)@.contains(id as int)
                } else {
                    e == RelayError::OutOfRange
                },
            },
    {
        if id < 0 || id >= ID_CAPACITY as i64 {
            return Err(RelayError::OutOfRange);
        }
        if bitmap_get(&self.map, id as usize) {
            return Err(RelayError::IdInUse);
        }
        let ghost before = self@;
        bitmap_set(&mut self.map, id as usize, true);
        assert(self@ == before.insert(id as int));
        Ok(())
    }

    /// Frees the identifier.
    pub fn free(&mut self, id: i64) -> (done: Result<(), RelayError>)
        requires
            old(self).wf(),
        ensures
            final(self).wf(),
            match done {
                Ok(_) => old(self)@.contains(id as int) && final(self)@ == old(self)@.remove(
                    id as int,
                ),
                Err(e) => final(self)@ == old(self)@ && if 0 <= id < ID_CAPACITY {
                    e == RelayError::IdNotInUse && !old(self)@.contains(id as int)
                } else {
                    e == RelayError::OutOfRange
                },
            },
    {
        if id < 0 || id >= ID_CAPACITY as i64 {
            return Err(RelayError::OutOfRange);
        }
        if !bitmap_get(&self.map, id as usize) {
            return Err(RelayError::IdNotInUse);
        }
        let ghost before = self@;
        bitmap_set(&mut self.map, id as usize, false);
        assert(self@ == before.remove(id as int));
        Ok(())
    }

    /// Frees every identifier.
    pub fn free_all(&mut self)
        ensures
            final(self).wf(),
            final(self)@ == Set::<int>::empty(),
    {
        self.map = bitmap_new();
    }

    /// Whether the identifier is allocated.
    pub fn is_allocated(&self, id: i64) -> (found: Result<bool, RelayError>)
        requires
            self.wf(),
        ensures
            match found {
                Ok(allocated) => 0 <= id < ID_CAPACITY && allocated == self@.contains(id as int),
                Err(e) => e == RelayError::OutOfRange && !(0 <= id < ID_CAPACITY),
            },
    {
        if id < 0 || id >= ID_CAPACITY as i64 {
            return Err(RelayError::OutOfRange);
        }
        Ok(bitmap_get(&self.map, id as usize))
    }

    /// The number of identifiers that are allocated.
    pub fn get_allocated_idcount(&self) -> (n: i64)
        requires
            self.wf(),
        ensures
            n == self@.len(),
            0 <= n <= ID_CAPACITY,
    {
        bitmap_len(&self.map) as i64
    }
}

} // verus!
