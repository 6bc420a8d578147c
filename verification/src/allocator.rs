//! Block allocator module for managing data block allocation
//!
//! This module provides a bitmap-based block allocator that tracks
//! which blocks are free and which are in use.
use crate::bitmap::{
    bit_capacity, bit_is_set, first_free_bit, lemma_clear_bit, lemma_first_free_bit, lemma_set_bit, lemma_set_then_clear, with_bit_cleared,
    with_bit_set, Bitmap,
};
use vstd::prelude::*;

verus! {

/// Errors that can occur during block allocation operations
#[derive(Debug, Clone, Copy, PartialEq, Eq, Structural)]
pub enum AllocatorError {
    /// No free blocks available
    NoSpace,
}

/// Trait for block allocation and deallocation
pub trait BlockAllocator {
    /// Whether the allocator's state is one its operations accept.
    spec fn wf(&self) -> bool;

    /// The ids that this allocator hands out.
    spec fn pool(&self) -> Set<u64>;

    /// The ids that are currently in use.
    spec fn allocated(&self) -> Set<u64>;

    /// Allocates a free block and returns its ID
    ///
    /// # Errors
    /// Returns `AllocatorError::NoSpace` if no free blocks are available
    fn allocate(&mut self) -> (r: Result<u64, AllocatorError>)
        requires
            old(self).wf(),
        ensures
            final(self).wf(),
            final(self).pool() == old(self).pool(),
            match r {
                Ok(id) => {
                    &&& old(self).pool().contains(id)
                    &&& !old(self).allocated().contains(id)
                    &&& final(self).allocated() == old(self).allocated().insert(id)
                },
                Err(AllocatorError::NoSpace) => {
                    &&& old(self).pool().subset_of(old(self).allocated())
                    &&& final(self).allocated() == old(self).allocated()
                },
            },
    ;

    /// Frees a previously allocated block
    ///
    /// # Arguments
    /// * `block_id` - The ID of the block to free
    fn free(&mut self, block_id: u64) -> (r: Result<(), AllocatorError>)
        ensures
            final(self).wf() == old(self).wf(),
            r is Ok,
            final(self).pool() == old(self).pool(),
            final(self).allocated() == old(self).allocated().remove(block_id),
    ;
}

/// Simple bitmap-based block allocator
///
/// Uses a bitmap to track block allocation status. Each bit represents
/// one block: 0 = free, 1 = allocated.
pub struct SimpleBlockAllocator {
    /// The bitmap data
    bitmap_data: Vec<u8>,
    /// Block ID corresponding to bit 0 in the bitmap
    start_block_offset: u64,
}

/// The block ids that a bitmap starting at `start` marks as used.
pub open spec fn used_ids(bytes: Seq<u8>, start: u64) -> Set<u64> {
    Set::new(|id: u64| id >= start && bit_is_set(bytes, id - start))
}

/// The block ids that a bitmap starting at `start` has bits for.
pub open spec fn covered_ids(bytes: Seq<u8>, start: u64) -> Set<u64> {
    Set::new(|id: u64| id >= start && id - start < bit_capacity(bytes))
}

proof fn lemma_allocate_sets(bytes: Seq<u8>, start: u64, i: int)
    requires
        0 <= i < bit_capacity(bytes),
        start + i <= u64::MAX,
    ensures
        used_ids(with_bit_set(bytes, i), start) == used_ids(bytes, start).insert((start + i) as u64),
        covered_ids(with_bit_set(bytes, i), start) == covered_ids(bytes, start),
{
    let nb = with_bit_set(bytes, i);
    assert forall|x: u64| #[trigger] used_ids(nb, start).contains(x) == used_ids(bytes, start).insert((start + i) as u64).contains(x) by {
        if x >= start {
            lemma_set_bit(bytes, i, x - start);
        }
    }
    assert(used_ids(nb, start) =~= used_ids(bytes, start).insert((start + i) as u64));
    assert(covered_ids(nb, start) =~= covered_ids(bytes, start));
}

proof fn lemma_full_pool(bytes: Seq<u8>, start: u64)
    requires
        first_free_bit(bytes) is None,
    ensures
        covered_ids(bytes, start).subset_of(used_ids(bytes, start)),
{
    reveal(first_free_bit);
    assert forall|x: u64| covered_ids(bytes, start).contains(x) implies used_ids(bytes, start).contains(x) by {
        let i = x - start;
        if !bit_is_set(bytes, i) {
            assert(0 <= i < bit_capacity(bytes) && !bit_is_set(bytes, i));
        }
    }
}

/// Freeing the id that `allocate` just handed out gives back the bitmap that
/// the allocation started from: `allocate` set the first free bit, and `free`
/// clears it again.
pub proof fn lemma_allocate_then_free(before: Seq<u8>, start: u64, id: u64)
    requires
        id >= start,
        first_free_bit(before) == Some(id - start),
    ensures
        with_bit_cleared(with_bit_set(before, id - start), id - start) == before,
{
    lemma_first_free_bit(before);
    lemma_set_then_clear(before, id - start);
}

impl SimpleBlockAllocator {
    /// The bitmap bytes.
    pub closed spec fn bytes(&self) -> Seq<u8> {
        self.bitmap_data@
    }

    /// The block id of bit 0.
    pub closed spec fn start(&self) -> u64 {
        self.start_block_offset
    }

    /// Creates a new block allocator
    ///
    /// # Arguments
    /// * `bitmap_data` - Bytes of the bitmap
    /// * `start_block_offset` - Block ID corresponding to bit 0
    ///
    /// # Example
    /// If `start_block_offset` is 1027, then bit 0 represents block 1027,
    /// bit 1 represents block 1028, etc.
    pub fn new(bitmap_data: Vec<u8>, start_block_offset: u64) -> (r: Self)
        ensures
            r.bytes() == bitmap_data@,
            r.start() == start_block_offset,
    {
        Self { bitmap_data, start_block_offset }
    }

    /// Hands the bitmap bytes back.
    pub fn into_bitmap(self) -> (r: Vec<u8>)
        ensures
            r@ == self.bytes(),
    {
        self.bitmap_data
    }
}

impl BlockAllocator for SimpleBlockAllocator {
    open spec fn wf(&self) -> bool {
        &&& bit_capacity(self.bytes()) <= usize::MAX
        &&& self.start() + bit_capacity(self.bytes()) <= u64::MAX + 1
    }

    open spec fn pool(&self) -> Set<u64> {
        covered_ids(self.bytes(), self.start())
    }

    open spec fn allocated(&self) -> Set<u64> {
        used_ids(self.bytes(), self.start())
    }

    /// Takes the lowest free bit (first fit).
    fn allocate(&mut self) -> (r: Result<u64, AllocatorError>)
        ensures
            r matches Ok(id) ==> first_free_bit(old(self).bytes()) == Some(id - old(self).start()),
            r matches Ok(id) ==> final(self).bytes() == with_bit_set(
                old(self).bytes(),
                id - old(self).start(),
            ),
            r is Err <==> first_free_bit(old(self).bytes()) is None,
            r is Err ==> final(self).bytes() == old(self).bytes(),
            final(self).start() == old(self).start(),
    {
        let mut taken: Vec<u8> = Vec::new();
        std::mem::swap(&mut taken, &mut self.bitmap_data);
        let mut bitmap = Bitmap::new(taken);
        let found = bitmap.find_first_free();
        proof {
            lemma_first_free_bit(bitmap@);
        }
        let r = if let Some(bit_index) = found {
            // Mark the bit as used (set to 1)
            bitmap.set(bit_index);
            // Convert bit index to actual block ID
            let block_id = self.start_block_offset + bit_index as u64;
            Ok(block_id)
        } else {
            Err(AllocatorError::NoSpace)
        };
        self.bitmap_data = bitmap.into_bytes();
        proof {
            match r {
                Ok(id) => lemma_allocate_sets(old(self).bytes(), old(self).start(), id - old(self).start()),
                Err(_) => lemma_full_pool(old(self).bytes(), old(self).start()),
            }
        }
        r
    }

    /// Clears the block's bit; an id below the first block, or past the
    /// bitmap's end, changes nothing.
    fn free(&mut self, block_id: u64) -> (r: Result<(), AllocatorError>)
        ensures
            final(self).start() == old(self).start(),
            block_id >= old(self).start() ==> final(self).bytes() == with_bit_cleared(
                old(self).bytes(),
                block_id - old(self).start(),
            ),
            block_id < old(self).start() ==> final(self).bytes() == old(self).bytes(),
    {
        // Sanity check: block ID should be >= start offset
        if block_id < self.start_block_offset {
            // Invalid block ID, but don't fail - just ignore
            return Ok(());
        }
        // Convert block ID back to bit index
        let diff = block_id - self.start_block_offset;
        // Clear the bit to mark block as free
        let byte_index = diff / 8;
        let bit_index = (diff % 8) as u8;
        if byte_index < self.bitmap_data.len() as u64 {
            let bi = byte_index as usize;
            let b = self.bitmap_data[bi];
            self.bitmap_data.set(bi, b & !(1u8 << bit_index));
        }
        proof {
            let old_b = old(self).bytes();
            let st = old(self).start();
            assert(self.bytes() == with_bit_cleared(old_b, diff as int));
            assert forall|x: u64| #[trigger] used_ids(self.bytes(), st).contains(x) == used_ids(old_b, st).remove(block_id).contains(x) by {
                if x >= st && diff < bit_capacity(old_b) {
                    lemma_clear_bit(old_b, diff as int, x - st);
                }
            }
            assert(used_ids(self.bytes(), st) =~= used_ids(old_b, st).remove(block_id));
            assert(covered_ids(self.bytes(), st) =~= covered_ids(old_b, st));
        }
        Ok(())
    }
}

} // verus!
