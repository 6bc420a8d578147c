//! A bit set stored in bytes: bit `i` lives in byte `i / 8`, at position `i % 8`.
use vstd::prelude::*;

verus! {

/// The mask that selects bit `k` of a byte.
pub open spec fn bit_mask(k: int) -> u8 {
    (1u8 << (k as u8)) as u8
}

/// Whether bit `i` of `bytes` is set (in use). Bits past the end are not set.
pub open spec fn bit_is_set(bytes: Seq<u8>, i: int) -> bool {
    0 <= i && i / 8 < bytes.len() && bytes[i / 8] & bit_mask(i % 8) != 0
}

/// Number of bits that `bytes` holds.
pub open spec fn bit_capacity(bytes: Seq<u8>) -> int {
    (bytes.len() * 8) as int
}

/// `bytes` with bit `i` set; unchanged when `i` lies past the end.
pub open spec fn with_bit_set(bytes: Seq<u8>, i: int) -> Seq<u8> {
    if 0 <= i && i / 8 < bytes.len() {
        bytes.update(i / 8, bytes[i / 8] | bit_mask(i % 8))
    } else {
        bytes
    }
}

/// `bytes` with bit `i` cleared; unchanged when `i` lies past the end.
pub open spec fn with_bit_cleared(bytes: Seq<u8>, i: int) -> Seq<u8> {
    if 0 <= i && i / 8 < bytes.len() {
        bytes.update(i / 8, bytes[i / 8] & !bit_mask(i % 8))
    } else {
        bytes
    }
}

/// The first free bit of `bytes`, if any: the least index whose bit is clear.
#[verifier::opaque]
pub open spec fn first_free_bit(bytes: Seq<u8>) -> Option<int> {
    if exists|i: int| 0 <= i < bit_capacity(bytes) && !bit_is_set(bytes, i) {
        Some(choose|i: int|
            0 <= i < bit_capacity(bytes) && !bit_is_set(bytes, i) && (forall|j: int|
                0 <= j < i ==> bit_is_set(bytes, j)))
    } else {
        None
    }
}

/// What `first_free_bit` names: the least clear bit, or none when every bit is set.
pub proof fn lemma_first_free_bit(bytes: Seq<u8>)
    ensures
        first_free_bit(bytes) matches Some(i) ==> {
            &&& 0 <= i < bit_capacity(bytes)
            &&& !bit_is_set(bytes, i)
            &&& forall|j: int| 0 <= j < i ==> bit_is_set(bytes, j)
        },
        first_free_bit(bytes) is None ==> forall|j: int|
            0 <= j < bit_capacity(bytes) ==> bit_is_set(bytes, j),
{
    reveal(first_free_bit);
    if exists|i: int| 0 <= i < bit_capacity(bytes) && !bit_is_set(bytes, i) {
        let k = choose|i: int| 0 <= i < bit_capacity(bytes) && !bit_is_set(bytes, i);
        lemma_least_clear(bytes, k);
    }
}

proof fn lemma_least_clear(bytes: Seq<u8>, k: int)
    requires
        0 <= k < bit_capacity(bytes),
        !bit_is_set(bytes, k),
    ensures
        exists|i: int|
            0 <= i < bit_capacity(bytes) && !bit_is_set(bytes, i) && (forall|j: int|
                0 <= j < i ==> bit_is_set(bytes, j)),
    decreases k,
{
    if forall|j: int| 0 <= j < k ==> bit_is_set(bytes, j) {
    } else {
        let j = choose|j: int| 0 <= j < k && !bit_is_set(bytes, j);
        lemma_least_clear(bytes, j);
    }
}

proof fn lemma_mask_bits(b: u8, k: u8, j: u8)
    requires
        k < 8,
        j < 8,
    ensures
        (b | (1u8 << k)) & (1u8 << j) != 0 <==> (j == k || b & (1u8 << j) != 0),
        (b & !(1u8 << k)) & (1u8 << j) != 0 <==> (j != k && b & (1u8 << j) != 0),
{
    assert((b | (1u8 << k)) & (1u8 << j) != 0 <==> (j == k || b & (1u8 << j) != 0))
        by (bit_vector)
        requires
            k < 8,
            j < 8,
    ;
    assert((b & !(1u8 << k)) & (1u8 << j) != 0 <==> (j != k && b & (1u8 << j) != 0))
        by (bit_vector)
        requires
            k < 8,
            j < 8,
    ;
}

proof fn lemma_full_byte(b: u8)
    ensures
        b == 0xFFu8 <==> (forall|j: u8| j < 8 ==> #[trigger] (b & (1u8 << j)) != 0),
{
    assert(b == 0xFFu8 ==> (forall|j: u8| j < 8 ==> #[trigger] (b & (1u8 << j)) != 0))
        by (bit_vector);
    if b != 0xFFu8 {
        assert(b != 0xFFu8 ==> (b & 1u8) == 0 || (b & 2u8) == 0 || (b & 4u8) == 0 || (b & 8u8)
            == 0 || (b & 16u8) == 0 || (b & 32u8) == 0 || (b & 64u8) == 0 || (b & 128u8) == 0)
            by (bit_vector);
        assert(1u8 << 0u8 == 1u8 && 1u8 << 1u8 == 2u8 && 1u8 << 2u8 == 4u8 && 1u8 << 3u8 == 8u8
            && 1u8 << 4u8 == 16u8 && 1u8 << 5u8 == 32u8 && 1u8 << 6u8 == 64u8 && 1u8 << 7u8
            == 128u8) by (bit_vector);
    }
}

/// Setting bit `i` makes it set and leaves every other bit as it was.
pub proof fn lemma_set_bit(bytes: Seq<u8>, i: int, j: int)
    requires
        0 <= i < bit_capacity(bytes),
    ensures
        bit_is_set(with_bit_set(bytes, i), j) == (j == i || bit_is_set(bytes, j)),
        with_bit_set(bytes, i).len() == bytes.len(),
{
    if 0 <= j && j / 8 < bytes.len() {
        if j / 8 == i / 8 {
            lemma_mask_bits(bytes[i / 8], (i % 8) as u8, (j % 8) as u8);
        }
    }
}

/// Clearing bit `i` makes it clear and leaves every other bit as it was.
pub proof fn lemma_clear_bit(bytes: Seq<u8>, i: int, j: int)
    requires
        0 <= i < bit_capacity(bytes),
    ensures
        bit_is_set(with_bit_cleared(bytes, i), j) == (j != i && bit_is_set(bytes, j)),
        with_bit_cleared(bytes, i).len() == bytes.len(),
{
    if 0 <= j && j / 8 < bytes.len() {
        if j / 8 == i / 8 {
            lemma_mask_bits(bytes[i / 8], (i % 8) as u8, (j % 8) as u8);
        }
    }
}

/// Setting a clear bit and clearing it again gives the bytes back.
pub proof fn lemma_set_then_clear(bytes: Seq<u8>, i: int)
    requires
        0 <= i < bit_capacity(bytes),
        !bit_is_set(bytes, i),
    ensures
        with_bit_cleared(with_bit_set(bytes, i), i) == bytes,
{
    let b = bytes[i / 8];
    let k = (i % 8) as u8;
    assert(k < 8);
    assert(bit_mask(i % 8) == 1u8 << k);
    assert((b & (1u8 << k)) == 0);
    assert(((b | (1u8 << k)) & !(1u8 << k)) == b) by (bit_vector)
        requires
            k < 8,
            (b & (1u8 << k)) == 0,
    ;
    assert(with_bit_cleared(with_bit_set(bytes, i), i) =~= bytes);
}

/// A bitmap of used (1) and free (0) entries over the bytes it owns.
pub struct Bitmap {
    data: Vec<u8>,
}

impl View for Bitmap {
    type V = Seq<u8>;

    closed spec fn view(&self) -> Seq<u8> {
        self.data@
    }
}

impl Bitmap {
    pub fn new(data: Vec<u8>) -> (r: Self)
        ensures
            r@ == data@,
    {
        Self { data }
    }

    /// The bytes of the bitmap, handed back to the caller.
    pub fn into_bytes(self) -> (r: Vec<u8>)
        ensures
            r@ == self@,
    {
        self.data
    }

    /// Set bit at index to 1 (used); an index past the end changes nothing.
    pub fn set(&mut self, index: usize)
        ensures
            final(self)@ == with_bit_set(old(self)@, index as int),
    {
        let byte_index = index / 8;
        let bit_index = (index % 8) as u8;
        if byte_index < self.data.len() {
            let b = self.data[byte_index];
            self.data.set(byte_index, b | (1u8 << bit_index));
        }
    }

    /// Set bit at index to 0 (free); an index past the end changes nothing.
    pub fn clear(&mut self, index: usize)
        ensures
            final(self)@ == with_bit_cleared(old(self)@, index as int),
    {
        let byte_index = index / 8;
        let bit_index = (index % 8) as u8;
        if byte_index < self.data.len() {
            let b = self.data[byte_index];
            self.data.set(byte_index, b & !(1u8 << bit_index));
        }
    }

    /// Check if bit is set (used); an index past the end reads as free.
    pub fn get(&self, index: usize) -> (r: bool)
        ensures
            r == bit_is_set(self@, index as int),
    {
        let byte_index = index / 8;
        let bit_index = (index % 8) as u8;
        if byte_index < self.data.len() {
            (self.data[byte_index] & (1u8 << bit_index)) != 0
        } else {
            false
        }
    }

    /// Find first bit that is 0 (free)
    pub fn find_first_free(&self) -> (r: Option<usize>)
        requires
            bit_capacity(self@) <= usize::MAX,
        ensures
            r matches Some(i) ==> first_free_bit(self@) == Some(i as int),
            r is None ==> first_free_bit(self@) is None,
    {
        let n = self.data.len();
        let mut i: usize = 0;
        while i < n
            invariant
                n == self@.len(),
                i <= n,
                bit_capacity(self@) <= usize::MAX,
                forall|j: int| 0 <= j < i * 8 ==> bit_is_set(self@, j),
            decreases n - i,
        {
            let byte = self.data[i];
            if byte != 0xFF {
                proof {
                    lemma_full_byte(byte);
                }
                let mut bit: u8 = 0;
                while bit < 8
                    invariant
                        n == self@.len(),
                        i < n,
                        byte == self@[i as int],
                        byte != 0xFFu8,
                        bit <= 8,
                        bit_capacity(self@) <= usize::MAX,
                        forall|j: int| 0 <= j < i * 8 + bit ==> bit_is_set(self@, j),
                        forall|j: u8| j < bit ==> #[trigger] (byte & (1u8 << j)) != 0,
                    decreases 8 - bit,
                {
                    if (byte & (1u8 << bit)) == 0 {
                        let idx = i * 8 + bit as usize;
                        proof {
                            reveal(first_free_bit);
                            assert(!bit_is_set(self@, idx as int));
                            assert(first_free_bit(self@) == Some(idx as int));
                        }
                        return Some(idx);
                    }
                    bit = bit + 1;
                }
                proof {
                    assert(false);
                }
            }
            proof {
                lemma_full_byte(byte);
                assert forall|j: int| 0 <= j < (i + 1) * 8 implies bit_is_set(self@, j) by {
                    if j >= i * 8 {
                        assert(j / 8 == i);
                        let k = (j % 8) as u8;
                        assert(byte & (1u8 << k) != 0);
                    }
                }
            }
            i = i + 1;
        }
        proof {
            reveal(first_free_bit);
        }
        None
    }
}

} // verus!
