//! Bitmaps of one block: bit `i` is bit `i % 8` of byte `i / 8`.

use vstd::prelude::*;

verus! {

/// Bit `shift` of `byte`.
pub open spec fn byte_bit(byte: u8, shift: u8) -> bool {
    (byte >> shift) & 1 == 1
}

/// `byte` with bit `shift` set to `value`.
pub open spec fn byte_with_bit(byte: u8, shift: u8, value: bool) -> u8 {
    if value {
        byte | (1u8 << shift)
    } else {
        byte & !(1u8 << shift)
    }
}

/// Bit `index` of the bitmap that `bytes` holds.
pub open spec fn bit(bytes: Seq<u8>, index: int) -> bool {
    byte_bit(bytes[index / 8], (index % 8) as u8)
}

/// The bitmap `bytes` with bit `index` set to `value`.
pub open spec fn with_bit(bytes: Seq<u8>, index: int, value: bool) -> Seq<u8> {
    bytes.update(index / 8, byte_with_bit(bytes[index / 8], (index % 8) as u8, value))
}

/// `index` is the first of the first `limit` bits that is clear.
pub open spec fn is_first_clear_bit(bytes: Seq<u8>, limit: int, index: int) -> bool {
    &&& 0 <= index < limit
    &&& !bit(bytes, index)
    &&& forall|lower: int| 0 <= lower < index ==> bit(bytes, lower)
}

/// The first of the first `limit` bits that is clear, if there is one.
pub open spec fn first_clear_bit(bytes: Seq<u8>, limit: int) -> Option<int> {
    if exists|index: int| is_first_clear_bit(bytes, limit, index) {
        Some(choose|index: int| is_first_clear_bit(bytes, limit, index))
    } else {
        None
    }
}

/// Number of clear bits among the first `limit` bits.
pub open spec fn clear_bit_count(bytes: Seq<u8>, limit: int) -> int
    decreases limit,
{
    if limit <= 0 {
        0
    } else {
        clear_bit_count(bytes, limit - 1) + if bit(bytes, limit - 1) {
            0int
        } else {
            1int
        }
    }
}

/// Setting a bit of a byte sets that bit and leaves the others.
pub proof fn lemma_byte_with_bit(byte: u8, shift: u8, value: bool, other: u8)
    requires
        shift < 8,
        other < 8,
    ensures
        byte_bit(byte_with_bit(byte, shift, value), other) == if other == shift {
            value
        } else {
            byte_bit(byte, other)
        },
{
    assert(((byte | (1u8 << shift)) >> other) & 1 == if other == shift {
        1u8
    } else {
        (byte >> other) & 1
    }) by (bit_vector)
        requires
            shift < 8,
            other < 8,
    ;
    assert(((byte & !(1u8 << shift)) >> other) & 1 == if other == shift {
        0u8
    } else {
        (byte >> other) & 1
    }) by (bit_vector)
        requires
            shift < 8,
            other < 8,
    ;
}

/// Setting a bit of a bitmap sets that bit and leaves the others.
pub proof fn lemma_with_bit(bytes: Seq<u8>, index: int, value: bool, other: int)
    requires
        0 <= index < 8 * bytes.len(),
        0 <= other < 8 * bytes.len(),
    ensures
        with_bit(bytes, index, value).len() == bytes.len(),
        bit(with_bit(bytes, index, value), other) == if other == index {
            value
        } else {
            bit(bytes, other)
        },
{
    lemma_byte_with_bit(bytes[index / 8], (index % 8) as u8, value, (other % 8) as u8);
}

/// Where a first clear bit is found, it is the one that `first_clear_bit` names.
pub proof fn lemma_first_clear_bit(bytes: Seq<u8>, limit: int, index: int)
    requires
        is_first_clear_bit(bytes, limit, index),
    ensures
        first_clear_bit(bytes, limit) == Some(index),
{
    let chosen = choose|i: int| is_first_clear_bit(bytes, limit, i);
    if chosen < index {
        assert(bit(bytes, chosen));
    } else if index < chosen {
        assert(bit(bytes, index));
    }
}

/// Where every one of the first `limit` bits is set, none is first to be clear.
pub proof fn lemma_no_clear_bit(bytes: Seq<u8>, limit: int)
    requires
        forall|index: int| 0 <= index < limit ==> bit(bytes, index),
    ensures
        first_clear_bit(bytes, limit) is None,
        clear_bit_count(bytes, limit) == 0,
    decreases limit,
{
    if limit > 0 {
        lemma_no_clear_bit(bytes, limit - 1);
    }
}

/// The number of clear bits among the first `limit` bits lies between 0 and
/// `limit`, and is 0 where, and only where, each of these bits is set.
pub proof fn lemma_clear_bit_count_bounds(bytes: Seq<u8>, limit: int)
    requires
        0 <= limit,
    ensures
        0 <= clear_bit_count(bytes, limit) <= limit,
        clear_bit_count(bytes, limit) == 0 <==> forall|index: int|
            0 <= index < limit ==> bit(bytes, index),
    decreases limit,
{
    if limit > 0 {
        lemma_clear_bit_count_bounds(bytes, limit - 1);
        if clear_bit_count(bytes, limit) == 0 {
            assert forall|index: int| 0 <= index < limit implies bit(bytes, index) by {
                if index < limit - 1 {
                    assert(bit(bytes, index));
                }
            }
        }
    }
}

/// Where one of the first `limit` bits is clear, one of them is the first.
pub proof fn lemma_clear_bit_found(bytes: Seq<u8>, limit: int)
    requires
        0 <= limit,
        clear_bit_count(bytes, limit) > 0,
    ensures
        first_clear_bit(bytes, limit) is Some,
        is_first_clear_bit(bytes, limit, first_clear_bit(bytes, limit)->Some_0),
    decreases limit,
{
    lemma_clear_bit_count_bounds(bytes, limit - 1);
    if clear_bit_count(bytes, limit - 1) > 0 {
        lemma_clear_bit_found(bytes, limit - 1);
        let index = first_clear_bit(bytes, limit - 1)->Some_0;
        assert(is_first_clear_bit(bytes, limit, index));
    } else {
        assert(is_first_clear_bit(bytes, limit, limit - 1));
    }
}

/// Changing one bit changes the number of clear bits by one, or not at all.
pub proof fn lemma_clear_bit_count_with_bit(bytes: Seq<u8>, limit: int, index: int, value: bool)
    requires
        0 <= index < 8 * bytes.len(),
        0 <= limit <= 8 * bytes.len(),
    ensures
        clear_bit_count(with_bit(bytes, index, value), limit) == clear_bit_count(bytes, limit) + if index
            < limit && bit(bytes, index) && !value {
            1int
        } else if index < limit && !bit(bytes, index) && value {
            -1int
        } else {
            0int
        },
    decreases limit,
{
    if limit > 0 {
        lemma_clear_bit_count_with_bit(bytes, limit - 1, index, value);
        lemma_with_bit(bytes, index, value, limit - 1);
    }
}

/// One block of bits.
#[derive(Debug)]
pub struct Bitmap {
    pub data: Vec<u8>,
}

impl Bitmap {
    /// Whether bit `index` is set.
    pub fn get(&self, index: usize) -> (value: bool)
        requires
            index < 8 * self.data@.len(),
        ensures
            value == bit(self.data@, index as int),
    {
        let byte = self.data[index / 8];
        let shift = (index % 8) as u8;
        (byte >> shift) & 1 == 1
    }

    /// Sets bit `index` to `value`; no other bit changes.
    pub fn set(&mut self, index: usize, value: bool)
        requires
            index < 8 * old(self).data@.len(),
        ensures
            final(self).data@ == with_bit(old(self).data@, index as int, value),
    {
        let byte = self.data[index / 8];
        let shift = (index % 8) as u8;
        let changed = if value {
            byte | (1u8 << shift)
        } else {
            byte & !(1u8 << shift)
        };
        self.data[index / 8] = changed;
    }

    /// The first clear bit among the first `limit` bits, if there is one.
    pub fn first_clear(&self, limit: usize) -> (found: Option<usize>)
        requires
            limit <= 8 * self.data@.len(),
        ensures
            match found {
                Some(index) => first_clear_bit(self.data@, limit as int) == Some(index as int)
                    && is_first_clear_bit(self.data@, limit as int, index as int),
                None => first_clear_bit(self.data@, limit as int) is None,
            },
    {
        let mut index: usize = 0;
        while index < limit
            invariant
                limit <= 8 * self.data@.len(),
                index <= limit,
                forall|lower: int| 0 <= lower < index ==> bit(self.data@, lower),
            decreases limit - index,
        {
            if !self.get(index) {
                proof {
                    lemma_first_clear_bit(self.data@, limit as int, index as int);
                }
                return Some(index);
            }
            index += 1;
        }
        proof {
            lemma_no_clear_bit(self.data@, limit as int);
        }
        None
    }
}

} // verus!
