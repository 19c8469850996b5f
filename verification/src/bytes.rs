//! Little-endian integers inside byte buffers, and the few buffer
//! operations the on-disk formats are written with.

use vstd::prelude::*;

verus! {

/// The 16-bit little-endian integer stored at `at`.
pub open spec fn le_u16(s: Seq<u8>, at: int) -> int {
    s[at] as int + 0x100 * (s[at + 1] as int)
}

/// The 32-bit little-endian integer stored at `at`.
pub open spec fn le_u32(s: Seq<u8>, at: int) -> int {
    s[at] as int + 0x100 * (s[at + 1] as int) + 0x1_0000 * (s[at + 2] as int) + 0x100_0000 * (s[at
        + 3] as int)
}

/// The 64-bit little-endian integer stored at `at`.
pub open spec fn le_u64(s: Seq<u8>, at: int) -> int {
    le_u32(s, at) + 0x1_0000_0000 * le_u32(s, at + 4)
}

/// The two bytes that store `value` in little-endian order.
pub open spec fn u16_bytes(value: u16) -> Seq<u8> {
    seq![(value % 0x100) as u8, (value / 0x100) as u8]
}

/// The four bytes that store `value` in little-endian order.
pub open spec fn u32_bytes(value: u32) -> Seq<u8> {
    seq![
        (value % 0x100) as u8,
        (value / 0x100 % 0x100) as u8,
        (value / 0x1_0000 % 0x100) as u8,
        (value / 0x100_0000) as u8,
    ]
}

/// `s` with the bytes of `patch` laid over it from position `at` on.
pub open spec fn splice(s: Seq<u8>, at: int, patch: Seq<u8>) -> Seq<u8> {
    Seq::new(
        s.len(),
        |i: int|
            if at <= i < at + patch.len() {
                patch[i - at]
            } else {
                s[i]
            },
    )
}

/// Every byte of `s` is zero.
pub open spec fn all_zero(s: Seq<u8>) -> bool {
    forall|i: int| 0 <= i < s.len() ==> s[i] == 0
}

/// The sequence of `n` zero bytes.
pub open spec fn zero_bytes(n: nat) -> Seq<u8> {
    Seq::new(n, |i: int| 0u8)
}

/// Where the two bytes at `at` are those of `value`, `value` is read there.
pub proof fn lemma_le_u16_at(s: Seq<u8>, at: int, value: u16)
    requires
        s[at] == u16_bytes(value)[0],
        s[at + 1] == u16_bytes(value)[1],
    ensures
        le_u16(s, at) == value,
{
}

/// Where the four bytes at `at` are those of `value`, `value` is read there.
pub proof fn lemma_le_u32_at(s: Seq<u8>, at: int, value: u32)
    requires
        s[at] == u32_bytes(value)[0],
        s[at + 1] == u32_bytes(value)[1],
        s[at + 2] == u32_bytes(value)[2],
        s[at + 3] == u32_bytes(value)[3],
    ensures
        le_u32(s, at) == value,
{
}

/// Reads the little-endian `u16` at `at`.
pub fn read_u16(data: &[u8], at: usize) -> (value: u16)
    requires
        at + 2 <= data@.len(),
    ensures
        value == le_u16(data@, at as int),
{
    (data[at] as u16) + 0x100 * (data[at + 1] as u16)
}

/// Reads the little-endian `u32` at `at`.
pub fn read_u32(data: &[u8], at: usize) -> (value: u32)
    requires
        at + 4 <= data@.len(),
    ensures
        value == le_u32(data@, at as int),
{
    (data[at] as u32) + 0x100 * (data[at + 1] as u32) + 0x1_0000 * (data[at + 2] as u32)
        + 0x100_0000 * (data[at + 3] as u32)
}

/// Reads the little-endian `u64` at `at`.
pub fn read_u64(data: &[u8], at: usize) -> (value: u64)
    requires
        at + 8 <= data@.len(),
    ensures
        value == le_u64(data@, at as int),
{
    assert(at + 8 <= data.len());
    let low = read_u32(data, at);
    let high = read_u32(data, at + 4);
    (low as u64) + 0x1_0000_0000 * (high as u64)
}

/// Stores the byte `value` at `at`.
pub fn write_u8(data: &mut [u8], at: usize, value: u8)
    requires
        at < old(data)@.len(),
    ensures
        final(data)@ == splice(old(data)@, at as int, seq![value]),
{
    data[at] = value;
    assert(data@ =~= splice(old(data)@, at as int, seq![value]));
}

/// Stores `value` at `at` in little-endian order.
pub fn write_u16(data: &mut [u8], at: usize, value: u16)
    requires
        at + 2 <= old(data)@.len(),
    ensures
        final(data)@ == splice(old(data)@, at as int, u16_bytes(value)),
{
    data[at] = (value % 0x100) as u8;
    data[at + 1] = (value / 0x100) as u8;
    assert(data@ =~= splice(old(data)@, at as int, u16_bytes(value)));
}

/// Stores `value` at `at` in little-endian order.
pub fn write_u32(data: &mut [u8], at: usize, value: u32)
    requires
        at + 4 <= old(data)@.len(),
    ensures
        final(data)@ == splice(old(data)@, at as int, u32_bytes(value)),
{
    data[at] = (value % 0x100) as u8;
    data[at + 1] = (value / 0x100 % 0x100) as u8;
    data[at + 2] = (value / 0x1_0000 % 0x100) as u8;
    data[at + 3] = (value / 0x100_0000) as u8;
    assert(data@ =~= splice(old(data)@, at as int, u32_bytes(value)));
}

/// Copies `source` over `target` from position `at` on.
pub fn copy_into(target: &mut [u8], at: usize, source: &[u8])
    requires
        at + source@.len() <= old(target)@.len(),
    ensures
        final(target)@ == splice(old(target)@, at as int, source@),
{
    assert(at + source.len() <= target.len());
    let mut i: usize = 0;
    while i < source.len()
        invariant
            i <= source@.len(),
            at + source@.len() <= usize::MAX,
            at + source@.len() <= target@.len(),
            target@.len() == old(target)@.len(),
            forall|k: int| 0 <= k < i ==> target@[at + k] == source@[k],
            forall|k: int|
                0 <= k < target@.len() && !(at <= k < at + i) ==> target@[k] == old(target)@[k],
        decreases source@.len() - i,
    {
        target[at + i] = source[i];
        i += 1;
    }
    assert(target@ =~= splice(old(target)@, at as int, source@));
}

/// A fresh buffer of `len` zero bytes.
pub fn zeroed(len: usize) -> (buffer: Vec<u8>)
    ensures
        buffer@ == zero_bytes(len as nat),
{
    let buffer = vec![0u8; len];
    assert(buffer@ =~= zero_bytes(len as nat));
    buffer
}

/// Whether every byte of `data` is zero.
pub fn is_all_zero(data: &[u8]) -> (zero: bool)
    ensures
        zero == all_zero(data@),
{
    let mut i: usize = 0;
    while i < data.len()
        invariant
            i <= data@.len(),
            forall|k: int| 0 <= k < i ==> data@[k] == 0,
        decreases data@.len() - i,
    {
        if data[i] != 0 {
            return false;
        }
        i += 1;
    }
    true
}

} // verus!
