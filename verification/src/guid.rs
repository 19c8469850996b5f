//! Globally unique identifiers, as sixteen bytes in the order in which they
//! are stored.

use vstd::prelude::*;

verus! {

/// An identifier of sixteen bytes.
#[derive(Clone, Copy, Debug, PartialEq, Eq)]
pub struct Guid {
    pub bytes: [u8; 16],
}

impl Guid {
    /// The identifier that the bytes hold.
    pub open spec fn decode(s: Seq<u8>) -> Guid {
        Guid {
            bytes: [
                s[0],
                s[1],
                s[2],
                s[3],
                s[4],
                s[5],
                s[6],
                s[7],
                s[8],
                s[9],
                s[10],
                s[11],
                s[12],
                s[13],
                s[14],
                s[15],
            ],
        }
    }

    /// Every byte is zero.
    pub open spec fn spec_is_zero(&self) -> bool {
        forall|i: int| 0 <= i < 16 ==> self.bytes[i] == 0
    }

    /// The identifier that `bytes` are; the order of the bytes is kept.
    pub fn from_bytes(bytes: [u8; 16]) -> (guid: Guid)
        ensures
            guid.bytes == bytes,
    {
        Guid { bytes }
    }

    /// The identifier stored in the first sixteen bytes of `data`.
    pub fn of_bytes(data: &[u8]) -> (guid: Guid)
        requires
            data@.len() >= 16,
        ensures
            guid == Self::decode(data@),
    {
        let guid = Guid {
            bytes: [
                data[0],
                data[1],
                data[2],
                data[3],
                data[4],
                data[5],
                data[6],
                data[7],
                data[8],
                data[9],
                data[10],
                data[11],
                data[12],
                data[13],
                data[14],
                data[15],
            ],
        };
        assert(guid.bytes =~= Self::decode(data@).bytes);
        guid
    }

    /// The identifier made of zeros, which marks an entry that is not in use.
    pub fn zero() -> (guid: Guid)
        ensures
            guid.spec_is_zero(),
    {
        Guid { bytes: [0u8; 16] }
    }

    /// The type of a partition that holds Linux filesystem data:
    /// 0FC63DAF-8483-4772-8E79-3D69D8477DE4, its first three fields stored
    /// low byte first.
    pub fn type_id_linux() -> (guid: Guid)
        ensures
            guid.bytes@ == seq![
                0xAFu8,
                0x3D,
                0xC6,
                0x0F,
                0x83,
                0x84,
                0x72,
                0x47,
                0x8E,
                0x79,
                0x3D,
                0x69,
                0xD8,
                0x47,
                0x7D,
                0xE4,
            ],
    {
        let guid = Guid {
            bytes: [
                0xAF,
                0x3D,
                0xC6,
                0x0F,
                0x83,
                0x84,
                0x72,
                0x47,
                0x8E,
                0x79,
                0x3D,
                0x69,
                0xD8,
                0x47,
                0x7D,
                0xE4,
            ],
        };
        assert(guid.bytes@ =~= seq![
            0xAFu8,
            0x3D,
            0xC6,
            0x0F,
            0x83,
            0x84,
            0x72,
            0x47,
            0x8E,
            0x79,
            0x3D,
            0x69,
            0xD8,
            0x47,
            0x7D,
            0xE4,
        ]);
        guid
    }

    /// Whether every byte is zero.
    #[verifier::when_used_as_spec(spec_is_zero)]
    pub fn is_zero(&self) -> (zero: bool)
        ensures
            zero == self.spec_is_zero(),
    {
        let mut i: usize = 0;
        while i < 16
            invariant
                i <= 16,
                forall|k: int| 0 <= k < i ==> self.bytes[k] == 0,
            decreases 16 - i,
        {
            if self.bytes[i] != 0 {
                return false;
            }
            i += 1;
        }
        true
    }
}

} // verus!
