//! The inode record and its on-disk encoding.

use crate::bytes::{
    copy_into, le_u16, le_u32, lemma_le_u16_at, lemma_le_u32_at, read_u16, read_u32, splice,
    u16_bytes, u32_bytes, write_u16, write_u32, zero_bytes,
};
use crate::fs::Mode;
use vstd::prelude::*;

verus! {

/// Bytes of an inode record that are read and written; a larger record on
/// disk keeps the rest as it is.
pub const INODE_PRACTICAL_SIZE: usize = 128;

/// Number of entries in an inode's block map.
pub const INODE_BLOCK_MAP_LEN: usize = 15;

/// An inode: what the filesystem records of one file.
#[derive(Clone, Copy, Debug, PartialEq, Eq)]
pub struct Inode {
    /// File type and permissions.
    pub mode: Mode,
    /// Owner.
    pub uid: u16,
    /// Length of the file in bytes.
    pub size: u64,
    /// Time of the last access.
    pub access_time: u64,
    /// Time of creation.
    pub creation_time: u64,
    /// Time of the last change.
    pub modification_time: u64,
    /// Time of deletion.
    pub deletion_time: u64,
    /// Group.
    pub gid: u16,
    /// Number of directory entries that name this inode.
    pub links_count: u16,
    /// Size in units of 512 bytes, as recorded in the inode.
    pub sector_count: u64,
    /// How the file is to be treated.
    pub flags: u32,
    /// Four bytes whose meaning depends on the system that wrote them.
    pub os_dependent_1: [u8; 4],
    /// Twelve direct blocks, then the single, double and triple indirect block; 0 means none.
    pub data_block_map: [u64; 15],
    /// File version.
    pub generation: u32,
    /// Block of extended attributes.
    pub file_acl: u32,
    /// Directory access control, or the high half of the size.
    pub dir_arc: u32,
    /// Fragment address.
    pub faddr: u32,
    /// Twelve bytes whose meaning depends on the system that wrote them.
    pub os_dependent_2: [u8; 12],
}

impl Inode {
    /// Every field fits the width it has on disk.
    pub open spec fn fits(self) -> bool {
        &&& self.mode.bits <= u16::MAX
        &&& self.size <= u32::MAX
        &&& self.access_time <= u32::MAX
        &&& self.creation_time <= u32::MAX
        &&& self.modification_time <= u32::MAX
        &&& self.deletion_time <= u32::MAX
        &&& self.sector_count <= u32::MAX
        &&& forall|i: int| 0 <= i < INODE_BLOCK_MAP_LEN ==> self.data_block_map[i] <= u32::MAX
    }

    /// The inode that the bytes hold.
    pub open spec fn decode(s: Seq<u8>) -> Inode {
        Inode {
            mode: Mode { bits: le_u16(s, 0) as u32 },
            uid: le_u16(s, 2) as u16,
            size: le_u32(s, 4) as u64,
            access_time: le_u32(s, 8) as u64,
            creation_time: le_u32(s, 12) as u64,
            modification_time: le_u32(s, 16) as u64,
            deletion_time: le_u32(s, 20) as u64,
            gid: le_u16(s, 24) as u16,
            links_count: le_u16(s, 26) as u16,
            sector_count: le_u32(s, 28) as u64,
            flags: le_u32(s, 32) as u32,
            os_dependent_1: [s[36], s[37], s[38], s[39]],
            data_block_map: [
                le_u32(s, 40) as u64,
                le_u32(s, 44) as u64,
                le_u32(s, 48) as u64,
                le_u32(s, 52) as u64,
                le_u32(s, 56) as u64,
                le_u32(s, 60) as u64,
                le_u32(s, 64) as u64,
                le_u32(s, 68) as u64,
                le_u32(s, 72) as u64,
                le_u32(s, 76) as u64,
                le_u32(s, 80) as u64,
                le_u32(s, 84) as u64,
                le_u32(s, 88) as u64,
                le_u32(s, 92) as u64,
                le_u32(s, 96) as u64,
            ],
            generation: le_u32(s, 100) as u32,
            file_acl: le_u32(s, 104) as u32,
            dir_arc: le_u32(s, 108) as u32,
            faddr: le_u32(s, 112) as u32,
            os_dependent_2: [
                s[116],
                s[117],
                s[118],
                s[119],
                s[120],
                s[121],
                s[122],
                s[123],
                s[124],
                s[125],
                s[126],
                s[127],
            ],
        }
    }

    /// The bytes `s` after the mode, the owner, the size, the times and the link count have been stored over bytes 0 to 28.
    #[verifier::opaque]
    pub open spec fn identity_written_over(self, s: Seq<u8>) -> Seq<u8> {
        let s1 = splice(s, 0, u16_bytes(self.mode.bits as u16));
        let s2 = splice(s1, 2, u16_bytes(self.uid));
        let s3 = splice(s2, 4, u32_bytes(self.size as u32));
        let s4 = splice(s3, 8, u32_bytes(self.access_time as u32));
        let s5 = splice(s4, 12, u32_bytes(self.creation_time as u32));
        let s6 = splice(s5, 16, u32_bytes(self.modification_time as u32));
        let s7 = splice(s6, 20, u32_bytes(self.deletion_time as u32));
        let s8 = splice(s7, 24, u16_bytes(self.gid));
        splice(s8, 26, u16_bytes(self.links_count))
    }

    /// The bytes `s` after the sector count, the flags and the first system-dependent bytes have been stored over bytes 28 to 40.
    #[verifier::opaque]
    pub open spec fn extent_written_over(self, s: Seq<u8>) -> Seq<u8> {
        let s1 = splice(s, 28, u32_bytes(self.sector_count as u32));
        let s2 = splice(s1, 32, u32_bytes(self.flags));
        splice(s2, 36, self.os_dependent_1@)
    }

    /// The bytes `s` after the first eight entries of the block map have been stored over bytes 40 to 72.
    #[verifier::opaque]
    pub open spec fn direct_map_written_over(self, s: Seq<u8>) -> Seq<u8> {
        let s1 = splice(s, 40, u32_bytes(self.data_block_map[0] as u32));
        let s2 = splice(s1, 44, u32_bytes(self.data_block_map[1] as u32));
        let s3 = splice(s2, 48, u32_bytes(self.data_block_map[2] as u32));
        let s4 = splice(s3, 52, u32_bytes(self.data_block_map[3] as u32));
        let s5 = splice(s4, 56, u32_bytes(self.data_block_map[4] as u32));
        let s6 = splice(s5, 60, u32_bytes(self.data_block_map[5] as u32));
        let s7 = splice(s6, 64, u32_bytes(self.data_block_map[6] as u32));
        splice(s7, 68, u32_bytes(self.data_block_map[7] as u32))
    }

    /// The bytes `s` after the last seven entries of the block map have been stored over bytes 72 to 100.
    #[verifier::opaque]
    pub open spec fn indirect_map_written_over(self, s: Seq<u8>) -> Seq<u8> {
        let s1 = splice(s, 72, u32_bytes(self.data_block_map[8] as u32));
        let s2 = splice(s1, 76, u32_bytes(self.data_block_map[9] as u32));
        let s3 = splice(s2, 80, u32_bytes(self.data_block_map[10] as u32));
        let s4 = splice(s3, 84, u32_bytes(self.data_block_map[11] as u32));
        let s5 = splice(s4, 88, u32_bytes(self.data_block_map[12] as u32));
        let s6 = splice(s5, 92, u32_bytes(self.data_block_map[13] as u32));
        splice(s6, 96, u32_bytes(self.data_block_map[14] as u32))
    }

    /// The bytes `s` after the generation, the access-control fields and the last system-dependent bytes have been stored over bytes 100 to 128.
    #[verifier::opaque]
    pub open spec fn tail_written_over(self, s: Seq<u8>) -> Seq<u8> {
        let s1 = splice(s, 100, u32_bytes(self.generation));
        let s2 = splice(s1, 104, u32_bytes(self.file_acl));
        let s3 = splice(s2, 108, u32_bytes(self.dir_arc));
        let s4 = splice(s3, 112, u32_bytes(self.faddr));
        splice(s4, 116, self.os_dependent_2@)
    }

    /// The bytes `s` after the fields have been stored over their places.
    pub open spec fn written_over(self, s: Seq<u8>) -> Seq<u8> {
        self.tail_written_over(
            self.indirect_map_written_over(
                self.direct_map_written_over(
                    self.extent_written_over(self.identity_written_over(s)),
                ),
            ),
        )
    }

    /// The encoding of the fields alone.
    pub open spec fn encoded(self) -> Seq<u8> {
        self.written_over(zero_bytes(INODE_PRACTICAL_SIZE as nat))
    }

    /// The inode that holds a mode and nothing else.
    pub open spec fn spec_empty(mode: Mode) -> Inode {
        Inode {
            mode,
            uid: 0,
            size: 0,
            access_time: 0,
            creation_time: 0,
            modification_time: 0,
            deletion_time: 0,
            gid: 0,
            links_count: 0,
            sector_count: 0,
            flags: 0,
            os_dependent_1: [0, 0, 0, 0],
            data_block_map: [0, 0, 0, 0, 0, 0, 0, 0, 0, 0, 0, 0, 0, 0, 0],
            generation: 0,
            file_acl: 0,
            dir_arc: 0,
            faddr: 0,
            os_dependent_2: [0, 0, 0, 0, 0, 0, 0, 0, 0, 0, 0, 0],
        }
    }

    /// An inode with the given mode and every other field zero.
    pub fn empty(mode: Mode) -> (inode: Inode)
        ensures
            inode == Self::spec_empty(mode),
    {
        let inode = Inode {
            mode,
            uid: 0,
            size: 0,
            access_time: 0,
            creation_time: 0,
            modification_time: 0,
            deletion_time: 0,
            gid: 0,
            links_count: 0,
            sector_count: 0,
            flags: 0,
            os_dependent_1: [0; 4],
            data_block_map: [0; 15],
            generation: 0,
            file_acl: 0,
            dir_arc: 0,
            faddr: 0,
            os_dependent_2: [0; 12],
        };
        assert(inode.os_dependent_1 =~= Self::spec_empty(mode).os_dependent_1);
        assert(inode.data_block_map =~= Self::spec_empty(mode).data_block_map);
        assert(inode.os_dependent_2 =~= Self::spec_empty(mode).os_dependent_2);
        inode
    }

    /// Parses an inode from the first 128 bytes of `inode_data`.
    pub fn of_bytes(inode_data: &[u8]) -> (inode: Inode)
        requires
            inode_data@.len() >= INODE_PRACTICAL_SIZE,
        ensures
            inode == Self::decode(inode_data@),
            inode.fits(),
    {
        assert(inode_data.len() >= 128);
        let mode = Mode::from_bits_retain(read_u16(inode_data, 0) as u32);
        let uid = read_u16(inode_data, 2);
        let size = read_u32(inode_data, 4) as u64;
        let access_time = read_u32(inode_data, 8) as u64;
        let creation_time = read_u32(inode_data, 12) as u64;
        let modification_time = read_u32(inode_data, 16) as u64;
        let deletion_time = read_u32(inode_data, 20) as u64;
        let gid = read_u16(inode_data, 24);
        let links_count = read_u16(inode_data, 26);
        let sector_count = read_u32(inode_data, 28) as u64;
        let flags = read_u32(inode_data, 32);
        let os_dependent_1 = [inode_data[36], inode_data[37], inode_data[38], inode_data[39]];
        let data_block_map = [
            read_u32(inode_data, 40) as u64,
            read_u32(inode_data, 44) as u64,
            read_u32(inode_data, 48) as u64,
            read_u32(inode_data, 52) as u64,
            read_u32(inode_data, 56) as u64,
            read_u32(inode_data, 60) as u64,
            read_u32(inode_data, 64) as u64,
            read_u32(inode_data, 68) as u64,
            read_u32(inode_data, 72) as u64,
            read_u32(inode_data, 76) as u64,
            read_u32(inode_data, 80) as u64,
            read_u32(inode_data, 84) as u64,
            read_u32(inode_data, 88) as u64,
            read_u32(inode_data, 92) as u64,
            read_u32(inode_data, 96) as u64,
        ];
        let generation = read_u32(inode_data, 100);
        let file_acl = read_u32(inode_data, 104);
        let dir_arc = read_u32(inode_data, 108);
        let faddr = read_u32(inode_data, 112);
        let os_dependent_2 = [
            inode_data[116],
            inode_data[117],
            inode_data[118],
            inode_data[119],
            inode_data[120],
            inode_data[121],
            inode_data[122],
            inode_data[123],
            inode_data[124],
            inode_data[125],
            inode_data[126],
            inode_data[127],
        ];
        let inode = Inode {
            mode,
            uid,
            size,
            access_time,
            creation_time,
            modification_time,
            deletion_time,
            gid,
            links_count,
            sector_count,
            flags,
            os_dependent_1,
            data_block_map,
            generation,
            file_acl,
            dir_arc,
            faddr,
            os_dependent_2,
        };
        assert(inode.os_dependent_1 =~= Self::decode(inode_data@).os_dependent_1);
        assert(inode.data_block_map =~= Self::decode(inode_data@).data_block_map);
        assert(inode.os_dependent_2 =~= Self::decode(inode_data@).os_dependent_2);
        inode
    }

    fn update_identity_bytes(&self, inode_data: &mut [u8])
        requires
            self.fits(),
            old(inode_data)@.len() >= INODE_PRACTICAL_SIZE,
        ensures
            final(inode_data)@ == self.identity_written_over(old(inode_data)@),
            final(inode_data)@.len() == old(inode_data)@.len(),
    {
        reveal(Inode::identity_written_over);
        assert(inode_data.len() >= 128);
        write_u16(inode_data, 0, self.mode.bits as u16);
        write_u16(inode_data, 2, self.uid);
        write_u32(inode_data, 4, self.size as u32);
        write_u32(inode_data, 8, self.access_time as u32);
        write_u32(inode_data, 12, self.creation_time as u32);
        write_u32(inode_data, 16, self.modification_time as u32);
        write_u32(inode_data, 20, self.deletion_time as u32);
        write_u16(inode_data, 24, self.gid);
        write_u16(inode_data, 26, self.links_count);
    }

    fn update_extent_bytes(&self, inode_data: &mut [u8])
        requires
            self.fits(),
            old(inode_data)@.len() >= INODE_PRACTICAL_SIZE,
        ensures
            final(inode_data)@ == self.extent_written_over(old(inode_data)@),
            final(inode_data)@.len() == old(inode_data)@.len(),
    {
        reveal(Inode::extent_written_over);
        assert(inode_data.len() >= 128);
        write_u32(inode_data, 28, self.sector_count as u32);
        write_u32(inode_data, 32, self.flags);
        copy_into(inode_data, 36, self.os_dependent_1.as_slice());
    }

    fn update_direct_map_bytes(&self, inode_data: &mut [u8])
        requires
            self.fits(),
            old(inode_data)@.len() >= INODE_PRACTICAL_SIZE,
        ensures
            final(inode_data)@ == self.direct_map_written_over(old(inode_data)@),
            final(inode_data)@.len() == old(inode_data)@.len(),
    {
        reveal(Inode::direct_map_written_over);
        assert(inode_data.len() >= 128);
        write_u32(inode_data, 40, self.data_block_map[0] as u32);
        write_u32(inode_data, 44, self.data_block_map[1] as u32);
        write_u32(inode_data, 48, self.data_block_map[2] as u32);
        write_u32(inode_data, 52, self.data_block_map[3] as u32);
        write_u32(inode_data, 56, self.data_block_map[4] as u32);
        write_u32(inode_data, 60, self.data_block_map[5] as u32);
        write_u32(inode_data, 64, self.data_block_map[6] as u32);
        write_u32(inode_data, 68, self.data_block_map[7] as u32);
    }

    fn update_indirect_map_bytes(&self, inode_data: &mut [u8])
        requires
            self.fits(),
            old(inode_data)@.len() >= INODE_PRACTICAL_SIZE,
        ensures
            final(inode_data)@ == self.indirect_map_written_over(old(inode_data)@),
            final(inode_data)@.len() == old(inode_data)@.len(),
    {
        reveal(Inode::indirect_map_written_over);
        assert(inode_data.len() >= 128);
        write_u32(inode_data, 72, self.data_block_map[8] as u32);
        write_u32(inode_data, 76, self.data_block_map[9] as u32);
        write_u32(inode_data, 80, self.data_block_map[10] as u32);
        write_u32(inode_data, 84, self.data_block_map[11] as u32);
        write_u32(inode_data, 88, self.data_block_map[12] as u32);
        write_u32(inode_data, 92, self.data_block_map[13] as u32);
        write_u32(inode_data, 96, self.data_block_map[14] as u32);
    }

    fn update_tail_bytes(&self, inode_data: &mut [u8])
        requires
            self.fits(),
            old(inode_data)@.len() >= INODE_PRACTICAL_SIZE,
        ensures
            final(inode_data)@ == self.tail_written_over(old(inode_data)@),
            final(inode_data)@.len() == old(inode_data)@.len(),
    {
        reveal(Inode::tail_written_over);
        assert(inode_data.len() >= 128);
        write_u32(inode_data, 100, self.generation);
        write_u32(inode_data, 104, self.file_acl);
        write_u32(inode_data, 108, self.dir_arc);
        write_u32(inode_data, 112, self.faddr);
        copy_into(inode_data, 116, self.os_dependent_2.as_slice());
    }

    /// Stores the fields over the first 128 bytes of `inode_data`; later bytes
    /// stay as they were.
    pub fn update_bytes(&self, inode_data: &mut [u8])
        requires
            self.fits(),
            old(inode_data)@.len() >= INODE_PRACTICAL_SIZE,
        ensures
            final(inode_data)@ == self.written_over(old(inode_data)@),
    {
        self.update_identity_bytes(inode_data);
        self.update_extent_bytes(inode_data);
        self.update_direct_map_bytes(inode_data);
        self.update_indirect_map_bytes(inode_data);
        self.update_tail_bytes(inode_data);
    }

    /// What storing the mode, the owner, the size, the times and the link count does: it touches bytes 0 to 28 alone, what it
    /// stores there does not depend on the buffer, and the fields are read back.
    proof fn lemma_identity(self, s: Seq<u8>, t: Seq<u8>)
        requires
            s.len() >= INODE_PRACTICAL_SIZE,
            t.len() >= INODE_PRACTICAL_SIZE,
        ensures
            self.identity_written_over(s).len() == s.len(),
            forall|i: int|
                0 <= i < s.len() && !(0 <= i < 28) ==> #[trigger] self.identity_written_over(s)[i]
                    == s[i],
            forall|i: int|
                0 <= i < 28 ==> #[trigger] self.identity_written_over(s)[i]
                    == self.identity_written_over(t)[i],
            le_u16(self.identity_written_over(s), 0) == self.mode.bits as u16,
            le_u16(self.identity_written_over(s), 2) == self.uid,
            le_u32(self.identity_written_over(s), 4) == self.size as u32,
            le_u32(self.identity_written_over(s), 8) == self.access_time as u32,
            le_u32(self.identity_written_over(s), 12) == self.creation_time as u32,
            le_u32(self.identity_written_over(s), 16) == self.modification_time as u32,
            le_u32(self.identity_written_over(s), 20) == self.deletion_time as u32,
            le_u16(self.identity_written_over(s), 24) == self.gid,
            le_u16(self.identity_written_over(s), 26) == self.links_count,
    {
        reveal(Inode::identity_written_over);
        let w = self.identity_written_over(s);
        lemma_le_u16_at(w, 0, self.mode.bits as u16);
        lemma_le_u16_at(w, 2, self.uid);
        lemma_le_u32_at(w, 4, self.size as u32);
        lemma_le_u32_at(w, 8, self.access_time as u32);
        lemma_le_u32_at(w, 12, self.creation_time as u32);
        lemma_le_u32_at(w, 16, self.modification_time as u32);
        lemma_le_u32_at(w, 20, self.deletion_time as u32);
        lemma_le_u16_at(w, 24, self.gid);
        lemma_le_u16_at(w, 26, self.links_count);
    }

    /// What storing the sector count, the flags and the first system-dependent bytes does: it touches bytes 28 to 40 alone, what it
    /// stores there does not depend on the buffer, and the fields are read back.
    proof fn lemma_extent(self, s: Seq<u8>, t: Seq<u8>)
        requires
            s.len() >= INODE_PRACTICAL_SIZE,
            t.len() >= INODE_PRACTICAL_SIZE,
        ensures
            self.extent_written_over(s).len() == s.len(),
            forall|i: int|
                0 <= i < s.len() && !(28 <= i < 40) ==> #[trigger] self.extent_written_over(s)[i]
                    == s[i],
            forall|i: int|
                28 <= i < 40 ==> #[trigger] self.extent_written_over(s)[i]
                    == self.extent_written_over(t)[i],
            le_u32(self.extent_written_over(s), 28) == self.sector_count as u32,
            le_u32(self.extent_written_over(s), 32) == self.flags,
            forall|k: int|
                0 <= k < 4 ==> self.extent_written_over(s)[36 + k] == self.os_dependent_1[k],
    {
        reveal(Inode::extent_written_over);
        let w = self.extent_written_over(s);
        lemma_le_u32_at(w, 28, self.sector_count as u32);
        lemma_le_u32_at(w, 32, self.flags);
    }

    /// What storing the first eight entries of the block map does: it touches bytes 40 to 72 alone, what it
    /// stores there does not depend on the buffer, and the fields are read back.
    proof fn lemma_direct_map(self, s: Seq<u8>, t: Seq<u8>)
        requires
            s.len() >= INODE_PRACTICAL_SIZE,
            t.len() >= INODE_PRACTICAL_SIZE,
        ensures
            self.direct_map_written_over(s).len() == s.len(),
            forall|i: int|
                0 <= i < s.len() && !(40 <= i < 72) ==> #[trigger] self.direct_map_written_over(s)[i]
                    == s[i],
            forall|i: int|
                40 <= i < 72 ==> #[trigger] self.direct_map_written_over(s)[i]
                    == self.direct_map_written_over(t)[i],
            le_u32(self.direct_map_written_over(s), 40) == self.data_block_map[0] as u32,
            le_u32(self.direct_map_written_over(s), 44) == self.data_block_map[1] as u32,
            le_u32(self.direct_map_written_over(s), 48) == self.data_block_map[2] as u32,
            le_u32(self.direct_map_written_over(s), 52) == self.data_block_map[3] as u32,
            le_u32(self.direct_map_written_over(s), 56) == self.data_block_map[4] as u32,
            le_u32(self.direct_map_written_over(s), 60) == self.data_block_map[5] as u32,
            le_u32(self.direct_map_written_over(s), 64) == self.data_block_map[6] as u32,
            le_u32(self.direct_map_written_over(s), 68) == self.data_block_map[7] as u32,
    {
        reveal(Inode::direct_map_written_over);
        let w = self.direct_map_written_over(s);
        lemma_le_u32_at(w, 40, self.data_block_map[0] as u32);
        lemma_le_u32_at(w, 44, self.data_block_map[1] as u32);
        lemma_le_u32_at(w, 48, self.data_block_map[2] as u32);
        lemma_le_u32_at(w, 52, self.data_block_map[3] as u32);
        lemma_le_u32_at(w, 56, self.data_block_map[4] as u32);
        lemma_le_u32_at(w, 60, self.data_block_map[5] as u32);
        lemma_le_u32_at(w, 64, self.data_block_map[6] as u32);
        lemma_le_u32_at(w, 68, self.data_block_map[7] as u32);
    }

    /// What storing the last seven entries of the block map does: it touches bytes 72 to 100 alone, what it
    /// stores there does not depend on the buffer, and the fields are read back.
    proof fn lemma_indirect_map(self, s: Seq<u8>, t: Seq<u8>)
        requires
            s.len() >= INODE_PRACTICAL_SIZE,
            t.len() >= INODE_PRACTICAL_SIZE,
        ensures
            self.indirect_map_written_over(s).len() == s.len(),
            forall|i: int|
                0 <= i < s.len() && !(72 <= i < 100) ==> #[trigger] self.indirect_map_written_over(s)[i]
                    == s[i],
            forall|i: int|
                72 <= i < 100 ==> #[trigger] self.indirect_map_written_over(s)[i]
                    == self.indirect_map_written_over(t)[i],
            le_u32(self.indirect_map_written_over(s), 72) == self.data_block_map[8] as u32,
            le_u32(self.indirect_map_written_over(s), 76) == self.data_block_map[9] as u32,
            le_u32(self.indirect_map_written_over(s), 80) == self.data_block_map[10] as u32,
            le_u32(self.indirect_map_written_over(s), 84) == self.data_block_map[11] as u32,
            le_u32(self.indirect_map_written_over(s), 88) == self.data_block_map[12] as u32,
            le_u32(self.indirect_map_written_over(s), 92) == self.data_block_map[13] as u32,
            le_u32(self.indirect_map_written_over(s), 96) == self.data_block_map[14] as u32,
    {
        reveal(Inode::indirect_map_written_over);
        let w = self.indirect_map_written_over(s);
        lemma_le_u32_at(w, 72, self.data_block_map[8] as u32);
        lemma_le_u32_at(w, 76, self.data_block_map[9] as u32);
        lemma_le_u32_at(w, 80, self.data_block_map[10] as u32);
        lemma_le_u32_at(w, 84, self.data_block_map[11] as u32);
        lemma_le_u32_at(w, 88, self.data_block_map[12] as u32);
        lemma_le_u32_at(w, 92, self.data_block_map[13] as u32);
        lemma_le_u32_at(w, 96, self.data_block_map[14] as u32);
    }

    /// What storing the generation, the access-control fields and the last system-dependent bytes does: it touches bytes 100 to 128 alone, what it
    /// stores there does not depend on the buffer, and the fields are read back.
    proof fn lemma_tail(self, s: Seq<u8>, t: Seq<u8>)
        requires
            s.len() >= INODE_PRACTICAL_SIZE,
            t.len() >= INODE_PRACTICAL_SIZE,
        ensures
            self.tail_written_over(s).len() == s.len(),
            forall|i: int|
                0 <= i < s.len() && !(100 <= i < 128) ==> #[trigger] self.tail_written_over(s)[i]
                    == s[i],
            forall|i: int|
                100 <= i < 128 ==> #[trigger] self.tail_written_over(s)[i]
                    == self.tail_written_over(t)[i],
            le_u32(self.tail_written_over(s), 100) == self.generation,
            le_u32(self.tail_written_over(s), 104) == self.file_acl,
            le_u32(self.tail_written_over(s), 108) == self.dir_arc,
            le_u32(self.tail_written_over(s), 112) == self.faddr,
            forall|k: int|
                0 <= k < 12 ==> self.tail_written_over(s)[116 + k] == self.os_dependent_2[k],
    {
        reveal(Inode::tail_written_over);
        let w = self.tail_written_over(s);
        lemma_le_u32_at(w, 100, self.generation);
        lemma_le_u32_at(w, 104, self.file_acl);
        lemma_le_u32_at(w, 108, self.dir_arc);
        lemma_le_u32_at(w, 112, self.faddr);
    }

    /// The facts of the five parts, each about the buffer it is given when the
    /// whole inode is stored over `s`, and over `t`.
    proof fn lemma_parts(self, s: Seq<u8>, t: Seq<u8>)
        requires
            s.len() >= INODE_PRACTICAL_SIZE,
            t.len() >= INODE_PRACTICAL_SIZE,
        ensures
            self.written_over(s).len() == s.len(),
            forall|i: int|
                INODE_PRACTICAL_SIZE <= i < s.len() ==> #[trigger] self.written_over(s)[i] == s[i],
            forall|i: int|
                0 <= i < INODE_PRACTICAL_SIZE ==> #[trigger] self.written_over(s)[i]
                    == self.written_over(t)[i],
            self.fits() ==> Self::decode(self.written_over(s)) == self,
    {
        let s1 = self.identity_written_over(s);
        let s2 = self.extent_written_over(s1);
        let s3 = self.direct_map_written_over(s2);
        let s4 = self.indirect_map_written_over(s3);
        let s5 = self.tail_written_over(s4);
        let t1 = self.identity_written_over(t);
        let t2 = self.extent_written_over(t1);
        let t3 = self.direct_map_written_over(t2);
        let t4 = self.indirect_map_written_over(t3);
        let t5 = self.tail_written_over(t4);
        self.lemma_identity(s, t);
        self.lemma_identity(t, s);
        self.lemma_extent(s1, t1);
        self.lemma_extent(t1, s1);
        self.lemma_direct_map(s2, t2);
        self.lemma_direct_map(t2, s2);
        self.lemma_indirect_map(s3, t3);
        self.lemma_indirect_map(t3, s3);
        self.lemma_tail(s4, t4);
        self.lemma_tail(t4, s4);
        assert forall|i: int| 0 <= i < INODE_PRACTICAL_SIZE implies #[trigger] s5[i] == t5[i] by {
            if i < 28 {
                assert(s5[i] == s4[i] && s4[i] == s3[i] && s3[i] == s2[i] && s2[i] == s1[i]);
                assert(t5[i] == t4[i] && t4[i] == t3[i] && t3[i] == t2[i] && t2[i] == t1[i]);
            } else if i < 40 {
                assert(s5[i] == s4[i] && s4[i] == s3[i] && s3[i] == s2[i]);
                assert(t5[i] == t4[i] && t4[i] == t3[i] && t3[i] == t2[i]);
            } else if i < 72 {
                assert(s5[i] == s4[i] && s4[i] == s3[i]);
                assert(t5[i] == t4[i] && t4[i] == t3[i]);
            } else if i < 100 {
                assert(s5[i] == s4[i]);
                assert(t5[i] == t4[i]);
            }
        }
        assert forall|i: int| INODE_PRACTICAL_SIZE <= i < s.len() implies #[trigger] s5[i]
            == s[i] by {
            assert(s5[i] == s4[i] && s4[i] == s3[i] && s3[i] == s2[i] && s2[i] == s1[i]);
        }
        assert forall|i: int| 0 <= i < 28 implies #[trigger] s5[i] == s1[i] by {
            assert(s5[i] == s4[i] && s4[i] == s3[i] && s3[i] == s2[i] && s2[i] == s1[i]);
        }
        assert forall|i: int| 28 <= i < 40 implies #[trigger] s5[i] == s2[i] by {
            assert(s5[i] == s4[i] && s4[i] == s3[i] && s3[i] == s2[i]);
        }
        assert forall|i: int| 40 <= i < 72 implies #[trigger] s5[i] == s3[i] by {
            assert(s5[i] == s4[i] && s4[i] == s3[i]);
        }
        assert forall|i: int| 72 <= i < 100 implies #[trigger] s5[i] == s4[i] by {
            assert(s5[i] == s4[i]);
        }
        if self.fits() {
            let d = Self::decode(s5);
            assert(d.os_dependent_1 =~= self.os_dependent_1) by {
                assert forall|k: int| 0 <= k < 4 implies d.os_dependent_1[k]
                    == self.os_dependent_1[k] by {
                    assert(s5[36 + k] == s2[36 + k]);
                }
            }
            assert(d.data_block_map =~= self.data_block_map);
            assert(d.os_dependent_2 =~= self.os_dependent_2) by {
                assert forall|k: int| 0 <= k < 12 implies d.os_dependent_2[k]
                    == self.os_dependent_2[k] by {
                    assert(s5[116 + k] == self.os_dependent_2[k]);
                }
            }
        }
    }

    /// An inode that is read from bytes fits the widths of its fields.
    pub proof fn lemma_decode_fits(s: Seq<u8>)
        requires
            s.len() >= INODE_PRACTICAL_SIZE,
        ensures
            Self::decode(s).fits(),
    {
        let inode = Self::decode(s);
        assert forall|i: int| 0 <= i < INODE_BLOCK_MAP_LEN implies inode.data_block_map[i]
            <= u32::MAX by {
            assert(inode.data_block_map[i] == le_u32(s, 40 + 4 * i) as u64);
        }
    }

    /// Storing an inode changes no length and no byte past its 128 bytes.
    pub proof fn lemma_written_over_frame(self, s: Seq<u8>)
        requires
            s.len() >= INODE_PRACTICAL_SIZE,
        ensures
            self.written_over(s).len() == s.len(),
            forall|i: int| INODE_PRACTICAL_SIZE <= i < s.len() ==> self.written_over(s)[i] == s[i],
    {
        self.lemma_parts(s, s);
    }

    /// Where the buffer is long enough, the stored bytes do not depend on what
    /// the buffer held: they are the encoding.
    pub proof fn lemma_written_over_is_encoded(self, s: Seq<u8>)
        requires
            s.len() >= INODE_PRACTICAL_SIZE,
        ensures
            self.written_over(s).subrange(0, INODE_PRACTICAL_SIZE as int) == self.encoded(),
            self.encoded().len() == INODE_PRACTICAL_SIZE,
    {
        let z = zero_bytes(INODE_PRACTICAL_SIZE as nat);
        self.lemma_parts(s, z);
        self.lemma_parts(z, z);
        assert(self.written_over(s).subrange(0, INODE_PRACTICAL_SIZE as int) =~= self.encoded());
    }

    /// Round trip: an inode whose fields fit their widths, stored over any
    /// buffer that is long enough, parses to itself.
    pub proof fn lemma_round_trip(self, s: Seq<u8>)
        requires
            self.fits(),
            s.len() >= INODE_PRACTICAL_SIZE,
        ensures
            Self::decode(self.written_over(s)) == self,
    {
        self.lemma_parts(s, s);
    }
}

} // verus!
