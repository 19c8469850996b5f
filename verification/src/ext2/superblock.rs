//! The ext2 superblock and its on-disk encoding.

use crate::bytes::{
    le_u16, le_u32, lemma_le_u16_at, lemma_le_u32_at, read_u16, read_u32, splice, u16_bytes,
    u32_bytes, write_u16, write_u32, zero_bytes,
};
use vstd::arithmetic::power2::pow2;
use vstd::prelude::*;

verus! {

/// Byte offset of the primary superblock on the device, whatever the block size.
pub const SUPERBLOCK_START: u64 = 1024;

/// Bytes reserved on disk for a superblock.
pub const SUPERBLOCK_SIZE: u64 = 1024;

/// Bytes of a superblock that the fields kept here cover.
pub const SUPERBLOCK_FIELDS_SIZE: usize = 104;

/// The number that marks a superblock.
pub const SUPERBLOCK_MAGIC: u16 = 0xEF53;

/// Bit of `features_ro_compat`: superblock copies live only in some block groups.
pub const FEATURE_RO_COMPAT_SPARSE_SUPER: u32 = 0x0001;

/// The largest `log_block_size` for which the block size fits in a `u64`.
pub const MAX_SHIFT_LOG_BLOCK_SIZE: u32 = 53;

/// The fields of a superblock that the filesystem works with.
#[derive(Clone, Copy, Debug, PartialEq, Eq)]
pub struct Superblock {
    /// Number of inodes in the filesystem.
    pub inodes_count: u64,
    /// Number of blocks in the filesystem.
    pub blocks_count: u64,
    /// Blocks reserved for the superuser.
    pub reserved_blocks_count: u64,
    /// Number of blocks that no bitmap marks as used.
    pub free_blocks_count: u64,
    /// Number of inodes that no bitmap marks as used.
    pub free_inodes_count: u64,
    /// The block that holds the primary superblock; block groups start here.
    pub first_data_block_block_index: u64,
    /// The block size is `1024 << log_block_size`.
    pub log_block_size: u32,
    /// Blocks in each block group.
    pub block_count_per_block_group: u64,
    /// Inodes in each block group.
    pub inode_count_per_block_group: u64,
    /// Time of the last mount.
    pub mount_time: u64,
    /// Time of the last write.
    pub write_time: u64,
    /// Mounts since the last check.
    pub mount_count: u16,
    /// Mounts allowed between checks.
    pub max_mount_count: u16,
    /// Whether the filesystem was unmounted cleanly.
    pub state: u16,
    /// What to do when an error is found.
    pub errors: u16,
    /// Minor revision of the format.
    pub minor_revision_level: u16,
    /// Time of the last check.
    pub last_check_time: u64,
    /// Longest time allowed between checks.
    pub check_interval: u64,
    /// The system that created the filesystem.
    pub creator_os: u32,
    /// Revision of the format.
    pub revision_level: u32,
    /// User that may use the reserved blocks.
    pub default_reserved_uid: u16,
    /// Group that may use the reserved blocks.
    pub default_reserved_gid: u16,
    /// The first inode index that files may use.
    pub first_usable_inode_index: u64,
    /// Bytes that each inode takes in the inode table.
    pub inode_size: u64,
    /// The block group that holds this copy of the superblock.
    pub block_group_index: u64,
    /// Features an implementation may ignore.
    pub features_compat: u32,
    /// Features an implementation must understand to mount.
    pub features_incompat: u32,
    /// Features an implementation must understand to write.
    pub features_ro_compat: u32,
}

impl Superblock {
    /// Every field fits the width it has on disk.
    pub open spec fn fits(self) -> bool {
        &&& self.inodes_count <= u32::MAX
        &&& self.blocks_count <= u32::MAX
        &&& self.reserved_blocks_count <= u32::MAX
        &&& self.free_blocks_count <= u32::MAX
        &&& self.free_inodes_count <= u32::MAX
        &&& self.first_data_block_block_index <= u32::MAX
        &&& self.block_count_per_block_group <= u32::MAX
        &&& self.inode_count_per_block_group <= u32::MAX
        &&& self.mount_time <= u32::MAX
        &&& self.write_time <= u32::MAX
        &&& self.last_check_time <= u32::MAX
        &&& self.check_interval <= u32::MAX
        &&& self.first_usable_inode_index <= u32::MAX
        &&& self.inode_size <= u16::MAX
        &&& self.block_group_index <= u16::MAX
    }

    /// The bytes are long enough, carry the magic number, and give blocks and
    /// fragments the same size and the same count per group.
    pub open spec fn valid_bytes(s: Seq<u8>) -> bool {
        &&& s.len() >= SUPERBLOCK_FIELDS_SIZE
        &&& le_u16(s, 56) == SUPERBLOCK_MAGIC
        &&& le_u32(s, 24) == le_u32(s, 28)
        &&& le_u32(s, 32) == le_u32(s, 36)
    }

    /// The superblock that the bytes hold.
    pub open spec fn decode(s: Seq<u8>) -> Superblock {
        Superblock {
            inodes_count: le_u32(s, 0) as u64,
            blocks_count: le_u32(s, 4) as u64,
            reserved_blocks_count: le_u32(s, 8) as u64,
            free_blocks_count: le_u32(s, 12) as u64,
            free_inodes_count: le_u32(s, 16) as u64,
            first_data_block_block_index: le_u32(s, 20) as u64,
            log_block_size: le_u32(s, 24) as u32,
            block_count_per_block_group: le_u32(s, 32) as u64,
            inode_count_per_block_group: le_u32(s, 40) as u64,
            mount_time: le_u32(s, 44) as u64,
            write_time: le_u32(s, 48) as u64,
            mount_count: le_u16(s, 52) as u16,
            max_mount_count: le_u16(s, 54) as u16,
            state: le_u16(s, 58) as u16,
            errors: le_u16(s, 60) as u16,
            minor_revision_level: le_u16(s, 62) as u16,
            last_check_time: le_u32(s, 64) as u64,
            check_interval: le_u32(s, 68) as u64,
            creator_os: le_u32(s, 72) as u32,
            revision_level: le_u32(s, 76) as u32,
            default_reserved_uid: le_u16(s, 80) as u16,
            default_reserved_gid: le_u16(s, 82) as u16,
            first_usable_inode_index: le_u32(s, 84) as u64,
            inode_size: le_u16(s, 88) as u64,
            block_group_index: le_u16(s, 90) as u64,
            features_compat: le_u32(s, 92) as u32,
            features_incompat: le_u32(s, 96) as u32,
            features_ro_compat: le_u32(s, 100) as u32,
        }
    }

    /// The bytes `s` after the counts and the block size have been stored over bytes 0 to 28.
    #[verifier::opaque]
    pub open spec fn counts_written_over(self, s: Seq<u8>) -> Seq<u8> {
        let s1 = splice(s, 0, u32_bytes(self.inodes_count as u32));
        let s2 = splice(s1, 4, u32_bytes(self.blocks_count as u32));
        let s3 = splice(s2, 8, u32_bytes(self.reserved_blocks_count as u32));
        let s4 = splice(s3, 12, u32_bytes(self.free_blocks_count as u32));
        let s5 = splice(s4, 16, u32_bytes(self.free_inodes_count as u32));
        let s6 = splice(s5, 20, u32_bytes(self.first_data_block_block_index as u32));
        splice(s6, 24, u32_bytes(self.log_block_size))
    }

    /// The bytes `s` after the sizes of a block group and the times have been stored over bytes 28 to 52.
    #[verifier::opaque]
    pub open spec fn groups_written_over(self, s: Seq<u8>) -> Seq<u8> {
        let s1 = splice(s, 28, u32_bytes(self.log_block_size));
        let s2 = splice(s1, 32, u32_bytes(self.block_count_per_block_group as u32));
        let s3 = splice(s2, 36, u32_bytes(self.block_count_per_block_group as u32));
        let s4 = splice(s3, 40, u32_bytes(self.inode_count_per_block_group as u32));
        let s5 = splice(s4, 44, u32_bytes(self.mount_time as u32));
        splice(s5, 48, u32_bytes(self.write_time as u32))
    }

    /// The bytes `s` after the mount state and the checks have been stored over bytes 52 to 72.
    #[verifier::opaque]
    pub open spec fn state_written_over(self, s: Seq<u8>) -> Seq<u8> {
        let s1 = splice(s, 52, u16_bytes(self.mount_count));
        let s2 = splice(s1, 54, u16_bytes(self.max_mount_count));
        let s3 = splice(s2, 56, u16_bytes(SUPERBLOCK_MAGIC));
        let s4 = splice(s3, 58, u16_bytes(self.state));
        let s5 = splice(s4, 60, u16_bytes(self.errors));
        let s6 = splice(s5, 62, u16_bytes(self.minor_revision_level));
        let s7 = splice(s6, 64, u32_bytes(self.last_check_time as u32));
        splice(s7, 68, u32_bytes(self.check_interval as u32))
    }

    /// The bytes `s` after the revision and the inode layout have been stored over bytes 72 to 90.
    #[verifier::opaque]
    pub open spec fn revision_written_over(self, s: Seq<u8>) -> Seq<u8> {
        let s1 = splice(s, 72, u32_bytes(self.creator_os));
        let s2 = splice(s1, 76, u32_bytes(self.revision_level));
        let s3 = splice(s2, 80, u16_bytes(self.default_reserved_uid));
        let s4 = splice(s3, 82, u16_bytes(self.default_reserved_gid));
        let s5 = splice(s4, 84, u32_bytes(self.first_usable_inode_index as u32));
        splice(s5, 88, u16_bytes(self.inode_size as u16))
    }

    /// The bytes `s` after the group index and the features have been stored over bytes 90 to 104.
    #[verifier::opaque]
    pub open spec fn features_written_over(self, s: Seq<u8>) -> Seq<u8> {
        let s1 = splice(s, 90, u16_bytes(self.block_group_index as u16));
        let s2 = splice(s1, 92, u32_bytes(self.features_compat));
        let s3 = splice(s2, 96, u32_bytes(self.features_incompat));
        splice(s3, 100, u32_bytes(self.features_ro_compat))
    }

    /// The bytes `s` after the fields have been stored over their places, and
    /// the magic number with them.
    pub open spec fn written_over(self, s: Seq<u8>) -> Seq<u8> {
        self.features_written_over(
            self.revision_written_over(
                self.state_written_over(self.groups_written_over(self.counts_written_over(s))),
            ),
        )
    }

    /// The encoding of the fields alone.
    pub open spec fn encoded(self) -> Seq<u8> {
        self.written_over(zero_bytes(SUPERBLOCK_FIELDS_SIZE as nat))
    }

    /// The block size in bytes, as a mathematical integer.
    pub open spec fn spec_block_size(self) -> nat {
        1024 * pow2(self.log_block_size as nat)
    }

    /// Whether superblock copies live only in some block groups.
    pub open spec fn spec_sparse_super(self) -> bool {
        self.features_ro_compat & FEATURE_RO_COMPAT_SPARSE_SUPER != 0
    }

    /// Whether `superblock_data` can be parsed: see `valid_bytes`.
    pub fn bytes_are_valid(superblock_data: &[u8]) -> (valid: bool)
        ensures
            valid == Self::valid_bytes(superblock_data@),
    {
        superblock_data.len() >= SUPERBLOCK_FIELDS_SIZE && read_u16(superblock_data, 56)
            == SUPERBLOCK_MAGIC && read_u32(superblock_data, 24) == read_u32(superblock_data, 28)
            && read_u32(superblock_data, 32) == read_u32(superblock_data, 36)
    }

    /// Parses a superblock.
    pub fn of_bytes(superblock_data: &[u8]) -> (superblock: Superblock)
        requires
            Self::valid_bytes(superblock_data@),
        ensures
            superblock == Self::decode(superblock_data@),
            superblock.fits(),
    {
        assert(superblock_data.len() >= 104);
        let inodes_count = read_u32(superblock_data, 0) as u64;
        let blocks_count = read_u32(superblock_data, 4) as u64;
        let reserved_blocks_count = read_u32(superblock_data, 8) as u64;
        let free_blocks_count = read_u32(superblock_data, 12) as u64;
        let free_inodes_count = read_u32(superblock_data, 16) as u64;
        let first_data_block_block_index = read_u32(superblock_data, 20) as u64;
        let log_block_size = read_u32(superblock_data, 24);
        let block_count_per_block_group = read_u32(superblock_data, 32) as u64;
        let inode_count_per_block_group = read_u32(superblock_data, 40) as u64;
        let mount_time = read_u32(superblock_data, 44) as u64;
        let write_time = read_u32(superblock_data, 48) as u64;
        let mount_count = read_u16(superblock_data, 52);
        let max_mount_count = read_u16(superblock_data, 54);
        let state = read_u16(superblock_data, 58);
        let errors = read_u16(superblock_data, 60);
        let minor_revision_level = read_u16(superblock_data, 62);
        let last_check_time = read_u32(superblock_data, 64) as u64;
        let check_interval = read_u32(superblock_data, 68) as u64;
        let creator_os = read_u32(superblock_data, 72);
        let revision_level = read_u32(superblock_data, 76);
        let default_reserved_uid = read_u16(superblock_data, 80);
        let default_reserved_gid = read_u16(superblock_data, 82);
        let first_usable_inode_index = read_u32(superblock_data, 84) as u64;
        let inode_size = read_u16(superblock_data, 88) as u64;
        let block_group_index = read_u16(superblock_data, 90) as u64;
        let features_compat = read_u32(superblock_data, 92);
        let features_incompat = read_u32(superblock_data, 96);
        let features_ro_compat = read_u32(superblock_data, 100);
        Superblock {
            inodes_count,
            blocks_count,
            reserved_blocks_count,
            free_blocks_count,
            free_inodes_count,
            first_data_block_block_index,
            log_block_size,
            block_count_per_block_group,
            inode_count_per_block_group,
            mount_time,
            write_time,
            mount_count,
            max_mount_count,
            state,
            errors,
            minor_revision_level,
            last_check_time,
            check_interval,
            creator_os,
            revision_level,
            default_reserved_uid,
            default_reserved_gid,
            first_usable_inode_index,
            inode_size,
            block_group_index,
            features_compat,
            features_incompat,
            features_ro_compat,
        }
    }

    fn update_counts_bytes(self, superblock_data: &mut [u8])
        requires
            self.fits(),
            old(superblock_data)@.len() >= SUPERBLOCK_FIELDS_SIZE,
        ensures
            final(superblock_data)@ == self.counts_written_over(old(superblock_data)@),
            final(superblock_data)@.len() == old(superblock_data)@.len(),
    {
        reveal(Superblock::counts_written_over);
        assert(superblock_data.len() >= 104);
        write_u32(superblock_data, 0, self.inodes_count as u32);
        write_u32(superblock_data, 4, self.blocks_count as u32);
        write_u32(superblock_data, 8, self.reserved_blocks_count as u32);
        write_u32(superblock_data, 12, self.free_blocks_count as u32);
        write_u32(superblock_data, 16, self.free_inodes_count as u32);
        write_u32(superblock_data, 20, self.first_data_block_block_index as u32);
        write_u32(superblock_data, 24, self.log_block_size);
    }

    fn update_groups_bytes(self, superblock_data: &mut [u8])
        requires
            self.fits(),
            old(superblock_data)@.len() >= SUPERBLOCK_FIELDS_SIZE,
        ensures
            final(superblock_data)@ == self.groups_written_over(old(superblock_data)@),
            final(superblock_data)@.len() == old(superblock_data)@.len(),
    {
        reveal(Superblock::groups_written_over);
        assert(superblock_data.len() >= 104);
        write_u32(superblock_data, 28, self.log_block_size);
        write_u32(superblock_data, 32, self.block_count_per_block_group as u32);
        write_u32(superblock_data, 36, self.block_count_per_block_group as u32);
        write_u32(superblock_data, 40, self.inode_count_per_block_group as u32);
        write_u32(superblock_data, 44, self.mount_time as u32);
        write_u32(superblock_data, 48, self.write_time as u32);
    }

    fn update_state_bytes(self, superblock_data: &mut [u8])
        requires
            self.fits(),
            old(superblock_data)@.len() >= SUPERBLOCK_FIELDS_SIZE,
        ensures
            final(superblock_data)@ == self.state_written_over(old(superblock_data)@),
            final(superblock_data)@.len() == old(superblock_data)@.len(),
    {
        reveal(Superblock::state_written_over);
        assert(superblock_data.len() >= 104);
        write_u16(superblock_data, 52, self.mount_count);
        write_u16(superblock_data, 54, self.max_mount_count);
        write_u16(superblock_data, 56, SUPERBLOCK_MAGIC);
        write_u16(superblock_data, 58, self.state);
        write_u16(superblock_data, 60, self.errors);
        write_u16(superblock_data, 62, self.minor_revision_level);
        write_u32(superblock_data, 64, self.last_check_time as u32);
        write_u32(superblock_data, 68, self.check_interval as u32);
    }

    fn update_revision_bytes(self, superblock_data: &mut [u8])
        requires
            self.fits(),
            old(superblock_data)@.len() >= SUPERBLOCK_FIELDS_SIZE,
        ensures
            final(superblock_data)@ == self.revision_written_over(old(superblock_data)@),
            final(superblock_data)@.len() == old(superblock_data)@.len(),
    {
        reveal(Superblock::revision_written_over);
        assert(superblock_data.len() >= 104);
        write_u32(superblock_data, 72, self.creator_os);
        write_u32(superblock_data, 76, self.revision_level);
        write_u16(superblock_data, 80, self.default_reserved_uid);
        write_u16(superblock_data, 82, self.default_reserved_gid);
        write_u32(superblock_data, 84, self.first_usable_inode_index as u32);
        write_u16(superblock_data, 88, self.inode_size as u16);
    }

    fn update_features_bytes(self, superblock_data: &mut [u8])
        requires
            self.fits(),
            old(superblock_data)@.len() >= SUPERBLOCK_FIELDS_SIZE,
        ensures
            final(superblock_data)@ == self.features_written_over(old(superblock_data)@),
            final(superblock_data)@.len() == old(superblock_data)@.len(),
    {
        reveal(Superblock::features_written_over);
        assert(superblock_data.len() >= 104);
        write_u16(superblock_data, 90, self.block_group_index as u16);
        write_u32(superblock_data, 92, self.features_compat);
        write_u32(superblock_data, 96, self.features_incompat);
        write_u32(superblock_data, 100, self.features_ro_compat);
    }

    /// Stores the fields over the start of `superblock_data`, and the magic
    /// number with them; the bytes that no field covers stay as they were.
    pub fn update_bytes(self, superblock_data: &mut [u8])
        requires
            self.fits(),
            old(superblock_data)@.len() >= SUPERBLOCK_FIELDS_SIZE,
        ensures
            final(superblock_data)@ == self.written_over(old(superblock_data)@),
    {
        self.update_counts_bytes(superblock_data);
        self.update_groups_bytes(superblock_data);
        self.update_state_bytes(superblock_data);
        self.update_revision_bytes(superblock_data);
        self.update_features_bytes(superblock_data);
    }

    /// The block size in bytes.
    pub fn block_size(self) -> (size: u64)
        requires
            self.log_block_size <= MAX_SHIFT_LOG_BLOCK_SIZE,
        ensures
            size == self.spec_block_size(),
    {
        proof {
            vstd::arithmetic::power2::lemma_pow2_strictly_increases(self.log_block_size as nat, 54);
            vstd::arithmetic::power2::lemma2_to64_rest();
            vstd::bits::lemma_u64_shl_is_mul(1024, self.log_block_size as u64);
        }
        1024u64 << self.log_block_size
    }

    /// Whether superblock copies live only in some block groups.
    #[verifier::when_used_as_spec(spec_sparse_super)]
    pub fn sparse_super(self) -> (sparse: bool)
        ensures
            sparse == self.spec_sparse_super(),
    {
        self.features_ro_compat & FEATURE_RO_COMPAT_SPARSE_SUPER != 0
    }

    /// What storing the counts and the block size does: it touches bytes 0 to 28 alone, what it
    /// stores there does not depend on the buffer, and the fields are read back.
    proof fn lemma_counts(self, s: Seq<u8>, t: Seq<u8>)
        requires
            s.len() >= SUPERBLOCK_FIELDS_SIZE,
            t.len() >= SUPERBLOCK_FIELDS_SIZE,
        ensures
            self.counts_written_over(s).len() == s.len(),
            self.counts_written_over(t).len() == t.len(),
            forall|i: int|
                0 <= i < s.len() && !(0 <= i < 28) ==> #[trigger] self.counts_written_over(s)[i]
                    == s[i],
            forall|i: int|
                0 <= i < 28 ==> #[trigger] self.counts_written_over(s)[i]
                    == self.counts_written_over(t)[i],
            le_u32(self.counts_written_over(s), 0) == self.inodes_count as u32,
            le_u32(self.counts_written_over(s), 4) == self.blocks_count as u32,
            le_u32(self.counts_written_over(s), 8) == self.reserved_blocks_count as u32,
            le_u32(self.counts_written_over(s), 12) == self.free_blocks_count as u32,
            le_u32(self.counts_written_over(s), 16) == self.free_inodes_count as u32,
            le_u32(self.counts_written_over(s), 20) == self.first_data_block_block_index as u32,
            le_u32(self.counts_written_over(s), 24) == self.log_block_size,
    {
        reveal(Superblock::counts_written_over);
        let w = self.counts_written_over(s);
        lemma_le_u32_at(w, 0, self.inodes_count as u32);
        lemma_le_u32_at(w, 4, self.blocks_count as u32);
        lemma_le_u32_at(w, 8, self.reserved_blocks_count as u32);
        lemma_le_u32_at(w, 12, self.free_blocks_count as u32);
        lemma_le_u32_at(w, 16, self.free_inodes_count as u32);
        lemma_le_u32_at(w, 20, self.first_data_block_block_index as u32);
        lemma_le_u32_at(w, 24, self.log_block_size);
    }

    /// What storing the sizes of a block group and the times does: it touches bytes 28 to 52 alone, what it
    /// stores there does not depend on the buffer, and the fields are read back.
    proof fn lemma_groups(self, s: Seq<u8>, t: Seq<u8>)
        requires
            s.len() >= SUPERBLOCK_FIELDS_SIZE,
            t.len() >= SUPERBLOCK_FIELDS_SIZE,
        ensures
            self.groups_written_over(s).len() == s.len(),
            self.groups_written_over(t).len() == t.len(),
            forall|i: int|
                0 <= i < s.len() && !(28 <= i < 52) ==> #[trigger] self.groups_written_over(s)[i]
                    == s[i],
            forall|i: int|
                28 <= i < 52 ==> #[trigger] self.groups_written_over(s)[i]
                    == self.groups_written_over(t)[i],
            le_u32(self.groups_written_over(s), 28) == self.log_block_size,
            le_u32(self.groups_written_over(s), 32) == self.block_count_per_block_group as u32,
            le_u32(self.groups_written_over(s), 36) == self.block_count_per_block_group as u32,
            le_u32(self.groups_written_over(s), 40) == self.inode_count_per_block_group as u32,
            le_u32(self.groups_written_over(s), 44) == self.mount_time as u32,
            le_u32(self.groups_written_over(s), 48) == self.write_time as u32,
    {
        reveal(Superblock::groups_written_over);
        let w = self.groups_written_over(s);
        lemma_le_u32_at(w, 28, self.log_block_size);
        lemma_le_u32_at(w, 32, self.block_count_per_block_group as u32);
        lemma_le_u32_at(w, 36, self.block_count_per_block_group as u32);
        lemma_le_u32_at(w, 40, self.inode_count_per_block_group as u32);
        lemma_le_u32_at(w, 44, self.mount_time as u32);
        lemma_le_u32_at(w, 48, self.write_time as u32);
    }

    /// What storing the mount state and the checks does: it touches bytes 52 to 72 alone, what it
    /// stores there does not depend on the buffer, and the fields are read back.
    proof fn lemma_state(self, s: Seq<u8>, t: Seq<u8>)
        requires
            s.len() >= SUPERBLOCK_FIELDS_SIZE,
            t.len() >= SUPERBLOCK_FIELDS_SIZE,
        ensures
            self.state_written_over(s).len() == s.len(),
            self.state_written_over(t).len() == t.len(),
            forall|i: int|
                0 <= i < s.len() && !(52 <= i < 72) ==> #[trigger] self.state_written_over(s)[i]
                    == s[i],
            forall|i: int|
                52 <= i < 72 ==> #[trigger] self.state_written_over(s)[i]
                    == self.state_written_over(t)[i],
            le_u16(self.state_written_over(s), 52) == self.mount_count,
            le_u16(self.state_written_over(s), 54) == self.max_mount_count,
            le_u16(self.state_written_over(s), 56) == SUPERBLOCK_MAGIC,
            le_u16(self.state_written_over(s), 58) == self.state,
            le_u16(self.state_written_over(s), 60) == self.errors,
            le_u16(self.state_written_over(s), 62) == self.minor_revision_level,
            le_u32(self.state_written_over(s), 64) == self.last_check_time as u32,
            le_u32(self.state_written_over(s), 68) == self.check_interval as u32,
    {
        reveal(Superblock::state_written_over);
        let w = self.state_written_over(s);
        lemma_le_u16_at(w, 52, self.mount_count);
        lemma_le_u16_at(w, 54, self.max_mount_count);
        lemma_le_u16_at(w, 56, SUPERBLOCK_MAGIC);
        lemma_le_u16_at(w, 58, self.state);
        lemma_le_u16_at(w, 60, self.errors);
        lemma_le_u16_at(w, 62, self.minor_revision_level);
        lemma_le_u32_at(w, 64, self.last_check_time as u32);
        lemma_le_u32_at(w, 68, self.check_interval as u32);
    }

    /// What storing the revision and the inode layout does: it touches bytes 72 to 90 alone, what it
    /// stores there does not depend on the buffer, and the fields are read back.
    proof fn lemma_revision(self, s: Seq<u8>, t: Seq<u8>)
        requires
            s.len() >= SUPERBLOCK_FIELDS_SIZE,
            t.len() >= SUPERBLOCK_FIELDS_SIZE,
        ensures
            self.revision_written_over(s).len() == s.len(),
            self.revision_written_over(t).len() == t.len(),
            forall|i: int|
                0 <= i < s.len() && !(72 <= i < 90) ==> #[trigger] self.revision_written_over(s)[i]
                    == s[i],
            forall|i: int|
                72 <= i < 90 ==> #[trigger] self.revision_written_over(s)[i]
                    == self.revision_written_over(t)[i],
            le_u32(self.revision_written_over(s), 72) == self.creator_os,
            le_u32(self.revision_written_over(s), 76) == self.revision_level,
            le_u16(self.revision_written_over(s), 80) == self.default_reserved_uid,
            le_u16(self.revision_written_over(s), 82) == self.default_reserved_gid,
            le_u32(self.revision_written_over(s), 84) == self.first_usable_inode_index as u32,
            le_u16(self.revision_written_over(s), 88) == self.inode_size as u16,
    {
        reveal(Superblock::revision_written_over);
        let w = self.revision_written_over(s);
        lemma_le_u32_at(w, 72, self.creator_os);
        lemma_le_u32_at(w, 76, self.revision_level);
        lemma_le_u16_at(w, 80, self.default_reserved_uid);
        lemma_le_u16_at(w, 82, self.default_reserved_gid);
        lemma_le_u32_at(w, 84, self.first_usable_inode_index as u32);
        lemma_le_u16_at(w, 88, self.inode_size as u16);
    }

    /// What storing the group index and the features does: it touches bytes 90 to 104 alone, what it
    /// stores there does not depend on the buffer, and the fields are read back.
    proof fn lemma_features(self, s: Seq<u8>, t: Seq<u8>)
        requires
            s.len() >= SUPERBLOCK_FIELDS_SIZE,
            t.len() >= SUPERBLOCK_FIELDS_SIZE,
        ensures
            self.features_written_over(s).len() == s.len(),
            self.features_written_over(t).len() == t.len(),
            forall|i: int|
                0 <= i < s.len() && !(90 <= i < 104) ==> #[trigger] self.features_written_over(s)[i]
                    == s[i],
            forall|i: int|
                90 <= i < 104 ==> #[trigger] self.features_written_over(s)[i]
                    == self.features_written_over(t)[i],
            le_u16(self.features_written_over(s), 90) == self.block_group_index as u16,
            le_u32(self.features_written_over(s), 92) == self.features_compat,
            le_u32(self.features_written_over(s), 96) == self.features_incompat,
            le_u32(self.features_written_over(s), 100) == self.features_ro_compat,
    {
        reveal(Superblock::features_written_over);
        let w = self.features_written_over(s);
        lemma_le_u16_at(w, 90, self.block_group_index as u16);
        lemma_le_u32_at(w, 92, self.features_compat);
        lemma_le_u32_at(w, 96, self.features_incompat);
        lemma_le_u32_at(w, 100, self.features_ro_compat);
    }

    /// The facts of the five parts, each about the buffer it is given when the
    /// whole superblock is stored over `s`, and over `t`.
    proof fn lemma_parts(self, s: Seq<u8>, t: Seq<u8>)
        requires
            s.len() >= SUPERBLOCK_FIELDS_SIZE,
            t.len() >= SUPERBLOCK_FIELDS_SIZE,
        ensures
            self.written_over(s).len() == s.len(),
            forall|i: int|
                SUPERBLOCK_FIELDS_SIZE <= i < s.len() ==> #[trigger] self.written_over(s)[i]
                    == s[i],
            forall|i: int|
                0 <= i < SUPERBLOCK_FIELDS_SIZE ==> #[trigger] self.written_over(s)[i]
                    == self.written_over(t)[i],
            self.fits() ==> Self::decode(self.written_over(s)) == self,
            Self::valid_bytes(self.written_over(s)),
    {
        let s1 = self.counts_written_over(s);
        let s2 = self.groups_written_over(s1);
        let s3 = self.state_written_over(s2);
        let s4 = self.revision_written_over(s3);
        let s5 = self.features_written_over(s4);
        let t1 = self.counts_written_over(t);
        let t2 = self.groups_written_over(t1);
        let t3 = self.state_written_over(t2);
        let t4 = self.revision_written_over(t3);
        let t5 = self.features_written_over(t4);
        self.lemma_counts(s, t);
        self.lemma_counts(t, s);
        self.lemma_groups(s1, t1);
        self.lemma_groups(t1, s1);
        self.lemma_state(s2, t2);
        self.lemma_state(t2, s2);
        self.lemma_revision(s3, t3);
        self.lemma_revision(t3, s3);
        self.lemma_features(s4, t4);
        self.lemma_features(t4, s4);
        assert forall|i: int| 0 <= i < SUPERBLOCK_FIELDS_SIZE implies #[trigger] s5[i] == t5[i] by {
            if i < 28 {
                assert(s5[i] == s4[i] && s4[i] == s3[i] && s3[i] == s2[i] && s2[i] == s1[i]);
                assert(t5[i] == t4[i] && t4[i] == t3[i] && t3[i] == t2[i] && t2[i] == t1[i]);
            } else if i < 52 {
                assert(s5[i] == s4[i] && s4[i] == s3[i] && s3[i] == s2[i]);
                assert(t5[i] == t4[i] && t4[i] == t3[i] && t3[i] == t2[i]);
            } else if i < 72 {
                assert(s5[i] == s4[i] && s4[i] == s3[i]);
                assert(t5[i] == t4[i] && t4[i] == t3[i]);
            } else if i < 90 {
                assert(s5[i] == s4[i]);
                assert(t5[i] == t4[i]);
            }
        }
        assert forall|i: int| SUPERBLOCK_FIELDS_SIZE <= i < s.len() implies #[trigger] s5[i]
            == s[i] by {
            assert(s5[i] == s4[i] && s4[i] == s3[i] && s3[i] == s2[i] && s2[i] == s1[i]);
        }
        assert forall|i: int| 0 <= i < 28 implies #[trigger] s5[i] == s1[i] by {
            assert(s5[i] == s4[i] && s4[i] == s3[i] && s3[i] == s2[i] && s2[i] == s1[i]);
        }
        assert forall|i: int| 28 <= i < 52 implies #[trigger] s5[i] == s2[i] by {
            assert(s5[i] == s4[i] && s4[i] == s3[i] && s3[i] == s2[i]);
        }
        assert forall|i: int| 52 <= i < 72 implies #[trigger] s5[i] == s3[i] by {
            assert(s5[i] == s4[i] && s4[i] == s3[i]);
        }
        assert forall|i: int| 72 <= i < 90 implies #[trigger] s5[i] == s4[i] by {
            assert(s5[i] == s4[i]);
        }
    }

    /// Storing a superblock changes no length and no byte past its fields.
    pub proof fn lemma_written_over_frame(self, s: Seq<u8>)
        requires
            s.len() >= SUPERBLOCK_FIELDS_SIZE,
        ensures
            self.written_over(s).len() == s.len(),
            forall|i: int|
                SUPERBLOCK_FIELDS_SIZE <= i < s.len() ==> self.written_over(s)[i] == s[i],
    {
        self.lemma_parts(s, s);
    }

    /// Where the buffer is long enough, the stored fields do not depend on what
    /// the buffer held: they are the encoding.
    pub proof fn lemma_written_over_is_encoded(self, s: Seq<u8>)
        requires
            s.len() >= SUPERBLOCK_FIELDS_SIZE,
        ensures
            self.written_over(s).subrange(0, SUPERBLOCK_FIELDS_SIZE as int) == self.encoded(),
            self.encoded().len() == SUPERBLOCK_FIELDS_SIZE,
    {
        let z = zero_bytes(SUPERBLOCK_FIELDS_SIZE as nat);
        self.lemma_parts(s, z);
        self.lemma_parts(z, z);
        assert(self.written_over(s).subrange(0, SUPERBLOCK_FIELDS_SIZE as int) =~= self.encoded());
    }

    /// Round trip: a superblock whose fields fit their widths, stored over any
    /// buffer that is long enough, parses, and parses to itself.
    pub proof fn lemma_round_trip(self, s: Seq<u8>)
        requires
            self.fits(),
            s.len() >= SUPERBLOCK_FIELDS_SIZE,
        ensures
            Self::valid_bytes(self.written_over(s)),
            Self::decode(self.written_over(s)) == self,
    {
        self.lemma_parts(s, s);
    }

    /// Two copies of one superblock that differ in `block_group_index` alone
    /// are stored as the same bytes but for the two bytes of that field.
    pub proof fn lemma_copies_differ_in_index_only(self, other: Superblock, i: int)
        requires
            other == (Superblock { block_group_index: other.block_group_index, ..self }),
            0 <= i < SUPERBLOCK_FIELDS_SIZE,
            !(90 <= i < 92),
        ensures
            self.encoded()[i] == other.encoded()[i],
    {
        let z = zero_bytes(SUPERBLOCK_FIELDS_SIZE as nat);
        let s1 = self.counts_written_over(z);
        let s2 = self.groups_written_over(s1);
        let s3 = self.state_written_over(s2);
        let s4 = self.revision_written_over(s3);
        self.lemma_counts(z, z);
        self.lemma_groups(s1, s1);
        self.lemma_state(s2, s2);
        self.lemma_revision(s3, s3);
        self.lemma_features(s4, s4);
        other.lemma_features(s4, s4);
        assert(s1 == other.counts_written_over(z)) by {
            reveal(Superblock::counts_written_over);
        }
        assert(s2 == other.groups_written_over(s1)) by {
            reveal(Superblock::groups_written_over);
        }
        assert(s3 == other.state_written_over(s2)) by {
            reveal(Superblock::state_written_over);
        }
        assert(s4 == other.revision_written_over(s3)) by {
            reveal(Superblock::revision_written_over);
        }
        assert(self.features_written_over(s4)[i] == other.features_written_over(s4)[i]) by {
            reveal(Superblock::features_written_over);
        }
    }
}

} // verus!
