//! The operations that a session offers on files and directories.

use crate::ext2::dir_entry::DIR_ENTRY_PREFERRED_SIZE;
use crate::ext2::inode::Inode;
use crate::ext2::session::Session;
use crate::ext2::tree::{bytes_of, max_file_blocks};
use crate::ext2::volume::Volume;
use crate::fs::{views, DirEntry, DirEntryView, Error, FileStat, FileType, Mode, ROOT_INODE_INDEX};
use crate::sector_storage::SectorStorage;
use core::ops::Range;
use vstd::prelude::*;

verus! {

/// The result of reading a directory, with the entries as mathematical values.
pub open spec fn entries_of(dir_entries: Result<Vec<DirEntry>, Error>) -> Result<
    Seq<DirEntryView>,
    Error,
> {
    match dir_entries {
        Ok(dir_entries) => Ok(views(dir_entries@)),
        Err(error) => Err(error),
    }
}

impl Volume {
    /// What `file_stat` tells of inode `inode_index`.
    pub open spec fn file_stat(self, inode_index: int) -> FileStat {
        let inode = self.inode(inode_index);
        FileStat {
            mode: inode.mode,
            uid: inode.uid,
            gid: inode.gid,
            links_count: inode.links_count,
            size: inode.size,
            access_time: inode.access_time,
            creation_time: inode.creation_time,
            modification_time: inode.modification_time,
        }
    }

    /// The largest size that a file can reach: the bytes of the blocks that
    /// an inode can name.
    pub open spec fn max_file_size(self) -> int {
        max_file_blocks(self.indices_per_block()) * self.block_size()
    }

    /// `size` and the sector count that goes with it fit the 32 bits that an
    /// inode has for each.
    pub open spec fn can_resize_to(self, size: int) -> bool {
        &&& 0 <= size <= u32::MAX
        &&& size * self.block_size() / 512 <= u32::MAX
    }

    /// The entries can be written, each as a record of 512 bytes, and the
    /// directory can have the size of their records.
    pub open spec fn can_store(self, dir_entries: Seq<DirEntryView>) -> bool {
        &&& forall|i: int| 0 <= i < dir_entries.len() ==> (#[trigger] dir_entries[i]).encodable()
        &&& self.can_resize_to(dir_entries.len() * DIR_ENTRY_PREFERRED_SIZE)
    }

    /// Takes a free inode and stores in it an inode that holds `mode` and
    /// nothing else.
    pub open spec fn create(self, mode: Mode) -> (Volume, Result<u64, Error>) {
        let taken = self.allocate_inode();
        match taken.1 {
            Ok(inode_index) => (
                taken.0.with_inode(inode_index as int, Inode::spec_empty(mode)),
                Ok(inode_index),
            ),
            Err(error) => taken,
        }
    }

    /// Stores inode `inode_index` with `links_count` as its link count.
    pub open spec fn set_links_count(self, inode_index: int, links_count: u16) -> Volume {
        self.with_inode(inode_index, Inode { links_count, ..self.inode(inode_index) })
    }

    /// Writes `data` into file `inode_index` from byte `start` on
    /// (`write_range`), then stores the inode. Where writing fails the inode is
    /// not stored.
    pub open spec fn write_file(self, inode_index: int, start: int, data: Seq<u8>) -> (
        Volume,
        Result<(), Error>,
    ) {
        let written = self.write_range(self.inode(inode_index), start, data);
        match written.2 {
            Ok(()) => (written.0.with_inode(inode_index, written.1), Ok(())),
            Err(error) => (written.0, Err(error)),
        }
    }

    /// Sets the size of file `inode_index` (`resize`), then stores the inode.
    /// Where writing fails the inode is not stored.
    pub open spec fn resize_file(self, inode_index: int, size: int) -> (Volume, Result<(), Error>) {
        let resized = self.resize(self.inode(inode_index), size);
        match resized.2 {
            Ok(()) => (resized.0.with_inode(inode_index, resized.1), Ok(())),
            Err(error) => (resized.0, Err(error)),
        }
    }

    /// The entries of directory `inode_index`: those that the records in the
    /// bytes of the file hold. It is `Corrupt` where the bytes cannot be
    /// reached, or are not made of records.
    pub open spec fn read_dir(self, inode_index: int) -> Result<Seq<DirEntryView>, Error> {
        let inode = self.inode(inode_index);
        match self.file_bytes(inode, 0, inode.size as int) {
            Ok(data) => if DirEntryView::stream_valid(data) {
                Ok(DirEntryView::decode_stream(data))
            } else {
                Err(Error::Corrupt)
            },
            Err(error) => Err(error),
        }
    }

    /// Stores `dir_entries` as directory `inode_index`: the file gets the
    /// size of their records (`resize`), the records are written
    /// (`write_range`), and the inode is stored. Where a step fails the inode
    /// is not stored.
    pub open spec fn write_dir(self, inode_index: int, dir_entries: Seq<DirEntryView>) -> (
        Volume,
        Result<(), Error>,
    ) {
        let data = DirEntryView::encode_stream(dir_entries);
        let inode = self.inode(inode_index);
        let resized = if inode.size == data.len() {
            (self, inode, Ok(()))
        } else {
            self.resize(inode, data.len() as int)
        };
        match resized.2 {
            Ok(()) => {
                let written = resized.0.write_range(resized.1, 0, data);
                match written.2 {
                    Ok(()) => (written.0.with_inode(inode_index, written.1), Ok(())),
                    Err(error) => (written.0, Err(error)),
                }
            },
            Err(error) => (resized.0, Err(error)),
        }
    }
}

impl<SS: SectorStorage> crate::fs::Session for Session<SS> {
    open spec fn ready(&self) -> bool {
        self.wf()
    }

    open spec fn has_inode(&self, inode_index: u64) -> bool {
        self@.inode_in_range(inode_index as int)
    }

    open spec fn max_file_size(&self) -> int {
        self@.max_file_size()
    }

    open spec fn can_resize_to(&self, size: u64) -> bool {
        self@.can_resize_to(size as int)
    }

    open spec fn can_store(&self, dir_entries: Seq<DirEntryView>) -> bool {
        self@.can_store(dir_entries)
    }

    fn root(&self) -> (inode_index: u64) {
        ROOT_INODE_INDEX
    }

    fn file_stat(&self, inode_index: u64) -> (file_stat: FileStat)
        ensures
            file_stat == self@.file_stat(inode_index as int),
    {
        let inode = self.read_inode(inode_index);
        FileStat {
            mode: inode.mode,
            uid: inode.uid,
            gid: inode.gid,
            links_count: inode.links_count,
            size: inode.size,
            access_time: inode.access_time,
            creation_time: inode.creation_time,
            modification_time: inode.modification_time,
        }
    }

    fn create(&mut self, file_type: FileType, permissions: u32) -> (inode_index: Result<u64, Error>)
        ensures
            (final(self)@, inode_index) == old(self)@.create(
                Mode { bits: permissions | file_type.mode_bits() },
            ),
            final(self)@.constants() == old(self)@.constants(),
    {
        let mode = Mode::from_file_type_and_permissions(permissions, file_type);
        proof {
            let type_bits = file_type.mode_bits();
            assert(permissions | type_bits <= 0xffff) by (bit_vector)
                requires
                    permissions <= 0xffff,
                    type_bits <= 0xffff,
            ;
        }
        match self.allocate_inode() {
            Ok(inode_index) => {
                let inode = Inode::empty(mode);
                self.update_inode(inode_index, &inode);
                Ok(inode_index)
            },
            Err(error) => Err(error),
        }
    }

    fn remove(&mut self, inode_index: u64) -> (removed: Result<(), Error>)
        ensures
            (final(self)@, removed) == old(self)@.free_inode(inode_index as int),
            final(self)@.constants() == old(self)@.constants(),
    {
        self.free_inode(inode_index)
    }

    fn set_links_count(&mut self, inode_index: u64, links_count: u16)
        ensures
            final(self)@ == old(self)@.set_links_count(inode_index as int, links_count),
            final(self)@.constants() == old(self)@.constants(),
    {
        let mut inode = self.read_inode(inode_index);
        inode.links_count = links_count;
        self.update_inode(inode_index, &inode);
    }

    fn read_regular_file_range(&self, inode_index: u64, range: Range<u64>) -> (data: Result<
        Vec<u8>,
        Error,
    >)
        ensures
            bytes_of(data) == self@.file_bytes(
                self@.inode(inode_index as int),
                range.start as int,
                range.end as int,
            ),
    {
        let inode = self.read_inode(inode_index);
        self.inode_read_data_range(&inode, range)
    }

    fn write_regular_file_range(
        &mut self,
        inode_index: u64,
        range: Range<u64>,
        data: &[u8],
    ) -> (written: Result<(), Error>)
        ensures
            (final(self)@, written) == old(self)@.write_file(
                inode_index as int,
                range.start as int,
                data@,
            ),
            final(self)@.constants() == old(self)@.constants(),
    {
        let mut inode = self.read_inode(inode_index);
        match self.inode_write_data_range(&mut inode, range, data) {
            Ok(()) => {
                self.update_inode(inode_index, &inode);
                Ok(())
            },
            Err(error) => Err(error),
        }
    }

    fn resize_regular_file(&mut self, inode_index: u64, size: u64) -> (resized: Result<(), Error>)
        ensures
            (final(self)@, resized) == old(self)@.resize_file(inode_index as int, size as int),
            final(self)@.constants() == old(self)@.constants(),
    {
        let mut inode = self.read_inode(inode_index);
        match self.inode_resize(&mut inode, size) {
            Ok(()) => {
                self.update_inode(inode_index, &inode);
                Ok(())
            },
            Err(error) => Err(error),
        }
    }

    fn read_dir(&self, inode_index: u64) -> (dir_entries: Result<Vec<DirEntry>, Error>)
        ensures
            entries_of(dir_entries) == self@.read_dir(inode_index as int),
    {
        let inode = self.read_inode(inode_index);
        proof {
            self.lemma_volume_wf();
            Self::lemma_size_in_reach(self@, inode.size as int);
        }
        match self.inode_read_data(&inode) {
            Ok(dir_entries_data) => {
                if DirEntry::many_bytes_are_valid(dir_entries_data.as_slice()) {
                    Ok(DirEntry::many_of_bytes(dir_entries_data.as_slice()))
                } else {
                    Err(Error::Corrupt)
                }
            },
            Err(error) => Err(error),
        }
    }

    fn write_dir(&mut self, inode_index: u64, dir_entries: &[DirEntry]) -> (written: Result<
        (),
        Error,
    >)
        ensures
            (final(self)@, written) == old(self)@.write_dir(
                inode_index as int,
                views(dir_entries@),
            ),
            final(self)@.constants() == old(self)@.constants(),
    {
        let mut inode = self.read_inode(inode_index);
        proof {
            self.lemma_volume_wf();
            assert forall|i: int| 0 <= i < dir_entries@.len() implies (
            #[trigger] dir_entries@[i])@.encodable() by {
                assert(views(dir_entries@)[i].encodable());
            }
            DirEntryView::lemma_stream_round_trip(views(dir_entries@));
            Self::lemma_size_in_reach(
                self@,
                dir_entries@.len() * DIR_ENTRY_PREFERRED_SIZE as int,
            );
        }
        let dir_entries_data = DirEntry::many_to_bytes(dir_entries);
        if inode.size != dir_entries_data.len() as u64 {
            match self.inode_resize(&mut inode, dir_entries_data.len() as u64) {
                Ok(()) => {},
                Err(error) => {
                    return Err(error);
                },
            }
        }
        match self.inode_write_data(&mut inode, dir_entries_data.as_slice()) {
            Ok(()) => {
                self.update_inode(inode_index, &inode);
                Ok(())
            },
            Err(error) => Err(error),
        }
    }
}

impl<SS: SectorStorage> Session<SS> {
    /// Whether `inode_index` names an inode of the volume.
    pub fn inode_exists(&self, inode_index: u64) -> (exists: bool)
        requires
            self.wf(),
        ensures
            exists == self@.inode_in_range(inode_index as int),
    {
        1 <= inode_index && inode_index <= self.inode_count()
    }

    /// Whether a range that ends at `end` lies within the largest size that a
    /// file can reach.
    pub fn range_fits(&self, end: u64) -> (fits: bool)
        requires
            self.wf(),
        ensures
            fits == (end <= self@.max_file_size()),
    {
        let n = self.block_indices_per_block() as u128;
        let block_size = self.block_size() as u128;
        assert(n * n <= 0x20_0000 * 0x20_0000 && n * n * n <= 0x20_0000 * 0x20_0000 * 0x20_0000
            && (12 + n + n * n + n * n * n) * block_size <= (12 + 0x20_0000 + 0x20_0000 * 0x20_0000
            + 0x20_0000 * 0x20_0000 * 0x20_0000) * 0x80_0000) by (nonlinear_arith)
            requires
                0 <= n <= 0x20_0000,
                0 <= block_size <= 0x80_0000,
        ;
        (end as u128) <= (12 + n + n * n + n * n * n) * block_size
    }

    /// Whether `size` can be recorded as the size of a file.
    pub fn size_fits(&self, size: u64) -> (fits: bool)
        requires
            self.wf(),
        ensures
            fits == self@.can_resize_to(size as int),
    {
        let block_size = self.block_size();
        if size > 0xffff_ffff {
            return false;
        }
        assert(size * block_size <= 0xffff_ffff * 0x80_0000) by (nonlinear_arith)
            requires
                size <= 0xffff_ffff,
                block_size <= 0x80_0000,
        ;
        size * block_size / 512 <= 0xffff_ffff
    }

    /// Whether `dir_entries` can be stored as a directory.
    pub fn entries_fit(&self, dir_entries: &[DirEntry]) -> (fit: bool)
        requires
            self.wf(),
        ensures
            fit == self@.can_store(views(dir_entries@)),
    {
        let count = dir_entries.len();
        if count > 0x7f_ffff || !self.size_fits(count as u64 * DIR_ENTRY_PREFERRED_SIZE) {
            proof {
                self.lemma_volume_wf();
                crate::ext2::volume::lemma_block_size_bounds(self@.superblock);
                if count > 0x7f_ffff {
                    assert(count * 512 * self@.block_size() / 512 > u32::MAX) by (nonlinear_arith)
                        requires
                            count > 0x7f_ffff,
                            self@.block_size() >= 1024,
                    ;
                }
            }
            return false;
        }
        let mut i: usize = 0;
        while i < count
            invariant
                i <= count,
                count == dir_entries@.len(),
                forall|k: int| 0 <= k < i ==> (#[trigger] views(dir_entries@)[k]).encodable(),
            decreases count - i,
        {
            if dir_entries[i].inode_index > 0xffff_ffff
                || dir_entries[i].name.as_str().as_bytes().len() > 255 {
                assert(!views(dir_entries@)[i as int].encodable());
                return false;
            }
            assert(views(dir_entries@)[i as int].encodable());
            i += 1;
        }
        true
    }

    /// A size that fits 32 bits is one that a file can reach.
    proof fn lemma_size_in_reach(volume: Volume, size: int)
        requires
            volume.superblock.log_block_size <= crate::ext2::volume::MAX_LOG_BLOCK_SIZE,
            size <= u32::MAX,
        ensures
            size <= volume.max_file_size(),
    {
        crate::ext2::volume::lemma_block_size_bounds(volume.superblock);
        let n = volume.indices_per_block();
        let bs = volume.block_size();
        assert(n >= 256);
        assert(size <= max_file_blocks(n) * bs) by (nonlinear_arith)
            requires
                size <= 0xffff_ffff,
                n >= 256,
                bs >= 1024,
                max_file_blocks(n) == 12 + n + n * n + n * n * n,
        ;
    }
}

} // verus!
