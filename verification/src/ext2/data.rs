//! Reading and writing the data blocks of a file through its inode.

use crate::bytes::{copy_into, is_all_zero, read_u32, write_u32, zeroed};
use crate::ext2::inode::Inode;
use crate::ext2::session::Session;
use crate::ext2::tree::{
    block_map_of, block_path, block_path_of, bytes_of, indices_bytes, max_file_blocks, path_fits,
};
use crate::ext2::volume::Volume;
use crate::fs::Error;
use crate::sector_storage::SectorStorage;
use core::ops::Range;
use vstd::prelude::*;
use vstd::slice::slice_to_vec;

verus! {

/// Every index of `table` fits the 32 bits it has on the device.
pub open spec fn indices_fit(table: Seq<u64>) -> bool {
    forall|i: int| 0 <= i < table.len() ==> table[i] <= u32::MAX
}

/// A byte that lies in block `block` of a file, when blocks have `block_size`
/// bytes, is found by division.
pub proof fn lemma_block_of_byte(block_size: int, block: int, byte: int)
    requires
        block_size > 0,
        block * block_size <= byte < block * block_size + block_size,
    ensures
        byte / block_size == block,
        byte % block_size == byte - block * block_size,
{
    assert(block_size * block == block * block_size) by (nonlinear_arith);
    vstd::arithmetic::div_mod::lemma_fundamental_div_mod_converse(
        byte,
        block_size,
        block,
        byte - block * block_size,
    );
}

/// A byte lies in the block that division gives.
pub proof fn lemma_byte_in_block(block_size: int, byte: int)
    requires
        block_size > 0,
        byte >= 0,
    ensures
        0 <= byte / block_size,
        (byte / block_size) * block_size <= byte < (byte / block_size) * block_size + block_size,
        byte % block_size == byte - (byte / block_size) * block_size,
{
    vstd::arithmetic::div_mod::lemma_fundamental_div_mod(byte, block_size);
    vstd::arithmetic::div_mod::lemma_mod_bound(byte, block_size);
    assert(block_size * (byte / block_size) == (byte / block_size) * block_size)
        by (nonlinear_arith);
    assert(0 <= byte / block_size) by (nonlinear_arith)
        requires
            byte == block_size * (byte / block_size) + byte % block_size,
            0 <= byte % block_size < block_size,
            byte >= 0,
    ;
}

impl<SS: SectorStorage> Session<SS> {
    /// Number of block indices that a block holds.
    pub fn block_indices_per_block(&self) -> (count: u64)
        requires
            self.wf(),
        ensures
            count == self@.indices_per_block(),
            256 <= count <= 0x20_0000,
            count * 4 == self@.block_size(),
    {
        self.block_size() / 4
    }

    /// The block indices that block `block_index` holds.
    pub fn read_block_indices(&self, block_index: u64) -> (block_indices: Vec<u64>)
        requires
            self.wf(),
            block_index < self@.block_count(),
        ensures
            block_indices@ == self@.block_indices(block_index as int),
            indices_fit(block_indices@),
    {
        let count = self.block_indices_per_block() as usize;
        let block_data = self.read_block(block_index);
        let mut block_indices: Vec<u64> = Vec::new();
        let mut i: usize = 0;
        while i < count
            invariant
                count * 4 == block_data@.len(),
                count <= 0x20_0000,
                count == self@.indices_per_block(),
                block_data@ == self@.block(block_index as int),
                i <= count,
                block_indices@ == self@.block_indices(block_index as int).subrange(0, i as int),
                indices_fit(block_indices@),
            decreases count - i,
        {
            let block_index_read = read_u32(block_data.as_slice(), 4 * i) as u64;
            block_indices.push(block_index_read);
            assert(block_indices@ =~= self@.block_indices(block_index as int).subrange(0, i + 1));
            i += 1;
        }
        assert(block_indices@ =~= self@.block_indices(block_index as int));
        block_indices
    }

    /// Stores `block_indices` as block `block_index`.
    pub fn write_block_indices(&mut self, block_index: u64, block_indices: &[u64])
        requires
            old(self).wf(),
            block_index < old(self)@.block_count(),
            block_indices@.len() == old(self)@.indices_per_block(),
            indices_fit(block_indices@),
        ensures
            final(self).wf(),
            final(self)@ == old(self)@.with_block(
                block_index as int,
                indices_bytes(block_indices@),
            ),
    {
        let count = self.block_indices_per_block() as usize;
        let mut block_data = zeroed(self.block_size() as usize);
        let mut i: usize = 0;
        while i < count
            invariant
                count == block_indices@.len(),
                count * 4 == block_data@.len(),
                count <= 0x20_0000,
                indices_fit(block_indices@),
                i <= count,
                forall|k: int| 0 <= k < 4 * i ==> block_data@[k] == indices_bytes(block_indices@)[k],
            decreases count - i,
        {
            let ghost before = block_data@;
            write_u32(block_data.as_mut_slice(), 4 * i, block_indices[i] as u32);
            assert forall|k: int| 0 <= k < 4 * (i + 1) implies block_data@[k] == indices_bytes(
                block_indices@,
            )[k] by {
                if k < 4 * i {
                    assert(block_data@[k] == before[k]);
                } else {
                    assert(k / 4 == i && k % 4 == k - 4 * i);
                }
            }
            i += 1;
        }
        assert(block_data@ =~= indices_bytes(block_indices@));
        self.write_block(block_index, block_data.as_slice());
    }

    /// The slots to follow to block `inode_block_index` of a file: first a
    /// slot of the inode's block map, then one slot in each indirect block on
    /// the way.
    pub fn inode_block_path(&self, inode_block_index: u64) -> (path: Vec<u64>)
        requires
            self.wf(),
            inode_block_index < max_file_blocks(self@.indices_per_block()),
        ensures
            path@ == block_path(self@.indices_per_block(), inode_block_index as int),
            path_fits(path@, 15, self@.indices_per_block()),
    {
        block_path_of(self.block_indices_per_block(), inode_block_index)
    }

    /// Block `inode_block_index` of the file of `inode`: zeros where the file
    /// has a hole there. It is `Corrupt` where a slot on the way names a block
    /// that is not on the device.
    pub fn inode_read_data_block(&self, inode: &Inode, inode_block_index: u64) -> (data: Result<
        Vec<u8>,
        Error,
    >)
        requires
            self.wf(),
            inode_block_index < max_file_blocks(self@.indices_per_block()),
        ensures
            bytes_of(data) == self@.data_block(*inode, inode_block_index as int),
            data matches Ok(d) ==> d@.len() == self@.block_size(),
    {
        let path = self.inode_block_path(inode_block_index);
        let block_count = self.block_count();
        let indices_per_block = self.block_indices_per_block();
        let mut data_block_indices = slice_to_vec(inode.data_block_map.as_slice());
        let mut level: usize = 0;
        assert(path@.subrange(0, path@.len() as int) =~= path@);
        loop
            invariant
                self.wf(),
                block_count == self@.block_count(),
                indices_per_block == self@.indices_per_block(),
                indices_per_block <= 0x20_0000,
                path_fits(path@, 15, self@.indices_per_block()),
                level < path@.len(),
                level == 0 ==> data_block_indices@.len() == 15,
                level > 0 ==> data_block_indices@.len() == self@.indices_per_block(),
                self@.resolve(data_block_indices@, path@.subrange(level as int, path@.len() as int))
                    == self@.data_block_index(*inode, inode_block_index as int),
                path@ == block_path(self@.indices_per_block(), inode_block_index as int),
            decreases path@.len() - level,
        {
            let ghost rest = path@.subrange(level as int, path@.len() as int);
            assert(rest[0] == path@[level as int]);
            assert(path@[level as int] < data_block_indices@.len());
            let data_block_index = data_block_indices[path[level] as usize];
            if data_block_index == 0 {
                return Ok(zeroed(self.block_size() as usize));
            }
            if data_block_index >= block_count {
                return Err(Error::Corrupt);
            }
            if level + 1 == path.len() {
                return Ok(self.read_block(data_block_index));
            }
            assert(rest.drop_first() =~= path@.subrange(level + 1, path@.len() as int));
            data_block_indices = self.read_block_indices(data_block_index);
            level += 1;
        }
    }

    /// Takes a free block and fills it with zeros.
    pub fn allocate_zeroed_block(&mut self) -> (block_index: Result<u64, Error>)
        requires
            old(self).wf(),
        ensures
            final(self).wf(),
            (final(self)@, block_index) == old(self)@.allocate_zeroed_block(),
            block_index matches Ok(index) ==> index < final(self)@.block_count(),
            final(self)@.constants() == old(self)@.constants(),
    {
        match self.allocate_block() {
            Ok(block_index) => {
                let zeros = zeroed(self.block_size() as usize);
                self.write_block(block_index, zeros.as_slice());
                Ok(block_index)
            },
            Err(error) => Err(error),
        }
    }

    /// Makes sure that slot `slot` of `data_block_indices` names a block: see
    /// `Volume::link`.
    fn link(
        &mut self,
        data_block_indices: &mut Vec<u64>,
        holder: Option<u64>,
        slot: usize,
    ) -> (linked: Result<u64, Error>)
        requires
            old(self).wf(),
            slot < old(data_block_indices)@.len(),
            indices_fit(old(data_block_indices)@),
            holder matches Some(block_index) ==> block_index < old(self)@.block_count() && old(
                data_block_indices,
            )@.len() == old(self)@.indices_per_block(),
        ensures
            final(self).wf(),
            (final(self)@, final(data_block_indices)@, linked) == old(self)@.link(
                old(data_block_indices)@,
                holder,
                slot as int,
            ),
            final(data_block_indices)@.len() == old(data_block_indices)@.len(),
            indices_fit(final(data_block_indices)@),
            linked matches Ok(block_index) ==> final(data_block_indices)@[slot as int]
                == block_index,
            final(self)@.constants() == old(self)@.constants(),
    {
        if data_block_indices[slot] != 0 {
            return Ok(data_block_indices[slot]);
        }
        let block_count = self.block_count();
        match self.allocate_zeroed_block() {
            Ok(block_index) => {
                data_block_indices[slot] = block_index;
                match holder {
                    Some(holder_index) => {
                        self.write_block_indices(holder_index, data_block_indices.as_slice());
                    },
                    None => {},
                }
                Ok(block_index)
            },
            Err(error) => Err(error),
        }
    }

    /// Gives the block in slot `slot` of `data_block_indices` back where it
    /// holds zeros alone: see `Volume::reclaim`.
    fn reclaim(
        &mut self,
        data_block_indices: &mut Vec<u64>,
        holder: Option<u64>,
        slot: usize,
    ) -> (reclaimed: Result<(), Error>)
        requires
            old(self).wf(),
            slot < old(data_block_indices)@.len(),
            old(data_block_indices)@[slot as int] < old(self)@.block_count(),
            indices_fit(old(data_block_indices)@),
            holder matches Some(block_index) ==> block_index < old(self)@.block_count() && old(
                data_block_indices,
            )@.len() == old(self)@.indices_per_block(),
        ensures
            final(self).wf(),
            (final(self)@, final(data_block_indices)@, reclaimed) == old(self)@.reclaim(
                old(data_block_indices)@,
                holder,
                slot as int,
            ),
            final(data_block_indices)@.len() == old(data_block_indices)@.len(),
            indices_fit(final(data_block_indices)@),
            final(self)@.constants() == old(self)@.constants(),
    {
        let data_block_index = data_block_indices[slot];
        let block_data = self.read_block(data_block_index);
        if !is_all_zero(block_data.as_slice()) {
            return Ok(());
        }
        match self.free_block(data_block_index) {
            Ok(()) => {
                data_block_indices[slot] = 0;
                match holder {
                    Some(holder_index) => {
                        self.write_block_indices(holder_index, data_block_indices.as_slice());
                    },
                    None => {},
                }
                Ok(())
            },
            Err(error) => Err(error),
        }
    }

    /// Writes `data_block_data` as the block that the slots of `path` lead to,
    /// from the table `data_block_indices` on, which is kept in `holder`: see
    /// `Volume::write_at`.
    fn write_at(
        &mut self,
        data_block_indices: &mut Vec<u64>,
        holder: Option<u64>,
        path: &[u64],
        data_block_data: &[u8],
    ) -> (written: Result<(), Error>)
        requires
            old(self).wf(),
            path_fits(
                path@,
                old(data_block_indices)@.len() as int,
                old(self)@.indices_per_block(),
            ),
            indices_fit(old(data_block_indices)@),
            holder matches Some(block_index) ==> block_index < old(self)@.block_count() && old(
                data_block_indices,
            )@.len() == old(self)@.indices_per_block(),
            data_block_data@.len() == old(self)@.block_size(),
        ensures
            final(self).wf(),
            (final(self)@, final(data_block_indices)@, written) == old(self)@.write_at(
                old(data_block_indices)@,
                holder,
                path@,
                data_block_data@,
            ),
            final(data_block_indices)@.len() == old(data_block_indices)@.len(),
            indices_fit(final(data_block_indices)@),
            final(self)@.constants() == old(self)@.constants(),
        decreases path@.len(),
    {
        let indices_per_block = self.block_indices_per_block();
        assert(path@[0] < data_block_indices@.len());
        assert(data_block_indices.len() == data_block_indices@.len());
        let slot = path[0] as usize;
        let data_block_index = match self.link(data_block_indices, holder, slot) {
            Ok(data_block_index) => data_block_index,
            Err(error) => {
                return Err(error);
            },
        };
        if data_block_index >= self.block_count() {
            return Err(Error::Corrupt);
        }
        if path.len() == 1 {
            self.write_block(data_block_index, data_block_data);
        } else {
            let mut child_indices = self.read_block_indices(data_block_index);
            let rest = &path[1..path.len()];
            assert(rest@ =~= path@.drop_first());
            assert(path_fits(rest@, child_indices@.len() as int, self@.indices_per_block())) by {
                assert forall|i: int| 1 <= i < rest@.len() implies rest@[i]
                    < self@.indices_per_block() by {
                    assert(rest@[i] == path@[i + 1]);
                }
                assert(rest@[0] == path@[1]);
            }
            match self.write_at(&mut child_indices, Some(data_block_index), rest, data_block_data) {
                Ok(()) => {},
                Err(error) => {
                    return Err(error);
                },
            }
        }
        self.reclaim(data_block_indices, holder, slot)
    }

    /// Writes `data_block_data` as block `inode_block_index` of the file of
    /// `inode`, and keeps the block map of `inode` up to date; the inode is not
    /// stored. A slot on the way that holds 0 gets a fresh block of zeros; once
    /// the data is written, each block on the way back that holds zeros alone
    /// is given back, so that a block of zeros takes no room. See
    /// `Volume::write_data_block`.
    pub fn inode_write_data_block(
        &mut self,
        inode: &mut Inode,
        inode_block_index: u64,
        data_block_data: &[u8],
    ) -> (written: Result<(), Error>)
        requires
            old(self).wf(),
            old(inode).fits(),
            inode_block_index < max_file_blocks(old(self)@.indices_per_block()),
            data_block_data@.len() == old(self)@.block_size(),
        ensures
            final(self).wf(),
            final(inode).fits(),
            (final(self)@, *final(inode), written) == old(self)@.write_data_block(
                *old(inode),
                inode_block_index as int,
                data_block_data@,
            ),
            final(self)@.constants() == old(self)@.constants(),
    {
        let path = self.inode_block_path(inode_block_index);
        let mut data_block_indices = slice_to_vec(inode.data_block_map.as_slice());
        assert(indices_fit(data_block_indices@)) by {
            assert forall|i: int| 0 <= i < data_block_indices@.len() implies data_block_indices@[i]
                <= u32::MAX by {
                assert(inode.data_block_map[i] <= u32::MAX);
            }
        }
        let written = self.write_at(
            &mut data_block_indices,
            None,
            path.as_slice(),
            data_block_data,
        );
        inode.data_block_map = [
            data_block_indices[0],
            data_block_indices[1],
            data_block_indices[2],
            data_block_indices[3],
            data_block_indices[4],
            data_block_indices[5],
            data_block_indices[6],
            data_block_indices[7],
            data_block_indices[8],
            data_block_indices[9],
            data_block_indices[10],
            data_block_indices[11],
            data_block_indices[12],
            data_block_indices[13],
            data_block_indices[14],
        ];
        assert(inode.data_block_map =~= block_map_of(data_block_indices@));
        written
    }

    /// The bytes of the file of `inode` in `range`, holes read as zeros;
    /// `Corrupt` where one of the blocks that hold them cannot be reached.
    pub fn inode_read_data_range(&self, inode: &Inode, range: Range<u64>) -> (data: Result<
        Vec<u8>,
        Error,
    >)
        requires
            self.wf(),
            range.start <= range.end,
            range.end - range.start <= usize::MAX,
            range.end <= max_file_blocks(self@.indices_per_block()) * self@.block_size(),
        ensures
            bytes_of(data) == self@.file_bytes(*inode, range.start as int, range.end as int),
            data matches Ok(d) ==> d@.len() == range.end - range.start,
    {
        let block_size = self.block_size();
        let ghost volume = self@;
        let ghost start = range.start as int;
        let ghost bs = block_size as int;
        let mut data: Vec<u8> = Vec::new();
        let mut position = range.start;
        while position < range.end
            invariant
                self.wf(),
                self@ == volume,
                bs == volume.block_size(),
                bs == block_size,
                1024 <= bs <= 0x80_0000,
                start == range.start,
                range.start <= position <= range.end,
                range.end - range.start <= usize::MAX,
                range.end <= max_file_blocks(volume.indices_per_block()) * bs,
                data@.len() == position - start,
                forall|i: int|
                    0 <= i < position - start ==> data@[i] == (#[trigger] volume.data_block(
                        *inode,
                        (start + i) / bs,
                    ))->Ok_0[(start + i) % bs],
                forall|block: int|
                    volume.block_in_range(block, start, position as int) ==> (
                    #[trigger] volume.data_block(*inode, block)) is Ok,
            decreases range.end - position,
        {
            let inode_block_index = position / block_size;
            let offset = position % block_size;
            let count = if block_size - offset <= range.end - position {
                block_size - offset
            } else {
                range.end - position
            };
            proof {
                lemma_byte_in_block(bs, position as int);
                assert(inode_block_index < max_file_blocks(volume.indices_per_block()))
                    by (nonlinear_arith)
                    requires
                        inode_block_index * bs <= position,
                        position < max_file_blocks(volume.indices_per_block()) * bs,
                        bs > 0,
                ;
                lemma_block_of_byte(bs, inode_block_index as int, position + count - 1);
                if position > start {
                    lemma_byte_in_block(bs, position - 1);
                }
                lemma_byte_in_block(bs, start);
            }
            match self.inode_read_data_block(inode, inode_block_index) {
                Ok(block_data) => {
                    let ghost before = data@;
                    data.extend_from_slice(
                        &block_data[offset as usize..(offset + count) as usize],
                    );
                    proof {
                        assert forall|i: int| 0 <= i < position + count - start implies data@[i]
                            == (#[trigger] volume.data_block(*inode, (start + i) / bs))->Ok_0[(start
                            + i) % bs] by {
                            if i >= position - start {
                                lemma_block_of_byte(bs, inode_block_index as int, start + i);
                            } else {
                                assert(data@[i] == before[i]);
                            }
                        }
                        assert forall|block: int|
                            volume.block_in_range(
                                block,
                                start,
                                position + count,
                            ) implies (#[trigger] volume.data_block(*inode, block)) is Ok by {
                            if block != inode_block_index {
                                assert(volume.block_in_range(block, start, position as int)) by {
                                    assert(position > start) by {
                                        if position == start {
                                            assert(start / bs == inode_block_index);
                                        }
                                    }
                                    assert(block <= (position - 1) / bs) by {
                                        assert(block < inode_block_index);
                                        let q = (position - 1) / bs;
                                        if q < inode_block_index - 1 {
                                            assert((q + 1) * bs <= (inode_block_index
                                                - 1) * bs) by (nonlinear_arith)
                                                requires
                                                    q + 1 <= inode_block_index - 1,
                                                    bs > 0,
                                            ;
                                            assert((inode_block_index - 1) * bs + bs
                                                == inode_block_index * bs) by (nonlinear_arith);
                                            assert((q + 1) * bs == q * bs + bs)
                                                by (nonlinear_arith);
                                        }
                                    }
                                }
                            }
                        }
                    }
                },
                Err(error) => {
                    proof {
                        volume.lemma_resolve_error(
                            inode.data_block_map@,
                            block_path(volume.indices_per_block(), inode_block_index as int),
                        );
                        lemma_byte_in_block(bs, range.end - 1);
                        vstd::arithmetic::div_mod::lemma_div_is_ordered(
                            position as int,
                            range.end - 1,
                            bs,
                        );
                        vstd::arithmetic::div_mod::lemma_div_is_ordered(
                            start,
                            position as int,
                            bs,
                        );
                        assert(volume.block_in_range(
                            inode_block_index as int,
                            start,
                            range.end as int,
                        ));
                    }
                    return Err(error);
                },
            }
            position = position + count;
        }
        proof {
            assert(data@ =~= volume.file_bytes(*inode, start, range.end as int)->Ok_0);
        }
        Ok(data)
    }

    /// The bytes of the file of `inode`, from the first up to its size.
    pub fn inode_read_data(&self, inode: &Inode) -> (data: Result<Vec<u8>, Error>)
        requires
            self.wf(),
            inode.size <= usize::MAX,
            inode.size <= max_file_blocks(self@.indices_per_block()) * self@.block_size(),
        ensures
            bytes_of(data) == self@.file_bytes(*inode, 0, inode.size as int),
            data matches Ok(d) ==> d@.len() == inode.size,
    {
        self.inode_read_data_range(inode, 0..inode.size)
    }

    /// Writes `data` into the file of `inode` from byte `position` on, where
    /// `data` does not reach past the block of `position`: see
    /// `Volume::write_in_block`.
    fn inode_write_data_in_block(&mut self, inode: &mut Inode, position: u64, data: &[u8]) -> (written:
        Result<(), Error>)
        requires
            old(self).wf(),
            old(inode).fits(),
            position as int % old(self)@.block_size() + data@.len() <= old(self)@.block_size(),
            position < max_file_blocks(old(self)@.indices_per_block()) * old(self)@.block_size(),
        ensures
            final(self).wf(),
            final(inode).fits(),
            (final(self)@, *final(inode), written) == old(self)@.write_in_block(
                *old(inode),
                position as int,
                data@,
            ),
            final(self)@.constants() == old(self)@.constants(),
    {
        let block_size = self.block_size();
        let inode_block_index = position / block_size;
        let offset = position % block_size;
        proof {
            let bs = block_size as int;
            lemma_byte_in_block(bs, position as int);
            assert(inode_block_index < max_file_blocks(self@.indices_per_block()))
                by (nonlinear_arith)
                requires
                    inode_block_index * bs <= position,
                    position < max_file_blocks(self@.indices_per_block()) * bs,
                    bs > 0,
            ;
        }
        if data.len() == block_size as usize {
            self.inode_write_data_block(inode, inode_block_index, data)
        } else {
            match self.inode_read_data_block(inode, inode_block_index) {
                Ok(mut block_data) => {
                    copy_into(block_data.as_mut_slice(), offset as usize, data);
                    self.inode_write_data_block(inode, inode_block_index, block_data.as_slice())
                },
                Err(error) => Err(error),
            }
        }
    }

    /// Writes `data` into the file of `inode` over `range`, and keeps the
    /// block map of `inode` up to date; the inode is not stored. A block that
    /// `data` covers is replaced, a block that it covers in part is read,
    /// changed and written back. See `Volume::write_range`.
    pub fn inode_write_data_range(
        &mut self,
        inode: &mut Inode,
        range: Range<u64>,
        data: &[u8],
    ) -> (written: Result<(), Error>)
        requires
            old(self).wf(),
            old(inode).fits(),
            range.start <= range.end,
            data@.len() == range.end - range.start,
            range.end <= max_file_blocks(old(self)@.indices_per_block()) * old(
                self,
            )@.block_size(),
        ensures
            final(self).wf(),
            final(inode).fits(),
            (final(self)@, *final(inode), written) == old(self)@.write_range(
                *old(inode),
                range.start as int,
                data@,
            ),
            final(self)@.constants() == old(self)@.constants(),
    {
        let block_size = self.block_size();
        let ghost bs = block_size as int;
        let ghost volume_before = self@;
        let ghost goal = self@.write_range(*inode, range.start as int, data@);
        let length = data.len();
        let mut position = range.start;
        let mut done: usize = 0;
        assert(data@.subrange(0, length as int) =~= data@);
        while done < length
            invariant
                self.wf(),
                inode.fits(),
                bs == block_size,
                bs == self@.block_size(),
                1024 <= bs <= 0x80_0000,
                volume_before == old(self)@,
                goal == old(self)@.write_range(*old(inode), range.start as int, data@),
                self@.constants() == volume_before.constants(),
                length == data@.len(),
                length == range.end - range.start,
                done <= length,
                position == range.start + done,
                range.end <= max_file_blocks(self@.indices_per_block()) * bs,
                self@.write_range(*inode, position as int, data@.subrange(done as int, length as int))
                    == goal,
            decreases length - done,
        {
            let ghost rest = data@.subrange(done as int, length as int);
            let room = block_size - position % block_size;
            let count = if room <= (length - done) as u64 {
                room as usize
            } else {
                length - done
            };
            proof {
                assert(count == self@.len_in_block(position as int, rest.len() as int));
                assert(rest.subrange(0, count as int) =~= data@.subrange(
                    done as int,
                    done + count,
                ));
                assert(rest.subrange(count as int, rest.len() as int) =~= data@.subrange(
                    done + count,
                    length as int,
                ));
            }
            match self.inode_write_data_in_block(inode, position, &data[done..done + count]) {
                Ok(()) => {},
                Err(error) => {
                    return Err(error);
                },
            }
            position = position + count as u64;
            done = done + count;
        }
        assert(data@.subrange(length as int, length as int).len() == 0);
        Ok(())
    }

    /// Writes `data` as the whole content of the file of `inode`, which has
    /// as many bytes as the file.
    pub fn inode_write_data(&mut self, inode: &mut Inode, data: &[u8]) -> (written: Result<
        (),
        Error,
    >)
        requires
            old(self).wf(),
            old(inode).fits(),
            data@.len() == old(inode).size,
            old(inode).size <= max_file_blocks(old(self)@.indices_per_block()) * old(
                self,
            )@.block_size(),
        ensures
            final(self).wf(),
            final(inode).fits(),
            (final(self)@, *final(inode), written) == old(self)@.write_range(*old(inode), 0, data@),
            final(self)@.constants() == old(self)@.constants(),
    {
        let size = inode.size;
        self.inode_write_data_range(inode, 0..size, data)
    }

    /// Sets the size of the file of `inode` to `new_size`; the inode is not
    /// stored. The bytes between the old size and the new one are written as
    /// zeros, whether the file grows or shrinks, so that what lies past the end
    /// of a file takes no room. See `Volume::resize`.
    pub fn inode_resize(&mut self, inode: &mut Inode, new_size: u64) -> (resized: Result<(), Error>)
        requires
            old(self).wf(),
            old(inode).fits(),
            new_size <= u32::MAX,
            new_size * old(self)@.block_size() / 512 <= u32::MAX,
        ensures
            final(self).wf(),
            final(inode).fits(),
            (final(self)@, *final(inode), resized) == old(self)@.resize(
                *old(inode),
                new_size as int,
            ),
            final(self)@.constants() == old(self)@.constants(),
    {
        let block_size = self.block_size();
        let indices_per_block = self.block_indices_per_block();
        let low = if inode.size <= new_size {
            inode.size
        } else {
            new_size
        };
        let high = if inode.size <= new_size {
            new_size
        } else {
            inode.size
        };
        proof {
            let n = indices_per_block as int;
            assert(high <= max_file_blocks(n) * block_size) by (nonlinear_arith)
                requires
                    high <= 0xffff_ffff,
                    n >= 256,
                    block_size >= 1024,
                    max_file_blocks(n) == 12 + n + n * n + n * n * n,
            ;
        }
        let zeros = zeroed((high - low) as usize);
        match self.inode_write_data_range(inode, low..high, zeros.as_slice()) {
            Ok(()) => {},
            Err(error) => {
                return Err(error);
            },
        }
        assert(new_size * block_size <= 0xffff_ffff * 0x80_0000) by (nonlinear_arith)
            requires
                new_size <= 0xffff_ffff,
                block_size <= 0x80_0000,
        ;
        inode.size = new_size;
        inode.sector_count = new_size * block_size / 512;
        Ok(())
    }
}

} // verus!
