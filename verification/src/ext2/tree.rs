//! How an inode names its data blocks: twelve direct entries, then a single,
//! a double and a triple indirect block.

use crate::bytes::{all_zero, le_u32, splice, u32_bytes, zero_bytes};
use crate::ext2::inode::Inode;
use crate::ext2::volume::Volume;
use crate::fs::Error;
use vstd::prelude::*;

verus! {

/// Number of direct entries in an inode's block map.
pub const DIRECT_BLOCK_COUNT: u64 = 12;

/// Number of blocks that a file can have when a block holds `n` indices.
pub open spec fn max_file_blocks(n: int) -> int {
    12 + n + n * n + n * n * n
}

/// The slots to follow to block `l` of a file, when a block holds `n`
/// indices: first a slot of the inode's block map, then one slot in each
/// indirect block on the way.
pub open spec fn block_path(n: int, l: int) -> Seq<u64> {
    if l < 12 {
        seq![l as u64]
    } else if l - 12 < n {
        seq![12u64, (l - 12) as u64]
    } else if l - 12 - n < n * n {
        seq![13u64, ((l - 12 - n) / n) as u64, ((l - 12 - n) % n) as u64]
    } else {
        let r = l - 12 - n - n * n;
        seq![14u64, (r / (n * n)) as u64, ((r / n) % n) as u64, (r % n) as u64]
    }
}

/// The first slot of `path` lies in a table of `first` entries, the others in
/// tables of `n`.
pub open spec fn path_fits(path: Seq<u64>, first: int, n: int) -> bool {
    &&& 1 <= path.len() <= 4
    &&& path[0] < first
    &&& forall|i: int| 1 <= i < path.len() ==> path[i] < n
}

/// The path to a block of a file stays inside the tables it goes through.
pub proof fn lemma_block_path_fits(n: int, l: int)
    requires
        256 <= n <= 0x20_0000,
        0 <= l < max_file_blocks(n),
    ensures
        path_fits(block_path(n, l), 15, n),
{
    if l < 12 {
    } else if l - 12 < n {
    } else if l - 12 - n < n * n {
        let r = l - 12 - n;
        vstd::arithmetic::div_mod::lemma_fundamental_div_mod(r, n);
        vstd::arithmetic::div_mod::lemma_mod_bound(r, n);
        assert(0 <= r / n < n) by (nonlinear_arith)
            requires
                r == n * (r / n) + r % n,
                0 <= r % n < n,
                0 <= r < n * n,
                n > 0,
        ;
    } else {
        let r = l - 12 - n - n * n;
        let nn = n * n;
        assert(nn > 0 && r < nn * n) by (nonlinear_arith)
            requires
                nn == n * n,
                n >= 256,
                r < n * n * n,
        ;
        vstd::arithmetic::div_mod::lemma_fundamental_div_mod(r, nn);
        vstd::arithmetic::div_mod::lemma_mod_bound(r, nn);
        assert(0 <= r / nn < n) by (nonlinear_arith)
            requires
                r == nn * (r / nn) + r % nn,
                0 <= r % nn < nn,
                0 <= r < nn * n,
                nn > 0,
        ;
        vstd::arithmetic::div_mod::lemma_mod_bound(r / n, n);
        vstd::arithmetic::div_mod::lemma_mod_bound(r, n);
    }
}

/// The slots to follow to block `inode_block_index` of a file, when a block
/// holds `indices_per_block` indices.
pub fn block_path_of(indices_per_block: u64, inode_block_index: u64) -> (path: Vec<u64>)
    requires
        256 <= indices_per_block <= 0x20_0000,
        inode_block_index < max_file_blocks(indices_per_block as int),
    ensures
        path@ == block_path(indices_per_block as int, inode_block_index as int),
        path_fits(path@, 15, indices_per_block as int),
{
    let n = indices_per_block;
    proof {
        lemma_block_path_fits(n as int, inode_block_index as int);
        assert(n * n <= 0x20_0000 * 0x20_0000 && n * n * n <= 0x20_0000 * 0x20_0000 * 0x20_0000)
            by (nonlinear_arith)
            requires
                n <= 0x20_0000,
        ;
    }
    let mut path: Vec<u64> = Vec::new();
    if inode_block_index < 12 {
        path.push(inode_block_index);
        assert(path@ =~= block_path(n as int, inode_block_index as int));
    } else {
        let single = inode_block_index - 12;
        if single < n {
            path.push(12);
            path.push(single);
            assert(path@ =~= block_path(n as int, inode_block_index as int));
        } else {
            let double = single - n;
            if double < n * n {
                path.push(13);
                path.push(double / n);
                path.push(double % n);
                assert(path@ =~= block_path(n as int, inode_block_index as int));
            } else {
                let triple = double - n * n;
                path.push(14);
                path.push(triple / (n * n));
                path.push(triple / n % n);
                path.push(triple % n);
                assert(path@ =~= block_path(n as int, inode_block_index as int));
            }
        }
    }
    path
}

/// The bytes of a block that holds the block indices `table`.
pub open spec fn indices_bytes(table: Seq<u64>) -> Seq<u8> {
    Seq::new(4 * table.len(), |i: int| u32_bytes(table[i / 4] as u32)[i % 4])
}

/// The result of an operation, with the bytes of a buffer in place of the
/// buffer.
pub open spec fn bytes_of(data: Result<Vec<u8>, Error>) -> Result<Seq<u8>, Error> {
    match data {
        Ok(data) => Ok(data@),
        Err(error) => Err(error),
    }
}

/// The block map `table` as an inode holds it.
pub open spec fn block_map_of(table: Seq<u64>) -> [u64; 15] {
    [
        table[0],
        table[1],
        table[2],
        table[3],
        table[4],
        table[5],
        table[6],
        table[7],
        table[8],
        table[9],
        table[10],
        table[11],
        table[12],
        table[13],
        table[14],
    ]
}

impl Volume {
    /// The block indices that block `block_index` holds.
    pub open spec fn block_indices(self, block_index: int) -> Seq<u64> {
        Seq::new(
            self.indices_per_block() as nat,
            |i: int| le_u32(self.block(block_index), 4 * i) as u64,
        )
    }

    /// The block that the slots of `path` lead to, from the table `table` on:
    /// 0 where a slot on the way holds 0, which stands for a hole in the file.
    /// It is `Corrupt` where a slot on the way names a block that is not on the
    /// device.
    pub open spec fn resolve(self, table: Seq<u64>, path: Seq<u64>) -> Result<u64, Error>
        decreases path.len(),
    {
        let pointer = table[path[0] as int];
        if pointer == 0 {
            Ok(0)
        } else if pointer >= self.block_count() {
            Err(Error::Corrupt)
        } else if path.len() <= 1 {
            Ok(pointer)
        } else {
            self.resolve(self.block_indices(pointer as int), path.drop_first())
        }
    }

    /// The block of the device that holds block `inode_block_index` of the
    /// file of `inode`; 0 for a hole.
    pub open spec fn data_block_index(self, inode: Inode, inode_block_index: int) -> Result<
        u64,
        Error,
    > {
        self.resolve(
            inode.data_block_map@,
            block_path(self.indices_per_block(), inode_block_index),
        )
    }

    /// Block `inode_block_index` of the file of `inode`: zeros for a hole.
    pub open spec fn data_block(self, inode: Inode, inode_block_index: int) -> Result<
        Seq<u8>,
        Error,
    > {
        match self.data_block_index(inode, inode_block_index) {
            Ok(pointer) => if pointer == 0 {
                Ok(zero_bytes(self.block_size() as nat))
            } else {
                Ok(self.block(pointer as int))
            },
            Err(error) => Err(error),
        }
    }

    /// Takes a free block and fills it with zeros.
    pub open spec fn allocate_zeroed_block(self) -> (Volume, Result<u64, Error>) {
        let taken = self.allocate_block();
        match taken.1 {
            Ok(block_index) => (
                taken.0.with_block(block_index as int, zero_bytes(self.block_size() as nat)),
                Ok(block_index),
            ),
            Err(error) => taken,
        }
    }

    /// The volume after the table `table` has been stored where it is kept:
    /// in the block `holder`, or, for the block map of an inode, nowhere on the
    /// device yet.
    pub open spec fn with_table(self, holder: Option<u64>, table: Seq<u64>) -> Volume {
        match holder {
            Some(block_index) => self.with_block(block_index as int, indices_bytes(table)),
            None => self,
        }
    }

    /// Gives the block in slot `slot` of `table` back where it holds zeros
    /// alone: the block is freed, the slot set to 0, and the table stored. The
    /// result is the volume and the table afterwards.
    pub open spec fn reclaim(self, table: Seq<u64>, holder: Option<u64>, slot: int) -> (
        Volume,
        Seq<u64>,
        Result<(), Error>,
    ) {
        if all_zero(self.block(table[slot] as int)) {
            let freed = self.free_block(table[slot] as int);
            match freed.1 {
                Ok(()) => (
                    freed.0.with_table(holder, table.update(slot, 0)),
                    table.update(slot, 0),
                    Ok(()),
                ),
                Err(error) => (freed.0, table, Err(error)),
            }
        } else {
            (self, table, Ok(()))
        }
    }

    /// Makes sure that slot `slot` of `table` names a block: where it holds 0,
    /// it gets a fresh block of zeros, and the table is stored. The result is
    /// the volume and the table afterwards, and the block that the slot names.
    pub open spec fn link(self, table: Seq<u64>, holder: Option<u64>, slot: int) -> (
        Volume,
        Seq<u64>,
        Result<u64, Error>,
    ) {
        if table[slot] == 0 {
            let taken = self.allocate_zeroed_block();
            match taken.1 {
                Ok(block_index) => (
                    taken.0.with_table(holder, table.update(slot, block_index)),
                    table.update(slot, block_index),
                    Ok(block_index),
                ),
                Err(error) => (taken.0, table, Err(error)),
            }
        } else {
            (self, table, Ok(table[slot]))
        }
    }

    /// Writes `data` as the block that the slots of `path` lead to, from the
    /// table `table` on, which is kept in `holder`. A slot on the way that
    /// holds 0 gets a fresh block of zeros (`link`). Once the data is written,
    /// each block on the way back that holds zeros alone is given back
    /// (`reclaim`). It is `Corrupt` where a slot on the way names a block that
    /// is not on the device. The result is the volume and the table
    /// afterwards; at the first step that fails the rest is left undone.
    pub open spec fn write_at(
        self,
        table: Seq<u64>,
        holder: Option<u64>,
        path: Seq<u64>,
        data: Seq<u8>,
    ) -> (Volume, Seq<u64>, Result<(), Error>)
        decreases path.len(),
    {
        let slot = path[0] as int;
        let linked = self.link(table, holder, slot);
        match linked.2 {
            Err(error) => (linked.0, linked.1, Err(error)),
            Ok(pointer) => if pointer >= linked.0.block_count() {
                (linked.0, linked.1, Err(Error::Corrupt))
            } else if path.len() <= 1 {
                linked.0.with_block(pointer as int, data).reclaim(linked.1, holder, slot)
            } else {
                let below = linked.0.write_at(
                    linked.0.block_indices(pointer as int),
                    Some(pointer),
                    path.drop_first(),
                    data,
                );
                match below.2 {
                    Ok(()) => below.0.reclaim(linked.1, holder, slot),
                    Err(error) => (below.0, linked.1, Err(error)),
                }
            },
        }
    }

    /// Writes `data` as block `inode_block_index` of the file of `inode`: see
    /// `write_at`. The result is the volume and the inode afterwards; the inode
    /// is not stored.
    pub open spec fn write_data_block(self, inode: Inode, inode_block_index: int, data: Seq<u8>) -> (
        Volume,
        Inode,
        Result<(), Error>,
    ) {
        let written = self.write_at(
            inode.data_block_map@,
            None,
            block_path(self.indices_per_block(), inode_block_index),
            data,
        );
        (written.0, Inode { data_block_map: block_map_of(written.1), ..inode }, written.2)
    }

    /// Block `inode_block_index` of a file holds some of the bytes from `start`
    /// up to `end`.
    pub open spec fn block_in_range(self, inode_block_index: int, start: int, end: int) -> bool {
        start < end && start / self.block_size() <= inode_block_index <= (end - 1)
            / self.block_size()
    }

    /// The bytes of the file of `inode` from `start` up to `end`, holes read
    /// as zeros. It is `Corrupt` where one of the blocks that hold them cannot
    /// be reached.
    pub open spec fn file_bytes(self, inode: Inode, start: int, end: int) -> Result<Seq<u8>, Error> {
        if exists|inode_block_index: int|
            self.block_in_range(inode_block_index, start, end) && (#[trigger] self.data_block(
                inode,
                inode_block_index,
            )) is Err {
            Err(Error::Corrupt)
        } else {
            Ok(
                Seq::new(
                    (end - start) as nat,
                    |i: int|
                        self.data_block(inode, (start + i) / self.block_size())->Ok_0[(start + i)
                            % self.block_size()],
                ),
            )
        }
    }

    /// Number of the bytes of a range that starts at byte `start` and has
    /// `len` bytes, which lie in the block of `start`.
    pub open spec fn len_in_block(self, start: int, len: int) -> int {
        let room = self.block_size() - start % self.block_size();
        if room <= len {
            room
        } else {
            len
        }
    }

    /// Writes `data` into the file of `inode` from byte `start` on, where
    /// `data` does not reach past the block of `start`: `data` replaces the
    /// block where it covers it, else the block is read, changed and written
    /// back (`write_data_block`). The result is the volume and the inode
    /// afterwards.
    pub open spec fn write_in_block(self, inode: Inode, start: int, data: Seq<u8>) -> (
        Volume,
        Inode,
        Result<(), Error>,
    ) {
        let inode_block_index = start / self.block_size();
        if data.len() == self.block_size() {
            self.write_data_block(inode, inode_block_index, data)
        } else {
            match self.data_block(inode, inode_block_index) {
                Ok(block_data) => self.write_data_block(
                    inode,
                    inode_block_index,
                    splice(block_data, start % self.block_size(), data),
                ),
                Err(error) => (self, inode, Err(error)),
            }
        }
    }

    /// Writes `data` into the file of `inode` from byte `start` on, block
    /// after block (`write_in_block`). The result is the volume and the inode
    /// afterwards; at the first block that fails the rest is left undone.
    pub open spec fn write_range(self, inode: Inode, start: int, data: Seq<u8>) -> (
        Volume,
        Inode,
        Result<(), Error>,
    )
        decreases data.len(),
    {
        let count = self.len_in_block(start, data.len() as int);
        if data.len() == 0 || count <= 0 {
            (self, inode, Ok(()))
        } else {
            let written = self.write_in_block(inode, start, data.subrange(0, count));
            match written.2 {
                Ok(()) => written.0.write_range(
                    written.1,
                    start + count,
                    data.subrange(count, data.len() as int),
                ),
                Err(error) => written,
            }
        }
    }

    /// Sets the size of the file of `inode` to `new_size`: the bytes between
    /// the old size and the new one are written as zeros, whether the file
    /// grows or shrinks, so that what lies past the end of a file takes no
    /// room; then the size is set, and the sector count to `new_size *
    /// block_size / 512`. The result is the volume and the inode afterwards;
    /// where writing fails the size is left as it was.
    pub open spec fn resize(self, inode: Inode, new_size: int) -> (Volume, Inode, Result<(), Error>) {
        let low = if inode.size <= new_size {
            inode.size as int
        } else {
            new_size
        };
        let high = if inode.size <= new_size {
            new_size
        } else {
            inode.size as int
        };
        let written = self.write_range(inode, low, zero_bytes((high - low) as nat));
        match written.2 {
            Ok(()) => (
                written.0,
                Inode {
                    size: new_size as u64,
                    sector_count: (new_size * self.block_size() / 512) as u64,
                    ..written.1
                },
                Ok(()),
            ),
            Err(error) => written,
        }
    }

    /// No block can be reached for any reason but that the volume is corrupt.
    pub proof fn lemma_resolve_error(self, table: Seq<u64>, path: Seq<u64>)
        ensures
            self.resolve(table, path) matches Err(error) ==> error == Error::Corrupt,
        decreases path.len(),
    {
        let pointer = table[path[0] as int];
        if pointer != 0 && pointer < self.block_count() && path.len() > 1 {
            self.lemma_resolve_error(self.block_indices(pointer as int), path.drop_first());
        }
    }
}

} // verus!
