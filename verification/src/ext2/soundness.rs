//! Sound volumes: consistent volumes on which the blocks of every live
//! inode form a sound tree, and no block belongs to the files of two live
//! inodes. What the operations on files and inodes do to a sound volume.

use crate::ext2::file_laws::root_height;
use crate::ext2::inode::Inode;
use crate::ext2::volume::Volume;
use crate::fs::{DirEntryView, Error, Mode};
use vstd::prelude::*;

verus! {

impl Volume {
    /// Inode `inode_index` is live: an inode of the volume that the inode
    /// bitmap of its group marks as used.
    pub open spec fn live(self, inode_index: int) -> bool {
        self.inode_in_range(inode_index) && self.inode_marked(inode_index)
    }

    /// No block is a block of the files of both inodes.
    pub open spec fn files_apart(self, first: Inode, second: Inode) -> bool {
        forall|block_index: int| #[trigger]
            self.in_file(first, block_index) ==> !self.in_file(second, block_index)
    }

    /// The volume is sound: it is consistent, the blocks of the file of every
    /// live inode form a sound tree, and no block is a block of the files of
    /// two live inodes.
    pub open spec fn sound(self) -> bool {
        &&& self.consistent()
        &&& forall|inode_index: int| #[trigger]
            self.live(inode_index) ==> self.file_ok(self.inode(inode_index))
        &&& forall|first: int, second: int|
            first != second && #[trigger] self.live(first) && #[trigger] self.live(second)
                ==> self.files_apart(self.inode(first), self.inode(second))
    }

    /// The second volume is sound, and differs from the first in inode
    /// `inode_index` and in the file of that inode at most: every other inode
    /// is as live as it was; every other live inode is what it was, and its
    /// file holds what it held.
    pub open spec fn changed_in(self, after: Volume, inode_index: int) -> bool {
        &&& after.sound()
        &&& self.same_places(after)
        &&& forall|other: int|
            other != inode_index ==> #[trigger] after.live(other) == self.live(other)
        &&& forall|other: int|
            other != inode_index && self.live(other) ==> #[trigger] after.inode(other)
                == self.inode(other)
        &&& forall|other: int, position: int|
            other != inode_index && self.live(other) && 0 <= position < self.max_file_size()
                ==> #[trigger] after.file_byte(self.inode(other), position) == self.file_byte(
                self.inode(other),
                position,
            )
    }

    /// What work on the blocks of a file has done, when it has led from this
    /// volume and `inode` to the volume `after` and the inode `changed`: the
    /// volume is consistent, the inode fits its record, and the blocks of the
    /// file form a sound tree; no
    /// block in use outside the file has changed; the file is made of blocks
    /// that were in it or were free, and what is free was free or was in the
    /// file; the blocks that hold inodes are what they were.
    pub open spec fn file_changed(self, inode: Inode, after: Volume, changed: Inode) -> bool {
        &&& after.consistent()
        &&& self.same_places(after)
        &&& changed.fits()
        &&& after.file_ok(changed)
        &&& self.outside_file_kept(after, inode)
        &&& self.file_grown_from(after, inode, changed)
        &&& self.free_from(after, inode)
        &&& self.inode_blocks_kept(after)
    }

    /// Where the blocks that hold inodes are kept, every inode is what it
    /// was, and marked as it was.
    pub proof fn lemma_inodes_kept(self, after: Volume)
        requires
            self.wf(),
            self.same_places(after),
            self.inode_blocks_kept(after),
        ensures
            forall|inode_index: int|
                self.inode_in_range(inode_index) ==> #[trigger] after.inode(inode_index)
                    == self.inode(inode_index),
            forall|inode_index: int|
                self.inode_in_range(inode_index) ==> #[trigger] after.inode_marked(inode_index)
                    == self.inode_marked(inode_index),
            forall|inode_index: int| #[trigger] after.live(inode_index) == self.live(inode_index),
    {
        reveal(Volume::inode_blocks_kept);
        self.lemma_same_places(after);
        assert forall|inode_index: int| self.inode_in_range(inode_index) implies #[trigger] after.inode(
            inode_index,
        ) == self.inode(inode_index) by {
            self.lemma_inode_place(inode_index);
            assert(self.is_inode_block_of(
                self.group_of_inode(inode_index),
                self.inode_start(inode_index) / self.block_size(),
            ));
            self.lemma_inode_kept(after, inode_index);
        }
        assert forall|inode_index: int|
            self.inode_in_range(inode_index) implies #[trigger] after.inode_marked(inode_index)
            == self.inode_marked(inode_index) by {
            self.lemma_inode_place(inode_index);
            let group = self.group_of_inode(inode_index);
            assert(self.is_inode_block_of(
                group,
                self.descriptors[group].inode_bitmap_block_index as int,
            ));
            assert(after.descriptors[group].inode_bitmap_block_index
                == self.descriptors[group].inode_bitmap_block_index);
        }
    }

    /// Work on the blocks of a file keeps every file that has no block in
    /// common with it: the blocks of the other file form the same sound tree
    /// and hold what they held, and the two files still have no block in
    /// common.
    pub proof fn lemma_other_file_kept(self, inode: Inode, after: Volume, changed: Inode, other: Inode)
        requires
            self.wf(),
            self.file_changed(inode, after, changed),
            self.file_ok(other),
            self.files_apart(inode, other),
        ensures
            after.file_ok(other),
            forall|block_index: int|
                after.in_file(other, block_index) == self.in_file(other, block_index),
            forall|position: int|
                0 <= position < self.max_file_size() ==> #[trigger] after.file_byte(other, position)
                    == self.file_byte(other, position),
            after.files_apart(changed, other),
    {
        assert(self.file_blocks_kept(after, other)) by {
            assert forall|block_index: int| #[trigger]
                self.in_file(other, block_index) implies after.block(block_index) == self.block(
                block_index,
            ) && after.block_marked(block_index) by {
                self.lemma_file_blocks_marked(other, block_index);
                assert(self.block_in_use(block_index));
                if self.in_file(inode, block_index) {
                    assert(!self.in_file(other, block_index));
                }
            }
        }
        self.lemma_file_kept(after, other);
        assert forall|block_index: int| #[trigger]
            after.in_file(changed, block_index) implies !after.in_file(other, block_index) by {
            if after.in_file(other, block_index) {
                assert(self.in_file(other, block_index));
                self.lemma_file_blocks_marked(other, block_index);
                if self.in_file(inode, block_index) {
                    assert(!self.in_file(other, block_index));
                }
                assert(self.block_is_free(block_index));
            }
        }
    }

    /// Work on the blocks of a file, and then more work on them, is work on
    /// the blocks of the file.
    pub proof fn lemma_file_changed_twice(
        self,
        inode: Inode,
        middle: Volume,
        between: Inode,
        after: Volume,
        changed: Inode,
    )
        requires
            self.wf(),
            self.file_changed(inode, middle, between),
            middle.file_changed(between, after, changed),
        ensures
            self.file_changed(inode, after, changed),
    {
        self.lemma_same_places(middle);
        middle.lemma_same_places(after);
        self.lemma_inode_blocks_kept_through(middle, after);
        assert(self.same_places(after));
        assert forall|kept: int|
            #[trigger] self.block_in_use(kept) && !self.in_file(inode, kept) implies after.block(kept)
            == self.block(kept) && after.block_in_use(kept) by {
            assert(middle.block_in_use(kept));
            if middle.in_file(between, kept) {
                assert(self.block_is_free(kept));
            }
        }
        assert forall|block_index: int| #[trigger]
            after.in_file(changed, block_index) implies self.in_file(inode, block_index)
            || self.block_is_free(block_index) by {
            if middle.block_is_free(block_index) {
                assert(self.block_is_free(block_index) || self.in_file(inode, block_index));
            } else {
                assert(middle.in_file(between, block_index));
            }
        }
        assert forall|block_index: int| #[trigger]
            after.block_is_free(block_index) implies self.block_is_free(block_index)
            || self.in_file(inode, block_index) by {
            if middle.block_is_free(block_index) {
                assert(self.block_is_free(block_index) || self.in_file(inode, block_index));
            } else {
                assert(middle.in_file(between, block_index));
            }
        }
    }

    /// Storing the inode of a file after work on its blocks keeps another
    /// live inode and its file: see `lemma_file_changed_sound`.
    proof fn lemma_store_keeps_other(
        self,
        inode_index: int,
        middle: Volume,
        changed: Inode,
        stored: Inode,
        other: int,
    )
        requires
            self.sound(),
            self.live(inode_index),
            self.file_changed(self.inode(inode_index), middle, changed),
            stored.data_block_map == changed.data_block_map,
            self.live(other),
            other != inode_index,
        ensures
            ({
                let after = middle.with_inode(inode_index, stored);
                let kept = self.inode(other);
                &&& after.live(other)
                &&& after.inode(other) == kept
                &&& after.file_ok(kept)
                &&& forall|block_index: int|
                    after.in_file(kept, block_index) == self.in_file(kept, block_index)
                &&& forall|position: int|
                    0 <= position < self.max_file_size() ==> #[trigger] after.file_byte(
                        kept,
                        position,
                    ) == self.file_byte(kept, position)
                &&& after.files_apart(stored, kept)
                &&& after.files_apart(kept, stored)
            }),
    {
        let inode = self.inode(inode_index);
        let kept = self.inode(other);
        let after = middle.with_inode(inode_index, stored);
        self.lemma_same_places(middle);
        self.lemma_inodes_kept(middle);
        assert(self.files_apart(inode, kept));
        self.lemma_other_file_kept(inode, middle, changed, kept);
        middle.lemma_inode_store_keeps_blocks(inode_index, stored);
        middle.lemma_same_places(after);
        middle.lemma_with_inode_keeps_others(inode_index, stored, other);
        middle.lemma_file_blocks_kept(after, kept);
        middle.lemma_file_kept(after, kept);
        middle.lemma_file_blocks_kept(after, changed);
        middle.lemma_file_kept(after, changed);
        assert(middle.max_file_size() == self.max_file_size());
        assert(after.live(other)) by {
            assert(middle.inode_marked(other) == self.inode_marked(other));
        }
        assert forall|block_index: int|
            after.in_file(kept, block_index) == self.in_file(kept, block_index) by {
            assert(after.in_file(kept, block_index) == middle.in_file(kept, block_index));
        }
        assert forall|position: int|
            0 <= position < self.max_file_size() implies #[trigger] after.file_byte(
            kept,
            position,
        ) == self.file_byte(kept, position) by {
            assert(middle.file_byte(kept, position) == self.file_byte(kept, position));
        }
        assert forall|block_index: int|
            !(after.in_file(stored, block_index) && after.in_file(kept, block_index)) by {
            assert(after.in_file(stored, block_index) == after.in_file(changed, block_index));
            assert(after.in_file(changed, block_index) == middle.in_file(changed, block_index));
            assert(after.in_file(kept, block_index) == middle.in_file(kept, block_index));
            if middle.in_file(changed, block_index) {
                assert(!middle.in_file(kept, block_index));
            }
        }
    }

    /// Storing the inode of a file after work on its blocks keeps the inode
    /// live, and the blocks of its file a sound tree.
    proof fn lemma_store_keeps_file(
        self,
        inode_index: int,
        middle: Volume,
        changed: Inode,
        stored: Inode,
    )
        requires
            self.sound(),
            self.live(inode_index),
            self.file_changed(self.inode(inode_index), middle, changed),
            stored.data_block_map == changed.data_block_map,
            stored.fits(),
        ensures
            ({
                let after = middle.with_inode(inode_index, stored);
                &&& after.consistent()
                &&& self.same_places(after)
                &&& after.live(inode_index)
                &&& after.inode(inode_index) == stored
                &&& after.file_ok(stored)
                &&& forall|other: int|
                    other != inode_index ==> #[trigger] after.live(other) == self.live(other)
            }),
    {
        let after = middle.with_inode(inode_index, stored);
        self.lemma_same_places(middle);
        self.lemma_inodes_kept(middle);
        middle.lemma_inode_store_keeps_blocks(inode_index, stored);
        middle.lemma_same_places(after);
        middle.lemma_with_inode_read_back(inode_index, stored);
        middle.lemma_with_inode_keeps_others(inode_index, stored, inode_index);
        middle.lemma_file_blocks_kept(after, changed);
        middle.lemma_file_kept(after, changed);
        assert(after.file_ok(stored)) by {
            assert(after.file_ok(changed));
        }
        assert forall|other: int| other != inode_index implies #[trigger] after.live(other)
            == self.live(other) by {
            if self.inode_in_range(other) {
                middle.lemma_with_inode_keeps_others(inode_index, stored, other);
                assert(middle.inode_marked(other) == self.inode_marked(other));
            }
        }
    }

    /// Work on the blocks of the file of a live inode, and then storing the
    /// inode, keeps a sound volume sound, the inode live, and every other live
    /// inode and its file what they were.
    pub proof fn lemma_file_changed_sound(
        self,
        inode_index: int,
        middle: Volume,
        changed: Inode,
        stored: Inode,
    )
        requires
            self.sound(),
            self.live(inode_index),
            self.file_changed(self.inode(inode_index), middle, changed),
            stored.data_block_map == changed.data_block_map,
            stored.fits(),
        ensures
            self.changed_in(middle.with_inode(inode_index, stored), inode_index),
            middle.with_inode(inode_index, stored).live(inode_index),
            middle.with_inode(inode_index, stored).inode(inode_index) == stored,
    {
        let after = middle.with_inode(inode_index, stored);
        self.lemma_store_keeps_file(inode_index, middle, changed, stored);
        assert forall|other: int|
            other != inode_index && self.live(other) implies #[trigger] after.inode(other)
            == self.inode(other) by {
            self.lemma_store_keeps_other(inode_index, middle, changed, stored, other);
        }
        assert forall|other: int, position: int|
            other != inode_index && self.live(other) && 0 <= position
                < self.max_file_size() implies #[trigger] after.file_byte(
            self.inode(other),
            position,
        ) == self.file_byte(self.inode(other), position) by {
            self.lemma_store_keeps_other(inode_index, middle, changed, stored, other);
        }
        assert forall|other: int| #[trigger] after.live(other) implies after.file_ok(
            after.inode(other),
        ) by {
            if other != inode_index {
                self.lemma_store_keeps_other(inode_index, middle, changed, stored, other);
            }
        }
        assert forall|first: int, second: int|
            first != second && #[trigger] after.live(first) && #[trigger] after.live(
                second,
            ) implies after.files_apart(after.inode(first), after.inode(second)) by {
            if first == inode_index {
                self.lemma_store_keeps_other(inode_index, middle, changed, stored, second);
            } else if second == inode_index {
                self.lemma_store_keeps_other(inode_index, middle, changed, stored, first);
            } else {
                self.lemma_store_keeps_other(inode_index, middle, changed, stored, first);
                self.lemma_store_keeps_other(inode_index, middle, changed, stored, second);
                assert(self.files_apart(self.inode(first), self.inode(second)));
                assert forall|block_index: int| #[trigger]
                    after.in_file(self.inode(first), block_index) implies !after.in_file(
                    self.inode(second),
                    block_index,
                ) by {
                    assert(self.in_file(self.inode(first), block_index));
                }
            }
        }
    }

    /// Writing into the file of a live inode keeps a sound volume sound, and
    /// every other live inode and its file what they were; what was written is
    /// what is read.
    pub proof fn lemma_write_file_sound(self, inode_index: int, start: int, data: Seq<u8>)
        requires
            self.sound(),
            self.live(inode_index),
            0 <= start,
            start + data.len() <= self.max_file_size(),
            self.write_file(inode_index, start, data).1 is Ok,
        ensures
            ({
                let after = self.write_file(inode_index, start, data).0;
                &&& self.changed_in(after, inode_index)
                &&& after.live(inode_index)
                &&& after.file_bytes(after.inode(inode_index), start, start + data.len()) == Ok::<
                    Seq<u8>,
                    Error,
                >(data)
            }),
    {
        let inode = self.inode(inode_index);
        self.lemma_inode_fits(inode_index);
        self.lemma_write_range(inode, start, data);
        let written = self.write_range(inode, start, data);
        self.lemma_file_changed_sound(inode_index, written.0, written.1, written.1);
        self.lemma_write_file_read_back(inode_index, start, data);
    }

    /// Resizing the file of a live inode keeps a sound volume sound, and
    /// every other live inode and its file what they were; the file has its
    /// new size.
    pub proof fn lemma_resize_file_sound(self, inode_index: int, size: int)
        requires
            self.sound(),
            self.live(inode_index),
            self.can_resize_to(size),
            self.resize_file(inode_index, size).1 is Ok,
        ensures
            ({
                let after = self.resize_file(inode_index, size).0;
                &&& self.changed_in(after, inode_index)
                &&& after.live(inode_index)
                &&& after.inode(inode_index).size == size
            }),
    {
        let inode = self.inode(inode_index);
        self.lemma_inode_fits(inode_index);
        self.lemma_resize(inode, size);
        let resized = self.resize(inode, size);
        let changed = Inode { size: inode.size, sector_count: inode.sector_count, ..resized.1 };
        self.lemma_file_changed_sound(inode_index, resized.0, changed, resized.1);
    }

    /// The volume and the inode after the file of `inode` has been given the
    /// size `size`, where it had another.
    pub open spec fn sized(self, inode: Inode, size: int) -> (Volume, Inode, Result<(), Error>) {
        if inode.size == size {
            (self, inode, Ok(()))
        } else {
            self.resize(inode, size)
        }
    }

    /// Nothing done is work on the blocks of a file: see `file_changed`.
    pub proof fn lemma_file_unchanged(self, inode: Inode)
        requires
            self.consistent(),
            inode.fits(),
            self.file_ok(inode),
        ensures
            self.file_changed(inode, self, inode),
    {
        self.lemma_inode_blocks_kept_at_rest();
        assert(self.same_places(self));
        assert(self.outside_file_kept(self, inode));
        assert(self.file_grown_from(self, inode, inode));
        assert(self.free_from(self, inode));
    }

    /// Resizing a file is work on the blocks of the file: see `file_changed`.
    pub proof fn lemma_resize_changed(self, inode: Inode, size: int)
        requires
            self.consistent(),
            inode.fits(),
            self.file_ok(inode),
            self.can_resize_to(size),
            self.resize(inode, size).2 is Ok,
        ensures
            self.file_changed(inode, self.resize(inode, size).0, self.resize(inode, size).1),
            self.resize(inode, size).1.size == size,
    {
        self.lemma_resize(inode, size);
        let resized = self.resize(inode, size);
        let after = resized.0;
        let changed = Inode { size: inode.size, sector_count: inode.sector_count, ..resized.1 };
        assert(self.file_grown_from(after, inode, resized.1)) by {
            assert forall|block_index: int| #[trigger]
                after.in_file(resized.1, block_index) implies self.in_file(inode, block_index)
                || self.block_is_free(block_index) by {
                assert(after.in_file(changed, block_index));
            }
        }
    }

    /// Giving a file the size of `data` and writing `data` into it is work on
    /// the blocks of the file: see `file_changed`.
    pub proof fn lemma_sized_and_written(self, inode: Inode, data: Seq<u8>)
        requires
            self.consistent(),
            inode.fits(),
            self.file_ok(inode),
            self.can_resize_to(data.len() as int),
            self.sized(inode, data.len() as int).2 is Ok,
            self.sized(inode, data.len() as int).0.write_range(
                self.sized(inode, data.len() as int).1,
                0,
                data,
            ).2 is Ok,
        ensures
            ({
                let resized = self.sized(inode, data.len() as int);
                let written = resized.0.write_range(resized.1, 0, data);
                self.file_changed(inode, written.0, written.1)
            }),
    {
        self.lemma_size_in_reach(data.len() as int);
        let resized = self.sized(inode, data.len() as int);
        if inode.size != data.len() {
            self.lemma_resize_changed(inode, data.len() as int);
        } else {
            self.lemma_file_unchanged(inode);
        }
        self.lemma_same_places(resized.0);
        assert(resized.0.max_file_size() == self.max_file_size());
        resized.0.lemma_write_range(resized.1, 0, data);
        let written = resized.0.write_range(resized.1, 0, data);
        assert(resized.0.file_changed(resized.1, written.0, written.1));
        self.lemma_file_changed_twice(inode, resized.0, resized.1, written.0, written.1);
    }

    /// Storing the entries of a directory is work on the blocks of its file,
    /// and then storing its inode.
    pub proof fn lemma_write_dir_changed(self, inode_index: int, dir_entries: Seq<DirEntryView>)
        requires
            self.consistent(),
            self.inode_in_range(inode_index),
            self.file_ok(self.inode(inode_index)),
            self.can_store(dir_entries),
            self.write_dir(inode_index, dir_entries).1 is Ok,
        ensures
            ({
                let data = DirEntryView::encode_stream(dir_entries);
                let inode = self.inode(inode_index);
                let resized = self.sized(inode, data.len() as int);
                let written = resized.0.write_range(resized.1, 0, data);
                &&& self.file_changed(inode, written.0, written.1)
                &&& self.write_dir(inode_index, dir_entries).0 == written.0.with_inode(
                    inode_index,
                    written.1,
                )
            }),
    {
        let data = DirEntryView::encode_stream(dir_entries);
        let inode = self.inode(inode_index);
        DirEntryView::lemma_stream_round_trip(dir_entries);
        self.lemma_inode_fits(inode_index);
        self.lemma_sized_and_written(inode, data);
    }

    /// Storing the entries of a live directory keeps a sound volume sound,
    /// and every other live inode and its file what they were; the entries
    /// that were stored are the entries that are read.
    pub proof fn lemma_write_dir_sound(self, inode_index: int, dir_entries: Seq<DirEntryView>)
        requires
            self.sound(),
            self.live(inode_index),
            self.can_store(dir_entries),
            self.write_dir(inode_index, dir_entries).1 is Ok,
        ensures
            ({
                let after = self.write_dir(inode_index, dir_entries).0;
                &&& self.changed_in(after, inode_index)
                &&& after.live(inode_index)
                &&& after.read_dir(inode_index) == Ok::<Seq<DirEntryView>, Error>(dir_entries)
            }),
    {
        let data = DirEntryView::encode_stream(dir_entries);
        let inode = self.inode(inode_index);
        let resized = self.sized(inode, data.len() as int);
        let written = resized.0.write_range(resized.1, 0, data);
        self.lemma_write_dir_changed(inode_index, dir_entries);
        self.lemma_file_changed_sound(inode_index, written.0, written.1, written.1);
        self.lemma_write_dir_read_back(inode_index, dir_entries);
    }

    /// An inode of the volume, as the device holds it, fits its record.
    pub proof fn lemma_inode_fits(self, inode_index: int)
        requires
            self.wf(),
            self.inode_in_range(inode_index),
        ensures
            self.inode(inode_index).fits(),
    {
        self.lemma_inode_place(inode_index);
        Inode::lemma_decode_fits(
            self.disk.subrange(
                self.inode_start(inode_index),
                self.inode_start(inode_index) + crate::ext2::inode::INODE_PRACTICAL_SIZE,
            ),
        );
    }

    /// A change that keeps every block in use, and every inode but inode
    /// `inode_index`, keeps a sound volume sound, where that inode, if it is
    /// live, has the block map of `before`, whose file was sound and had no
    /// block in common with the file of another live inode.
    pub proof fn lemma_kept_sound(self, after: Volume, inode_index: int, before: Inode)
        requires
            self.sound(),
            after.consistent(),
            self.same_places(after),
            self.in_use_kept(after, None),
            forall|other: int|
                other != inode_index ==> #[trigger] after.live(other) == self.live(other),
            forall|other: int|
                other != inode_index && self.live(other) ==> #[trigger] after.inode(other)
                    == self.inode(other),
            after.live(inode_index) ==> after.inode(inode_index).data_block_map
                == before.data_block_map && self.file_ok(before),
            after.live(inode_index) ==> forall|other: int|
                other != inode_index && #[trigger] self.live(other) ==> self.files_apart(
                    before,
                    self.inode(other),
                ) && self.files_apart(self.inode(other), before),
        ensures
            self.changed_in(after, inode_index),
    {
        self.lemma_same_places(after);
        assert forall|other: int, position: int|
            other != inode_index && self.live(other) && 0 <= position
                < self.max_file_size() implies #[trigger] after.file_byte(
            self.inode(other),
            position,
        ) == self.file_byte(self.inode(other), position) by {
            self.lemma_file_blocks_kept(after, self.inode(other));
            self.lemma_file_kept(after, self.inode(other));
        }
        assert forall|other: int| #[trigger] after.live(other) implies after.file_ok(
            after.inode(other),
        ) by {
            if other != inode_index {
                self.lemma_file_blocks_kept(after, self.inode(other));
                self.lemma_file_kept(after, self.inode(other));
            } else {
                self.lemma_file_blocks_kept(after, before);
                self.lemma_file_kept(after, before);
                assert(after.file_ok(before));
            }
        }
        assert forall|first: int, second: int|
            first != second && #[trigger] after.live(first) && #[trigger] after.live(
                second,
            ) implies after.files_apart(after.inode(first), after.inode(second)) by {
            let one = if first == inode_index {
                before
            } else {
                self.inode(first)
            };
            let two = if second == inode_index {
                before
            } else {
                self.inode(second)
            };
            assert(self.live(first) || first == inode_index);
            assert(self.live(second) || second == inode_index);
            assert(self.files_apart(one, two));
            self.lemma_file_blocks_kept(after, one);
            self.lemma_file_kept(after, one);
            self.lemma_file_blocks_kept(after, two);
            self.lemma_file_kept(after, two);
            assert forall|block_index: int| #[trigger]
                after.in_file(after.inode(first), block_index) implies !after.in_file(
                after.inode(second),
                block_index,
            ) by {
                assert(after.in_file(after.inode(first), block_index) == after.in_file(
                    one,
                    block_index,
                ));
                assert(after.in_file(after.inode(second), block_index) == after.in_file(
                    two,
                    block_index,
                ));
                assert(self.in_file(one, block_index));
            }
        }
    }

    /// Creating an inode keeps a sound volume sound, and every live inode and
    /// its file what they were: the inode that was taken was not live and is,
    /// it is none of the reserved ones, and it holds the mode and nothing else.
    pub proof fn lemma_create_sound(self, mode: Mode)
        requires
            self.sound(),
            mode.bits <= u16::MAX,
            self.create(mode).1 is Ok,
        ensures
            ({
                let after = self.create(mode).0;
                let inode_index = self.create(mode).1->Ok_0 as int;
                &&& self.changed_in(after, inode_index)
                &&& self.inode_in_range(inode_index)
                &&& self.superblock.first_usable_inode_index <= inode_index
                &&& !self.live(inode_index)
                &&& after.live(inode_index)
                &&& after.inode(inode_index) == Inode::spec_empty(mode)
            }),
    {
        let taken = self.allocate_inode().0;
        let inode_index = self.allocate_inode().1->Ok_0 as int;
        let empty = Inode::spec_empty(mode);
        let after = taken.with_inode(inode_index, empty);
        self.lemma_allocate_inode_effect();
        self.lemma_same_places(taken);
        taken.lemma_inode_store_keeps_blocks(inode_index, empty);
        taken.lemma_same_places(after);
        taken.lemma_with_inode_read_back(inode_index, empty);
        assert(self.in_use_kept(after, None));
        assert forall|other: int| other != inode_index implies #[trigger] after.live(other)
            == self.live(other) by {
            if self.inode_in_range(other) {
                taken.lemma_with_inode_keeps_others(inode_index, empty, other);
                assert(taken.inode_marked(other) == self.inode_marked(other));
            }
        }
        assert forall|other: int|
            other != inode_index && self.live(other) implies #[trigger] after.inode(other)
            == self.inode(other) by {
            taken.lemma_with_inode_keeps_others(inode_index, empty, other);
            assert(taken.inode(other) == self.inode(other));
        }
        taken.lemma_with_inode_keeps_others(inode_index, empty, inode_index);
        self.lemma_no_file(empty);
        assert forall|other: int|
            other != inode_index && #[trigger] self.live(other) implies self.files_apart(
            empty,
            self.inode(other),
        ) && self.files_apart(self.inode(other), empty) by {}
        self.lemma_kept_sound(after, inode_index, empty);
    }

    /// An inode whose block map names nothing has no blocks, and they form a
    /// sound tree.
    pub proof fn lemma_no_file(self, inode: Inode)
        requires
            forall|slot: int| 0 <= slot < 15 ==> inode.data_block_map[slot] == 0,
        ensures
            self.file_ok(inode),
            forall|block_index: int| !self.in_file(inode, block_index),
    {
        assert forall|slot: int| 0 <= slot < 15 implies #[trigger] self.tree_ok(
            inode.data_block_map[slot],
            root_height(slot),
        ) by {}
        assert forall|slot: int, block_index: int| 0 <= slot < 15 implies !#[trigger] self.in_tree(
            inode.data_block_map[slot],
            root_height(slot),
            block_index,
        ) by {}
    }

    /// Removing a live inode keeps a sound volume sound, and every other live
    /// inode and its file what they were; the inode is no longer live.
    pub proof fn lemma_remove_sound(self, inode_index: int)
        requires
            self.sound(),
            self.inode_in_range(inode_index),
            self.free_inode(inode_index).1 is Ok,
        ensures
            self.changed_in(self.free_inode(inode_index).0, inode_index),
            self.live(inode_index),
            !self.free_inode(inode_index).0.live(inode_index),
    {
        let after = self.free_inode(inode_index).0;
        self.lemma_free_inode_effect(inode_index);
        self.lemma_same_places(after);
        self.lemma_kept_sound(after, inode_index, self.inode(inode_index));
    }

    /// The bytes of a file are found through the block map of its inode
    /// alone.
    pub proof fn lemma_same_map(self, first: Inode, second: Inode, position: int)
        requires
            first.data_block_map == second.data_block_map,
        ensures
            self.file_byte(first, position) == self.file_byte(second, position),
    {
    }

    /// What storing an inode does to a consistent volume: the volume is
    /// consistent, with everything in the same places; no block in use has
    /// changed; the inode is the one that was stored; every other inode is
    /// what it was, and every inode is marked as it was.
    pub proof fn lemma_inode_store_effect(self, inode_index: int, stored: Inode)
        requires
            self.consistent(),
            self.inode_in_range(inode_index),
            stored.fits(),
        ensures
            ({
                let after = self.with_inode(inode_index, stored);
                &&& after.consistent()
                &&& self.same_places(after)
                &&& self.in_use_kept(after, None)
                &&& after.inode(inode_index) == stored
                &&& forall|other: int|
                    other != inode_index && self.inode_in_range(other) ==> #[trigger] after.inode(
                        other,
                    ) == self.inode(other)
                &&& forall|other: int| #[trigger] after.live(other) == self.live(other)
            }),
    {
        let after = self.with_inode(inode_index, stored);
        self.lemma_inode_store_keeps_blocks(inode_index, stored);
        self.lemma_same_places(after);
        self.lemma_with_inode_read_back(inode_index, stored);
        assert forall|other: int|
            other != inode_index && self.inode_in_range(other) implies #[trigger] after.inode(
            other,
        ) == self.inode(other) by {
            self.lemma_with_inode_keeps_others(inode_index, stored, other);
        }
        assert forall|other: int| #[trigger] after.live(other) == self.live(other) by {
            if self.inode_in_range(other) {
                self.lemma_with_inode_keeps_others(inode_index, stored, other);
            }
        }
    }

    /// Setting the link count of an inode keeps a sound volume sound, every
    /// inode as live as it was, and every other inode and every file what they
    /// were; the inode has the new link count, and is else what it was.
    pub proof fn lemma_set_links_count_sound(self, inode_index: int, links_count: u16)
        requires
            self.sound(),
            self.inode_in_range(inode_index),
        ensures
            ({
                let after = self.set_links_count(inode_index, links_count);
                &&& self.changed_in(after, inode_index)
                &&& after.live(inode_index) == self.live(inode_index)
                &&& after.inode(inode_index) == (Inode {
                    links_count,
                    ..self.inode(inode_index)
                })
                &&& forall|position: int|
                    0 <= position < self.max_file_size() && self.live(inode_index)
                        ==> #[trigger] after.file_byte(after.inode(inode_index), position)
                        == self.file_byte(self.inode(inode_index), position)
            }),
    {
        let inode = self.inode(inode_index);
        let stored = Inode { links_count, ..inode };
        let after = self.with_inode(inode_index, stored);
        self.lemma_inode_fits(inode_index);
        self.lemma_inode_store_effect(inode_index, stored);
        self.lemma_kept_sound(after, inode_index, inode);
        if self.live(inode_index) {
            self.lemma_same_file_kept(after, inode, stored);
        }
    }

    /// A file whose blocks are kept holds what it held, also when it is
    /// reached through another inode with the same block map.
    proof fn lemma_same_file_kept(self, after: Volume, inode: Inode, stored: Inode)
        requires
            self.wf(),
            after.wf(),
            self.same_places(after),
            self.in_use_kept(after, None),
            self.file_ok(inode),
            stored.data_block_map == inode.data_block_map,
        ensures
            forall|position: int|
                0 <= position < self.max_file_size() ==> #[trigger] after.file_byte(
                    stored,
                    position,
                ) == self.file_byte(inode, position),
    {
        self.lemma_file_blocks_kept(after, inode);
        self.lemma_file_kept(after, inode);
        assert forall|position: int|
            0 <= position < self.max_file_size() implies #[trigger] after.file_byte(
            stored,
            position,
        ) == self.file_byte(inode, position) by {
            assert(after.file_byte(inode, position) == self.file_byte(inode, position));
            after.lemma_same_map(stored, inode, position);
        }
    }
}

} // verus!
