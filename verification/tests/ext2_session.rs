use ext2_core::ext2::bitmap::Bitmap;
use ext2_core::ext2::descriptor::BlockGroupDescriptor;
use ext2_core::ext2::inode::Inode;
use ext2_core::ext2::session::Session;
use ext2_core::ext2::superblock::Superblock;
use ext2_core::fs::{DirEntry, Error, FileType, Mode, Session as FsSession};
use ext2_core::sector_storage::{MemoryStorage, SectorStorage};

const BLOCK_SIZE: usize = 1024;

struct Layout {
    blocks: u64,
    blocks_per_group: u64,
    inodes_per_group: u64,
    sparse: bool,
}

fn group_count(layout: &Layout) -> u64 {
    (layout.blocks - 1 - 1) / layout.blocks_per_group + 1
}

fn has_copies(layout: &Layout, group: u64) -> bool {
    if !layout.sparse || group == 0 {
        return true;
    }
    for base in [3u64, 5, 7] {
        let mut power = 1;
        while power < group {
            power *= base;
        }
        if power == group {
            return true;
        }
    }
    false
}

fn superblock_of(layout: &Layout, free_blocks: u64, free_inodes: u64) -> Superblock {
    Superblock {
        inodes_count: group_count(layout) * layout.inodes_per_group,
        blocks_count: layout.blocks,
        reserved_blocks_count: 0,
        free_blocks_count: free_blocks,
        free_inodes_count: free_inodes,
        first_data_block_block_index: 1,
        log_block_size: 0,
        block_count_per_block_group: layout.blocks_per_group,
        inode_count_per_block_group: layout.inodes_per_group,
        mount_time: 0,
        write_time: 0,
        mount_count: 0,
        max_mount_count: 20,
        state: 1,
        errors: 1,
        minor_revision_level: 0,
        last_check_time: 0,
        check_interval: 0,
        creator_os: 0,
        revision_level: 1,
        default_reserved_uid: 0,
        default_reserved_gid: 0,
        first_usable_inode_index: 11,
        inode_size: 128,
        block_group_index: 0,
        features_compat: 0,
        features_incompat: 2,
        features_ro_compat: if layout.sparse { 1 } else { 0 },
    }
}

/// Builds a volume with blocks of 1024 bytes: in each group the first block
/// and the descriptor table (where the group holds copies), then the block
/// bitmap, the inode bitmap and the inode table. The root directory holds
/// "." and "..".
fn make_image(layout: &Layout) -> Vec<u8> {
    let mut image = vec![0u8; layout.blocks as usize * BLOCK_SIZE];
    let groups = group_count(layout);
    let table_blocks = (groups * 32 + 1023) / 1024;
    let inode_table_blocks = layout.inodes_per_group * 128 / 1024;
    let mut descriptors = Vec::new();
    let mut free_blocks_total = 0;
    let mut free_inodes_total = 0;
    let mut root_block = 0;
    for group in 0..groups {
        let start = 1 + group * layout.blocks_per_group;
        let end = std::cmp::min(start + layout.blocks_per_group, layout.blocks);
        let mut next = start;
        if has_copies(layout, group) {
            next += 1 + table_blocks;
        }
        let block_bitmap = next;
        let inode_bitmap = next + 1;
        let inode_table = next + 2;
        next += 2 + inode_table_blocks;
        if group == 0 {
            root_block = next;
            next += 1;
        }
        assert!(next <= end);
        let mut bitmap = Bitmap { data: vec![0u8; BLOCK_SIZE] };
        for bit in 0..BLOCK_SIZE * 8 {
            let block = start + bit as u64;
            if block < next || block >= end {
                bitmap.set(bit, true);
            }
        }
        let at = block_bitmap as usize * BLOCK_SIZE;
        image[at..at + BLOCK_SIZE].copy_from_slice(&bitmap.data);
        let mut inodes = Bitmap { data: vec![0u8; BLOCK_SIZE] };
        for bit in 0..BLOCK_SIZE * 8 {
            let reserved = group == 0 && bit < 10;
            if reserved || bit as u64 >= layout.inodes_per_group {
                inodes.set(bit, true);
            }
        }
        let at = inode_bitmap as usize * BLOCK_SIZE;
        image[at..at + BLOCK_SIZE].copy_from_slice(&inodes.data);
        let free_blocks = end - next;
        let free_inodes = layout.inodes_per_group - if group == 0 { 10 } else { 0 };
        free_blocks_total += free_blocks;
        free_inodes_total += free_inodes;
        descriptors.push(BlockGroupDescriptor {
            block_bitmap_block_index: block_bitmap,
            inode_bitmap_block_index: inode_bitmap,
            inode_table_first_block_index: inode_table,
            free_blocks_count: free_blocks,
            free_inodes_count: free_inodes as u32,
            used_dirs_count: if group == 0 { 1 } else { 0 },
        });
    }
    let superblock = superblock_of(layout, free_blocks_total, free_inodes_total);
    for group in 0..groups {
        if !has_copies(layout, group) {
            continue;
        }
        let start = (1 + group * layout.blocks_per_group) as usize * BLOCK_SIZE;
        let copy = Superblock { block_group_index: group, ..superblock };
        copy.update_bytes(&mut image[start..start + 1024]);
        for (index, descriptor) in descriptors.iter().enumerate() {
            let at = start + BLOCK_SIZE + index * 32;
            descriptor.update_bytes(&mut image[at..at + 32]);
        }
    }
    // the root directory
    let mut root = Inode::empty(Mode::from_file_type_and_permissions(0o755, FileType::Dir));
    root.size = 1024;
    root.links_count = 2;
    root.sector_count = 2;
    root.data_block_map[0] = root_block;
    let at = descriptors[0].inode_table_first_block_index as usize * BLOCK_SIZE + 128;
    root.update_bytes(&mut image[at..at + 128]);
    let at = root_block as usize * BLOCK_SIZE;
    let dot = [2u8, 0, 0, 0, 12, 0, 1, 2, b'.', 0, 0, 0];
    image[at..at + 12].copy_from_slice(&dot);
    let dot_dot_len = (1024 - 12) as u16;
    let dot_dot = [2u8, 0, 0, 0, dot_dot_len as u8, (dot_dot_len >> 8) as u8, 2, 2, b'.', b'.'];
    image[at + 12..at + 22].copy_from_slice(&dot_dot);
    image
}

fn small() -> Layout {
    Layout { blocks: 4096, blocks_per_group: 8192, inodes_per_group: 1024, sparse: false }
}

fn many_groups() -> Layout {
    // eleven groups; the last has 200 blocks in place of 512
    Layout { blocks: 1 + 10 * 512 + 200, blocks_per_group: 512, inodes_per_group: 64, sparse: true }
}

fn mount(layout: &Layout) -> Session<MemoryStorage> {
    Session::new(MemoryStorage::new(make_image(layout)).unwrap()).unwrap()
}

fn remount(session: Session<MemoryStorage>) -> Session<MemoryStorage> {
    Session::new(session.into_sector_storage()).unwrap()
}

fn bit(data: &[u8], index: usize) -> bool {
    (data[index / 8] >> (index % 8)) & 1 == 1
}

/// Number of clear bits in the block bitmaps, over the blocks of each group.
fn clear_block_bits(session: &Session<MemoryStorage>) -> u64 {
    let mut clear = 0;
    for (group, range) in session.block_group_ranges().into_iter().enumerate() {
        let bitmap = session.read_block_bitmap(group as u64);
        for index in 0..(range.end - range.start) as usize {
            if !bitmap.get(index) {
                clear += 1;
            }
        }
    }
    clear
}

fn clear_inode_bits(session: &Session<MemoryStorage>) -> u64 {
    let mut clear = 0;
    let per_group = session.superblock().inode_count_per_block_group as usize;
    for group in 0..session.block_group_count() {
        let bitmap = session.read_inode_bitmap(group);
        for index in 0..per_group {
            if !bitmap.get(index) {
                clear += 1;
            }
        }
    }
    clear
}

fn descriptors(session: &Session<MemoryStorage>) -> Vec<BlockGroupDescriptor> {
    // the table as group 0 stores it
    let count = session.block_group_count() as usize;
    let mut table = Vec::new();
    let mut block = session.read_block(2);
    for index in 0..count {
        if index > 0 && index % 32 == 0 {
            block = session.read_block(2 + (index / 32) as u64);
        }
        let at = index % 32 * 32;
        table.push(BlockGroupDescriptor::of_bytes(&block[at..at + 32]));
    }
    table
}

fn assert_counts_consistent(session: &Session<MemoryStorage>) {
    let table = descriptors(session);
    let superblock = session.superblock();
    let free_blocks: u64 = table.iter().map(|d| d.free_blocks_count).sum();
    let free_inodes: u64 = table.iter().map(|d| d.free_inodes_count as u64).sum();
    assert_eq!(superblock.free_blocks_count, free_blocks);
    assert_eq!(superblock.free_blocks_count, clear_block_bits(session));
    assert_eq!(superblock.free_inodes_count, free_inodes);
    assert_eq!(superblock.free_inodes_count, clear_inode_bits(session));
}

#[test]
fn mount_sanity() {
    let session = mount(&small());
    assert_eq!(session.root(), 2);
    let stat = session.file_stat(2);
    assert!(stat.mode.has_file_type());
    assert_eq!(stat.mode.file_type(), FileType::Dir);
    assert_eq!(stat.mode.permissions(), 0o755);
    assert_eq!(stat.size, 1024);
    assert_eq!(stat.links_count, 2);
    assert_eq!(session.block_size(), 1024);
    assert_eq!(session.block_count(), 4096);
    assert_eq!(session.block_group_count(), 1);
    assert_eq!(session.inode_count(), 1024);
    assert_counts_consistent(&session);
}

#[test]
fn mount_refuses_what_is_no_volume() {
    let empty = MemoryStorage::new(vec![0u8; 4096 * 1024]).unwrap();
    assert_eq!(Session::new(empty).err(), Some(Error::Corrupt));
    let short = MemoryStorage::new(vec![0u8; 1024]).unwrap();
    assert_eq!(Session::new(short).err(), Some(Error::Corrupt));
    // a bitmap that lies past the device
    let mut image = make_image(&small());
    image[2048] = 0xff;
    image[2049] = 0xff;
    let storage = MemoryStorage::new(image).unwrap();
    assert_eq!(Session::new(storage).err(), Some(Error::Corrupt));
    // blocks and fragments of different sizes
    let mut image = make_image(&small());
    image[1024 + 28] = 1;
    let storage = MemoryStorage::new(image).unwrap();
    assert_eq!(Session::new(storage).err(), Some(Error::Corrupt));
}

#[test]
fn create_and_read() {
    let mut session = mount(&small());
    let free_inodes = session.superblock().free_inodes_count;
    let inode = session.create(FileType::RegularFile, 0o644).unwrap();
    assert_eq!(inode, 11);
    assert_eq!(session.superblock().free_inodes_count, free_inodes - 1);
    let stat = session.file_stat(inode);
    assert_eq!(stat.mode.file_type(), FileType::RegularFile);
    assert_eq!(stat.mode.permissions(), 0o644);
    assert_eq!(stat.links_count, 0);
    assert_eq!(stat.size, 0);
    session.resize_regular_file(inode, 5).unwrap();
    session.write_regular_file_range(inode, 0..5, b"hello").unwrap();
    assert_eq!(session.read_regular_file_range(inode, 0..5).unwrap(), b"hello".to_vec());
    assert_eq!(session.file_stat(inode).size, 5);
    assert_counts_consistent(&session);
    // what was written is there after the volume is mounted again
    let session = remount(session);
    assert_eq!(session.read_regular_file_range(inode, 0..5).unwrap(), b"hello".to_vec());
    assert_eq!(session.file_stat(inode).size, 5);
    assert_counts_consistent(&session);
}

#[test]
fn sparse() {
    let mut session = mount(&small());
    let free_blocks = session.superblock().free_blocks_count;
    let inode = session.create(FileType::RegularFile, 0o644).unwrap();
    session.resize_regular_file(inode, 1_000_000).unwrap();
    let read = session.read_regular_file_range(inode, 0..1_000_000).unwrap();
    assert_eq!(read, vec![0u8; 1_000_000]);
    assert_eq!(session.superblock().free_blocks_count, free_blocks);
    let stat = session.file_stat(inode);
    assert_eq!(stat.size, 1_000_000);
    assert_counts_consistent(&session);
}

#[test]
fn resize_records_size_and_sector_count() {
    let mut session = mount(&small());
    let inode = session.create(FileType::RegularFile, 0o600).unwrap();
    session.resize_regular_file(inode, 3000).unwrap();
    let stored = session.read_inode(inode);
    assert_eq!(stored.size, 3000);
    assert_eq!(stored.sector_count, 3000 * 1024 / 512);
    assert_eq!(stored.data_block_map, [0u64; 15]);
}

#[test]
fn indirect_boundary() {
    let mut session = mount(&small());
    let inode = session.create(FileType::RegularFile, 0o644).unwrap();
    let free_blocks = session.superblock().free_blocks_count;
    session.resize_regular_file(inode, 13 * 1024).unwrap();
    assert_eq!(session.superblock().free_blocks_count, free_blocks);
    let data: Vec<u8> = (0..1024u32).map(|i| (i % 251) as u8 + 1).collect();
    session.write_regular_file_range(inode, 12 * 1024..13 * 1024, &data).unwrap();
    assert_eq!(session.read_regular_file_range(inode, 12 * 1024..13 * 1024).unwrap(), data);
    // one data block and exactly one indirect block
    assert_eq!(session.superblock().free_blocks_count, free_blocks - 2);
    let stored = session.read_inode(inode);
    assert_ne!(stored.data_block_map[12], 0);
    for slot in 0..15 {
        if slot != 12 {
            assert_eq!(stored.data_block_map[slot], 0);
        }
    }
    let indices = session.read_block_indices(stored.data_block_map[12]);
    assert_ne!(indices[0], 0);
    assert!(indices[1..].iter().all(|&index| index == 0));
    assert_eq!(session.read_block(indices[0]), data);
    // the blocks before read as zeros
    assert_eq!(
        session.read_regular_file_range(inode, 0..12 * 1024).unwrap(),
        vec![0u8; 12 * 1024]
    );
    assert_counts_consistent(&session);
}

#[test]
fn reclaim() {
    let mut session = mount(&small());
    let inode = session.create(FileType::RegularFile, 0o644).unwrap();
    let free_blocks = session.superblock().free_blocks_count;
    session.resize_regular_file(inode, 13 * 1024).unwrap();
    let data = vec![0x5au8; 1024];
    session.write_regular_file_range(inode, 12 * 1024..13 * 1024, &data).unwrap();
    assert_eq!(session.superblock().free_blocks_count, free_blocks - 2);
    session.write_regular_file_range(inode, 12 * 1024..13 * 1024, &vec![0u8; 1024]).unwrap();
    assert_eq!(session.superblock().free_blocks_count, free_blocks);
    assert_eq!(session.read_inode(inode).data_block_map, [0u64; 15]);
    assert_eq!(
        session.read_regular_file_range(inode, 12 * 1024..13 * 1024).unwrap(),
        vec![0u8; 1024]
    );
    assert_counts_consistent(&session);
}

#[test]
fn directory_round_trip() {
    let mut session = mount(&small());
    let entries = session.read_dir(2).unwrap();
    assert_eq!(entries.len(), 2);
    assert_eq!(entries[0].name, ".");
    assert_eq!(entries[0].inode_index, 2);
    assert_eq!(entries[0].file_type, Some(FileType::Dir));
    assert_eq!(entries[1].name, "..");
    session.write_dir(2, &entries).unwrap();
    let again = session.read_dir(2).unwrap();
    assert_eq!(again.len(), entries.len());
    for (a, b) in again.iter().zip(entries.iter()) {
        assert_eq!(a.inode_index, b.inode_index);
        assert_eq!(a.file_type, b.file_type);
        assert_eq!(a.name, b.name);
    }
    assert_eq!(session.file_stat(2).size, 1024);
    assert_counts_consistent(&session);
}

#[test]
fn write_dir_gives_the_directory_the_size_of_its_records() {
    let mut session = mount(&small());
    let file = session.create(FileType::RegularFile, 0o644).unwrap();
    let mut entries = session.read_dir(2).unwrap();
    entries.push(DirEntry {
        inode_index: file,
        file_type: Some(FileType::RegularFile),
        name: String::from("caf\u{e9}.txt"),
    });
    entries.push(DirEntry { inode_index: 0, file_type: None, name: String::from("gone") });
    session.write_dir(2, &entries).unwrap();
    session.set_links_count(file, 1);
    assert_eq!(session.file_stat(file).links_count, 1);
    assert_eq!(session.file_stat(2).size, 4 * 512);
    let again = session.read_dir(2).unwrap();
    assert_eq!(again.len(), 4);
    assert_eq!(again[2].name, "caf\u{e9}.txt");
    assert_eq!(again[2].inode_index, file);
    assert_eq!(again[2].file_type, Some(FileType::RegularFile));
    assert_eq!(again[3].inode_index, 0);
    assert_eq!(again[3].file_type, None);
    assert_eq!(again[3].name, "gone");
    // and an empty directory
    session.write_dir(2, &[]).unwrap();
    assert_eq!(session.read_dir(2).unwrap().len(), 0);
    assert_eq!(session.file_stat(2).size, 0);
    assert_counts_consistent(&session);
}

#[test]
fn read_dir_refuses_what_is_no_stream_of_records() {
    let mut session = mount(&small());
    let root_block = session.read_inode(2).data_block_map[0];
    let mut block = session.read_block(root_block);
    block[4] = 4; // a record shorter than its header
    block[5] = 0;
    session.write_block(root_block, &block);
    assert_eq!(session.read_dir(2).err(), Some(Error::Corrupt));
}

fn pattern(len: usize, seed: u8) -> Vec<u8> {
    (0..len).map(|i| (i as u8).wrapping_mul(31).wrapping_add(seed) | 1).collect()
}

#[test]
fn writes_straddling_block_boundaries() {
    let mut session = mount(&small());
    let inode = session.create(FileType::RegularFile, 0o644).unwrap();
    session.resize_regular_file(inode, 8 * 1024).unwrap();
    // one, two and three boundaries
    for (start, end, seed) in [(1000u64, 1100u64, 1u8), (2000, 4200, 2), (4500, 7700, 3)] {
        let data = pattern((end - start) as usize, seed);
        session.write_regular_file_range(inode, start..end, &data).unwrap();
        assert_eq!(session.read_regular_file_range(inode, start..end).unwrap(), data);
    }
    // the ranges do not disturb one another
    assert_eq!(session.read_regular_file_range(inode, 1000..1100).unwrap(), pattern(100, 1));
    assert_eq!(session.read_regular_file_range(inode, 2000..4200).unwrap(), pattern(2200, 2));
    assert_eq!(session.read_regular_file_range(inode, 0..1000).unwrap(), vec![0u8; 1000]);
    assert_eq!(session.read_regular_file_range(inode, 1100..2000).unwrap(), vec![0u8; 900]);
    // a range that starts and ends on boundaries
    let data = pattern(2048, 4);
    session.write_regular_file_range(inode, 1024..3072, &data).unwrap();
    assert_eq!(session.read_regular_file_range(inode, 1024..3072).unwrap(), data);
    assert_eq!(session.read_regular_file_range(inode, 1000..1024).unwrap(), pattern(100, 1)[..24]);
    // an empty range
    session.write_regular_file_range(inode, 77..77, &[]).unwrap();
    assert_eq!(session.read_regular_file_range(inode, 77..77).unwrap(), Vec::<u8>::new());
    assert_counts_consistent(&session);
}

#[test]
fn grow_past_the_direct_blocks_then_truncate() {
    let mut session = mount(&small());
    let inode = session.create(FileType::RegularFile, 0o644).unwrap();
    let free_blocks = session.superblock().free_blocks_count;
    let blocks = 12 + 256 + 3;
    let size = blocks as u64 * 1024;
    session.resize_regular_file(inode, size).unwrap();
    let data = pattern(size as usize, 9);
    session.write_regular_file_range(inode, 0..size, &data).unwrap();
    assert_eq!(session.read_regular_file_range(inode, 0..size).unwrap(), data);
    // 271 data blocks, the single indirect block, the double indirect block
    // and one block under it
    assert_eq!(session.superblock().free_blocks_count, free_blocks - 271 - 3);
    assert_counts_consistent(&session);
    session.resize_regular_file(inode, 0).unwrap();
    assert_eq!(session.superblock().free_blocks_count, free_blocks);
    assert_eq!(session.read_inode(inode).data_block_map, [0u64; 15]);
    assert_eq!(session.file_stat(inode).size, 0);
    assert_counts_consistent(&session);
}

#[test]
fn block_paths() {
    let session = mount(&small());
    assert_eq!(session.block_indices_per_block(), 256);
    assert_eq!(session.inode_block_path(0), vec![0]);
    assert_eq!(session.inode_block_path(11), vec![11]);
    assert_eq!(session.inode_block_path(12), vec![12, 0]);
    assert_eq!(session.inode_block_path(12 + 255), vec![12, 255]);
    assert_eq!(session.inode_block_path(12 + 256), vec![13, 0, 0]);
    assert_eq!(session.inode_block_path(12 + 256 + 256 * 3 + 7), vec![13, 3, 7]);
    assert_eq!(session.inode_block_path(12 + 256 + 65536 - 1), vec![13, 255, 255]);
    assert_eq!(session.inode_block_path(12 + 256 + 65536), vec![14, 0, 0, 0]);
    assert_eq!(
        session.inode_block_path(12 + 256 + 65536 + 2 * 65536 + 5 * 256 + 9),
        vec![14, 2, 5, 9]
    );
    assert_eq!(
        session.inode_block_path(12 + 256 + 65536 + 256 * 65536 - 1),
        vec![14, 255, 255, 255]
    );
}

#[test]
fn a_partition_that_ends_inside_a_group() {
    let layout = many_groups();
    let session = mount(&layout);
    let ranges = session.block_group_ranges();
    assert_eq!(ranges.len(), 11);
    assert_eq!(session.block_group_count(), 11);
    assert_eq!(ranges[0], 1..513);
    assert_eq!(ranges[1], 513..1025);
    assert_eq!(ranges[10], 5121..5321);
    assert_eq!(ranges[10].end, session.block_count());
    for pair in ranges.windows(2) {
        assert_eq!(pair[0].end, pair[1].start);
    }
    assert_counts_consistent(&session);
}

#[test]
fn groups_that_hold_copies() {
    let session = mount(&many_groups());
    let with_copies: Vec<u64> = (0..60)
        .filter(|&group| {
            session.block_group_contains_superblock_and_block_group_descriptor_table_copies(group)
        })
        .collect();
    assert_eq!(with_copies, vec![0, 1, 3, 5, 7, 9, 25, 27, 49]);
    let all = mount(&small());
    assert!(all.block_group_contains_superblock_and_block_group_descriptor_table_copies(2));
    assert!(all.block_group_contains_superblock_and_block_group_descriptor_table_copies(6));
}

#[test]
fn copies_differ_in_the_group_index_alone() {
    let layout = many_groups();
    let mut session = mount(&layout);
    // take blocks in the first group and in a later one
    let first = session.allocate_block().unwrap();
    session.free_block(3000).err();
    let inode = session.create(FileType::RegularFile, 0o644).unwrap();
    session.resize_regular_file(inode, 2048).unwrap();
    session.write_regular_file_range(inode, 0..2048, &pattern(2048, 5)).unwrap();
    assert!(first >= 1);
    let superblock = session.superblock();
    let table = descriptors(&session);
    let storage = session.into_sector_storage();
    let bytes = storage.as_bytes();
    let primary = &bytes[1024..2048];
    for group in [0u64, 1, 3, 5, 7, 9] {
        let start = (1 + group * 512) as usize * 1024;
        let copy = &bytes[start..start + 1024];
        for i in 0..1024 {
            if i != 90 && i != 91 {
                assert_eq!(copy[i], primary[i]);
            }
        }
        let parsed = Superblock::of_bytes(copy);
        assert_eq!(parsed, Superblock { block_group_index: group, ..superblock });
        for (index, descriptor) in table.iter().enumerate() {
            let at = start + 1024 + index * 32;
            assert_eq!(BlockGroupDescriptor::of_bytes(&bytes[at..at + 32]), *descriptor);
        }
    }
    // a group without copies keeps its first block
    let start = (1 + 2 * 512) as usize * 1024;
    assert!(!Superblock::bytes_are_valid(&bytes[start..start + 1024]));
}

#[test]
fn allocation_takes_the_first_free_block_and_counts_it() {
    let mut session = mount(&small());
    let free_blocks = session.superblock().free_blocks_count;
    let block = session.allocate_block().unwrap();
    assert_eq!(block, 134);
    let bitmap = session.read_block_bitmap(0);
    assert!(bitmap.get(133));
    assert!(!bitmap.get(134));
    assert_eq!(session.superblock().free_blocks_count, free_blocks - 1);
    assert_counts_consistent(&session);
    let next = session.allocate_zeroed_block().unwrap();
    assert_eq!(next, 135);
    assert_eq!(session.read_block(next), vec![0u8; 1024]);
    session.free_block(block).unwrap();
    assert_eq!(session.superblock().free_blocks_count, free_blocks - 1);
    assert_eq!(session.allocate_block().unwrap(), 134);
    // a block that is free cannot be freed, nor one outside the groups
    assert_eq!(session.free_block(2000).err(), Some(Error::Corrupt));
    assert_eq!(session.free_block(0).err(), Some(Error::Corrupt));
    assert_eq!(session.free_block(4096).err(), Some(Error::Corrupt));
    assert_counts_consistent(&session);
}

#[test]
fn allocation_goes_on_in_the_next_group() {
    let mut session = mount(&many_groups());
    let table = descriptors(&session);
    let in_first = table[0].free_blocks_count;
    for _ in 0..in_first {
        let block = session.allocate_block().unwrap();
        assert!(block < 513);
    }
    let block = session.allocate_block().unwrap();
    assert!(block >= 513 && block < 1025);
    assert_counts_consistent(&session);
}

#[test]
fn no_space_is_reported() {
    let layout = Layout { blocks: 200, blocks_per_group: 8192, inodes_per_group: 16, sparse: false };
    let mut session = mount(&layout);
    let free_blocks = session.superblock().free_blocks_count;
    for _ in 0..free_blocks {
        session.allocate_block().unwrap();
    }
    assert_eq!(session.allocate_block().err(), Some(Error::NoSpace));
    assert_eq!(session.superblock().free_blocks_count, 0);
    for _ in 0..6 {
        session.create(FileType::Fifo, 0).unwrap();
    }
    assert_eq!(session.create(FileType::Fifo, 0).err(), Some(Error::NoSpace));
    let inode = 11;
    assert_eq!(
        session.write_regular_file_range(inode, 0..1, &[1]).err(),
        Some(Error::NoSpace)
    );
    assert_counts_consistent(&session);
}

#[test]
fn inodes_are_taken_and_given_back() {
    let mut session = mount(&many_groups());
    let free_inodes = session.superblock().free_inodes_count;
    let mut taken = Vec::new();
    for _ in 0..60 {
        taken.push(session.create(FileType::RegularFile, 0o600).unwrap());
    }
    assert_eq!(taken[0], 11);
    assert_eq!(taken[53], 64);
    assert_eq!(taken[54], 65);
    assert_eq!(session.superblock().free_inodes_count, free_inodes - 60);
    assert_counts_consistent(&session);
    session.remove(taken[3]).unwrap();
    assert_eq!(session.remove(taken[3]).err(), Some(Error::Corrupt));
    assert_eq!(session.superblock().free_inodes_count, free_inodes - 59);
    assert_eq!(session.create(FileType::Socket, 0o777).unwrap(), taken[3]);
    let stat = session.file_stat(taken[3]);
    assert_eq!(stat.mode.file_type(), FileType::Socket);
    assert_eq!(stat.mode.permissions(), 0o777);
    // an inode of another group is read from that group's table
    session.set_links_count(taken[59], 7);
    assert_eq!(session.file_stat(taken[59]).links_count, 7);
    assert_eq!(session.file_stat(taken[58]).links_count, 0);
    assert_counts_consistent(&session);
}

#[test]
fn a_pointer_past_the_device_is_corrupt() {
    let mut session = mount(&small());
    let inode_index = session.create(FileType::RegularFile, 0o644).unwrap();
    let mut inode = session.read_inode(inode_index);
    inode.size = 4096;
    inode.data_block_map[1] = 5000;
    session.update_inode(inode_index, &inode);
    assert_eq!(session.read_regular_file_range(inode_index, 0..1024).unwrap(), vec![0u8; 1024]);
    assert_eq!(
        session.read_regular_file_range(inode_index, 1000..2000).err(),
        Some(Error::Corrupt)
    );
    assert_eq!(
        session.write_regular_file_range(inode_index, 1024..1030, &[1; 6]).err(),
        Some(Error::Corrupt)
    );
}

#[test]
fn inode_records_round_trip_through_the_table() {
    let mut session = mount(&small());
    let mut inode = Inode::empty(Mode::from_bits_retain(0x81a4));
    inode.uid = 1000;
    inode.gid = 100;
    inode.size = 123_456;
    inode.access_time = 1;
    inode.creation_time = 2;
    inode.modification_time = 3;
    inode.deletion_time = 4;
    inode.links_count = 3;
    inode.sector_count = 242;
    inode.flags = 0x80;
    inode.os_dependent_1 = [1, 2, 3, 4];
    inode.data_block_map = [1, 2, 3, 4, 5, 6, 7, 8, 9, 10, 11, 12, 13, 14, 15];
    inode.generation = 5;
    inode.file_acl = 6;
    inode.dir_arc = 7;
    inode.faddr = 8;
    inode.os_dependent_2 = [9; 12];
    session.update_inode(500, &inode);
    assert_eq!(session.read_inode(500), inode);
    assert_eq!(session.read_inode(499), Inode::empty(Mode::from_bits_retain(0)));
    assert_eq!(session.read_inode(501), Inode::empty(Mode::from_bits_retain(0)));
}

fn walk(session: &Session<MemoryStorage>, pointer: u64, height: usize, found: &mut Vec<u64>) {
    if pointer == 0 {
        return;
    }
    found.push(pointer);
    if height > 0 {
        for child in session.read_block_indices(pointer) {
            walk(session, child, height - 1, found);
        }
    }
}

/// The blocks of the file of `inode`: data blocks and blocks of pointers.
fn blocks_of_file(session: &Session<MemoryStorage>, inode: u64) -> Vec<u64> {
    let stored = session.read_inode(inode);
    let mut found = Vec::new();
    for slot in 0..15 {
        let height = if slot < 12 { 0 } else { slot - 11 };
        walk(session, stored.data_block_map[slot], height, &mut found);
    }
    found
}

fn block_is_marked(session: &Session<MemoryStorage>, block: u64) -> bool {
    for (group, range) in session.block_group_ranges().into_iter().enumerate() {
        if range.start <= block && block < range.end {
            return session.read_block_bitmap(group as u64).get((block - range.start) as usize);
        }
    }
    panic!("block {block} lies in no group");
}

#[test]
fn writing_one_file_leaves_the_others_as_they_were() {
    let mut session = mount(&many_groups());
    let first = session.create(FileType::RegularFile, 0o644).unwrap();
    let second = session.create(FileType::RegularFile, 0o600).unwrap();
    assert_ne!(first, second);
    let kept = pattern(20 * 1024 + 17, 7);
    session.resize_regular_file(first, kept.len() as u64).unwrap();
    session.write_regular_file_range(first, 0..kept.len() as u64, &kept).unwrap();
    let stat = session.file_stat(first);
    let stored = session.read_inode(first);
    // the second file grows past the direct blocks, is written over, shrinks
    let data = pattern(300 * 1024, 99);
    session.resize_regular_file(second, data.len() as u64).unwrap();
    session.write_regular_file_range(second, 0..data.len() as u64, &data).unwrap();
    assert_eq!(session.read_regular_file_range(first, 0..kept.len() as u64).unwrap(), kept);
    session.write_regular_file_range(second, 5000..9000, &vec![0u8; 4000]).unwrap();
    session.resize_regular_file(second, 3).unwrap();
    assert_eq!(session.read_regular_file_range(first, 0..kept.len() as u64).unwrap(), kept);
    assert_eq!(session.read_inode(first).data_block_map, stored.data_block_map);
    let after = session.file_stat(first);
    assert_eq!(after.size, stat.size);
    assert_eq!(after.links_count, stat.links_count);
    assert_eq!(after.mode.bits(), stat.mode.bits());
    assert_eq!(session.read_regular_file_range(second, 0..3).unwrap(), data[0..3].to_vec());
    assert_counts_consistent(&session);
}

#[test]
fn no_block_belongs_to_two_files() {
    let mut session = mount(&many_groups());
    let first = session.create(FileType::RegularFile, 0o644).unwrap();
    let second = session.create(FileType::RegularFile, 0o644).unwrap();
    let data = pattern(40 * 1024, 3);
    for round in 0..3u64 {
        for &inode in &[first, second] {
            let start = round * 11 * 1024 + inode;
            session.resize_regular_file(inode, start + data.len() as u64).unwrap();
            session.write_regular_file_range(inode, start..start + data.len() as u64, &data).unwrap();
        }
    }
    let one = blocks_of_file(&session, first);
    let two = blocks_of_file(&session, second);
    assert!(one.len() > 40 && two.len() > 40);
    for block in &one {
        assert!(!two.contains(block));
    }
    let mut all = one.clone();
    all.extend(two.iter());
    let mut unique = all.clone();
    unique.sort();
    unique.dedup();
    assert_eq!(unique.len(), all.len());
    for &block in &all {
        assert!(block_is_marked(&session, block));
    }
    assert_counts_consistent(&session);
}

#[test]
fn a_block_of_zeros_leaves_a_hole_and_frees_its_block() {
    let mut session = mount(&small());
    let inode = session.create(FileType::RegularFile, 0o644).unwrap();
    session.resize_regular_file(inode, 3 * 1024).unwrap();
    session.write_regular_file_range(inode, 0..3 * 1024, &pattern(3 * 1024, 1)).unwrap();
    let held = session.read_inode(inode).data_block_map[1];
    assert_ne!(held, 0);
    assert!(block_is_marked(&session, held));
    let free_blocks = session.superblock().free_blocks_count;
    session.write_regular_file_range(inode, 1024..2048, &vec![0u8; 1024]).unwrap();
    let stored = session.read_inode(inode);
    assert_eq!(stored.data_block_map[1], 0);
    assert_ne!(stored.data_block_map[0], 0);
    assert_ne!(stored.data_block_map[2], 0);
    assert!(!block_is_marked(&session, held));
    assert_eq!(session.superblock().free_blocks_count, free_blocks + 1);
    assert_eq!(session.read_regular_file_range(inode, 1024..2048).unwrap(), vec![0u8; 1024]);
    assert_counts_consistent(&session);
}

#[test]
fn setting_the_link_count_keeps_the_file() {
    let mut session = mount(&small());
    let inode = session.create(FileType::RegularFile, 0o644).unwrap();
    let other = session.create(FileType::Dir, 0o755).unwrap();
    let data = pattern(14 * 1024, 5);
    session.resize_regular_file(inode, data.len() as u64).unwrap();
    session.write_regular_file_range(inode, 0..data.len() as u64, &data).unwrap();
    let before = session.read_inode(inode);
    let other_before = session.read_inode(other);
    session.set_links_count(inode, 3);
    let after = session.read_inode(inode);
    assert_eq!(after.links_count, 3);
    assert_eq!(after.size, before.size);
    assert_eq!(after.mode.bits(), before.mode.bits());
    assert_eq!(after.data_block_map, before.data_block_map);
    assert_eq!(session.read_inode(other).links_count, other_before.links_count);
    assert_eq!(session.read_inode(other).data_block_map, other_before.data_block_map);
    assert_eq!(session.read_regular_file_range(inode, 0..data.len() as u64).unwrap(), data);
    assert_counts_consistent(&session);
}

#[test]
fn a_write_that_runs_out_of_space_leaves_the_counts_right() {
    let layout = Layout { blocks: 200, blocks_per_group: 8192, inodes_per_group: 16, sparse: false };
    let mut session = mount(&layout);
    let inode = session.create(FileType::RegularFile, 0o644).unwrap();
    let free_blocks = session.superblock().free_blocks_count;
    // more blocks than are free: the write fails on the way
    let len = (free_blocks + 5) * 1024;
    session.resize_regular_file(inode, len).unwrap();
    let data = pattern(len as usize, 9);
    assert_eq!(
        session.write_regular_file_range(inode, 0..len, &data).err(),
        Some(Error::NoSpace)
    );
    assert_eq!(session.superblock().free_blocks_count, 0);
    assert_counts_consistent(&session);
    let session = remount(session);
    assert_counts_consistent(&session);
}
