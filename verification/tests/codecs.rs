use ext2_core::bytes::{
    copy_into, is_all_zero, read_u16, read_u32, read_u64, write_u16, write_u32, write_u8, zeroed,
};
use ext2_core::ext2::bitmap::Bitmap;
use ext2_core::ext2::descriptor::BlockGroupDescriptor;
use ext2_core::ext2::inode::Inode;
use ext2_core::ext2::superblock::Superblock;
use ext2_core::ext2::tree::block_path_of;
use ext2_core::ext2::volume::is_power_of;
use ext2_core::fs::{DirEntry, FileType, Mode};

fn sample_superblock() -> Superblock {
    Superblock {
        inodes_count: 1024,
        blocks_count: 4096,
        reserved_blocks_count: 204,
        free_blocks_count: 3962,
        free_inodes_count: 1013,
        first_data_block_block_index: 1,
        log_block_size: 0,
        block_count_per_block_group: 8192,
        inode_count_per_block_group: 1024,
        mount_time: 0x6543_2100,
        write_time: 0x6543_2101,
        mount_count: 3,
        max_mount_count: 0xffff,
        state: 1,
        errors: 2,
        minor_revision_level: 7,
        last_check_time: 0x6543_0000,
        check_interval: 86400,
        creator_os: 0,
        revision_level: 1,
        default_reserved_uid: 5,
        default_reserved_gid: 6,
        first_usable_inode_index: 11,
        inode_size: 128,
        block_group_index: 9,
        features_compat: 0x38,
        features_incompat: 0x2,
        features_ro_compat: 0x3,
    }
}

#[test]
fn little_endian_integers() {
    let mut buffer = vec![0u8; 12];
    write_u32(&mut buffer, 2, 0x1234_5678);
    assert_eq!(buffer[..8], [0, 0, 0x78, 0x56, 0x34, 0x12, 0, 0]);
    assert_eq!(read_u32(&buffer, 2), 0x1234_5678);
    assert_eq!(read_u16(&buffer, 4), 0x1234);
    write_u16(&mut buffer, 8, 0xEF53);
    assert_eq!(buffer[8..10], [0x53, 0xEF]);
    write_u8(&mut buffer, 11, 9);
    assert_eq!(read_u64(&buffer, 4), 0x0900_EF53_0000_1234);
}

#[test]
fn buffer_helpers() {
    let mut target = vec![1u8; 6];
    copy_into(&mut target, 2, &[7, 8, 9]);
    assert_eq!(target, vec![1, 1, 7, 8, 9, 1]);
    assert_eq!(zeroed(3), vec![0, 0, 0]);
    assert!(is_all_zero(&[0, 0, 0]));
    assert!(is_all_zero(&[]));
    assert!(!is_all_zero(&[0, 0, 1]));
}

#[test]
fn superblock_round_trip() {
    let superblock = sample_superblock();
    let mut data = vec![0u8; 1024];
    superblock.update_bytes(&mut data);
    assert!(Superblock::bytes_are_valid(&data));
    assert_eq!(Superblock::of_bytes(&data), superblock);
}

#[test]
fn superblock_layout() {
    let superblock = sample_superblock();
    let mut data = vec![0xaau8; 1024];
    superblock.update_bytes(&mut data);
    assert_eq!(data[..4], [0x00, 0x04, 0, 0]); // inodes
    assert_eq!(data[4..8], [0x00, 0x10, 0, 0]); // blocks
    assert_eq!(data[24..28], data[28..32]); // block and fragment size
    assert_eq!(data[32..36], [0x00, 0x20, 0, 0]);
    assert_eq!(data[32..36], data[36..40]); // blocks and fragments per group
    assert_eq!(data[56..58], [0x53, 0xEF]); // magic
    assert_eq!(data[88..90], [128, 0]); // inode size
    assert_eq!(data[90..92], [9, 0]); // group of this copy
    assert_eq!(data[100..104], [3, 0, 0, 0]);
    // nothing past the fields is touched
    assert!(data[104..].iter().all(|&byte| byte == 0xaa));
    assert_eq!(superblock.block_size(), 1024);
    assert_eq!(Superblock { log_block_size: 2, ..superblock }.block_size(), 4096);
    assert!(superblock.sparse_super());
    assert!(!Superblock { features_ro_compat: 2, ..superblock }.sparse_super());
}

#[test]
fn superblock_validity() {
    let mut data = vec![0u8; 1024];
    sample_superblock().update_bytes(&mut data);
    assert!(!Superblock::bytes_are_valid(&data[..100]));
    let mut wrong_magic = data.clone();
    wrong_magic[56] = 0x54;
    assert!(!Superblock::bytes_are_valid(&wrong_magic));
    let mut fragments = data.clone();
    fragments[28] = 1;
    assert!(!Superblock::bytes_are_valid(&fragments));
    let mut per_group = data.clone();
    per_group[36] = 1;
    assert!(!Superblock::bytes_are_valid(&per_group));
}

#[test]
fn superblock_layout_checks() {
    let superblock = sample_superblock();
    assert!(superblock.has_sound_layout());
    assert!(!Superblock { log_block_size: 14, ..superblock }.has_sound_layout());
    assert!(!Superblock { block_count_per_block_group: 0, ..superblock }.has_sound_layout());
    assert!(!Superblock { block_count_per_block_group: 8193, ..superblock }.has_sound_layout());
    assert!(!Superblock { inode_count_per_block_group: 0, ..superblock }.has_sound_layout());
    assert!(!Superblock { inode_size: 96, ..superblock }.has_sound_layout());
    assert!(!Superblock { inode_size: 384, ..superblock }.has_sound_layout());
    assert!(!Superblock { first_data_block_block_index: 0, ..superblock }.has_sound_layout());
    let larger = Superblock {
        log_block_size: 1,
        first_data_block_block_index: 0,
        inode_size: 256,
        ..superblock
    };
    assert!(larger.has_sound_layout());
    assert_eq!(superblock.group_count(4096), 1);
    assert_eq!(superblock.group_count(1), 0);
    assert_eq!(superblock.group_count(8193), 1);
    assert_eq!(superblock.group_count(8194), 2);
}

#[test]
fn descriptor_round_trip() {
    let descriptor = BlockGroupDescriptor {
        block_bitmap_block_index: 0x0102_0304,
        inode_bitmap_block_index: 5,
        inode_table_first_block_index: 6,
        free_blocks_count: 0xfffe,
        free_inodes_count: 1013,
        used_dirs_count: 2,
    };
    let mut data = vec![0x11u8; 32];
    descriptor.update_bytes(&mut data);
    assert_eq!(data[..4], [4, 3, 2, 1]);
    assert_eq!(data[12..14], [0xfe, 0xff]);
    assert_eq!(data[14..16], [0xf5, 0x03]);
    assert!(data[18..].iter().all(|&byte| byte == 0x11));
    assert_eq!(BlockGroupDescriptor::of_bytes(&data), descriptor);
}

#[test]
fn inode_round_trip() {
    let inode = Inode {
        mode: Mode::from_file_type_and_permissions(0o640, FileType::RegularFile),
        uid: 1000,
        size: 0xdead_beef,
        access_time: 11,
        creation_time: 12,
        modification_time: 13,
        deletion_time: 14,
        gid: 100,
        links_count: 2,
        sector_count: 16,
        flags: 0x10,
        os_dependent_1: [1, 2, 3, 4],
        data_block_map: [
            101, 102, 103, 104, 105, 106, 107, 108, 109, 110, 111, 112, 0xffff_ffff, 0, 115,
        ],
        generation: 77,
        file_acl: 78,
        dir_arc: 79,
        faddr: 80,
        os_dependent_2: [21, 22, 23, 24, 25, 26, 27, 28, 29, 30, 31, 32],
    };
    let mut data = vec![0x33u8; 256];
    inode.update_bytes(&mut data);
    assert_eq!(data[..2], [0xa0, 0x81]);
    assert_eq!(data[4..8], [0xef, 0xbe, 0xad, 0xde]);
    assert_eq!(data[36..40], [1, 2, 3, 4]);
    assert_eq!(data[40..44], [101, 0, 0, 0]);
    assert_eq!(data[88..92], [0xff, 0xff, 0xff, 0xff]);
    assert_eq!(data[116..128], [21, 22, 23, 24, 25, 26, 27, 28, 29, 30, 31, 32]);
    assert!(data[128..].iter().all(|&byte| byte == 0x33));
    assert_eq!(Inode::of_bytes(&data), inode);
    let empty = Inode::empty(Mode::from_bits_retain(0x4000));
    let mut zeros = vec![0xffu8; 128];
    empty.update_bytes(&mut zeros);
    assert_eq!(zeros[..2], [0x00, 0x40]);
    assert!(zeros[2..].iter().all(|&byte| byte == 0));
}

#[test]
fn bitmap_bits() {
    let mut bitmap = Bitmap { data: vec![0u8; 4] };
    bitmap.set(3, true);
    bitmap.set(9, true);
    assert_eq!(bitmap.data, vec![0b0000_1000, 0b0000_0010, 0, 0]);
    // a bit is its own: higher bits of the byte do not count
    assert!(!bitmap.get(0));
    assert!(!bitmap.get(2));
    assert!(bitmap.get(3));
    assert!(!bitmap.get(8));
    assert!(bitmap.get(9));
    bitmap.set(3, false);
    assert!(!bitmap.get(3));
    assert_eq!(bitmap.data[0], 0);
    bitmap.set(31, true);
    assert_eq!(bitmap.data[3], 0x80);
    assert_eq!(bitmap.first_clear(32), Some(0));
    let full = Bitmap { data: vec![0xff, 0xff, 0b1011_1111] };
    assert_eq!(full.first_clear(24), Some(22));
    assert_eq!(full.first_clear(22), None);
    assert_eq!(full.first_clear(0), None);
}

#[test]
fn file_types() {
    let all = [
        (FileType::RegularFile, 1u8, 0x8000u32),
        (FileType::Dir, 2, 0x4000),
        (FileType::CharacterDevice, 3, 0x2000),
        (FileType::BlockDevice, 4, 0x6000),
        (FileType::Fifo, 5, 0x1000),
        (FileType::Socket, 6, 0xC000),
        (FileType::SymbolicLink, 7, 0xA000),
    ];
    for (file_type, code, bits) in all {
        assert_eq!(file_type.inode_file_type(), code);
        assert_eq!(FileType::from_inode_file_type(code), Some(file_type));
        let mode = Mode::from_file_type_and_permissions(0o7777, file_type);
        assert_eq!(mode.bits(), bits | 0o7777);
        assert!(mode.has_file_type());
        assert_eq!(mode.file_type(), file_type);
        assert_eq!(mode.permissions(), 0o7777);
    }
    assert_eq!(FileType::from_inode_file_type(0), None);
    assert_eq!(FileType::from_inode_file_type(8), None);
    assert!(!Mode::from_bits_retain(0o644).has_file_type());
    assert!(!Mode::from_bits_retain(0x3000).has_file_type());
    assert!(!Mode::from_bits_retain(0x1_8000).has_file_type());
    // permissions are kept as they are given
    assert_eq!(Mode::from_file_type_and_permissions(0x8001, FileType::Fifo).bits(), 0x9001);
}

#[test]
fn dir_entry_records() {
    let entry = DirEntry {
        inode_index: 0x0102_0304,
        file_type: Some(FileType::SymbolicLink),
        name: String::from("na\u{ef}ve"),
    };
    let record = entry.to_bytes();
    assert_eq!(record.len(), 512);
    assert_eq!(record[..4], [4, 3, 2, 1]);
    assert_eq!(record[4..6], [0, 2]);
    assert_eq!(record[6], 6);
    assert_eq!(record[7], 7);
    assert_eq!(&record[8..14], "na\u{ef}ve".as_bytes());
    assert!(record[14..].iter().all(|&byte| byte == 0));
    assert!(DirEntry::bytes_are_valid(&record));
    let (parsed, rest) = DirEntry::of_bytes(&record);
    assert_eq!(parsed.inode_index, entry.inode_index);
    assert_eq!(parsed.file_type, entry.file_type);
    assert_eq!(parsed.name, entry.name);
    assert!(rest.is_empty());
}

#[test]
fn dir_entry_streams() {
    let entries = vec![
        DirEntry { inode_index: 2, file_type: Some(FileType::Dir), name: String::from(".") },
        DirEntry { inode_index: 0, file_type: None, name: String::new() },
        DirEntry {
            inode_index: 12,
            file_type: Some(FileType::RegularFile),
            name: "x".repeat(255),
        },
    ];
    let data = DirEntry::many_to_bytes(&entries);
    assert_eq!(data.len(), 3 * 512);
    assert!(DirEntry::many_bytes_are_valid(&data));
    let parsed = DirEntry::many_of_bytes(&data);
    assert_eq!(parsed.len(), 3);
    for (a, b) in parsed.iter().zip(entries.iter()) {
        assert_eq!(a.inode_index, b.inode_index);
        assert_eq!(a.file_type, b.file_type);
        assert_eq!(a.name, b.name);
    }
    assert_eq!(DirEntry::many_to_bytes(&[]), Vec::<u8>::new());
    assert!(DirEntry::many_bytes_are_valid(&[]));
    assert_eq!(DirEntry::many_of_bytes(&[]).len(), 0);
}

#[test]
fn dir_entry_records_of_any_length_are_read() {
    // two records of 12 and 20 bytes, the second with a name that is no UTF-8
    let mut data = vec![0u8; 32];
    data[..12].copy_from_slice(&[5, 0, 0, 0, 12, 0, 2, 1, b'a', b'b', 0, 0]);
    data[12..24].copy_from_slice(&[6, 0, 0, 0, 20, 0, 3, 9, b'c', 0xff, b'd', 0]);
    assert!(DirEntry::many_bytes_are_valid(&data));
    let parsed = DirEntry::many_of_bytes(&data);
    assert_eq!(parsed.len(), 2);
    assert_eq!(parsed[0].inode_index, 5);
    assert_eq!(parsed[0].name, "ab");
    assert_eq!(parsed[0].file_type, Some(FileType::RegularFile));
    assert_eq!(parsed[1].inode_index, 6);
    assert_eq!(parsed[1].name, "c\u{fffd}d");
    assert_eq!(parsed[1].file_type, None);
    // a record that runs past the end, one shorter than its name, one too short
    assert!(!DirEntry::many_bytes_are_valid(&data[..30]));
    let mut short = data.clone();
    short[4] = 9;
    assert!(!DirEntry::bytes_are_valid(&short));
    assert!(!DirEntry::many_bytes_are_valid(&short));
    assert!(!DirEntry::bytes_are_valid(&data[..7]));
    let mut zero = data.clone();
    zero[4] = 0;
    assert!(!DirEntry::many_bytes_are_valid(&zero));
}

#[test]
fn powers() {
    assert!(is_power_of(1, 3));
    assert!(is_power_of(3, 3));
    assert!(is_power_of(243, 3));
    assert!(!is_power_of(2, 3));
    assert!(!is_power_of(6, 3));
    assert!(!is_power_of(244, 3));
    assert!(is_power_of(125, 5));
    assert!(!is_power_of(15, 5));
    assert!(is_power_of(49, 7));
    assert!(is_power_of(12157665459056928801, 3));
    assert!(!is_power_of(u64::MAX, 3));
    assert!(!is_power_of(u64::MAX, 7));
}

#[test]
fn paths_when_a_block_holds_1024_indices() {
    let n = 1024u64;
    assert_eq!(block_path_of(n, 11), vec![11]);
    assert_eq!(block_path_of(n, 12 + 1023), vec![12, 1023]);
    assert_eq!(block_path_of(n, 12 + 1024), vec![13, 0, 0]);
    assert_eq!(block_path_of(n, 12 + 1024 + 5 * 1024 + 6), vec![13, 5, 6]);
    let triple = 12 + n + n * n;
    assert_eq!(block_path_of(n, triple), vec![14, 0, 0, 0]);
    assert_eq!(block_path_of(n, triple + 3 * n * n + 4 * n + 5), vec![14, 3, 4, 5]);
    assert_eq!(block_path_of(n, triple + n * n * n - 1), vec![14, 1023, 1023, 1023]);
}
