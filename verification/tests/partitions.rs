use ext2_core::ext2::mounted::Mounted;
use ext2_core::ext2::superblock::Superblock;
use ext2_core::fs::Error;
use ext2_core::guid::Guid;
use ext2_core::partitions::{read_partition_table, Partition};
use ext2_core::sector_storage::{MemoryStorage, SectorStorage};

const SECTORS: usize = 64;

fn linux_type() -> [u8; 16] {
    [
        0xAF, 0x3D, 0xC6, 0x0F, 0x83, 0x84, 0x72, 0x47, 0x8E, 0x79, 0x3D, 0x69, 0xD8, 0x47, 0x7D,
        0xE4,
    ]
}

fn put_entry(disk: &mut [u8], at: usize, id: u8, start: u64, end: u64, flags: u64, name: &[u16]) {
    disk[at..at + 16].copy_from_slice(&linux_type());
    disk[at + 16..at + 32].copy_from_slice(&[id; 16]);
    disk[at + 32..at + 40].copy_from_slice(&start.to_le_bytes());
    disk[at + 40..at + 48].copy_from_slice(&end.to_le_bytes());
    disk[at + 48..at + 56].copy_from_slice(&flags.to_le_bytes());
    for (i, unit) in name.iter().enumerate() {
        disk[at + 56 + 2 * i..at + 58 + 2 * i].copy_from_slice(&unit.to_le_bytes());
    }
}

fn units(text: &str) -> Vec<u16> {
    text.encode_utf16().collect()
}

/// A device with a table of four entries of 128 bytes from sector 2 on.
fn make_disk() -> Vec<u8> {
    let mut disk = vec![0u8; SECTORS * 512];
    disk[512..520].copy_from_slice(b"EFI PART");
    disk[512 + 56..512 + 72].copy_from_slice(&[0x77; 16]);
    disk[512 + 72..512 + 80].copy_from_slice(&2u64.to_le_bytes());
    disk[512 + 80..512 + 84].copy_from_slice(&6u32.to_le_bytes());
    disk[512 + 84..512 + 88].copy_from_slice(&128u32.to_le_bytes());
    put_entry(&mut disk, 1024, 1, 8, 15, 0, &units("kernel_root"));
    // entry 1 is not in use
    put_entry(&mut disk, 1024 + 256, 3, 16, 16, 0x8000_0000_0000_0001, &[]);
    put_entry(&mut disk, 1024 + 384, 4, 17, 63, 2, &units("a\u{e9}\u{20ac}"));
    // a name that fills its place has no closing zero
    put_entry(&mut disk, 1024 + 512, 5, 20, 21, 0, &[0x78; 36]);
    // a name with half of a surrogate pair
    put_entry(&mut disk, 1024 + 640, 6, 22, 22, 0, &[0x61, 0xd800]);
    disk
}

fn table_of(disk: Vec<u8>) -> Result<Option<Vec<Partition>>, Error> {
    let storage = MemoryStorage::new(disk).unwrap();
    read_partition_table(&storage).map(|table| table.map(|table| table.partitions))
}

#[test]
fn a_device_without_signature_has_no_table() {
    assert_eq!(table_of(vec![0u8; SECTORS * 512]), Ok(None));
    let mut disk = make_disk();
    disk[519] = b't';
    assert_eq!(table_of(disk), Ok(None));
}

#[test]
fn the_table_is_read() {
    let storage = MemoryStorage::new(make_disk()).unwrap();
    let table = read_partition_table(&storage).unwrap().unwrap();
    assert_eq!(table.id, Guid::from_bytes([0x77; 16]));
    let partitions = table.partitions;
    assert_eq!(partitions.len(), 5);
    assert_eq!(
        partitions[0],
        Partition {
            type_id: Guid::type_id_linux(),
            id: Guid::from_bytes([1; 16]),
            starting_sector: 8,
            ending_sector: 15,
            flags: 0,
            name: Some(String::from("kernel_root")),
        }
    );
    assert_eq!(partitions[1].id, Guid::from_bytes([3; 16]));
    assert_eq!(partitions[1].flags, 0x8000_0000_0000_0001);
    assert_eq!(partitions[1].name, Some(String::new()));
    assert_eq!(partitions[2].name, Some(String::from("a\u{e9}\u{20ac}")));
    assert_eq!(partitions[2].ending_sector, 63);
    assert_eq!(partitions[3].name, None);
    assert_eq!(partitions[4].name, None);
    assert!(Guid::zero().is_zero());
    assert!(!Guid::type_id_linux().is_zero());
    assert_eq!(Guid::type_id_linux().bytes, linux_type());
}

#[test]
fn a_table_that_does_not_fit_the_device_is_corrupt() {
    // a partition that ends past the device
    let mut disk = make_disk();
    disk[1024 + 40] = 64;
    assert_eq!(table_of(disk), Err(Error::Corrupt));
    // a partition that ends before it starts
    let mut disk = make_disk();
    disk[1024 + 32] = 16;
    assert_eq!(table_of(disk), Err(Error::Corrupt));
    // entries of a size that does not divide the sector
    let mut disk = make_disk();
    disk[512 + 84] = 96;
    assert_eq!(table_of(disk), Err(Error::Corrupt));
    let mut disk = make_disk();
    disk[512 + 84] = 0;
    assert_eq!(table_of(disk), Err(Error::Corrupt));
    let mut disk = make_disk();
    disk[512 + 84] = 32;
    assert_eq!(table_of(disk), Err(Error::Corrupt));
    // entries past the device
    let mut disk = make_disk();
    disk[512 + 72] = 63;
    assert_eq!(table_of(disk), Err(Error::Corrupt));
    let mut disk = make_disk();
    disk[512 + 72..512 + 80].copy_from_slice(&u64::MAX.to_le_bytes());
    assert_eq!(table_of(disk), Err(Error::Corrupt));
    // the same entries, where none is read, are no fault
    let mut disk = make_disk();
    disk[512 + 72] = 63;
    disk[512 + 80] = 0;
    assert_eq!(table_of(disk), Ok(Some(vec![])));
}

#[test]
fn entries_of_other_sizes() {
    let mut disk = vec![0u8; SECTORS * 512];
    disk[512..520].copy_from_slice(b"EFI PART");
    disk[512 + 72] = 3;
    disk[512 + 80] = 9;
    disk[512 + 84] = 64;
    put_entry(&mut disk, 3 * 512 + 8 * 64, 9, 1, 2, 0, &[0x41, 0, 0, 0]);
    let partitions = table_of(disk).unwrap().unwrap();
    assert_eq!(partitions.len(), 1);
    assert_eq!(partitions[0].name, Some(String::from("A")));
    assert_eq!(partitions[0].starting_sector, 1);
}

#[test]
fn a_partition_is_a_device() {
    let mut disk = make_disk();
    for sector in 0..SECTORS {
        disk[sector * 512 + 100] = sector as u8;
    }
    let storage = MemoryStorage::new(disk).unwrap();
    let partitions = read_partition_table(&storage).unwrap().unwrap().partitions;
    let root = partitions.into_iter().next().unwrap();
    let mut window = (storage, root);
    assert_eq!(window.sector_count(), 8);
    assert_eq!(window.len(), 4096);
    assert_eq!(window.read_sector(0)[100], 8);
    assert_eq!(window.read_sector(7)[100], 15);
    let mut sector = [0u8; 512];
    sector[3] = 0x99;
    window.write_sector(2, sector);
    assert_eq!(window.read_sector(2), sector);
    assert_eq!(window.read_aligned(1024, 512), sector.to_vec());
    let (storage, _) = window;
    let bytes = storage.into_bytes();
    assert_eq!(bytes[10 * 512 + 3], 0x99);
    assert_eq!(bytes[9 * 512 + 100], 9);
    assert_eq!(bytes[11 * 512 + 100], 11);
}

#[test]
fn aligned_ranges_of_a_device() {
    let mut storage = MemoryStorage::new(vec![0u8; 4096]).unwrap();
    assert!(MemoryStorage::new(vec![0u8; 100]).is_none());
    assert_eq!(storage.sector_count(), 8);
    assert_eq!(storage.len(), 4096);
    let data: Vec<u8> = (0..1536).map(|i| (i % 253) as u8).collect();
    storage.write_aligned(1024, &data);
    assert_eq!(storage.read_aligned(1024, 1536), data);
    assert_eq!(storage.read_aligned(512, 512), vec![0u8; 512]);
    assert_eq!(storage.read_aligned(2560, 512), vec![0u8; 512]);
    assert_eq!(storage.read_sector(3)[..], data[512..1024]);
    assert_eq!(storage.read_aligned(0, 0), Vec::<u8>::new());
    assert_eq!(storage.as_bytes()[1024..2560], data[..]);
}

fn superblock(blocks_per_group: u64, sparse: bool) -> Superblock {
    Superblock {
        inodes_count: 64,
        blocks_count: 1200,
        reserved_blocks_count: 0,
        free_blocks_count: 1000,
        free_inodes_count: 50,
        first_data_block_block_index: 1,
        log_block_size: 0,
        block_count_per_block_group: blocks_per_group,
        inode_count_per_block_group: 16,
        mount_time: 0,
        write_time: 0,
        mount_count: 0,
        max_mount_count: 0,
        state: 1,
        errors: 1,
        minor_revision_level: 0,
        last_check_time: 0,
        check_interval: 0,
        creator_os: 0,
        revision_level: 1,
        default_reserved_uid: 0,
        default_reserved_gid: 0,
        first_usable_inode_index: 11,
        inode_size: 128,
        block_group_index: 0,
        features_compat: 0,
        features_incompat: 0,
        features_ro_compat: if sparse { 1 } else { 0 },
    }
}

#[test]
fn superblock_copies_are_written() {
    let mut image = vec![0x11u8; 1200 * 1024];
    let primary = superblock(256, true);
    primary.update_bytes(&mut image[1024..2048]);
    let mut mounted = Mounted::new(MemoryStorage::new(image).unwrap()).unwrap();
    assert_eq!(mounted.block_size(), 1024);
    assert_eq!(mounted.block_count(), 1200);
    let ranges = mounted.block_group_ranges();
    assert_eq!(ranges, vec![1..257, 257..513, 513..769, 769..1025, 1025..1200]);
    assert!(mounted.block_group_index_contains_superblock_copies(0));
    assert!(mounted.block_group_index_contains_superblock_copies(1));
    assert!(!mounted.block_group_index_contains_superblock_copies(2));
    assert!(mounted.block_group_index_contains_superblock_copies(3));
    assert!(!mounted.block_group_index_contains_superblock_copies(4));
    mounted.write_superblock_copies();
    let bytes = mounted.into_sector_storage().into_bytes();
    for group in [0u64, 1, 3] {
        let start = (1 + group * 256) as usize * 1024;
        assert_eq!(
            Superblock::of_bytes(&bytes[start..start + 1024]),
            Superblock { block_group_index: group, ..primary }
        );
        // what no field covers stays
        assert!(bytes[start + 104..start + 1024].iter().all(|&byte| byte == 0x11));
    }
    for group in [2u64, 4] {
        let start = (1 + group * 256) as usize * 1024;
        assert!(bytes[start..start + 1024].iter().all(|&byte| byte == 0x11));
    }
}

#[test]
fn a_device_without_superblock_is_not_mounted() {
    let empty = MemoryStorage::new(vec![0u8; 8192]).unwrap();
    assert_eq!(Mounted::new(empty).err(), Some(Error::Corrupt));
    let mut image = vec![0u8; 8192];
    Superblock { inode_size: 100, ..superblock(256, false) }.update_bytes(&mut image[1024..2048]);
    assert_eq!(Mounted::new(MemoryStorage::new(image).unwrap()).err(), Some(Error::Corrupt));
}
