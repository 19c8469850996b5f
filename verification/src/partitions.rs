//! The GUID partition table of a device, and partitions as devices of their
//! own.

use crate::bytes::{le_u16, le_u32, le_u64, read_u16, read_u32, read_u64, splice};
use crate::fs::Error;
use crate::guid::Guid;
use crate::sector_storage::{SectorStorage, SECTOR_SIZE};
use vstd::prelude::*;

verus! {

/// Byte offset of the name in a partition entry.
pub const PARTITION_NAME_OFFSET: usize = 56;

/// One partition of a device.
#[derive(PartialEq, Eq, Debug)]
pub struct Partition {
    /// What the partition is for.
    pub type_id: Guid,
    /// The partition itself.
    pub id: Guid,
    /// The first sector of the partition.
    pub starting_sector: u64,
    /// The last sector of the partition.
    pub ending_sector: u64,
    /// Attributes of the partition.
    pub flags: u64,
    /// The name of the partition, where the entry holds one.
    pub name: Option<String>,
}

/// The partitions of a device.
#[derive(PartialEq, Eq, Debug)]
pub struct PartitionTable {
    /// The device itself.
    pub id: Guid,
    /// The partitions that are in use, in the order of their entries.
    pub partitions: Vec<Partition>,
}

/// A partition as a mathematical value.
pub struct PartitionView {
    pub type_id: Guid,
    pub id: Guid,
    pub starting_sector: u64,
    pub ending_sector: u64,
    pub flags: u64,
    pub name: Option<Seq<char>>,
}

/// A partition table as a mathematical value.
pub struct PartitionTableView {
    pub id: Guid,
    pub partitions: Seq<PartitionView>,
}

impl View for Partition {
    type V = PartitionView;

    open spec fn view(&self) -> PartitionView {
        PartitionView {
            type_id: self.type_id,
            id: self.id,
            starting_sector: self.starting_sector,
            ending_sector: self.ending_sector,
            flags: self.flags,
            name: match self.name {
                Some(name) => Some(name@),
                None => None,
            },
        }
    }
}

impl View for PartitionTable {
    type V = PartitionTableView;

    open spec fn view(&self) -> PartitionTableView {
        PartitionTableView { id: self.id, partitions: partition_views(self.partitions@) }
    }
}

/// The partitions of a list, each as a mathematical value.
pub open spec fn partition_views(partitions: Seq<Partition>) -> Seq<PartitionView> {
    Seq::new(partitions.len(), |i: int| partitions[i]@)
}

/// The result of reading a partition table, as a mathematical value.
pub open spec fn table_view(table: Result<Option<PartitionTable>, Error>) -> Result<
    Option<PartitionTableView>,
    Error,
> {
    match table {
        Ok(Some(table)) => Ok(Some(table@)),
        Ok(None) => Ok(None),
        Err(error) => Err(error),
    }
}

/// What the header of a partition table says of the entries.
pub struct TableHeader {
    /// The table, that is, the device.
    pub id: Guid,
    /// The sector where the entries start.
    pub entries_starting_sector: u64,
    /// Number of entries.
    pub partition_count: u64,
    /// Bytes of each entry.
    pub partition_entry_size: u64,
}

/// The eight bytes that start the header of a partition table: "EFI PART".
pub open spec fn signature() -> Seq<u8> {
    seq![0x45u8, 0x46, 0x49, 0x20, 0x50, 0x41, 0x52, 0x54]
}

/// The code units are text that ends with its only zero, and none of them is
/// half of a surrogate pair.
pub open spec fn ucs2_valid(units: Seq<u16>) -> bool {
    &&& units.len() >= 1
    &&& units.last() == 0
    &&& forall|i: int|
        0 <= i < units.len() - 1 ==> (#[trigger] units[i]) != 0 && !(0xD800 <= units[i] <= 0xDFFF)
}

/// The text that the code units before the closing zero stand for.
pub open spec fn ucs2_chars(units: Seq<u16>) -> Seq<char> {
    Seq::new((units.len() - 1) as nat, |i: int| units[i] as u32 as char)
}

/// The text of code units with a closing zero, if they are valid.
pub open spec fn ucs2_text(units: Seq<u16>) -> Option<Seq<char>> {
    if ucs2_valid(units) {
        Some(ucs2_chars(units))
    } else {
        None
    }
}

/// The code units without the zeros at their end, but for one.
pub open spec fn trimmed(units: Seq<u16>) -> Seq<u16>
    decreases units.len(),
{
    if units.len() >= 2 && units[units.len() - 1] == 0 && units[units.len() - 2] == 0 {
        trimmed(units.drop_last())
    } else {
        units
    }
}

/// The code units of the name in a partition entry: sixteen bits each, low
/// byte first, from byte 56 to the end of the entry.
pub open spec fn name_units(entry: Seq<u8>) -> Seq<u16> {
    Seq::new(
        ((entry.len() - PARTITION_NAME_OFFSET) / 2) as nat,
        |i: int| le_u16(entry, PARTITION_NAME_OFFSET + 2 * i) as u16,
    )
}

/// The partition that an entry describes.
pub open spec fn partition_of(entry: Seq<u8>) -> PartitionView {
    PartitionView {
        type_id: Guid::decode(entry),
        id: Guid::decode(entry.subrange(16, 32)),
        starting_sector: le_u64(entry, 32) as u64,
        ending_sector: le_u64(entry, 40) as u64,
        flags: le_u64(entry, 48) as u64,
        name: ucs2_text(trimmed(name_units(entry))),
    }
}

impl TableHeader {
    /// The header that sector 1 of a device holds.
    pub open spec fn decode(sector: Seq<u8>) -> TableHeader {
        TableHeader {
            id: Guid::decode(sector.subrange(56, 72)),
            entries_starting_sector: le_u64(sector, 72) as u64,
            partition_count: le_u32(sector, 80) as u64,
            partition_entry_size: le_u32(sector, 84) as u64,
        }
    }

    /// Entries hold what an entry must hold, and fill sectors without
    /// straddling them.
    pub open spec fn entry_size_ok(self) -> bool {
        PARTITION_NAME_OFFSET <= self.partition_entry_size && SECTOR_SIZE as int % (
        self.partition_entry_size as int) == 0
    }

    /// Byte offset of entry `index` on the device.
    pub open spec fn entry_start(self, index: int) -> int {
        self.entries_starting_sector * SECTOR_SIZE + index * self.partition_entry_size
    }

    /// The bytes of entry `index`.
    pub open spec fn entry(self, disk: Seq<u8>, index: int) -> Seq<u8> {
        disk.subrange(self.entry_start(index), self.entry_start(index) + self.partition_entry_size)
    }

    /// Entry `index` lies on the device, and so does the partition that it
    /// describes, which ends no earlier than it starts.
    pub open spec fn entry_ok(self, disk: Seq<u8>, index: int) -> bool {
        let partition = partition_of(self.entry(disk, index));
        &&& self.entry_start(index) + self.partition_entry_size <= disk.len()
        &&& partition.starting_sector <= partition.ending_sector
        &&& (partition.ending_sector + 1) * SECTOR_SIZE <= disk.len()
    }

    /// The partitions that the first `count` entries describe, but for those
    /// whose identifier is zero.
    pub open spec fn partitions_upto(self, disk: Seq<u8>, count: int) -> Seq<PartitionView>
        decreases count,
    {
        if count <= 0 {
            Seq::empty()
        } else {
            let before = self.partitions_upto(disk, count - 1);
            let partition = partition_of(self.entry(disk, count - 1));
            if partition.id.spec_is_zero() {
                before
            } else {
                before.push(partition)
            }
        }
    }
}

/// The partition table of a device: none where sector 1 does not start with
/// the signature. It is `Corrupt` where the size of the entries is not sound,
/// or one of the entries is not (`TableHeader::entry_ok`).
pub open spec fn partition_table_of(disk: Seq<u8>) -> Result<Option<PartitionTableView>, Error> {
    let sector = disk.subrange(SECTOR_SIZE as int, 2 * SECTOR_SIZE);
    let header = TableHeader::decode(sector);
    if sector.subrange(0, 8) != signature() {
        Ok(None)
    } else if !header.entry_size_ok() || exists|index: int|
        0 <= index < header.partition_count && !#[trigger] header.entry_ok(disk, index) {
        Err(Error::Corrupt)
    } else {
        Ok(
            Some(
                PartitionTableView {
                    id: header.id,
                    partitions: header.partitions_upto(disk, header.partition_count as int),
                },
            ),
        )
    }
}

/// The text of `units`, as `uefi::CStr16::from_u16_with_nul` checks them and
/// as their `Display` shows them: text where the last unit is the only zero
/// and no unit is half of a surrogate pair, one character for each unit
/// before the zero; and none else.
#[verifier::external_body]
fn text_of_units(units: &[u16]) -> (text: Option<String>)
    ensures
        text is Some <==> ucs2_valid(units@),
        text matches Some(t) ==> t@ == ucs2_chars(units@),
{
    match uefi::CStr16::from_u16_with_nul(units) {
        Ok(text) => Some(text.to_string()),
        Err(_) => None,
    }
}

/// Whether `data` starts with the signature of a partition table header.
fn has_signature(data: &[u8]) -> (has: bool)
    requires
        data@.len() >= 8,
    ensures
        has == (data@.subrange(0, 8) == signature()),
{
    let has = data[0] == 0x45 && data[1] == 0x46 && data[2] == 0x49 && data[3] == 0x20 && data[4]
        == 0x50 && data[5] == 0x41 && data[6] == 0x52 && data[7] == 0x54;
    proof {
        if has {
            assert(data@.subrange(0, 8) =~= signature());
        } else {
            assert(data@.subrange(0, 8)[0] == data@[0]);
            assert(data@.subrange(0, 8)[1] == data@[1]);
            assert(data@.subrange(0, 8)[2] == data@[2]);
            assert(data@.subrange(0, 8)[3] == data@[3]);
            assert(data@.subrange(0, 8)[4] == data@[4]);
            assert(data@.subrange(0, 8)[5] == data@[5]);
            assert(data@.subrange(0, 8)[6] == data@[6]);
            assert(data@.subrange(0, 8)[7] == data@[7]);
        }
    }
    has
}

/// The name in a partition entry: see `name_units`, `trimmed` and
/// `ucs2_text`.
fn name_of_entry(entry: &[u8]) -> (name: Option<String>)
    requires
        entry@.len() >= PARTITION_NAME_OFFSET,
        entry@.len() <= 512,
    ensures
        match name {
            Some(name) => ucs2_text(trimmed(name_units(entry@))) == Some(name@),
            None => ucs2_text(trimmed(name_units(entry@))) is None,
        },
{
    let count = (entry.len() - PARTITION_NAME_OFFSET) / 2;
    let mut units: Vec<u16> = Vec::new();
    let mut i: usize = 0;
    while i < count
        invariant
            entry@.len() >= PARTITION_NAME_OFFSET,
            entry@.len() <= 512,
            count == (entry@.len() - PARTITION_NAME_OFFSET) / 2,
            i <= count,
            units@ == name_units(entry@).subrange(0, i as int),
        decreases count - i,
    {
        units.push(read_u16(entry, PARTITION_NAME_OFFSET + 2 * i));
        assert(units@ =~= name_units(entry@).subrange(0, i + 1));
        i += 1;
    }
    assert(units@ =~= name_units(entry@));
    let mut len = units.len();
    while len >= 2 && units[len - 1] == 0 && units[len - 2] == 0
        invariant
            len <= units@.len(),
            trimmed(units@.subrange(0, len as int)) == trimmed(units@),
        decreases len,
    {
        assert(units@.subrange(0, len as int).drop_last() =~= units@.subrange(0, len - 1));
        len -= 1;
    }
    proof {
        assert(units@.subrange(0, units@.len() as int) =~= units@);
    }
    text_of_units(&units[0..len])
}

/// The partition that the entry `entry` describes.
fn partition_of_entry(entry: &[u8]) -> (partition: Partition)
    requires
        PARTITION_NAME_OFFSET <= entry@.len() <= 512,
    ensures
        partition@ == partition_of(entry@),
{
    Partition {
        type_id: Guid::of_bytes(entry),
        id: Guid::of_bytes(&entry[16..32]),
        starting_sector: read_u64(entry, 32),
        ending_sector: read_u64(entry, 40),
        flags: read_u64(entry, 48),
        name: name_of_entry(entry),
    }
}

/// Reads entry `index` of the partition table; `Corrupt` where the entry, or
/// the partition that it describes, does not lie on the device.
fn read_partition_entry<SS: SectorStorage>(
    sector_storage: &SS,
    header: &TableHeader,
    index: u64,
) -> (partition: Result<Partition, Error>)
    requires
        sector_storage.inv(),
        header.entry_size_ok(),
        header.partition_entry_size <= 512,
        index <= u32::MAX,
    ensures
        match partition {
            Ok(partition) => header.entry_ok(sector_storage@, index as int) && partition@
                == partition_of(header.entry(sector_storage@, index as int)),
            Err(error) => error == Error::Corrupt && !header.entry_ok(
                sector_storage@,
                index as int,
            ),
        },
{
    let ghost disk = sector_storage@;
    let size = header.partition_entry_size;
    let sector_count = sector_storage.sector_count();
    assert(index * size <= 0xffff_ffff * 512) by (nonlinear_arith)
        requires
            index <= 0xffff_ffff,
            size <= 512,
    ;
    let offset = index * size;
    let sector_offset = offset / SECTOR_SIZE;
    let offset_in_sector = (offset % SECTOR_SIZE) as usize;
    proof {
        vstd::arithmetic::div_mod::lemma_fundamental_div_mod(offset as int, 512);
        lemma_entry_in_sector(index as int, size as int);
    }
    if header.entries_starting_sector >= sector_count || sector_offset >= sector_count
        - header.entries_starting_sector {
        return Err(Error::Corrupt);
    }
    let sector_index = header.entries_starting_sector + sector_offset;
    let partition_entry_sector_data = sector_storage.read_sector(sector_index);
    let entry = &partition_entry_sector_data.as_slice()[offset_in_sector..offset_in_sector
        + size as usize];
    assert(entry@ =~= header.entry(disk, index as int));
    let partition = partition_of_entry(entry);
    if partition.starting_sector > partition.ending_sector || partition.ending_sector
        >= sector_count {
        return Err(Error::Corrupt);
    }
    Ok(partition)
}

/// Reads the partition table of `sector_storage`; `None` where the device has
/// none. See `partition_table_of`.
pub fn read_partition_table<SS: SectorStorage>(sector_storage: &SS) -> (table: Result<
    Option<PartitionTable>,
    Error,
>)
    requires
        sector_storage.inv(),
        sector_storage@.len() >= 2 * SECTOR_SIZE,
    ensures
        table_view(table) == partition_table_of(sector_storage@),
{
    let ghost disk = sector_storage@;
    let partition_table_header_data = sector_storage.read_sector(1);
    let header_data = partition_table_header_data.as_slice();
    if !has_signature(header_data) {
        return Ok(None);
    }
    let header = TableHeader {
        id: Guid::of_bytes(&header_data[56..72]),
        entries_starting_sector: read_u64(header_data, 72),
        partition_count: read_u32(header_data, 80) as u64,
        partition_entry_size: read_u32(header_data, 84) as u64,
    };
    assert(header == TableHeader::decode(disk.subrange(SECTOR_SIZE as int, 2 * SECTOR_SIZE)));
    let size = header.partition_entry_size;
    if size < PARTITION_NAME_OFFSET as u64 || SECTOR_SIZE % size != 0 {
        return Err(Error::Corrupt);
    }
    assert(size <= 512) by {
        if size > 512 {
            vstd::arithmetic::div_mod::lemma_small_mod(512, size as nat);
        }
    }
    let mut partitions: Vec<Partition> = Vec::new();
    let mut index: u64 = 0;
    while index < header.partition_count
        invariant
            sector_storage.inv(),
            sector_storage@ == disk,
            header.entry_size_ok(),
            header == TableHeader::decode(disk.subrange(SECTOR_SIZE as int, 2 * SECTOR_SIZE)),
            disk.subrange(SECTOR_SIZE as int, 2 * SECTOR_SIZE).subrange(0, 8) == signature(),
            header.partition_entry_size <= 512,
            header.partition_count <= u32::MAX,
            index <= header.partition_count,
            forall|i: int| 0 <= i < index ==> #[trigger] header.entry_ok(disk, i),
            partition_views(partitions@) == header.partitions_upto(disk, index as int),
        decreases header.partition_count - index,
    {
        let partition = match read_partition_entry(sector_storage, &header, index) {
            Ok(partition) => partition,
            Err(error) => {
                return Err(error);
            },
        };
        let ghost before = partition_views(partitions@);
        let ghost found = partition@;
        if !partition.id.is_zero() {
            partitions.push(partition);
            assert(partition_views(partitions@) =~= before.push(found));
        }
        index += 1;
    }
    Ok(Some(PartitionTable { id: header.id, partitions }))
}

/// An entry whose size divides the sector size does not straddle sectors.
proof fn lemma_entry_in_sector(index: int, size: int)
    requires
        0 <= index,
        56 <= size <= 512,
        512int % size == 0,
    ensures
        0 <= index * size,
        (index * size) % 512 + size <= 512,
{
    let m = 512int / size;
    vstd::arithmetic::div_mod::lemma_fundamental_div_mod(512, size);
    assert(512 == size * m);
    assert(m >= 1) by (nonlinear_arith)
        requires
            512 == size * m,
            size >= 56,
    ;
    vstd::arithmetic::div_mod::lemma_truncate_middle(index, size, m);
    vstd::arithmetic::div_mod::lemma_mod_bound(index, m);
    assert(size * index == index * size) by (nonlinear_arith);
    assert(size * (index % m) + size <= size * m) by (nonlinear_arith)
        requires
            0 <= index % m < m,
            size >= 1,
    ;
    assert(0 <= index * size) by (nonlinear_arith)
        requires
            0 <= index,
            size >= 0,
    ;
}

impl<SS: SectorStorage> SectorStorage for (SS, Partition) {
    /// The bytes of the device from the first sector of the partition to its
    /// last.
    open spec fn view(&self) -> Seq<u8> {
        self.0@.subrange(
            self.1.starting_sector * SECTOR_SIZE,
            (self.1.ending_sector + 1) * SECTOR_SIZE,
        )
    }

    /// The device works, and the partition lies on it.
    open spec fn inv(&self) -> bool {
        &&& self.0.inv()
        &&& self.1.starting_sector <= self.1.ending_sector
        &&& (self.1.ending_sector + 1) * SECTOR_SIZE <= self.0@.len()
        &&& self.0@.len() <= u64::MAX
    }

    fn sector_count(&self) -> (count: u64) {
        self.1.ending_sector - self.1.starting_sector + 1
    }

    fn read_sector(&self, sector_index: u64) -> (sector_data: [u8; 512]) {
        let sector_data = self.0.read_sector(self.1.starting_sector + sector_index);
        assert(sector_data@ =~= self@.subrange(
            sector_index * SECTOR_SIZE,
            (sector_index + 1) * SECTOR_SIZE,
        ));
        sector_data
    }

    fn write_sector(&mut self, sector_index: u64, sector_data: [u8; 512]) {
        let ghost before = self@;
        self.0.write_sector(self.1.starting_sector + sector_index, sector_data);
        assert(self@ =~= splice(before, sector_index * SECTOR_SIZE, sector_data@));
    }
}

} // verus!
