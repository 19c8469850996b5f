//! The legacy disk interface driven by programmed input and output: which
//! ports to write, in which order, and what a status byte means. Reading and
//! writing the ports is left to the caller.

use vstd::prelude::*;

verus! {

/// Control port of the primary channel.
pub const PORT_BASE_CONTROL_PRIMARY: u16 = 0x3F6;

/// Control port of the secondary channel.
pub const PORT_BASE_CONTROL_SECONDARY: u16 = 0x376;

/// First port of the primary channel.
pub const PORT_BASE_IO_PRIMARY: u16 = 0x1F0;

/// First port of the secondary channel.
pub const PORT_BASE_IO_SECONDARY: u16 = 0x170;

/// Offset of the device control register from the control port.
pub const PORT_OFFSET_CONTROL: u16 = 0x0;

/// Offset of the data register.
pub const PORT_OFFSET_DATA: u16 = 0x0;

/// Offset of the sector count register.
pub const PORT_OFFSET_SECTOR_COUNT: u16 = 0x2;

/// Offset of the sector number register.
pub const PORT_OFFSET_SECTOR_NUMBER: u16 = 0x3;

/// Offset of the low cylinder register.
pub const PORT_OFFSET_CYLINDER_LOW: u16 = 0x4;

/// Offset of the high cylinder register.
pub const PORT_OFFSET_CYLINDER_HIGH: u16 = 0x5;

/// Offset of the drive and head register.
pub const PORT_OFFSET_DRIVE_HEAD: u16 = 0x6;

/// Offset of the command register, which is written.
pub const PORT_OFFSET_COMMAND: u16 = 0x7;

/// Offset of the status register, which is read.
pub const PORT_OFFSET_STATUS: u16 = 0x7;

/// Control bit: send no interrupts.
pub const CONTROL_BIT_NIEN: u8 = 0x08;

/// Status bit: the last command failed.
pub const STATUS_BIT_ERR: u8 = 0x01;

/// Status bit: the device is ready to move data.
pub const STATUS_BIT_DRQ: u8 = 0x08;

/// Status bit: the device is busy.
pub const STATUS_BIT_BSY: u8 = 0x80;

/// The status that is read where no device is connected.
pub const STATUS_DISCONNECTED: u8 = 0xFF;

/// Command: read sectors, with 48-bit addresses.
pub const COMMAND_READ_SECTORS_EXT: u8 = 0x24;

/// Command: write sectors, with 48-bit addresses.
pub const COMMAND_WRITE_SECTORS_EXT: u8 = 0x34;

/// Command: write the cache of the device to the medium.
pub const COMMAND_FLUSH_CACHE: u8 = 0xE7;

/// Command: identify the device.
pub const COMMAND_IDENTIFY: u8 = 0xEC;

/// Number of times the status is read, after a command, for the device to
/// have been selected.
pub const SELECTION_STATUS_READS: usize = 15;

/// Number of 16-bit words in a sector.
pub const WORDS_PER_SECTOR: usize = 256;

/// The word of the identify data that tells which features are supported.
pub const IDENTIFY_WORD_FEATURES: usize = 83;

/// Bit of the feature word: 48-bit addresses are supported.
pub const IDENTIFY_FEATURE_LBA48: u16 = 0x0400;

/// The first of the four words of the identify data that hold the number of
/// sectors.
pub const IDENTIFY_WORD_SECTOR_COUNT: usize = 100;

/// The sector indices that 48 bits can hold end before this one.
pub const SECTOR_INDEX_LIMIT: u64 = 0x1_0000_0000_0000;

/// The four devices of the two channels.
#[derive(Copy, Clone, Debug, PartialEq, Eq)]
pub enum Device {
    PrimaryMaster,
    PrimarySlave,
    SecondaryMaster,
    SecondarySlave,
}

/// One byte to write to one port.
#[derive(Copy, Clone, Debug, PartialEq, Eq)]
pub struct PortWrite {
    pub port: u16,
    pub value: u8,
}

/// What a status byte asks the driver to do.
#[derive(Copy, Clone, Debug, PartialEq, Eq)]
pub enum Poll {
    /// The device is busy: read the status again.
    Busy,
    /// The device is ready: go on.
    Ready,
    /// The device reports an error, or is not ready to move data.
    Failed,
}

impl Device {
    /// The device is on the primary channel.
    pub open spec fn primary(self) -> bool {
        self == Device::PrimaryMaster || self == Device::PrimarySlave
    }

    /// The device is the second of its channel.
    pub open spec fn slave(self) -> bool {
        self == Device::PrimarySlave || self == Device::SecondarySlave
    }

    /// The control port of the channel of the device.
    pub open spec fn spec_port_base_control(self) -> u16 {
        if self.primary() {
            PORT_BASE_CONTROL_PRIMARY
        } else {
            PORT_BASE_CONTROL_SECONDARY
        }
    }

    /// The first port of the channel of the device.
    pub open spec fn spec_port_base_io(self) -> u16 {
        if self.primary() {
            PORT_BASE_IO_PRIMARY
        } else {
            PORT_BASE_IO_SECONDARY
        }
    }

    /// The bit that selects the device on its channel: 0 for the first
    /// device, bit 4 for the second.
    pub open spec fn spec_device_bit(self) -> u8 {
        if self.slave() {
            0x10
        } else {
            0
        }
    }

    /// The control port of the channel of the device.
    #[verifier::when_used_as_spec(spec_port_base_control)]
    pub fn port_base_control(self) -> (port: u16)
        ensures
            port == self.spec_port_base_control(),
    {
        match self {
            Device::PrimaryMaster => PORT_BASE_CONTROL_PRIMARY,
            Device::PrimarySlave => PORT_BASE_CONTROL_PRIMARY,
            Device::SecondaryMaster => PORT_BASE_CONTROL_SECONDARY,
            Device::SecondarySlave => PORT_BASE_CONTROL_SECONDARY,
        }
    }

    /// The first port of the channel of the device.
    #[verifier::when_used_as_spec(spec_port_base_io)]
    pub fn port_base_io(self) -> (port: u16)
        ensures
            port == self.spec_port_base_io(),
    {
        match self {
            Device::PrimaryMaster => PORT_BASE_IO_PRIMARY,
            Device::PrimarySlave => PORT_BASE_IO_PRIMARY,
            Device::SecondaryMaster => PORT_BASE_IO_SECONDARY,
            Device::SecondarySlave => PORT_BASE_IO_SECONDARY,
        }
    }

    /// The bit that selects the device on its channel.
    #[verifier::when_used_as_spec(spec_device_bit)]
    pub fn device_bit(self) -> (bit: u8)
        ensures
            bit == self.spec_device_bit(),
    {
        match self {
            Device::PrimaryMaster => 0,
            Device::PrimarySlave => 0x10,
            Device::SecondaryMaster => 0,
            Device::SecondarySlave => 0x10,
        }
    }

    /// The port of the register at `offset` on the channel of the device.
    pub open spec fn io_port(self, offset: u16) -> u16 {
        (self.spec_port_base_io() + offset) as u16
    }

    /// The port from which the status is read.
    pub fn status_port(self) -> (port: u16)
        ensures
            port == self.io_port(PORT_OFFSET_STATUS),
    {
        self.port_base_io() + PORT_OFFSET_STATUS
    }

    /// The port through which data is moved, sixteen bits at a time.
    pub fn data_port(self) -> (port: u16)
        ensures
            port == self.io_port(PORT_OFFSET_DATA),
    {
        self.port_base_io() + PORT_OFFSET_DATA
    }
}

/// Byte `k` of a sector index, the lowest first.
pub open spec fn index_byte(sector_index: u64, k: int) -> u8 {
    if k == 0 {
        (sector_index % 0x100) as u8
    } else if k == 1 {
        (sector_index / 0x100 % 0x100) as u8
    } else if k == 2 {
        (sector_index / 0x1_0000 % 0x100) as u8
    } else if k == 3 {
        (sector_index / 0x100_0000 % 0x100) as u8
    } else if k == 4 {
        (sector_index / 0x1_0000_0000 % 0x100) as u8
    } else {
        (sector_index / 0x100_0000_0000 % 0x100) as u8
    }
}

/// The writes that ask a device to identify itself: no interrupts, the device
/// selected with `0xA0`, the four address registers cleared, then the command.
pub open spec fn spec_identify_commands(device: Device) -> Seq<PortWrite> {
    seq![
        PortWrite {
            port: (device.spec_port_base_control() + PORT_OFFSET_CONTROL) as u16,
            value: CONTROL_BIT_NIEN,
        },
        PortWrite {
            port: device.io_port(PORT_OFFSET_DRIVE_HEAD),
            value: 0xA0 | device.spec_device_bit(),
        },
        PortWrite { port: device.io_port(PORT_OFFSET_SECTOR_COUNT), value: 0 },
        PortWrite { port: device.io_port(PORT_OFFSET_SECTOR_NUMBER), value: 0 },
        PortWrite { port: device.io_port(PORT_OFFSET_CYLINDER_LOW), value: 0 },
        PortWrite { port: device.io_port(PORT_OFFSET_CYLINDER_HIGH), value: 0 },
        PortWrite { port: device.io_port(PORT_OFFSET_COMMAND), value: COMMAND_IDENTIFY },
    ]
}

/// The writes that ask a device to move one sector, with a 48-bit address:
/// the device selected with `0x40`, the high bytes of the count, which is 1,
/// and of the index, then the low bytes, then the command.
pub open spec fn spec_transfer_commands(device: Device, sector_index: u64, command: u8) -> Seq<
    PortWrite,
> {
    seq![
        PortWrite {
            port: device.io_port(PORT_OFFSET_DRIVE_HEAD),
            value: 0x40 | device.spec_device_bit(),
        },
        PortWrite { port: device.io_port(PORT_OFFSET_SECTOR_COUNT), value: 0 },
        PortWrite {
            port: device.io_port(PORT_OFFSET_SECTOR_NUMBER),
            value: index_byte(sector_index, 3),
        },
        PortWrite {
            port: device.io_port(PORT_OFFSET_CYLINDER_LOW),
            value: index_byte(sector_index, 4),
        },
        PortWrite {
            port: device.io_port(PORT_OFFSET_CYLINDER_HIGH),
            value: index_byte(sector_index, 5),
        },
        PortWrite { port: device.io_port(PORT_OFFSET_SECTOR_COUNT), value: 1 },
        PortWrite {
            port: device.io_port(PORT_OFFSET_SECTOR_NUMBER),
            value: index_byte(sector_index, 0),
        },
        PortWrite {
            port: device.io_port(PORT_OFFSET_CYLINDER_LOW),
            value: index_byte(sector_index, 1),
        },
        PortWrite {
            port: device.io_port(PORT_OFFSET_CYLINDER_HIGH),
            value: index_byte(sector_index, 2),
        },
        PortWrite { port: device.io_port(PORT_OFFSET_COMMAND), value: command },
    ]
}

/// The writes that ask a device to write its cache to the medium.
pub open spec fn spec_flush_commands(device: Device) -> Seq<PortWrite> {
    seq![
        PortWrite { port: device.io_port(PORT_OFFSET_DRIVE_HEAD), value: device.spec_device_bit() },
        PortWrite { port: device.io_port(PORT_OFFSET_COMMAND), value: COMMAND_FLUSH_CACHE },
    ]
}

/// What a status byte asks for while data is awaited: to wait while the
/// device is busy; then to go on where it reports no error and is ready to
/// move data, and to give up else.
pub open spec fn spec_poll_data(status: u8) -> Poll {
    if status & STATUS_BIT_BSY != 0 {
        Poll::Busy
    } else if status & STATUS_BIT_ERR != 0 || status & STATUS_BIT_DRQ == 0 {
        Poll::Failed
    } else {
        Poll::Ready
    }
}

/// What a status byte asks for after the cache was flushed: to wait while
/// the device is busy.
pub open spec fn spec_poll_idle(status: u8) -> Poll {
    if status & STATUS_BIT_BSY != 0 {
        Poll::Busy
    } else {
        Poll::Ready
    }
}

/// The number of sectors that the identify data tell: the 64 bits of words
/// 100 to 103, the lowest first; none where the data do not tell that 48-bit
/// addresses are supported.
pub open spec fn spec_identified_sector_count(identify_data: Seq<u16>) -> Option<u64> {
    if identify_data[IDENTIFY_WORD_FEATURES as int] & IDENTIFY_FEATURE_LBA48 != 0 {
        Some(
            (identify_data[100] + 0x1_0000 * identify_data[101] + 0x1_0000_0000 * identify_data[102]
                + 0x1_0000_0000_0000 * identify_data[103]) as u64,
        )
    } else {
        None
    }
}

/// The bytes of a sector that was read as words: of each word the low byte
/// first.
pub open spec fn spec_sector_of_words(words: Seq<u16>) -> Seq<u8> {
    Seq::new(
        2 * words.len(),
        |i: int|
            if i % 2 == 0 {
                (words[i / 2] % 0x100) as u8
            } else {
                (words[i / 2] / 0x100) as u8
            },
    )
}

/// The words in which a sector is written: of each word the low byte first.
pub open spec fn spec_words_of_sector(sector: Seq<u8>) -> Seq<u16> {
    Seq::new(sector.len() / 2, |i: int| (sector[2 * i] + 0x100 * sector[2 * i + 1]) as u16)
}

/// Whether no device is connected where this status was read.
pub fn is_disconnected(status: u8) -> (disconnected: bool)
    ensures
        disconnected == (status == STATUS_DISCONNECTED),
{
    status == STATUS_DISCONNECTED
}

/// The writes that ask `device` to identify itself, in their order.
pub fn identify_commands(device: Device) -> (commands: Vec<PortWrite>)
    ensures
        commands@ == spec_identify_commands(device),
{
    let io = device.port_base_io();
    let mut commands: Vec<PortWrite> = Vec::new();
    commands.push(
        PortWrite { port: device.port_base_control() + PORT_OFFSET_CONTROL, value: CONTROL_BIT_NIEN },
    );
    commands.push(PortWrite { port: io + PORT_OFFSET_DRIVE_HEAD, value: 0xA0 | device.device_bit() });
    commands.push(PortWrite { port: io + PORT_OFFSET_SECTOR_COUNT, value: 0 });
    commands.push(PortWrite { port: io + PORT_OFFSET_SECTOR_NUMBER, value: 0 });
    commands.push(PortWrite { port: io + PORT_OFFSET_CYLINDER_LOW, value: 0 });
    commands.push(PortWrite { port: io + PORT_OFFSET_CYLINDER_HIGH, value: 0 });
    commands.push(PortWrite { port: io + PORT_OFFSET_COMMAND, value: COMMAND_IDENTIFY });
    assert(commands@ =~= spec_identify_commands(device));
    commands
}

/// The writes that ask `device` to move the sector at `sector_index`, in
/// their order.
fn transfer_commands(device: Device, sector_index: u64, command: u8) -> (commands: Vec<PortWrite>)
    requires
        sector_index < SECTOR_INDEX_LIMIT,
    ensures
        commands@ == spec_transfer_commands(device, sector_index, command),
{
    let io = device.port_base_io();
    let mut commands: Vec<PortWrite> = Vec::new();
    commands.push(PortWrite { port: io + PORT_OFFSET_DRIVE_HEAD, value: 0x40 | device.device_bit() });
    commands.push(PortWrite { port: io + PORT_OFFSET_SECTOR_COUNT, value: 0 });
    commands.push(
        PortWrite {
            port: io + PORT_OFFSET_SECTOR_NUMBER,
            value: (sector_index / 0x100_0000 % 0x100) as u8,
        },
    );
    commands.push(
        PortWrite {
            port: io + PORT_OFFSET_CYLINDER_LOW,
            value: (sector_index / 0x1_0000_0000 % 0x100) as u8,
        },
    );
    commands.push(
        PortWrite {
            port: io + PORT_OFFSET_CYLINDER_HIGH,
            value: (sector_index / 0x100_0000_0000 % 0x100) as u8,
        },
    );
    commands.push(PortWrite { port: io + PORT_OFFSET_SECTOR_COUNT, value: 1 });
    commands.push(
        PortWrite { port: io + PORT_OFFSET_SECTOR_NUMBER, value: (sector_index % 0x100) as u8 },
    );
    commands.push(
        PortWrite { port: io + PORT_OFFSET_CYLINDER_LOW, value: (sector_index / 0x100 % 0x100) as u8 },
    );
    commands.push(
        PortWrite {
            port: io + PORT_OFFSET_CYLINDER_HIGH,
            value: (sector_index / 0x1_0000 % 0x100) as u8,
        },
    );
    commands.push(PortWrite { port: io + PORT_OFFSET_COMMAND, value: command });
    assert(commands@ =~= spec_transfer_commands(device, sector_index, command));
    commands
}

/// The writes that ask `device` to read the sector at `sector_index`.
pub fn read_commands(device: Device, sector_index: u64) -> (commands: Vec<PortWrite>)
    requires
        sector_index < SECTOR_INDEX_LIMIT,
    ensures
        commands@ == spec_transfer_commands(device, sector_index, COMMAND_READ_SECTORS_EXT),
{
    transfer_commands(device, sector_index, COMMAND_READ_SECTORS_EXT)
}

/// The writes that ask `device` to take the sector at `sector_index`; the
/// words of the sector follow once the device is ready, and then the writes
/// of `flush_commands`.
pub fn write_commands(device: Device, sector_index: u64) -> (commands: Vec<PortWrite>)
    requires
        sector_index < SECTOR_INDEX_LIMIT,
    ensures
        commands@ == spec_transfer_commands(device, sector_index, COMMAND_WRITE_SECTORS_EXT),
{
    transfer_commands(device, sector_index, COMMAND_WRITE_SECTORS_EXT)
}

/// The writes that ask `device` to write its cache to the medium.
pub fn flush_commands(device: Device) -> (commands: Vec<PortWrite>)
    ensures
        commands@ == spec_flush_commands(device),
{
    let io = device.port_base_io();
    let mut commands: Vec<PortWrite> = Vec::new();
    commands.push(PortWrite { port: io + PORT_OFFSET_DRIVE_HEAD, value: device.device_bit() });
    commands.push(PortWrite { port: io + PORT_OFFSET_COMMAND, value: COMMAND_FLUSH_CACHE });
    assert(commands@ =~= spec_flush_commands(device));
    commands
}

/// What `status` asks for while data is awaited: see `spec_poll_data`.
#[verifier::when_used_as_spec(spec_poll_data)]
pub fn poll_data(status: u8) -> (poll: Poll)
    ensures
        poll == spec_poll_data(status),
{
    if status & STATUS_BIT_BSY != 0 {
        Poll::Busy
    } else if status & STATUS_BIT_ERR != 0 || status & STATUS_BIT_DRQ == 0 {
        Poll::Failed
    } else {
        Poll::Ready
    }
}

/// What `status` asks for after the cache was flushed: see `spec_poll_idle`.
#[verifier::when_used_as_spec(spec_poll_idle)]
pub fn poll_idle(status: u8) -> (poll: Poll)
    ensures
        poll == spec_poll_idle(status),
{
    if status & STATUS_BIT_BSY != 0 {
        Poll::Busy
    } else {
        Poll::Ready
    }
}

/// The number of sectors that the 256 words of identify data tell: see
/// `spec_identified_sector_count`.
pub fn identified_sector_count(identify_data: &[u16]) -> (sector_count: Option<u64>)
    requires
        identify_data@.len() == WORDS_PER_SECTOR,
    ensures
        sector_count == spec_identified_sector_count(identify_data@),
{
    if identify_data[IDENTIFY_WORD_FEATURES] & IDENTIFY_FEATURE_LBA48 != 0 {
        Some(
            identify_data[100] as u64 + 0x1_0000 * (identify_data[101] as u64) + 0x1_0000_0000 * (
            identify_data[102] as u64) + 0x1_0000_0000_0000 * (identify_data[103] as u64),
        )
    } else {
        None
    }
}

/// The sector that was read as the 256 words `words`.
pub fn sector_of_words(words: &[u16]) -> (sector_data: [u8; 512])
    requires
        words@.len() == WORDS_PER_SECTOR,
    ensures
        sector_data@ == spec_sector_of_words(words@),
{
    let mut sector_data = [0u8; 512];
    let mut i: usize = 0;
    while i < WORDS_PER_SECTOR
        invariant
            words@.len() == WORDS_PER_SECTOR,
            i <= WORDS_PER_SECTOR,
            forall|k: int| 0 <= k < 2 * i ==> sector_data@[k] == spec_sector_of_words(words@)[k],
        decreases WORDS_PER_SECTOR - i,
    {
        sector_data[2 * i] = (words[i] % 0x100) as u8;
        sector_data[2 * i + 1] = (words[i] / 0x100) as u8;
        i += 1;
    }
    assert(sector_data@ =~= spec_sector_of_words(words@));
    sector_data
}

/// The 256 words in which the sector `sector_data` is written.
pub fn words_of_sector(sector_data: &[u8; 512]) -> (words: Vec<u16>)
    ensures
        words@ == spec_words_of_sector(sector_data@),
{
    let mut words: Vec<u16> = Vec::new();
    let mut i: usize = 0;
    while i < WORDS_PER_SECTOR
        invariant
            i <= WORDS_PER_SECTOR,
            words@ == spec_words_of_sector(sector_data@).subrange(0, i as int),
        decreases WORDS_PER_SECTOR - i,
    {
        words.push(sector_data[2 * i] as u16 + 0x100 * (sector_data[2 * i + 1] as u16));
        assert(words@ =~= spec_words_of_sector(sector_data@).subrange(0, i + 1));
        i += 1;
    }
    assert(words@ =~= spec_words_of_sector(sector_data@));
    words
}

/// A sector written as words and read back as words is the sector.
pub proof fn lemma_words_round_trip(sector: Seq<u8>)
    requires
        sector.len() % 2 == 0,
    ensures
        spec_sector_of_words(spec_words_of_sector(sector)) == sector,
{
    assert(spec_sector_of_words(spec_words_of_sector(sector)) =~= sector);
}

} // verus!
