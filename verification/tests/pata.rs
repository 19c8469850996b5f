use ext2_core::pata::{
    flush_commands, identified_sector_count, identify_commands, is_disconnected, poll_data,
    poll_idle, read_commands, sector_of_words, words_of_sector, write_commands, Device, Poll,
    PortWrite,
};

fn writes(list: &[(u16, u8)]) -> Vec<PortWrite> {
    list.iter().map(|&(port, value)| PortWrite { port, value }).collect()
}

#[test]
fn ports_of_the_devices() {
    assert_eq!(Device::PrimaryMaster.port_base_io(), 0x1F0);
    assert_eq!(Device::PrimarySlave.port_base_io(), 0x1F0);
    assert_eq!(Device::SecondaryMaster.port_base_io(), 0x170);
    assert_eq!(Device::SecondarySlave.port_base_io(), 0x170);
    assert_eq!(Device::PrimaryMaster.port_base_control(), 0x3F6);
    assert_eq!(Device::PrimarySlave.port_base_control(), 0x3F6);
    assert_eq!(Device::SecondaryMaster.port_base_control(), 0x376);
    assert_eq!(Device::SecondarySlave.port_base_control(), 0x376);
    assert_eq!(Device::PrimaryMaster.device_bit(), 0);
    assert_eq!(Device::PrimarySlave.device_bit(), 0x10);
    assert_eq!(Device::SecondaryMaster.device_bit(), 0);
    assert_eq!(Device::SecondarySlave.device_bit(), 0x10);
    assert_eq!(Device::SecondarySlave.status_port(), 0x177);
    assert_eq!(Device::PrimaryMaster.data_port(), 0x1F0);
}

#[test]
fn identify_sequence() {
    assert_eq!(
        identify_commands(Device::PrimarySlave),
        writes(&[
            (0x3F6, 0x08),
            (0x1F6, 0xB0),
            (0x1F2, 0),
            (0x1F3, 0),
            (0x1F4, 0),
            (0x1F5, 0),
            (0x1F7, 0xEC),
        ])
    );
    assert_eq!(identify_commands(Device::SecondaryMaster)[0], PortWrite { port: 0x376, value: 8 });
    assert_eq!(identify_commands(Device::SecondaryMaster)[1], PortWrite { port: 0x176, value: 0xA0 });
}

#[test]
fn read_and_write_sequences() {
    let index = 0x0000_a1b2_c3d4_e5f6;
    assert_eq!(
        read_commands(Device::PrimaryMaster, index),
        writes(&[
            (0x1F6, 0x40),
            (0x1F2, 0),
            (0x1F3, 0xc3),
            (0x1F4, 0xb2),
            (0x1F5, 0xa1),
            (0x1F2, 1),
            (0x1F3, 0xf6),
            (0x1F4, 0xe5),
            (0x1F5, 0xd4),
            (0x1F7, 0x24),
        ])
    );
    let write = write_commands(Device::SecondarySlave, 1);
    assert_eq!(
        write,
        writes(&[
            (0x176, 0x50),
            (0x172, 0),
            (0x173, 0),
            (0x174, 0),
            (0x175, 0),
            (0x172, 1),
            (0x173, 1),
            (0x174, 0),
            (0x175, 0),
            (0x177, 0x34),
        ])
    );
    assert_eq!(flush_commands(Device::SecondarySlave), writes(&[(0x176, 0x10), (0x177, 0xE7)]));
    assert_eq!(flush_commands(Device::PrimaryMaster), writes(&[(0x1F6, 0), (0x1F7, 0xE7)]));
}

#[test]
fn status_bytes() {
    assert!(is_disconnected(0xFF));
    assert!(!is_disconnected(0x7F));
    assert_eq!(poll_data(0x80), Poll::Busy);
    assert_eq!(poll_data(0x89), Poll::Busy);
    assert_eq!(poll_data(0x08), Poll::Ready);
    assert_eq!(poll_data(0x58), Poll::Ready);
    assert_eq!(poll_data(0x09), Poll::Failed);
    assert_eq!(poll_data(0x00), Poll::Failed);
    assert_eq!(poll_data(0x50), Poll::Failed);
    assert_eq!(poll_idle(0xD0), Poll::Busy);
    assert_eq!(poll_idle(0x51), Poll::Ready);
    assert_eq!(poll_idle(0x00), Poll::Ready);
}

#[test]
fn identify_data() {
    let mut words = vec![0u16; 256];
    words[83] = 0x0400;
    words[100] = 0x5678;
    words[101] = 0x1234;
    words[102] = 0x9abc;
    words[103] = 0x0001;
    assert_eq!(identified_sector_count(&words), Some(0x0001_9abc_1234_5678));
    words[83] = 0xfbff;
    assert_eq!(identified_sector_count(&words), None);
    words[83] = 0xffff;
    words[103] = 0xffff;
    assert_eq!(identified_sector_count(&words), Some(0xffff_9abc_1234_5678));
}

#[test]
fn sectors_as_words() {
    let mut sector = [0u8; 512];
    for (i, byte) in sector.iter_mut().enumerate() {
        *byte = (i * 7 % 256) as u8;
    }
    let words = words_of_sector(&sector);
    assert_eq!(words.len(), 256);
    assert_eq!(words[0], 0x0700);
    assert_eq!(words[1], 0x150e);
    assert_eq!(words[255], u16::from_le_bytes([sector[510], sector[511]]));
    assert_eq!(sector_of_words(&words), sector);
    let mut ones = vec![0u16; 256];
    ones[2] = 0xabcd;
    let read = sector_of_words(&ones);
    assert_eq!(read[4], 0xcd);
    assert_eq!(read[5], 0xab);
}
