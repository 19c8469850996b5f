//! Devices that are read and written one 512-byte sector at a time.

use crate::bytes::{copy_into, splice};
use vstd::prelude::*;

verus! {

/// Bytes in a sector.
pub const SECTOR_SIZE: u64 = 512;

/// A device made of sectors. Reads and writes complete before they return,
/// and what was written is what is read afterwards.
pub trait SectorStorage {
    /// The bytes that the device holds, sector after sector.
    closed spec fn view(&self) -> Seq<u8> {
        arbitrary()
    }

    /// What the device needs to hold in order to work.
    open spec fn inv(&self) -> bool {
        true
    }

    /// Number of sectors of the device.
    fn sector_count(&self) -> (count: u64)
        requires
            self.inv(),
        ensures
            count * SECTOR_SIZE == self@.len(),
            self@.len() <= u64::MAX,
    ;

    /// The sector at `sector_index`.
    fn read_sector(&self, sector_index: u64) -> (sector_data: [u8; 512])
        requires
            self.inv(),
            (sector_index + 1) * SECTOR_SIZE <= self@.len(),
        ensures
            sector_data@ == self@.subrange(
                sector_index * SECTOR_SIZE,
                (sector_index + 1) * SECTOR_SIZE,
            ),
    ;

    /// Replaces the sector at `sector_index`; no other sector changes.
    fn write_sector(&mut self, sector_index: u64, sector_data: [u8; 512])
        requires
            old(self).inv(),
            (sector_index + 1) * SECTOR_SIZE <= old(self)@.len(),
        ensures
            final(self).inv(),
            final(self)@ == splice(old(self)@, sector_index * SECTOR_SIZE, sector_data@),
    ;

    /// Number of bytes of the device.
    fn len(&self) -> (len: u64)
        requires
            self.inv(),
        ensures
            len == self@.len(),
    {
        self.sector_count() * SECTOR_SIZE
    }

    /// The `len` bytes from `start` on, both multiples of the sector size.
    fn read_aligned(&self, start: u64, len: u64) -> (data: Vec<u8>)
        requires
            self.inv(),
            start % SECTOR_SIZE == 0,
            len % SECTOR_SIZE == 0,
            start + len <= self@.len(),
            len <= usize::MAX,
        ensures
            data@ == self@.subrange(start as int, start + len),
    {
        let ghost device = self@;
        let first = start / SECTOR_SIZE;
        let count = len / SECTOR_SIZE;
        let mut data: Vec<u8> = Vec::new();
        let mut index: u64 = 0;
        while index < count
            invariant
                self.inv(),
                self@ == device,
                first * SECTOR_SIZE == start,
                count * SECTOR_SIZE == len,
                start + len <= device.len(),
                index <= count,
                data@ == device.subrange(start as int, start + index * SECTOR_SIZE),
            decreases count - index,
        {
            let sector_data = self.read_sector(first + index);
            data.extend_from_slice(sector_data.as_slice());
            assert(data@ =~= device.subrange(start as int, start + (index + 1) * SECTOR_SIZE));
            index += 1;
        }
        data
    }

    /// Replaces the bytes from `start` on by `data`; `start` and the length of
    /// `data` are multiples of the sector size.
    fn write_aligned(&mut self, start: u64, data: &[u8])
        requires
            old(self).inv(),
            start % SECTOR_SIZE == 0,
            data@.len() % 512 == 0,
            start + data@.len() <= old(self)@.len(),
        ensures
            final(self).inv(),
            final(self)@ == splice(old(self)@, start as int, data@),
    {
        let ghost device = self@;
        let sector_count = self.sector_count();
        let first = start / SECTOR_SIZE;
        let count = data.len() / 512;
        let mut index: usize = 0;
        while index < count
            invariant
                self.inv(),
                data@.len() <= usize::MAX,
                first * SECTOR_SIZE == start,
                count * SECTOR_SIZE == data@.len(),
                start + data@.len() <= device.len(),
                device.len() <= u64::MAX,
                self@.len() == device.len(),
                index <= count,
                self@ == splice(
                    device,
                    start as int,
                    data@.subrange(0, index * SECTOR_SIZE),
                ),
            decreases count - index,
        {
            let mut sector_data = [0u8; 512];
            copy_into(&mut sector_data, 0, &data[index * 512..(index + 1) * 512]);
            let ghost before = self@;
            self.write_sector(first + index as u64, sector_data);
            assert(sector_data@ =~= data@.subrange(index * SECTOR_SIZE, (index + 1) * SECTOR_SIZE));
            assert(self@ =~= splice(
                device,
                start as int,
                data@.subrange(0, (index + 1) * SECTOR_SIZE),
            ));
            index += 1;
        }
        assert(data@.subrange(0, count * SECTOR_SIZE) =~= data@);
    }
}

/// A device kept in memory.
pub struct MemoryStorage {
    data: Vec<u8>,
}

impl MemoryStorage {
    /// A device that holds `data`; `None` unless the length of `data` is a
    /// whole number of sectors.
    pub fn new(data: Vec<u8>) -> (storage: Option<MemoryStorage>)
        ensures
            storage is Some <==> data@.len() % 512 == 0,
            storage matches Some(s) ==> s.inv() && s@ == data@,
    {
        if data.len() % 512 == 0 {
            Some(MemoryStorage { data })
        } else {
            None
        }
    }

    /// The bytes that the device holds.
    pub fn as_bytes(&self) -> (bytes: &[u8])
        ensures
            bytes@ == self@,
    {
        self.data.as_slice()
    }

    /// Gives the bytes of the device back.
    pub fn into_bytes(self) -> (bytes: Vec<u8>)
        ensures
            bytes@ == self@,
    {
        self.data
    }
}

impl SectorStorage for MemoryStorage {
    closed spec fn view(&self) -> Seq<u8> {
        self.data@
    }

    closed spec fn inv(&self) -> bool {
        self.data@.len() % 512 == 0
    }

    fn sector_count(&self) -> (count: u64) {
        (self.data.len() / 512) as u64
    }

    fn read_sector(&self, sector_index: u64) -> (sector_data: [u8; 512]) {
        assert(self.data.len() == self.data@.len());
        let start = sector_index as usize * 512;
        let mut sector_data = [0u8; 512];
        copy_into(&mut sector_data, 0, &self.data[start..start + 512]);
        assert(sector_data@ =~= self@.subrange(
            sector_index * SECTOR_SIZE,
            (sector_index + 1) * SECTOR_SIZE,
        ));
        sector_data
    }

    fn write_sector(&mut self, sector_index: u64, sector_data: [u8; 512]) {
        assert(self.data.len() == self.data@.len());
        let start = sector_index as usize * 512;
        copy_into(self.data.as_mut_slice(), start, sector_data.as_slice());
    }
}

} // verus!
