//! What a filesystem offers, whatever its on-disk format: file types, modes,
//! file attributes and directory entries.

use core::ops::Range;
use vstd::prelude::*;

verus! {

/// The kinds of file a directory entry or an inode can name.
#[derive(Clone, Copy, PartialEq, Eq, Debug)]
pub enum FileType {
    RegularFile,
    Dir,
    CharacterDevice,
    BlockDevice,
    Fifo,
    Socket,
    SymbolicLink,
}

impl FileType {
    /// The code that stands for this file type in a directory entry.
    pub open spec fn spec_inode_file_type(self) -> u8 {
        match self {
            FileType::RegularFile => 1,
            FileType::Dir => 2,
            FileType::CharacterDevice => 3,
            FileType::BlockDevice => 4,
            FileType::Fifo => 5,
            FileType::Socket => 6,
            FileType::SymbolicLink => 7,
        }
    }

    /// The file type that a directory entry's code stands for, if any.
    pub open spec fn spec_from_inode_file_type(inode_file_type: u8) -> Option<FileType> {
        match inode_file_type {
            1 => Some(FileType::RegularFile),
            2 => Some(FileType::Dir),
            3 => Some(FileType::CharacterDevice),
            4 => Some(FileType::BlockDevice),
            5 => Some(FileType::Fifo),
            6 => Some(FileType::Socket),
            7 => Some(FileType::SymbolicLink),
            _ => None,
        }
    }

    /// The code that stands for this file type in a directory entry.
    #[verifier::when_used_as_spec(spec_inode_file_type)]
    pub fn inode_file_type(self) -> (code: u8)
        ensures
            code == self.spec_inode_file_type(),
            1 <= code <= 7,
    {
        match self {
            FileType::RegularFile => 1,
            FileType::Dir => 2,
            FileType::CharacterDevice => 3,
            FileType::BlockDevice => 4,
            FileType::Fifo => 5,
            FileType::Socket => 6,
            FileType::SymbolicLink => 7,
        }
    }

    /// The file type that a directory entry's code stands for; `None` for a
    /// code outside 1..=7.
    #[verifier::when_used_as_spec(spec_from_inode_file_type)]
    pub fn from_inode_file_type(inode_file_type: u8) -> (file_type: Option<FileType>)
        ensures
            file_type == Self::spec_from_inode_file_type(inode_file_type),
            file_type is Some <==> 1 <= inode_file_type <= 7,
            file_type matches Some(t) ==> t.spec_inode_file_type() == inode_file_type,
    {
        match inode_file_type {
            1 => Some(FileType::RegularFile),
            2 => Some(FileType::Dir),
            3 => Some(FileType::CharacterDevice),
            4 => Some(FileType::BlockDevice),
            5 => Some(FileType::Fifo),
            6 => Some(FileType::Socket),
            7 => Some(FileType::SymbolicLink),
            _ => None,
        }
    }

    /// The bits that stand for this file type in an inode's mode.
    pub open spec fn mode_bits(self) -> u32 {
        match self {
            FileType::Fifo => MODE_FIFO,
            FileType::CharacterDevice => MODE_CHARACTER_DEVICE,
            FileType::Dir => MODE_DIR,
            FileType::BlockDevice => MODE_BLOCK_DEVICE,
            FileType::RegularFile => MODE_REGULAR_FILE,
            FileType::SymbolicLink => MODE_SYMBOLIC_LINK,
            FileType::Socket => MODE_SOCKET,
        }
    }

    /// A file type's code names that file type, and no other.
    pub proof fn lemma_code_round_trip(self)
        ensures
            Self::spec_from_inode_file_type(self.spec_inode_file_type()) == Some(self),
    {
    }
}

/// Others may execute.
pub const MODE_OTHERS_EXECUTE: u32 = 0x0001;

/// Others may write.
pub const MODE_OTHERS_WRITE: u32 = 0x0002;

/// Others may read.
pub const MODE_OTHERS_READ: u32 = 0x0004;

/// The group may execute.
pub const MODE_GROUP_EXECUTE: u32 = 0x0008;

/// The group may write.
pub const MODE_GROUP_WRITE: u32 = 0x0010;

/// The group may read.
pub const MODE_GROUP_READ: u32 = 0x0020;

/// The owner may execute.
pub const MODE_USER_EXECUTE: u32 = 0x0040;

/// The owner may write.
pub const MODE_USER_WRITE: u32 = 0x0080;

/// The owner may read.
pub const MODE_USER_READ: u32 = 0x0100;

/// Sticky bit.
pub const MODE_STICKY_BIT: u32 = 0x0200;

/// Set the group on execution.
pub const MODE_SETGID: u32 = 0x0400;

/// Set the user on execution.
pub const MODE_SETUID: u32 = 0x0800;

/// The file is a fifo.
pub const MODE_FIFO: u32 = 0x1000;

/// The file is a character device.
pub const MODE_CHARACTER_DEVICE: u32 = 0x2000;

/// The file is a directory.
pub const MODE_DIR: u32 = 0x4000;

/// The file is a block device.
pub const MODE_BLOCK_DEVICE: u32 = 0x6000;

/// The file is a regular file.
pub const MODE_REGULAR_FILE: u32 = 0x8000;

/// The file is a symbolic link.
pub const MODE_SYMBOLIC_LINK: u32 = 0xA000;

/// The file is a socket.
pub const MODE_SOCKET: u32 = 0xC000;

/// The bits of a mode that hold the permissions.
pub const MODE_PERMISSIONS_MASK: u32 = 0x0fff;

/// An inode's mode: twelve permission bits under the bits of the file type.
#[derive(Clone, Copy, PartialEq, Eq, Debug)]
pub struct Mode {
    pub bits: u32,
}

impl Mode {
    /// The mode with exactly these bits, known or not.
    pub fn from_bits_retain(bits: u32) -> (mode: Mode)
        ensures
            mode.bits == bits,
    {
        Mode { bits }
    }

    /// The bits of the mode.
    pub fn bits(self) -> (bits: u32)
        ensures
            bits == self.bits,
    {
        self.bits
    }

    /// The bits of the mode above the permissions.
    pub open spec fn file_type_bits(self) -> u32 {
        self.bits & !MODE_PERMISSIONS_MASK
    }

    /// The bits above the permissions name a file type.
    pub open spec fn spec_has_file_type(self) -> bool {
        let bits = self.file_type_bits();
        bits == MODE_FIFO || bits == MODE_CHARACTER_DEVICE || bits == MODE_DIR || bits
            == MODE_BLOCK_DEVICE || bits == MODE_REGULAR_FILE || bits == MODE_SYMBOLIC_LINK || bits
            == MODE_SOCKET
    }

    /// The file type that the bits above the permissions name.
    pub open spec fn spec_file_type(self) -> FileType {
        let bits = self.file_type_bits();
        if bits == MODE_FIFO {
            FileType::Fifo
        } else if bits == MODE_CHARACTER_DEVICE {
            FileType::CharacterDevice
        } else if bits == MODE_DIR {
            FileType::Dir
        } else if bits == MODE_BLOCK_DEVICE {
            FileType::BlockDevice
        } else if bits == MODE_REGULAR_FILE {
            FileType::RegularFile
        } else if bits == MODE_SYMBOLIC_LINK {
            FileType::SymbolicLink
        } else {
            FileType::Socket
        }
    }

    /// The twelve permission bits.
    pub open spec fn spec_permissions(self) -> u32 {
        self.bits & MODE_PERMISSIONS_MASK
    }

    /// The mode that holds `permissions` together with the bits of `file_type`.
    pub fn from_file_type_and_permissions(permissions: u32, file_type: FileType) -> (mode: Mode)
        ensures
            mode.bits == permissions | file_type.mode_bits(),
    {
        let file_type_mode = match file_type {
            FileType::Fifo => MODE_FIFO,
            FileType::CharacterDevice => MODE_CHARACTER_DEVICE,
            FileType::Dir => MODE_DIR,
            FileType::BlockDevice => MODE_BLOCK_DEVICE,
            FileType::RegularFile => MODE_REGULAR_FILE,
            FileType::SymbolicLink => MODE_SYMBOLIC_LINK,
            FileType::Socket => MODE_SOCKET,
        };
        Mode { bits: permissions | file_type_mode }
    }

    /// Whether the bits above the permissions name a file type.
    #[verifier::when_used_as_spec(spec_has_file_type)]
    pub fn has_file_type(self) -> (known: bool)
        ensures
            known == self.spec_has_file_type(),
    {
        let bits = self.bits & !MODE_PERMISSIONS_MASK;
        bits == MODE_FIFO || bits == MODE_CHARACTER_DEVICE || bits == MODE_DIR || bits
            == MODE_BLOCK_DEVICE || bits == MODE_REGULAR_FILE || bits == MODE_SYMBOLIC_LINK || bits
            == MODE_SOCKET
    }

    /// The file type that the mode names.
    #[verifier::when_used_as_spec(spec_file_type)]
    pub fn file_type(self) -> (file_type: FileType)
        requires
            self.spec_has_file_type(),
        ensures
            file_type == self.spec_file_type(),
            file_type.mode_bits() == self.file_type_bits(),
    {
        let bits = self.bits & !MODE_PERMISSIONS_MASK;
        if bits == MODE_FIFO {
            FileType::Fifo
        } else if bits == MODE_CHARACTER_DEVICE {
            FileType::CharacterDevice
        } else if bits == MODE_DIR {
            FileType::Dir
        } else if bits == MODE_BLOCK_DEVICE {
            FileType::BlockDevice
        } else if bits == MODE_REGULAR_FILE {
            FileType::RegularFile
        } else if bits == MODE_SYMBOLIC_LINK {
            FileType::SymbolicLink
        } else {
            FileType::Socket
        }
    }

    /// The twelve permission bits.
    #[verifier::when_used_as_spec(spec_permissions)]
    pub fn permissions(self) -> (permissions: u32)
        ensures
            permissions == self.spec_permissions(),
            permissions <= MODE_PERMISSIONS_MASK,
    {
        let bits = self.bits;
        assert(bits & 0x0fff <= 0x0fff) by (bit_vector);
        bits & MODE_PERMISSIONS_MASK
    }

    /// A mode made of permissions and a file type gives both back.
    pub proof fn lemma_parts_round_trip(permissions: u32, file_type: FileType)
        requires
            permissions <= MODE_PERMISSIONS_MASK,
        ensures
            ({
                let mode = Mode { bits: permissions | file_type.mode_bits() };
                &&& mode.spec_has_file_type()
                &&& mode.spec_file_type() == file_type
                &&& mode.spec_permissions() == permissions
                &&& mode.bits <= 0xffff
            }),
    {
        let t = file_type.mode_bits();
        assert(t == 0x1000 || t == 0x2000 || t == 0x4000 || t == 0x6000 || t == 0x8000 || t
            == 0xA000 || t == 0xC000);
        assert((permissions | t) & !0x0fffu32 == t && (permissions | t) & 0x0fffu32 == permissions
            && (permissions | t) <= 0xffff) by (bit_vector)
            requires
                permissions <= 0x0fff,
                t == 0x1000 || t == 0x2000 || t == 0x4000 || t == 0x6000 || t == 0x8000 || t
                    == 0xA000 || t == 0xC000,
        ;
    }
}

/// What `file_stat` tells of a file.
#[derive(Clone, Copy, Debug)]
pub struct FileStat {
    pub mode: Mode,
    pub uid: u16,
    pub gid: u16,
    pub links_count: u16,
    pub size: u64,
    pub access_time: u64,
    pub creation_time: u64,
    pub modification_time: u64,
}

impl FileStat {
    /// The attributes that `file_stat` tells, as mathematical values.
    pub open spec fn parts(self) -> (Mode, u16, u16, u16, u64, u64, u64, u64) {
        (
            self.mode,
            self.uid,
            self.gid,
            self.links_count,
            self.size,
            self.access_time,
            self.creation_time,
            self.modification_time,
        )
    }
}

/// One entry of a directory. An entry whose `inode_index` is 0 names nothing:
/// it is kept so that callers see the directory as it is stored.
#[derive(Clone, Debug)]
pub struct DirEntry {
    pub inode_index: u64,
    pub file_type: Option<FileType>,
    pub name: String,
}

/// A directory entry as a mathematical value.
pub struct DirEntryView {
    pub inode_index: u64,
    pub file_type: Option<FileType>,
    pub name: Seq<char>,
}

impl View for DirEntry {
    type V = DirEntryView;

    open spec fn view(&self) -> DirEntryView {
        DirEntryView { inode_index: self.inode_index, file_type: self.file_type, name: self.name@ }
    }
}

/// The entries of a list, each as a mathematical value.
pub open spec fn views(entries: Seq<DirEntry>) -> Seq<DirEntryView> {
    Seq::new(entries.len(), |i: int| entries[i]@)
}

/// Why an operation on a filesystem failed.
#[derive(Clone, Copy, Debug, PartialEq, Eq)]
pub enum Error {
    /// What the device holds is not a consistent volume.
    Corrupt,
    /// No free block, or no free inode, is left.
    NoSpace,
}

/// The inode of the root directory.
pub const ROOT_INODE_INDEX: u64 = 2;

/// The operations of a mounted filesystem. Files are named by inode indices;
/// what lies in a file where nothing was written reads as zeros.
pub trait Session {
    /// The session can be worked on.
    spec fn ready(&self) -> bool;

    /// `inode_index` names an inode of the filesystem.
    spec fn has_inode(&self, inode_index: u64) -> bool;

    /// The largest size that the format allows a file to reach.
    spec fn max_file_size(&self) -> int;

    /// The format can record `size` as the size of a file.
    spec fn can_resize_to(&self, size: u64) -> bool;

    /// The format can store these entries as a directory.
    spec fn can_store(&self, dir_entries: Seq<DirEntryView>) -> bool;

    /// The inode of the root directory.
    fn root(&self) -> (inode_index: u64)
        ensures
            inode_index == ROOT_INODE_INDEX,
    ;

    /// Mode, owner, link count, size and times of a file.
    fn file_stat(&self, inode_index: u64) -> (file_stat: FileStat)
        requires
            self.ready(),
            self.has_inode(inode_index),
    ;

    /// Makes a file of the given type and permissions, empty and with no
    /// link to it, and gives its inode index.
    fn create(&mut self, file_type: FileType, permissions: u32) -> (inode_index: Result<u64, Error>)
        requires
            old(self).ready(),
            permissions <= 0xffff,
        ensures
            final(self).ready(),
            forall|i: u64| final(self).has_inode(i) == old(self).has_inode(i),
            final(self).max_file_size() == old(self).max_file_size(),
            inode_index matches Ok(index) ==> final(self).has_inode(index),
    ;

    /// Gives the inode of a file back. The blocks of the file are not given
    /// back with it: the file is to be resized to 0 first.
    fn remove(&mut self, inode_index: u64) -> (removed: Result<(), Error>)
        requires
            old(self).ready(),
            old(self).has_inode(inode_index),
        ensures
            final(self).ready(),
            forall|i: u64| final(self).has_inode(i) == old(self).has_inode(i),
            final(self).max_file_size() == old(self).max_file_size(),
    ;

    /// Sets the number of links to a file.
    fn set_links_count(&mut self, inode_index: u64, links_count: u16)
        requires
            old(self).ready(),
            old(self).has_inode(inode_index),
        ensures
            final(self).ready(),
            forall|i: u64| final(self).has_inode(i) == old(self).has_inode(i),
            final(self).max_file_size() == old(self).max_file_size(),
    ;

    /// The bytes of a file in `range`.
    fn read_regular_file_range(&self, inode_index: u64, range: Range<u64>) -> (data: Result<
        Vec<u8>,
        Error,
    >)
        requires
            self.ready(),
            self.has_inode(inode_index),
            range.start <= range.end <= self.max_file_size(),
            range.end - range.start <= usize::MAX,
        ensures
            data matches Ok(d) ==> d@.len() == range.end - range.start,
    ;

    /// Writes `data`, which has as many bytes as `range`, over `range` of a
    /// file.
    fn write_regular_file_range(
        &mut self,
        inode_index: u64,
        range: Range<u64>,
        data: &[u8],
    ) -> (written: Result<(), Error>)
        requires
            old(self).ready(),
            old(self).has_inode(inode_index),
            range.start <= range.end <= old(self).max_file_size(),
            data@.len() == range.end - range.start,
        ensures
            final(self).ready(),
            forall|i: u64| final(self).has_inode(i) == old(self).has_inode(i),
            final(self).max_file_size() == old(self).max_file_size(),
    ;

    /// Sets the size of a file.
    fn resize_regular_file(&mut self, inode_index: u64, size: u64) -> (resized: Result<(), Error>)
        requires
            old(self).ready(),
            old(self).has_inode(inode_index),
            old(self).can_resize_to(size),
        ensures
            final(self).ready(),
            forall|i: u64| final(self).has_inode(i) == old(self).has_inode(i),
            final(self).max_file_size() == old(self).max_file_size(),
    ;

    /// The entries of a directory, in the order in which they are stored,
    /// those that name nothing among them.
    fn read_dir(&self, inode_index: u64) -> (dir_entries: Result<Vec<DirEntry>, Error>)
        requires
            self.ready(),
            self.has_inode(inode_index),
    ;

    /// Stores `dir_entries` as the entries of a directory.
    fn write_dir(&mut self, inode_index: u64, dir_entries: &[DirEntry]) -> (written: Result<
        (),
        Error,
    >)
        requires
            old(self).ready(),
            old(self).has_inode(inode_index),
            old(self).can_store(views(dir_entries@)),
        ensures
            final(self).ready(),
            forall|i: u64| final(self).has_inode(i) == old(self).has_inode(i),
            final(self).max_file_size() == old(self).max_file_size(),
    ;
}

} // verus!
