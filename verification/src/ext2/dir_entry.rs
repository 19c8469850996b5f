//! Directory entries as ext2 stores them: records of variable length, one
//! after the other.

use crate::bytes::{
    copy_into, le_u16, le_u32, lemma_le_u16_at, lemma_le_u32_at, read_u16, read_u32, splice,
    u16_bytes, u32_bytes, write_u16, write_u32, write_u8, zero_bytes, zeroed,
};
use crate::fs::{views, DirEntry, DirEntryView, FileType};
use vstd::prelude::*;
use vstd::utf8::{decode_utf8, encode_utf8, valid_utf8};

verus! {

/// Bytes of a record before the name.
pub const DIR_ENTRY_HEADER_SIZE: usize = 8;

/// Length of each record that is written.
pub const DIR_ENTRY_PREFERRED_SIZE: u64 = 512;

/// What stands for the bytes of a name that are no valid UTF-8: the text in
/// which each ill-formed part is replaced by U+FFFD.
pub uninterp spec fn utf8_repaired(bytes: Seq<u8>) -> Seq<char>;

/// The text that the bytes of a name stand for.
pub open spec fn lossy_text(bytes: Seq<u8>) -> Seq<char> {
    if valid_utf8(bytes) {
        decode_utf8(bytes)
    } else {
        utf8_repaired(bytes)
    }
}

/// The code that stands for a file type in a record; 0 for none.
pub open spec fn file_type_code(file_type: Option<FileType>) -> u8 {
    match file_type {
        Some(file_type) => file_type.spec_inode_file_type(),
        None => 0,
    }
}

/// The text of `bytes`, as `String::from_utf8_lossy` gives it: the text that
/// valid UTF-8 encodes, and else the text in which each ill-formed part is
/// replaced by U+FFFD, which the contract only names.
#[verifier::external_body]
fn text_of_bytes(bytes: &[u8]) -> (text: String)
    ensures
        valid_utf8(bytes@) ==> text@ == decode_utf8(bytes@),
        !valid_utf8(bytes@) ==> text@ == utf8_repaired(bytes@),
{
    String::from_utf8_lossy(bytes).into_owned()
}

impl DirEntryView {
    /// Length that the record at the start of `s` gives itself.
    pub open spec fn record_len(s: Seq<u8>) -> int {
        le_u16(s, 4)
    }

    /// Length of the name of the record at the start of `s`.
    pub open spec fn name_len(s: Seq<u8>) -> int {
        s[6] as int
    }

    /// A record starts `s`: its header and its name lie inside it, and it
    /// lies inside `s`.
    pub open spec fn record_valid(s: Seq<u8>) -> bool {
        &&& s.len() >= DIR_ENTRY_HEADER_SIZE
        &&& DIR_ENTRY_HEADER_SIZE + Self::name_len(s) <= Self::record_len(s) <= s.len()
    }

    /// The entry that the record at the start of `s` holds.
    pub open spec fn decode(s: Seq<u8>) -> DirEntryView {
        DirEntryView {
            inode_index: le_u32(s, 0) as u64,
            file_type: FileType::spec_from_inode_file_type(s[7]),
            name: lossy_text(
                s.subrange(
                    DIR_ENTRY_HEADER_SIZE as int,
                    DIR_ENTRY_HEADER_SIZE + Self::name_len(s),
                ),
            ),
        }
    }

    /// `s` is made of records, one after the other, with nothing left over.
    pub open spec fn stream_valid(s: Seq<u8>) -> bool
        decreases s.len(),
    {
        s.len() == 0 || (Self::record_valid(s) && Self::stream_valid(
            s.subrange(Self::record_len(s), s.len() as int),
        ))
    }

    /// The entries that the records of `s` hold, tombstones among them.
    pub open spec fn decode_stream(s: Seq<u8>) -> Seq<DirEntryView>
        decreases s.len(),
    {
        if s.len() == 0 || !Self::record_valid(s) {
            Seq::empty()
        } else {
            seq![Self::decode(s)] + Self::decode_stream(
                s.subrange(Self::record_len(s), s.len() as int),
            )
        }
    }

    /// The entry can be written: its inode index fits 32 bits and its name,
    /// as UTF-8, 255 bytes.
    pub open spec fn encodable(self) -> bool {
        &&& self.inode_index <= u32::MAX
        &&& encode_utf8(self.name).len() <= 255
    }

    /// The record of 512 bytes that holds the entry: the header, the name,
    /// and zeros up to the end.
    pub open spec fn encoded(self) -> Seq<u8> {
        let name = encode_utf8(self.name);
        let s1 = splice(
            zero_bytes(DIR_ENTRY_PREFERRED_SIZE as nat),
            0,
            u32_bytes(self.inode_index as u32),
        );
        let s2 = splice(s1, 4, u16_bytes(DIR_ENTRY_PREFERRED_SIZE as u16));
        let s3 = splice(s2, 6, seq![name.len() as u8]);
        let s4 = splice(s3, 7, seq![file_type_code(self.file_type)]);
        splice(s4, 8, name)
    }

    /// The records of the entries, one after the other.
    pub open spec fn encode_stream(entries: Seq<DirEntryView>) -> Seq<u8>
        decreases entries.len(),
    {
        if entries.len() == 0 {
            Seq::empty()
        } else {
            entries[0].encoded() + Self::encode_stream(entries.drop_first())
        }
    }

    /// Round trip: the record of an entry that can be written is a record,
    /// of 512 bytes, and holds the entry.
    pub proof fn lemma_round_trip(self)
        requires
            self.encodable(),
        ensures
            self.encoded().len() == DIR_ENTRY_PREFERRED_SIZE,
            Self::record_valid(self.encoded()),
            Self::record_len(self.encoded()) == DIR_ENTRY_PREFERRED_SIZE,
            Self::decode(self.encoded()) == self,
    {
        let s = self.encoded();
        let name = encode_utf8(self.name);
        lemma_le_u32_at(s, 0, self.inode_index as u32);
        lemma_le_u16_at(s, 4, DIR_ENTRY_PREFERRED_SIZE as u16);
        assert(s.subrange(8, 8 + name.len() as int) =~= name);
        vstd::utf8::encode_utf8_valid_utf8(self.name);
        vstd::utf8::encode_utf8_decode_utf8(self.name);
        match self.file_type {
            Some(file_type) => {
                file_type.lemma_code_round_trip();
            },
            None => {},
        }
    }

    /// Round trip for a directory: the records of entries that can be written
    /// are a stream of records, 512 bytes for each entry, and hold the entries.
    pub proof fn lemma_stream_round_trip(entries: Seq<DirEntryView>)
        requires
            forall|i: int| 0 <= i < entries.len() ==> (#[trigger] entries[i]).encodable(),
        ensures
            Self::encode_stream(entries).len() == entries.len() * DIR_ENTRY_PREFERRED_SIZE,
            Self::stream_valid(Self::encode_stream(entries)),
            Self::decode_stream(Self::encode_stream(entries)) == entries,
        decreases entries.len(),
    {
        if entries.len() > 0 {
            let first = entries[0];
            let rest = entries.drop_first();
            first.lemma_round_trip();
            assert forall|i: int| 0 <= i < rest.len() implies (#[trigger] rest[i]).encodable() by {
                assert(rest[i] == entries[i + 1]);
            }
            Self::lemma_stream_round_trip(rest);
            let s = Self::encode_stream(entries);
            let record = first.encoded();
            let tail = Self::encode_stream(rest);
            assert(s == record + tail);
            assert(s.subrange(512, s.len() as int) =~= tail);
            assert(s.subrange(0, record.len() as int) =~= record);
            Self::lemma_record_prefix(s, record);
            assert(Self::decode_stream(s) =~= entries);
        }
    }

    /// What a record says depends on the bytes of the record alone.
    pub proof fn lemma_record_prefix(s: Seq<u8>, record: Seq<u8>)
        requires
            Self::record_valid(record),
            record.len() <= s.len(),
            s.subrange(0, record.len() as int) == record,
        ensures
            Self::record_valid(s),
            Self::record_len(s) == Self::record_len(record),
            Self::decode(s) == Self::decode(record),
    {
        assert forall|i: int| 0 <= i < record.len() implies s[i] == record[i] by {
            assert(s.subrange(0, record.len() as int)[i] == s[i]);
        }
        assert(s.subrange(8, 8 + Self::name_len(s)) =~= record.subrange(
            8,
            8 + Self::name_len(record),
        ));
    }
}

impl DirEntry {
    /// Whether a record starts `dir_entry_data`: see `DirEntryView::record_valid`.
    pub fn bytes_are_valid(dir_entry_data: &[u8]) -> (valid: bool)
        ensures
            valid == DirEntryView::record_valid(dir_entry_data@),
    {
        if dir_entry_data.len() < DIR_ENTRY_HEADER_SIZE {
            return false;
        }
        let record_len = read_u16(dir_entry_data, 4) as usize;
        let name_len = dir_entry_data[6] as usize;
        DIR_ENTRY_HEADER_SIZE + name_len <= record_len && record_len <= dir_entry_data.len()
    }

    /// Parses the record at the start of `dir_entry_data`; the second result
    /// is what follows the record.
    pub fn of_bytes(dir_entry_data: &[u8]) -> (parsed: (DirEntry, &[u8]))
        requires
            DirEntryView::record_valid(dir_entry_data@),
        ensures
            parsed.0@ == DirEntryView::decode(dir_entry_data@),
            parsed.1@ == dir_entry_data@.subrange(
                DirEntryView::record_len(dir_entry_data@),
                dir_entry_data@.len() as int,
            ),
    {
        let inode_index = read_u32(dir_entry_data, 0) as u64;
        let record_len = read_u16(dir_entry_data, 4) as usize;
        let name_len = dir_entry_data[6] as usize;
        let file_type = FileType::from_inode_file_type(dir_entry_data[7]);
        let name = text_of_bytes(
            &dir_entry_data[DIR_ENTRY_HEADER_SIZE..DIR_ENTRY_HEADER_SIZE + name_len],
        );
        (
            DirEntry { inode_index, file_type, name },
            &dir_entry_data[record_len..dir_entry_data.len()],
        )
    }

    /// The record of 512 bytes that holds the entry.
    pub fn to_bytes(&self) -> (dir_entry_data: Vec<u8>)
        requires
            self@.encodable(),
        ensures
            dir_entry_data@ == self@.encoded(),
    {
        let name = self.name.as_str().as_bytes();
        let file_type = match self.file_type {
            Some(file_type) => file_type.inode_file_type(),
            None => 0,
        };
        let mut dir_entry_data = zeroed(DIR_ENTRY_PREFERRED_SIZE as usize);
        write_u32(dir_entry_data.as_mut_slice(), 0, self.inode_index as u32);
        write_u16(dir_entry_data.as_mut_slice(), 4, DIR_ENTRY_PREFERRED_SIZE as u16);
        write_u8(dir_entry_data.as_mut_slice(), 6, name.len() as u8);
        write_u8(dir_entry_data.as_mut_slice(), 7, file_type);
        copy_into(dir_entry_data.as_mut_slice(), DIR_ENTRY_HEADER_SIZE, name);
        dir_entry_data
    }

    /// Whether `dir_entries_data` is made of records, one after the other:
    /// see `DirEntryView::stream_valid`.
    pub fn many_bytes_are_valid(dir_entries_data: &[u8]) -> (valid: bool)
        ensures
            valid == DirEntryView::stream_valid(dir_entries_data@),
    {
        let mut position: usize = 0;
        assert(dir_entries_data@.subrange(0, dir_entries_data@.len() as int)
            =~= dir_entries_data@);
        while position < dir_entries_data.len()
            invariant
                position <= dir_entries_data@.len(),
                DirEntryView::stream_valid(dir_entries_data@) == DirEntryView::stream_valid(
                    dir_entries_data@.subrange(position as int, dir_entries_data@.len() as int),
                ),
            decreases dir_entries_data@.len() - position,
        {
            let rest = &dir_entries_data[position..dir_entries_data.len()];
            if !Self::bytes_are_valid(rest) {
                return false;
            }
            let record_len = read_u16(rest, 4) as usize;
            assert(rest@.subrange(record_len as int, rest@.len() as int)
                =~= dir_entries_data@.subrange(
                position + record_len,
                dir_entries_data@.len() as int,
            ));
            position = position + record_len;
        }
        assert(dir_entries_data@.subrange(position as int, dir_entries_data@.len() as int).len()
            == 0);
        true
    }

    /// The entries that the records of `dir_entries_data` hold, in their
    /// order, tombstones among them.
    pub fn many_of_bytes(dir_entries_data: &[u8]) -> (dir_entries: Vec<DirEntry>)
        requires
            DirEntryView::stream_valid(dir_entries_data@),
        ensures
            views(dir_entries@) == DirEntryView::decode_stream(dir_entries_data@),
    {
        let mut dir_entries: Vec<DirEntry> = Vec::new();
        let mut rest = dir_entries_data;
        while rest.len() > 0
            invariant
                DirEntryView::stream_valid(rest@),
                views(dir_entries@) + DirEntryView::decode_stream(rest@)
                    == DirEntryView::decode_stream(dir_entries_data@),
            decreases rest@.len(),
        {
            let ghost before = views(dir_entries@);
            let ghost record = rest@;
            let (dir_entry, after) = Self::of_bytes(rest);
            dir_entries.push(dir_entry);
            rest = after;
            assert(views(dir_entries@) =~= before + seq![DirEntryView::decode(record)]);
            assert(views(dir_entries@) + DirEntryView::decode_stream(rest@) =~= before
                + DirEntryView::decode_stream(record));
        }
        assert(views(dir_entries@) + Seq::<DirEntryView>::empty() =~= views(dir_entries@));
        dir_entries
    }

    /// The records of `dir_entries`, 512 bytes each, one after the other.
    pub fn many_to_bytes(dir_entries: &[DirEntry]) -> (dir_entries_data: Vec<u8>)
        requires
            forall|i: int| 0 <= i < dir_entries@.len() ==> (#[trigger] dir_entries@[i])@.encodable(),
        ensures
            dir_entries_data@ == DirEntryView::encode_stream(views(dir_entries@)),
    {
        let mut dir_entries_data: Vec<u8> = Vec::new();
        let mut i: usize = 0;
        assert(views(dir_entries@).subrange(0, 0) =~= Seq::<DirEntryView>::empty());
        while i < dir_entries.len()
            invariant
                i <= dir_entries@.len(),
                forall|k: int|
                    0 <= k < dir_entries@.len() ==> (#[trigger] dir_entries@[k])@.encodable(),
                dir_entries_data@ == DirEntryView::encode_stream(
                    views(dir_entries@).subrange(0, i as int),
                ),
            decreases dir_entries@.len() - i,
        {
            let record = dir_entries[i].to_bytes();
            dir_entries_data.extend_from_slice(record.as_slice());
            proof {
                DirEntryView::lemma_encode_stream_push(
                    views(dir_entries@).subrange(0, i as int),
                    dir_entries@[i as int]@,
                );
                assert(views(dir_entries@).subrange(0, i as int).push(dir_entries@[i as int]@)
                    =~= views(dir_entries@).subrange(0, i + 1));
            }
            i += 1;
        }
        assert(views(dir_entries@).subrange(0, dir_entries@.len() as int) =~= views(dir_entries@));
        dir_entries_data
    }
}

impl DirEntryView {
    /// The records of a list with one more entry at its end are those of the
    /// list, then the record of the entry.
    pub proof fn lemma_encode_stream_push(entries: Seq<DirEntryView>, entry: DirEntryView)
        ensures
            Self::encode_stream(entries.push(entry)) == Self::encode_stream(entries)
                + entry.encoded(),
        decreases entries.len(),
    {
        if entries.len() == 0 {
            assert(entries.push(entry).drop_first() =~= Seq::<DirEntryView>::empty());
            assert(Self::encode_stream(Seq::<DirEntryView>::empty()) =~= Seq::<u8>::empty());
            assert(Self::encode_stream(entries.push(entry)) =~= entry.encoded());
            assert(Self::encode_stream(entries) + entry.encoded() =~= entry.encoded());
        } else {
            assert(entries.push(entry).drop_first() =~= entries.drop_first().push(entry));
            Self::lemma_encode_stream_push(entries.drop_first(), entry);
            assert(Self::encode_stream(entries.push(entry)) =~= Self::encode_stream(entries)
                + entry.encoded());
        }
    }
}

} // verus!
