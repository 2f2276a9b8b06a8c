//! The six historical revisions of the container format, the classification
//! of a container, and the header and index layout that each revision uses.

use vstd::prelude::*;

verus! {

/// The header holds an extra subheader of 20 bytes (PFH5 only).
pub const HAS_EXTENDED_HEADER: u32 = 0x100;
/// The index is encrypted.
pub const HAS_ENCRYPTED_INDEX: u32 = 0x80;
/// Each index record carries a timestamp.
pub const HAS_INDEX_WITH_TIMESTAMPS: u32 = 0x40;
/// The data of the entries is encrypted.
pub const HAS_ENCRYPTED_DATA: u32 = 0x10;

/// Ticks of the platform clock in one second.
pub const WINDOWS_TICK: i64 = 10_000_000;
/// Seconds from the platform clock's epoch to the Unix epoch.
pub const SEC_TO_UNIX_EPOCH: i64 = 11_644_473_600;

/// One revision of the format, named by the magic at the start of the file.
#[derive(Clone, Copy, Debug, PartialEq, Eq, Structural)]
pub enum PFHVersion {
    PFH6,
    PFH5,
    PFH4,
    PFH3,
    PFH2,
    PFH0,
}

/// The intended use of a container, in the low four bits of its flags word.
#[derive(Clone, Copy, Debug, PartialEq, Eq, Structural)]
pub enum PFHFileType {
    Boot,
    Release,
    Patch,
    Mod,
    Movie,
    Other(u32),
}

/// How a timestamp is stored.
#[derive(Clone, Copy, Debug, PartialEq, Eq, Structural)]
pub enum TimestampField {
    /// Not stored at all.
    Absent,
    /// Eight bytes: ticks of the platform clock.
    Ticks,
    /// Four bytes: seconds since the Unix epoch.
    Seconds,
}

/// What a revision, with a given set of flags, stores where.
#[derive(Clone, Copy, Debug, PartialEq, Eq, Structural)]
pub struct Layout {
    /// Length of the whole header, subheader included.
    pub header_size: usize,
    /// The container timestamp, at offset 24.
    pub header_timestamp: TimestampField,
    /// The timestamp in each index record, after the size.
    pub entry_timestamp: TimestampField,
    /// Whether each index record has a compression byte before the path.
    pub compression_marker: bool,
}

/// The four magic bytes of a revision.
pub open spec fn magic_of(v: PFHVersion) -> Seq<u8> {
    let d: u8 = match v {
        PFHVersion::PFH6 => 0x36,
        PFHVersion::PFH5 => 0x35,
        PFHVersion::PFH4 => 0x34,
        PFHVersion::PFH3 => 0x33,
        PFHVersion::PFH2 => 0x32,
        PFHVersion::PFH0 => 0x30,
    };
    seq![0x50u8, 0x46u8, 0x48u8, d]
}

/// The revision whose magic `m` is, if any.
pub open spec fn version_of(m: Seq<u8>) -> Option<PFHVersion> {
    if m.len() == 4 && m[0] == 0x50 && m[1] == 0x46 && m[2] == 0x48 {
        if m[3] == 0x36 {
            Some(PFHVersion::PFH6)
        } else if m[3] == 0x35 {
            Some(PFHVersion::PFH5)
        } else if m[3] == 0x34 {
            Some(PFHVersion::PFH4)
        } else if m[3] == 0x33 {
            Some(PFHVersion::PFH3)
        } else if m[3] == 0x32 {
            Some(PFHVersion::PFH2)
        } else if m[3] == 0x30 {
            Some(PFHVersion::PFH0)
        } else {
            None
        }
    } else {
        None
    }
}

pub proof fn lemma_version_of_magic(v: PFHVersion)
    ensures
        version_of(magic_of(v)) == Some(v),
        magic_of(v).len() == 4,
{
}

/// The number that a file type is written as.
pub open spec fn type_value(t: PFHFileType) -> u32 {
    match t {
        PFHFileType::Boot => 0,
        PFHFileType::Release => 1,
        PFHFileType::Patch => 2,
        PFHFileType::Mod => 3,
        PFHFileType::Movie => 4,
        PFHFileType::Other(v) => v,
    }
}

/// The file type that the number `v` stands for.
pub open spec fn type_of(v: u32) -> PFHFileType {
    if v == 0 {
        PFHFileType::Boot
    } else if v == 1 {
        PFHFileType::Release
    } else if v == 2 {
        PFHFileType::Patch
    } else if v == 3 {
        PFHFileType::Mod
    } else if v == 4 {
        PFHFileType::Movie
    } else {
        PFHFileType::Other(v)
    }
}

/// A file type that fits in the four bits reserved for it and reads back as itself.
pub open spec fn valid_file_type(t: PFHFileType) -> bool {
    match t {
        PFHFileType::Other(v) => 4 < v < 16,
        _ => true,
    }
}

/// Width in bytes of a stored timestamp.
pub open spec fn timestamp_width(f: TimestampField) -> nat {
    match f {
        TimestampField::Absent => 0,
        TimestampField::Ticks => 8,
        TimestampField::Seconds => 4,
    }
}

/// The layout of a revision with the given flags.
pub open spec fn spec_layout(v: PFHVersion, bitmask: u32) -> Layout {
    let ts = (bitmask & HAS_INDEX_WITH_TIMESTAMPS) != 0;
    let extended = (bitmask & HAS_EXTENDED_HEADER) != 0;
    match v {
        PFHVersion::PFH0 => Layout {
            header_size: 24,
            header_timestamp: TimestampField::Absent,
            entry_timestamp: TimestampField::Absent,
            compression_marker: false,
        },
        PFHVersion::PFH2 | PFHVersion::PFH3 => Layout {
            header_size: 32,
            header_timestamp: TimestampField::Ticks,
            entry_timestamp: if ts { TimestampField::Ticks } else { TimestampField::Absent },
            compression_marker: false,
        },
        PFHVersion::PFH4 => Layout {
            header_size: 28,
            header_timestamp: TimestampField::Seconds,
            entry_timestamp: if ts { TimestampField::Seconds } else { TimestampField::Absent },
            compression_marker: false,
        },
        PFHVersion::PFH5 => Layout {
            header_size: if extended { 48 } else { 28 },
            header_timestamp: TimestampField::Seconds,
            entry_timestamp: if ts { TimestampField::Seconds } else { TimestampField::Absent },
            compression_marker: !extended,
        },
        PFHVersion::PFH6 => Layout {
            header_size: 312,
            header_timestamp: TimestampField::Seconds,
            entry_timestamp: if ts { TimestampField::Seconds } else { TimestampField::Absent },
            compression_marker: true,
        },
    }
}

/// Every layout starts with the 24 bytes of magic, flags, counts and index sizes,
/// then the container timestamp.
pub proof fn lemma_layout_bounds(v: PFHVersion, bitmask: u32)
    ensures
        24 + timestamp_width(spec_layout(v, bitmask).header_timestamp) <= spec_layout(v, bitmask).header_size <= 312,
{
}

/// A Unix time that a timestamp field of the given kind can hold exactly.
pub open spec fn timestamp_fits(f: TimestampField, t: i64) -> bool {
    match f {
        TimestampField::Absent => true,
        TimestampField::Ticks => -922_337_203_685 <= t + SEC_TO_UNIX_EPOCH <= 922_337_203_685,
        TimestampField::Seconds => 0 <= t <= u32::MAX,
    }
}

impl PFHVersion {
    /// The revision that the four magic bytes name, if any.
    pub fn get_version(magic: &[u8]) -> (r: Option<PFHVersion>)
        ensures
            r == version_of(magic@),
    {
        if magic.len() != 4 || magic[0] != 0x50 || magic[1] != 0x46 || magic[2] != 0x48 {
            return None;
        }
        let d = magic[3];
        if d == 0x36 {
            Some(PFHVersion::PFH6)
        } else if d == 0x35 {
            Some(PFHVersion::PFH5)
        } else if d == 0x34 {
            Some(PFHVersion::PFH4)
        } else if d == 0x33 {
            Some(PFHVersion::PFH3)
        } else if d == 0x32 {
            Some(PFHVersion::PFH2)
        } else if d == 0x30 {
            Some(PFHVersion::PFH0)
        } else {
            None
        }
    }

    /// The four magic bytes of this revision.
    pub fn get_value(&self) -> (r: Vec<u8>)
        ensures
            r@ == magic_of(*self),
    {
        let d: u8 = match self {
            PFHVersion::PFH6 => 0x36,
            PFHVersion::PFH5 => 0x35,
            PFHVersion::PFH4 => 0x34,
            PFHVersion::PFH3 => 0x33,
            PFHVersion::PFH2 => 0x32,
            PFHVersion::PFH0 => 0x30,
        };
        let r = vec![0x50u8, 0x46u8, 0x48u8, d];
        assert(r@ =~= magic_of(*self));
        r
    }
}

impl PFHFileType {
    /// The file type that the number `v` stands for.
    pub fn get_type(v: u32) -> (r: PFHFileType)
        ensures
            r == type_of(v),
    {
        if v == 0 {
            PFHFileType::Boot
        } else if v == 1 {
            PFHFileType::Release
        } else if v == 2 {
            PFHFileType::Patch
        } else if v == 3 {
            PFHFileType::Mod
        } else if v == 4 {
            PFHFileType::Movie
        } else {
            PFHFileType::Other(v)
        }
    }

    /// The number that this file type is written as.
    pub fn get_value(&self) -> (r: u32)
        ensures
            r == type_value(*self),
    {
        match self {
            PFHFileType::Boot => 0,
            PFHFileType::Release => 1,
            PFHFileType::Patch => 2,
            PFHFileType::Mod => 3,
            PFHFileType::Movie => 4,
            PFHFileType::Other(v) => *v,
        }
    }
}

/// The layout of revision `v` with flags `bitmask`.
pub fn layout(v: PFHVersion, bitmask: u32) -> (r: Layout)
    ensures
        r == spec_layout(v, bitmask),
{
    let ts = (bitmask & HAS_INDEX_WITH_TIMESTAMPS) != 0;
    let extended = (bitmask & HAS_EXTENDED_HEADER) != 0;
    let entry_timestamp = |f: TimestampField| -> (r: TimestampField)
        ensures r == (if ts { f } else { TimestampField::Absent })
    { if ts { f } else { TimestampField::Absent } };
    match v {
        PFHVersion::PFH0 => Layout {
            header_size: 24,
            header_timestamp: TimestampField::Absent,
            entry_timestamp: TimestampField::Absent,
            compression_marker: false,
        },
        PFHVersion::PFH2 | PFHVersion::PFH3 => Layout {
            header_size: 32,
            header_timestamp: TimestampField::Ticks,
            entry_timestamp: entry_timestamp(TimestampField::Ticks),
            compression_marker: false,
        },
        PFHVersion::PFH4 => Layout {
            header_size: 28,
            header_timestamp: TimestampField::Seconds,
            entry_timestamp: entry_timestamp(TimestampField::Seconds),
            compression_marker: false,
        },
        PFHVersion::PFH5 => Layout {
            header_size: if extended { 48 } else { 28 },
            header_timestamp: TimestampField::Seconds,
            entry_timestamp: entry_timestamp(TimestampField::Seconds),
            compression_marker: !extended,
        },
        PFHVersion::PFH6 => Layout {
            header_size: 312,
            header_timestamp: TimestampField::Seconds,
            entry_timestamp: entry_timestamp(TimestampField::Seconds),
            compression_marker: true,
        },
    }
}


/// Whether a revision can encrypt its index. The older revisions ignore the
/// flag that says so.
pub open spec fn index_may_be_encrypted(v: PFHVersion) -> bool {
    v == PFHVersion::PFH4 || v == PFHVersion::PFH5 || v == PFHVersion::PFH6
}

impl PFHVersion {
    /// Whether this revision can encrypt its index.
    pub fn can_encrypt_index(&self) -> (r: bool)
        ensures
            r == index_may_be_encrypted(*self),
    {
        match self {
            PFHVersion::PFH4 | PFHVersion::PFH5 | PFHVersion::PFH6 => true,
            _ => false,
        }
    }
}

} // verus!
