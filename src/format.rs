//! The on-disk format as mathematics: what reading a file yields, and which
//! bytes saving a container writes.

use vstd::prelude::*;
use vstd::bytes::*;
use vstd::utf8::*;

use crate::codec::spec_cstr;
use crate::entry::{is_reserved, no_nul_char, unique_paths, valid_path, join_path, DataModel, EntryModel, PackedFileType, ends_with, notes_name, settings_name, split_path, type_of_path};
use crate::error::ErrorKind;
use crate::sort::{path_key, sorted_indices};
use crate::version::{
    index_may_be_encrypted,     HAS_EXTENDED_HEADER, magic_of, timestamp_fits, type_value, HAS_ENCRYPTED_DATA, HAS_ENCRYPTED_INDEX, Layout, PFHFileType, PFHVersion, SEC_TO_UNIX_EPOCH, TimestampField,
    WINDOWS_TICK, spec_layout, timestamp_width, type_of, version_of,
};

verus! {

/// The flags that a container may carry; other bits of the flags word are dropped on read.
pub const KNOWN_FLAGS: u32 = 0x1d0;

pub open spec fn u32_at(b: Seq<u8>, i: int) -> u32 {
    spec_u32_from_le_bytes(b.subrange(i, i + 4))
}

pub open spec fn u64_at(b: Seq<u8>, i: int) -> u64 {
    spec_u64_from_le_bytes(b.subrange(i, i + 8))
}

/// Integer division that rounds toward zero.
pub open spec fn trunc_div(a: int, d: int) -> int {
    if a >= 0 {
        a / d
    } else {
        -((-a) / d)
    }
}

/// Unix seconds for a count of platform ticks.
pub open spec fn ticks_to_unix(t: i64) -> int {
    trunc_div(t as int, WINDOWS_TICK as int) - SEC_TO_UNIX_EPOCH
}

/// The mathematical value of a whole container.
pub struct PackModel {
    pub path: Seq<char>,
    pub version: PFHVersion,
    pub file_type: PFHFileType,
    pub bitmask: u32,
    pub timestamp: i64,
    pub subheader: Seq<u8>,
    pub deps: Seq<Seq<char>>,
    pub entries: Seq<EntryModel>,
    pub notes: Option<Seq<char>>,
    pub settings: Seq<u8>,
}

/// The fixed header, as read.
pub struct Header {
    pub version: PFHVersion,
    pub file_type: PFHFileType,
    pub bitmask: u32,
    pub layout: Layout,
    pub dep_count: u32,
    pub dep_index_size: u32,
    pub rec_count: u32,
    pub rec_index_size: u32,
    pub timestamp: i64,
    pub subheader: Seq<u8>,
}

/// One record of the entry index, as read.
pub struct Record {
    pub path: Seq<char>,
    pub size: u32,
    pub timestamp: i64,
    pub compressed: bool,
}

/// Header and both indexes, as read, and where the data region starts.
pub struct Parsed {
    pub header: Header,
    pub deps: Seq<Seq<char>>,
    pub records: Seq<Record>,
    pub data_start: int,
}

/// The timestamp stored at `pos` in the form `f`, and the position after it.
pub open spec fn timestamp_at(b: Seq<u8>, pos: int, f: TimestampField) -> Result<(i64, int), ErrorKind> {
    match f {
        TimestampField::Absent => Ok((0i64, pos)),
        TimestampField::Ticks => if pos + 8 > b.len() {
            Err(ErrorKind::NotEnoughBytesToDecode)
        } else {
            Ok((ticks_to_unix(u64_at(b, pos) as i64) as i64, pos + 8))
        },
        TimestampField::Seconds => if pos + 4 > b.len() {
            Err(ErrorKind::NotEnoughBytesToDecode)
        } else {
            Ok((u32_at(b, pos) as i64, pos + 4))
        },
    }
}

/// The header of file `b`.
pub open spec fn parse_header(b: Seq<u8>) -> Result<Header, ErrorKind> {
    if b.len() < 24 {
        Err(ErrorKind::PackFileHeaderNotComplete)
    } else {
        match version_of(b.subrange(0, 4)) {
            None => Err(ErrorKind::PackFileIsNotAPackFile),
            Some(v) => {
                let word = u32_at(b, 4);
                let bitmask = word & KNOWN_FLAGS;
                let lay = spec_layout(v, bitmask);
                if b.len() < lay.header_size {
                    Err(ErrorKind::PackFileHeaderNotComplete)
                } else if index_may_be_encrypted(v) && bitmask & HAS_ENCRYPTED_INDEX != 0 {
                    Err(ErrorKind::PackFileIndexIsEncrypted)
                } else {
                    let ts = match timestamp_at(b, 24, lay.header_timestamp) {
                        Ok((t, _)) => t,
                        Err(_) => 0,
                    };
                    Ok(Header {
                        version: v,
                        file_type: type_of(word & 15),
                        bitmask,
                        layout: lay,
                        dep_count: u32_at(b, 8),
                        dep_index_size: u32_at(b, 12),
                        rec_count: u32_at(b, 16),
                        rec_index_size: u32_at(b, 20),
                        timestamp: ts,
                        subheader: b.subrange(24 + timestamp_width(lay.header_timestamp) as int, lay.header_size as int),
                    })
                }
            },
        }
    }
}

/// The first `n` names of the dependency index `b`, and the position after them.
pub open spec fn parse_deps(b: Seq<u8>, n: nat) -> Result<(Seq<Seq<char>>, int), ErrorKind>
    decreases n,
{
    if n == 0 {
        Ok((seq![], 0))
    } else {
        match parse_deps(b, (n - 1) as nat) {
            Err(e) => Err(e),
            Ok((ds, pos)) => match spec_cstr(b, pos) {
                Err(e) => Err(e),
                Ok((s, next)) => Ok((ds.push(s), next)),
            },
        }
    }
}

/// The index record at `pos` of the entry index `b`, and the position after it.
pub open spec fn parse_record(b: Seq<u8>, pos: int, lay: Layout) -> Result<(Record, int), ErrorKind> {
    if pos + 4 > b.len() {
        Err(ErrorKind::NotEnoughBytesToDecode)
    } else {
        match timestamp_at(b, pos + 4, lay.entry_timestamp) {
            Err(e) => Err(e),
            Ok((ts, p)) => if lay.compression_marker && p >= b.len() {
                Err(ErrorKind::NotEnoughBytesToDecode)
            } else {
                let path_pos = if lay.compression_marker { p + 1 } else { p };
                match spec_cstr(b, path_pos) {
                    Err(e) => Err(e),
                    Ok((path, next)) => Ok((
                        Record {
                            path,
                            size: u32_at(b, pos),
                            timestamp: ts,
                            compressed: lay.compression_marker && b[p] != 0,
                        },
                        next,
                    )),
                }
            },
        }
    }
}

/// The first `n` records of the entry index `b`, and the position after them.
pub open spec fn parse_records(b: Seq<u8>, n: nat, lay: Layout) -> Result<(Seq<Record>, int), ErrorKind>
    decreases n,
{
    if n == 0 {
        Ok((seq![], 0))
    } else {
        match parse_records(b, (n - 1) as nat, lay) {
            Err(e) => Err(e),
            Ok((rs, pos)) => match parse_record(b, pos, lay) {
                Err(e) => Err(e),
                Ok((r, next)) => Ok((rs.push(r), next)),
            },
        }
    }
}

/// Header and indexes of file `b`.
pub open spec fn parse_indexes(b: Seq<u8>) -> Result<Parsed, ErrorKind> {
    match parse_header(b) {
        Err(e) => Err(e),
        Ok(h) => {
            let hs = h.layout.header_size as int;
            let ds = hs + h.dep_index_size + h.rec_index_size;
            if b.len() < ds {
                Err(ErrorKind::PackFileIndexesNotComplete)
            } else {
                let di = b.subrange(hs, hs + h.dep_index_size);
                let ri = b.subrange(hs + h.dep_index_size, ds);
                match parse_deps(di, h.dep_count as nat) {
                    Err(e) => Err(e),
                    Ok((deps, _)) => match parse_records(ri, h.rec_count as nat, h.layout) {
                        Err(e) => Err(e),
                        Ok((recs, _)) => Ok(Parsed { header: h, deps, records: recs, data_start: ds }),
                    },
                }
            }
        },
    }
}

/// The total of the sizes that `recs` declare.
pub open spec fn sum_sizes(recs: Seq<Record>) -> nat
    decreases recs.len(),
{
    if recs.len() == 0 {
        0
    } else {
        sum_sizes(recs.drop_last()) + recs.last().size as nat
    }
}

/// Where the data of record `i` starts.
pub open spec fn record_offset(p: Parsed, i: int) -> int {
    p.data_start + sum_sizes(p.records.subrange(0, i))
}

/// The end of the data region that the header and indexes describe.
pub open spec fn data_end(p: Parsed) -> int {
    p.data_start + sum_sizes(p.records)
}

/// `n` if it fits in a `u64`, else the largest `u64`.
pub open spec fn clamp_u64(n: int) -> u64 {
    if n > u64::MAX { u64::MAX } else { n as u64 }
}

/// Whether an entry of type `t` is kept under the filter `types`.
pub open spec fn wanted(types: Option<Seq<PackedFileType>>, t: PackedFileType) -> bool {
    match types {
        None => true,
        Some(ts) => ts.contains(t),
    }
}

/// Entries, notes and settings from the first `n` records.
pub open spec fn build_entries(
    b: Seq<u8>,
    p: Parsed,
    types: Option<Seq<PackedFileType>>,
    lazy: bool,
    n: nat,
) -> (Seq<EntryModel>, Option<Seq<char>>, Seq<u8>)
    decreases n,
{
    if n == 0 {
        (seq![], None, seq![])
    } else {
        let (es, notes, settings) = build_entries(b, p, types, lazy, (n - 1) as nat);
        let rec = p.records[n - 1];
        let path = split_path(rec.path);
        let off = record_offset(p, n - 1);
        let bytes = b.subrange(off, off + rec.size);
        if !wanted(types, type_of_path(path)) {
            (es, notes, settings)
        } else if path == seq![notes_name()] {
            (es, if valid_utf8(bytes) { Some(decode_utf8(bytes)) } else { notes }, settings)
        } else if path == seq![settings_name()] {
            (es, notes, bytes)
        } else {
            let e = EntryModel {
                path,
                timestamp: rec.timestamp,
                compressed: rec.compressed,
                encrypted: p.header.bitmask & HAS_ENCRYPTED_DATA != 0,
                data: if lazy { DataModel::OnDisk(off as u64, rec.size) } else { DataModel::InMemory(bytes) },
            };
            (es.push(e), notes, settings)
        }
    }
}

/// What opening the file `b`, named `name`, yields.
pub open spec fn parse_pack(
    name: Seq<char>,
    b: Seq<u8>,
    types: Option<Seq<PackedFileType>>,
    lazy: bool,
) -> Result<PackModel, ErrorKind> {
    if !ends_with(name, ".pack"@) {
        Err(ErrorKind::OpenPackFileInvalidExtension)
    } else {
        match parse_indexes(b) {
            Err(e) => Err(e),
            Ok(p) => if data_end(p) != b.len() {
                Err(ErrorKind::PackFileSizeIsNotWhatWeExpect(b.len() as u64, clamp_u64(data_end(p))))
            } else {
                let (es, notes, settings) = build_entries(b, p, types, lazy, p.records.len());
                if !unique_paths(es) {
                    Err(ErrorKind::FileAlreadyInPackFile)
                } else {
                Ok(PackModel {
                    path: name,
                    version: p.header.version,
                    file_type: p.header.file_type,
                    bitmask: p.header.bitmask,
                    timestamp: p.header.timestamp,
                    subheader: p.header.subheader,
                    deps: p.deps,
                    entries: es,
                    notes,
                    settings,
                })
                }
            },
        }
    }
}


/// One entry as saving writes it: its joined path, its timestamp, its
/// compression flag and its stored bytes.
pub struct Item {
    pub path: Seq<char>,
    pub timestamp: i64,
    pub compressed: bool,
    pub data: Seq<u8>,
}

/// The bytes of a timestamp stored in the form `f`.
pub open spec fn encode_timestamp(f: TimestampField, t: i64) -> Seq<u8> {
    match f {
        TimestampField::Absent => seq![],
        TimestampField::Ticks => spec_u64_to_le_bytes(
            (((t + SEC_TO_UNIX_EPOCH) * WINDOWS_TICK) as i64) as u64,
        ),
        TimestampField::Seconds => spec_u32_to_le_bytes(t as u32),
    }
}

/// The index record of `it`.
pub open spec fn encode_record(it: Item, lay: Layout) -> Seq<u8> {
    spec_u32_to_le_bytes(it.data.len() as u32) + encode_timestamp(lay.entry_timestamp, it.timestamp) + (
    if lay.compression_marker {
        seq![if it.compressed { 1u8 } else { 0u8 }]
    } else {
        seq![]
    }) + encode_utf8(it.path) + seq![0u8]
}

/// The entry index: the records of `items`, in order.
pub open spec fn encode_records(items: Seq<Item>, lay: Layout) -> Seq<u8>
    decreases items.len(),
{
    if items.len() == 0 {
        seq![]
    } else {
        encode_records(items.drop_last(), lay) + encode_record(items.last(), lay)
    }
}

/// The dependency index: each name, NUL-terminated.
pub open spec fn encode_deps(ds: Seq<Seq<char>>) -> Seq<u8>
    decreases ds.len(),
{
    if ds.len() == 0 {
        seq![]
    } else {
        encode_deps(ds.drop_last()) + encode_utf8(ds.last()) + seq![0u8]
    }
}

/// The data region: the bytes of `items`, in order.
pub open spec fn concat_data(items: Seq<Item>) -> Seq<u8>
    decreases items.len(),
{
    if items.len() == 0 {
        seq![]
    } else {
        concat_data(items.drop_last()) + items.last().data
    }
}

/// The 24 bytes of magic, flags word, counts and index sizes.
pub open spec fn encode_header_start(m: PackModel, dep_index_len: int, n: int, rec_index_len: int) -> Seq<u8> {
    magic_of(m.version) + spec_u32_to_le_bytes(m.bitmask | type_value(m.file_type)) + spec_u32_to_le_bytes(
        m.deps.len() as u32,
    ) + spec_u32_to_le_bytes(dep_index_len as u32) + spec_u32_to_le_bytes(n as u32) + spec_u32_to_le_bytes(
        rec_index_len as u32,
    )
}

/// The whole file that saving `m` at time `now`, with its items in the order
/// `items`, writes.
pub open spec fn encode_pack(m: PackModel, items: Seq<Item>, now: i64) -> Seq<u8> {
    let lay = spec_layout(m.version, m.bitmask);
    let di = encode_deps(m.deps);
    let ri = encode_records(items, lay);
    encode_header_start(m, di.len() as int, items.len() as int, ri.len() as int) + encode_timestamp(
        lay.header_timestamp,
        now,
    ) + m.subheader + di + ri + concat_data(items)
}

/// How saving writes an entry. Only entries held in memory are written.
pub open spec fn entry_item(e: EntryModel) -> Item {
    Item {
        path: join_path(e.path),
        timestamp: e.timestamp,
        compressed: e.compressed,
        data: match e.data {
            DataModel::InMemory(b) => b,
            DataModel::OnDisk(_, _) => seq![],
        },
    }
}

/// The entries that saving `m` writes, before sorting: its entries, then the
/// reserved notes entry where notes are set, and always the reserved
/// settings entry.
pub open spec fn save_items(m: PackModel) -> Seq<Item> {
    let es = m.entries.map_values(|e: EntryModel| entry_item(e));
    let with_notes = match m.notes {
        Some(n) => es.push(Item { path: notes_name(), timestamp: 0, compressed: false, data: encode_utf8(n) }),
        None => es,
    };
    with_notes.push(Item { path: settings_name(), timestamp: 0, compressed: false, data: m.settings })
}

/// Whether the container may be saved, given whether containers of the game's
/// own types may be edited.
pub open spec fn is_editable(m: PackModel, allow_editing_of_ca_packfiles: bool) -> bool {
    if m.bitmask & HAS_ENCRYPTED_DATA != 0 || m.bitmask & HAS_ENCRYPTED_INDEX != 0 || m.bitmask
        & HAS_EXTENDED_HEADER != 0 {
        false
    } else {
        m.file_type == PFHFileType::Mod || m.file_type == PFHFileType::Movie || (allow_editing_of_ca_packfiles
            && type_value(m.file_type) <= 2)
    }
}

/// Every entry holds its bytes in memory.
pub open spec fn all_in_memory(m: PackModel) -> bool {
    forall|i: int| 0 <= i < m.entries.len() ==> m.entries[i].data is InMemory
}

/// Every count, size and index length fits its 32-bit field.
pub open spec fn fits_fields(m: PackModel, items: Seq<Item>) -> bool {
    &&& items.len() <= u32::MAX
    &&& m.deps.len() <= u32::MAX
    &&& forall|i: int| 0 <= i < items.len() ==> items[i].data.len() <= u32::MAX
    &&& encode_deps(m.deps).len() <= u32::MAX
    &&& encode_records(items, spec_layout(m.version, m.bitmask)).len() <= u32::MAX
}

/// Every timestamp that saving at `now` writes fits its field.
pub open spec fn timestamps_fit(m: PackModel, now: i64) -> bool {
    let lay = spec_layout(m.version, m.bitmask);
    &&& timestamp_fits(lay.header_timestamp, now)
    &&& forall|i: int| 0 <= i < m.entries.len() ==> timestamp_fits(lay.entry_timestamp, m.entries[i].timestamp)
}


/// `items` in their on-disk order: ascending by path, ignoring case.
pub open spec fn sort_items(items: Seq<Item>) -> Seq<Item> {
    let keys = items.map_values(|it: Item| path_key(it.path));
    sorted_indices(keys, items.len()).map_values(|i: int| items[i])
}

/// The container after a save to `new_path` at time `now`.
pub open spec fn saved_model(m: PackModel, new_path: Option<Seq<char>>, now: i64) -> PackModel {
    PackModel {
        path: match new_path {
            Some(p) => p,
            None => m.path,
        },
        timestamp: now,
        ..m
    }
}

/// The file that saving `m` at time `now` writes.
pub open spec fn saved_bytes(m: PackModel, now: i64) -> Seq<u8> {
    encode_pack(m, sort_items(save_items(m)), now)
}


/// The invariant of a container: a subheader of the length its revision's
/// header leaves for it, entries at valid, distinct paths that are not
/// reserved, and dependency names without NUL.
pub open spec fn model_wf(m: PackModel) -> bool {
    let lay = spec_layout(m.version, m.bitmask);
    &&& m.subheader.len() + 24 + timestamp_width(lay.header_timestamp) == lay.header_size
    &&& forall|i: int|
        0 <= i < m.entries.len() ==> valid_path(#[trigger] m.entries[i].path) && !is_reserved(m.entries[i].path)
    &&& unique_paths(m.entries)
    &&& forall|i: int| 0 <= i < m.deps.len() ==> no_nul_char(#[trigger] m.deps[i])
}

} // verus!
