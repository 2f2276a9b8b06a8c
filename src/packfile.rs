//! The container: opening a file into it, the entry operations, and saving it.

use vstd::prelude::*;
use vstd::slice::{slice_subrange, slice_to_vec};
use vstd::string::*;

use crate::sort::{path_key, path_sort_key, sorted_order, lemma_sorted_indices_range};
use crate::writer::{SaveItem, write_deps, write_record, write_timestamp};

use crate::codec::{encode_integer_u32, encode_string_u8, decode_integer_i64, decode_integer_u32, decode_packedfile_string_u8_0terminated, decode_string_u8};
use crate::entry::{
    no_nul_char,     unique_paths,     has_prefix, is_reserved, is_valid_path, path_has_prefix, valid_path,     join_segments,     DataModel, EntryModel, PackedFile, PackedFileData, PackedFileType, notes_name, settings_name,
    split_segments, str_ends_with, str_eq, type_of_path,
};
use crate::error::{Error, ErrorKind, err};
use crate::format::{
    model_wf,     Item, all_in_memory, concat_data, encode_records, entry_item, fits_fields, is_editable,
    save_items, saved_bytes, saved_model, sort_items, timestamps_fit, encode_header_start,     Header, KNOWN_FLAGS, PackModel, Parsed, Record, build_entries, data_end, parse_deps,
    parse_header, parse_indexes, parse_pack, parse_record, parse_records, record_offset, sum_sizes,
    timestamp_at, wanted,
};
use crate::version::{
    HAS_EXTENDED_HEADER, timestamp_fits, HAS_ENCRYPTED_DATA, HAS_ENCRYPTED_INDEX, Layout, PFHFileType, PFHVersion, SEC_TO_UNIX_EPOCH, TimestampField,
    WINDOWS_TICK, layout, lemma_layout_bounds, spec_layout, timestamp_width, };

verus! {

/// A container: one archive file, its header fields, its dependency list, its
/// entries, and the notes and settings kept in two reserved entries.
#[derive(Debug)]
pub struct PackFile {
    file_path: String,
    pfh_version: PFHVersion,
    pfh_file_type: PFHFileType,
    bitmask: u32,
    timestamp: i64,
    subheader: Vec<u8>,
    pack_files: Vec<String>,
    packed_files: Vec<PackedFile>,
    notes: Option<String>,
    settings: Vec<u8>,
}

pub open spec fn opt_string_view(o: Option<String>) -> Option<Seq<char>> {
    match o {
        Some(s) => Some(s@),
        None => None,
    }
}

pub open spec fn entries_view(v: Seq<PackedFile>) -> Seq<EntryModel> {
    v.map_values(|e: PackedFile| e@)
}

impl View for PackFile {
    type V = PackModel;

    closed spec fn view(&self) -> PackModel {
        PackModel {
            path: self.file_path@,
            version: self.pfh_version,
            file_type: self.pfh_file_type,
            bitmask: self.bitmask,
            timestamp: self.timestamp,
            subheader: self.subheader@,
            deps: self.pack_files.deep_view(),
            entries: entries_view(self.packed_files@),
            notes: opt_string_view(self.notes),
            settings: self.settings@,
        }
    }
}

impl PackFile {
    /// The container invariant, as `model_wf` states it.
    pub open spec fn wf(&self) -> bool {
        model_wf(self@)
    }
}

/// The fixed header, as read.
struct HeaderInfo {
    version: PFHVersion,
    file_type: PFHFileType,
    bitmask: u32,
    layout: Layout,
    dep_count: u32,
    dep_index_size: u32,
    rec_count: u32,
    rec_index_size: u32,
    timestamp: i64,
    subheader: Vec<u8>,
}

impl HeaderInfo {
    spec fn view(&self) -> Header {
        Header {
            version: self.version,
            file_type: self.file_type,
            bitmask: self.bitmask,
            layout: self.layout,
            dep_count: self.dep_count,
            dep_index_size: self.dep_index_size,
            rec_count: self.rec_count,
            rec_index_size: self.rec_index_size,
            timestamp: self.timestamp,
            subheader: self.subheader@,
        }
    }
}

/// One record of the entry index, as read.
struct RecordInfo {
    path: String,
    size: u32,
    timestamp: i64,
    compressed: bool,
}

impl RecordInfo {
    spec fn view(&self) -> Record {
        Record { path: self.path@, size: self.size, timestamp: self.timestamp, compressed: self.compressed }
    }
}

spec fn records_view(v: Seq<RecordInfo>) -> Seq<Record> {
    v.map_values(|r: RecordInfo| r@)
}

/// Reads a timestamp stored in the form `f` at `pos`.
fn read_timestamp(b: &[u8], pos: usize, f: TimestampField) -> (r: Result<(i64, usize), Error>)
    ensures
        match timestamp_at(b@, pos as int, f) {
            Ok((t, p)) => r == Ok::<(i64, usize), Error>((t, p as usize)),
            Err(k) => r == Err::<(i64, usize), Error>(err(k)),
        },
{
    match f {
        TimestampField::Absent => Ok((0, pos)),
        TimestampField::Ticks => {
            if pos > b.len() || b.len() - pos < 8 {
                return Err(Error::new(ErrorKind::NotEnoughBytesToDecode));
            }
            let t = decode_integer_i64(b, pos)?;
            Ok(((t / WINDOWS_TICK) - SEC_TO_UNIX_EPOCH, pos + 8))
        },
        TimestampField::Seconds => {
            if pos > b.len() || b.len() - pos < 4 {
                return Err(Error::new(ErrorKind::NotEnoughBytesToDecode));
            }
            let t = decode_integer_u32(b, pos)?;
            Ok((t as i64, pos + 4))
        },
    }
}

/// Reads the fixed header of file `b`.
fn read_header(b: &[u8]) -> (r: Result<HeaderInfo, Error>)
    ensures
        match parse_header(b@) {
            Ok(h) => r matches Ok(x) && x@ == h,
            Err(k) => r matches Err(e) && e == err(k),
        },
{
    if b.len() < 24 {
        return Err(Error::new(ErrorKind::PackFileHeaderNotComplete));
    }
    let version = match PFHVersion::get_version(slice_subrange(b, 0, 4)) {
        Some(v) => v,
        None => return Err(Error::new(ErrorKind::PackFileIsNotAPackFile)),
    };
    let word = decode_integer_u32(b, 4)?;
    let bitmask = word & KNOWN_FLAGS;
    let lay = layout(version, bitmask);
    proof {
        lemma_layout_bounds(version, bitmask);
    }
    if b.len() < lay.header_size {
        return Err(Error::new(ErrorKind::PackFileHeaderNotComplete));
    }
    if version.can_encrypt_index() && bitmask & HAS_ENCRYPTED_INDEX != 0 {
        return Err(Error::new(ErrorKind::PackFileIndexIsEncrypted));
    }
    let timestamp = match read_timestamp(b, 24, lay.header_timestamp) {
        Ok((t, _)) => t,
        Err(_) => 0,
    };
    let sub_start: usize = match lay.header_timestamp {
        TimestampField::Absent => 24,
        TimestampField::Ticks => 32,
        TimestampField::Seconds => 28,
    };
    let subheader = slice_to_vec(slice_subrange(b, sub_start, lay.header_size));
    let dep_count = decode_integer_u32(b, 8)?;
    let dep_index_size = decode_integer_u32(b, 12)?;
    let rec_count = decode_integer_u32(b, 16)?;
    let rec_index_size = decode_integer_u32(b, 20)?;
    Ok(HeaderInfo {
        version,
        file_type: PFHFileType::get_type(word & 15),
        bitmask,
        layout: lay,
        dep_count,
        dep_index_size,
        rec_count,
        rec_index_size,
        timestamp,
        subheader,
    })
}

proof fn lemma_parse_deps_err(b: Seq<u8>, n: nat, m: nat)
    requires
        n <= m,
        parse_deps(b, n) is Err,
    ensures
        parse_deps(b, m) == parse_deps(b, n),
    decreases m - n,
{
    if n < m {
        lemma_parse_deps_err(b, n, (m - 1) as nat);
    }
}

proof fn lemma_parse_records_err(b: Seq<u8>, n: nat, m: nat, lay: Layout)
    requires
        n <= m,
        parse_records(b, n, lay) is Err,
    ensures
        parse_records(b, m, lay) == parse_records(b, n, lay),
    decreases m - n,
{
    if n < m {
        lemma_parse_records_err(b, n, (m - 1) as nat, lay);
    }
}

/// Reads the `n` names of the dependency index `b`.
fn read_deps(b: &[u8], n: u32) -> (r: Result<Vec<String>, Error>)
    ensures
        match parse_deps(b@, n as nat) {
            Ok((ds, _)) => r matches Ok(v) && v.deep_view() == ds,
            Err(k) => r matches Err(e) && e == err(k),
        },
{
    let mut deps: Vec<String> = Vec::new();
    let mut pos: usize = 0;
    let mut i: u32 = 0;
    assert(deps.deep_view() =~= Seq::<Seq<char>>::empty());
    while i < n
        invariant
            i <= n,
            parse_deps(b@, i as nat) == Ok::<(Seq<Seq<char>>, int), ErrorKind>((deps.deep_view(), pos as int)),
        decreases n - i,
    {
        let ghost old_deps = deps.deep_view();
        match decode_packedfile_string_u8_0terminated(b, pos) {
            Ok((s, next)) => {
                deps.push(s);
                pos = next;
                assert(deps.deep_view() =~= old_deps.push(s@));
            },
            Err(e) => {
                proof {
                    lemma_parse_deps_err(b@, (i + 1) as nat, n as nat);
                }
                return Err(e);
            },
        }
        i = i + 1;
    }
    Ok(deps)
}

/// Reads the index record at `pos` of the entry index `b`.
fn read_record(b: &[u8], pos: usize, lay: Layout) -> (r: Result<(RecordInfo, usize), Error>)
    ensures
        match parse_record(b@, pos as int, lay) {
            Ok((rec, next)) => r matches Ok((x, p)) && x@ == rec && p == next,
            Err(k) => r matches Err(e) && e == err(k),
        },
{
    if pos > b.len() || b.len() - pos < 4 {
        return Err(Error::new(ErrorKind::NotEnoughBytesToDecode));
    }
    let size = decode_integer_u32(b, pos)?;
    let (timestamp, p) = read_timestamp(b, pos + 4, lay.entry_timestamp)?;
    let mut compressed = false;
    let mut path_pos = p;
    if lay.compression_marker {
        if p >= b.len() {
            return Err(Error::new(ErrorKind::NotEnoughBytesToDecode));
        }
        compressed = b[p] != 0;
        path_pos = p + 1;
    }
    let (path, next) = decode_packedfile_string_u8_0terminated(b, path_pos)?;
    Ok((RecordInfo { path, size, timestamp, compressed }, next))
}

/// Reads the `n` records of the entry index `b`.
fn read_records(b: &[u8], n: u32, lay: Layout) -> (r: Result<Vec<RecordInfo>, Error>)
    ensures
        match parse_records(b@, n as nat, lay) {
            Ok((rs, _)) => r matches Ok(v) && records_view(v@) == rs,
            Err(k) => r matches Err(e) && e == err(k),
        },
{
    let mut recs: Vec<RecordInfo> = Vec::new();
    let mut pos: usize = 0;
    let mut i: u32 = 0;
    assert(records_view(recs@) =~= Seq::<Record>::empty());
    while i < n
        invariant
            i <= n,
            parse_records(b@, i as nat, lay) == Ok::<(Seq<Record>, int), ErrorKind>((records_view(recs@), pos as int)),
        decreases n - i,
    {
        let ghost old_recs = records_view(recs@);
        match read_record(b, pos, lay) {
            Ok((rec, next)) => {
                let ghost rv = rec@;
                recs.push(rec);
                pos = next;
                assert(records_view(recs@) =~= old_recs.push(rv));
            },
            Err(e) => {
                proof {
                    lemma_parse_records_err(b@, (i + 1) as nat, n as nat, lay);
                }
                return Err(e);
            },
        }
        i = i + 1;
    }
    Ok(recs)
}


pub open spec fn types_view(t: Option<Vec<PackedFileType>>) -> Option<Seq<PackedFileType>> {
    match t {
        Some(v) => Some(v@),
        None => None,
    }
}

/// Whether an entry of type `t` passes the filter `types`.
fn type_wanted(types: &Option<Vec<PackedFileType>>, t: PackedFileType) -> (r: bool)
    ensures
        r == wanted(types_view(*types), t),
{
    match types {
        None => true,
        Some(v) => {
            let mut i: usize = 0;
            while i < v.len()
                invariant
                    types_view(*types) == Some(v@),
                    i <= v@.len(),
                    forall|k: int| 0 <= k < i ==> v@[k] != t,
                decreases v@.len() - i,
            {
                if v[i] == t {
                    assert(v@[i as int] == t);
                    assert(v@.contains(t));
                    assert(types_view(*types) == Some(v@));
                    return true;
                }
                i = i + 1;
            }
            false
        },
    }
}

/// Whether `p` is the path of the reserved notes entry.
fn is_notes_path(p: &Vec<String>) -> (r: bool)
    ensures
        r == (p.deep_view() == seq![notes_name()]),
{
    let r = p.len() == 1 && str_eq(p[0].as_str(), "frodos_biggest_secret.rpfm-notes");
    proof {
        if p.deep_view() == seq![notes_name()] {
            assert(p.deep_view().len() == p@.len());
            assert(p.deep_view()[0] == p@[0]@);
        }
        if r {
            assert(p.deep_view() =~= seq![notes_name()]);
        }
    }
    r
}

/// Whether `p` is the path of the reserved settings entry.
fn is_settings_path(p: &Vec<String>) -> (r: bool)
    ensures
        r == (p.deep_view() == seq![settings_name()]),
{
    let r = p.len() == 1 && str_eq(p[0].as_str(), "settings.rpfm_reserved");
    proof {
        if p.deep_view() == seq![settings_name()] {
            assert(p.deep_view().len() == p@.len());
            assert(p.deep_view()[0] == p@[0]@);
        }
        if r {
            assert(p.deep_view() =~= seq![settings_name()]);
        }
    }
    r
}

pub proof fn lemma_sum_sizes_prefix(s: Seq<Record>, i: int)
    requires
        0 <= i < s.len(),
    ensures
        sum_sizes(s.subrange(0, i + 1)) == sum_sizes(s.subrange(0, i)) + s[i].size,
{
    assert(s.subrange(0, i + 1).drop_last() =~= s.subrange(0, i));
}

pub proof fn lemma_sum_sizes_mono(s: Seq<Record>, i: int)
    requires
        0 <= i <= s.len(),
    ensures
        sum_sizes(s.subrange(0, i)) <= sum_sizes(s),
    decreases s.len() - i,
{
    if i < s.len() {
        lemma_sum_sizes_prefix(s, i);
        lemma_sum_sizes_mono(s, i + 1);
    } else {
        assert(s.subrange(0, i) =~= s);
    }
}

impl PackFile {
    /// Opens the container file named `file_path`, whose bytes are `data`.
    ///
    /// Entries whose type `types_to_load` leaves out are skipped. With
    /// `use_lazy_loading`, entries keep the range of their bytes in the file
    /// instead of the bytes themselves.
    pub fn read(
        file_path: &str,
        data: &[u8],
        types_to_load: &Option<Vec<PackedFileType>>,
        use_lazy_loading: bool,
    ) -> (r: Result<PackFile, Error>)
        ensures
            match parse_pack(file_path@, data@, types_view(*types_to_load), use_lazy_loading) {
                Ok(m) => r matches Ok(pf) && pf@ == m,
                Err(k) => r matches Err(e) && e == err(k),
            },
            r matches Ok(pf) ==> pf.wf(),
    {
        if !str_ends_with(file_path, ".pack") {
            return Err(Error::new(ErrorKind::OpenPackFileInvalidExtension));
        }
        let h = read_header(data)?;
        let hs = h.layout.header_size;
        proof {
            lemma_layout_bounds(h.version, h.bitmask);
        }
        let total: u64 = hs as u64 + h.dep_index_size as u64 + h.rec_index_size as u64;
        if (data.len() as u64) < total {
            return Err(Error::new(ErrorKind::PackFileIndexesNotComplete));
        }
        let a: usize = hs + h.dep_index_size as usize;
        let ds: usize = a + h.rec_index_size as usize;
        let deps = read_deps(slice_subrange(data, hs, a), h.dep_count)?;
        let recs = read_records(slice_subrange(data, a, ds), h.rec_count, h.layout)?;
        let ghost rv = records_view(recs@);
        let ghost p = Parsed { header: h@, deps: deps.deep_view(), records: rv, data_start: ds as int };
        assert(parse_indexes(data@) == Ok::<Parsed, ErrorKind>(p));
        proof {
            assert(rv.len() == h.rec_count) by {
                lemma_parse_records_len(data@.subrange(a as int, ds as int), h.rec_count as nat, h.layout);
            }
        }

        // The data region must end exactly where the file does.
        let mut end: u128 = ds as u128;
        let mut i: usize = 0;
        assert(rv.subrange(0, 0) =~= Seq::<Record>::empty());
        while i < recs.len()
            invariant
                rv == records_view(recs@),
                recs@.len() <= u32::MAX,
                i <= recs@.len(),
                end == ds + sum_sizes(rv.subrange(0, i as int)),
                end <= ds + i * 0xFFFF_FFFFu128,
            decreases recs@.len() - i,
        {
            proof {
                lemma_sum_sizes_prefix(rv, i as int);
                assert(i * 0xFFFF_FFFFu128 <= 0xFFFF_FFFFu128 * 0xFFFF_FFFFu128) by (nonlinear_arith)
                    requires i <= 0xFFFF_FFFFu128;
                assert((i + 1) * 0xFFFF_FFFFu128 == i * 0xFFFF_FFFFu128 + 0xFFFF_FFFFu128) by (nonlinear_arith);
            }
            end = end + recs[i].size as u128;
            i = i + 1;
        }
        assert(rv.subrange(0, rv.len() as int) =~= rv);
        if end != data.len() as u128 {
            let expected: u64 = if end > u64::MAX as u128 { u64::MAX } else { end as u64 };
            return Err(Error::new(ErrorKind::PackFileSizeIsNotWhatWeExpect(data.len() as u64, expected)));
        }

        // Lift the entries, and the two reserved ones into notes and settings.
        let encrypted = h.bitmask & HAS_ENCRYPTED_DATA != 0;
        let ghost tv = types_view(*types_to_load);
        let mut entries: Vec<PackedFile> = Vec::new();
        let mut notes: Option<String> = None;
        let mut settings: Vec<u8> = Vec::new();
        let mut off: usize = ds;
        let mut i: usize = 0;
        let data_len = data.len();
        assert(entries_view(entries@) =~= Seq::<EntryModel>::empty());
        while i < recs.len()
            invariant
                rv == records_view(recs@),
                p.records == rv,
                p.data_start == ds,
                p.header.bitmask == h.bitmask,
                encrypted == (h.bitmask & HAS_ENCRYPTED_DATA != 0),
                tv == types_view(*types_to_load),
                data_end(p) == data@.len(),
                data_len == data@.len(),
                i <= recs@.len(),
                off == record_offset(p, i as int),
                (entries_view(entries@), opt_string_view(notes), settings@)
                    == build_entries(data@, p, tv, use_lazy_loading, i as nat),
            decreases recs@.len() - i,
        {
            let rec = &recs[i];
            let size = rec.size as usize;
            proof {
                assert(rv[i as int] == rec@);
                lemma_sum_sizes_prefix(rv, i as int);
                lemma_sum_sizes_mono(rv, i + 1);
                assert(record_offset(p, i + 1) == off + size);
                assert(record_offset(p, i + 1) <= data_end(p));
                assert(off + size <= data_len);
            }
            let path = split_segments(rec.path.as_str());
            let t = PackedFileType::get_packed_file_type(&path);
            let ghost old_entries = entries_view(entries@);
            if type_wanted(types_to_load, t) {
                if is_notes_path(&path) {
                    match decode_string_u8(data, off, size) {
                        Ok(s) => {
                            notes = Some(s);
                        },
                        Err(_) => {},
                    }
                } else if is_settings_path(&path) {
                    settings = slice_to_vec(slice_subrange(data, off, off + size));
                } else {
                    let d = if use_lazy_loading {
                        PackedFileData::OnDisk { offset: off as u64, size: rec.size }
                    } else {
                        PackedFileData::InMemory(slice_to_vec(slice_subrange(data, off, off + size)))
                    };
                    let e = PackedFile {
                        path,
                        timestamp: rec.timestamp,
                        is_compressed: rec.compressed,
                        is_encrypted: encrypted,
                        data: d,
                    };
                    let ghost ev = e@;
                    entries.push(e);
                    assert(entries_view(entries@) =~= old_entries.push(ev));
                }
            }
            off = off + size;
            i = i + 1;
        }
        if has_duplicate_paths(&entries) {
            return Err(Error::new(ErrorKind::FileAlreadyInPackFile));
        }
        let pf = PackFile {
            file_path: String::from_str(file_path),
            pfh_version: h.version,
            pfh_file_type: h.file_type,
            bitmask: h.bitmask,
            timestamp: h.timestamp,
            subheader: h.subheader,
            pack_files: deps,
            packed_files: entries,
            notes,
            settings,
        };
        proof {
            crate::laws::opened_is_wf(file_path@, data@, types_view(*types_to_load), use_lazy_loading);
        }
        Ok(pf)
    }
}

proof fn lemma_parse_records_len(b: Seq<u8>, n: nat, lay: Layout)
    requires
        parse_records(b, n, lay) is Ok,
    ensures
        parse_records(b, n, lay)->Ok_0.0.len() == n,
    decreases n,
{
    if n > 0 {
        lemma_parse_records_len(b, (n - 1) as nat, lay);
    }
}


spec fn items_view(v: Seq<SaveItem>) -> Seq<Item> {
    v.map_values(|it: SaveItem| it@)
}

impl PackFile {
    /// Whether this container may be saved, given whether containers of the
    /// game's own types may be edited.
    pub fn is_editable(&self, allow_editing_of_ca_packfiles: bool) -> (r: bool)
        ensures
            r == is_editable(self@, allow_editing_of_ca_packfiles),
    {
        if self.bitmask & HAS_ENCRYPTED_DATA != 0 || self.bitmask & HAS_ENCRYPTED_INDEX != 0 || self.bitmask
            & HAS_EXTENDED_HEADER != 0 {
            false
        } else {
            self.pfh_file_type == PFHFileType::Mod || self.pfh_file_type == PFHFileType::Movie || (
            allow_editing_of_ca_packfiles && self.pfh_file_type.get_value() <= 2)
        }
    }

    /// The entries that saving writes, before sorting.
    fn save_items(&self) -> (r: Result<Vec<SaveItem>, Error>)
        requires
            timestamps_fit(self@, 0),
        ensures
            all_in_memory(self@) ==> (r matches Ok(v) && items_view(v@) == save_items(self@) && (forall|j: int|
                0 <= j < v@.len() ==> timestamp_fits(
                    spec_layout(self@.version, self@.bitmask).entry_timestamp,
                    #[trigger] v@[j].timestamp,
                ))),
            !all_in_memory(self@) ==> r == Err::<Vec<SaveItem>, Error>(err(ErrorKind::PackedFileDataIsNotInMemory)),
    {
        let ghost m = self@;
        let ghost lay = spec_layout(m.version, m.bitmask);
        let ghost es = m.entries.map_values(|e: EntryModel| entry_item(e));
        let mut items: Vec<SaveItem> = Vec::new();
        let mut i: usize = 0;
        assert(items_view(items@) =~= es.subrange(0, 0));
        while i < self.packed_files.len()
            invariant
                m == self@,
                lay == spec_layout(m.version, m.bitmask),
                es == m.entries.map_values(|e: EntryModel| entry_item(e)),
                timestamps_fit(m, 0),
                i <= self.packed_files@.len(),
                items_view(items@) == es.subrange(0, i as int),
                forall|k: int| 0 <= k < i ==> m.entries[k].data is InMemory,
                forall|j: int| 0 <= j < items@.len() ==> timestamp_fits(lay.entry_timestamp, #[trigger] items@[j].timestamp),
            decreases self.packed_files@.len() - i,
        {
            let pf = &self.packed_files[i];
            assert(m.entries[i as int] == pf@);
            match &pf.data {
                PackedFileData::InMemory(v) => {
                    let it = SaveItem {
                        path: join_segments(&pf.path),
                        timestamp: pf.timestamp,
                        compressed: pf.is_compressed,
                        data: slice_to_vec(v.as_slice()),
                    };
                    let ghost iv = it@;
                    let ghost old_iv = items_view(items@);
                    assert(iv == es[i as int]);
                    items.push(it);
                    assert(items_view(items@) =~= old_iv.push(iv));
                    assert(es.subrange(0, i + 1) =~= es.subrange(0, i as int).push(es[i as int]));
                },
                PackedFileData::OnDisk { .. } => {
                    return Err(Error::new(ErrorKind::PackedFileDataIsNotInMemory));
                },
            }
            i = i + 1;
        }
        assert(es.subrange(0, i as int) =~= es);
        proof {
            reveal_strlit("frodos_biggest_secret.rpfm-notes");
            reveal_strlit("settings.rpfm_reserved");
        }
        if let Some(n) = &self.notes {
            let mut d: Vec<u8> = Vec::new();
            encode_string_u8(&mut d, n.as_str());
            let it = SaveItem {
                path: String::from_str("frodos_biggest_secret.rpfm-notes"),
                timestamp: 0,
                compressed: false,
                data: d,
            };
            let ghost old_items = items_view(items@);
            let ghost iv = it@;
            items.push(it);
            assert(items_view(items@) =~= old_items.push(iv));
        }
        let it = SaveItem {
            path: String::from_str("settings.rpfm_reserved"),
            timestamp: 0,
            compressed: false,
            data: slice_to_vec(self.settings.as_slice()),
        };
        let ghost old_items = items_view(items@);
        let ghost iv = it@;
        items.push(it);
        assert(items_view(items@) =~= old_items.push(iv));
        Ok(items)
    }

    /// Saves the container, and returns the bytes of the file to write.
    ///
    /// The entries, with the notes and the settings as two reserved entries,
    /// are written in ascending order of their paths, ignoring case. The
    /// container's timestamp becomes `now`, and its path `new_path` where
    /// one is given.
    pub fn save(&mut self, new_path: Option<String>, allow_editing_of_ca_packfiles: bool, now: i64) -> (r: Result<Vec<u8>, Error>)
        requires
            old(self).wf(),
            timestamps_fit(old(self)@, now),
        ensures
            !is_editable(old(self)@, allow_editing_of_ca_packfiles) ==> r == Err::<Vec<u8>, Error>(
                err(ErrorKind::PackFileIsNonEditable),
            ),
            is_editable(old(self)@, allow_editing_of_ca_packfiles) && !all_in_memory(old(self)@) ==> r == Err::<
                Vec<u8>,
                Error,
            >(err(ErrorKind::PackedFileDataIsNotInMemory)),
            is_editable(old(self)@, allow_editing_of_ca_packfiles) && all_in_memory(old(self)@) && !fits_fields(
                old(self)@,
                sort_items(save_items(old(self)@)),
            ) ==> r == Err::<Vec<u8>, Error>(err(ErrorKind::PackFileIndexesTooBig)),
            is_editable(old(self)@, allow_editing_of_ca_packfiles) && all_in_memory(old(self)@) && fits_fields(
                old(self)@,
                sort_items(save_items(old(self)@)),
            ) ==> (r matches Ok(b) && b@ == saved_bytes(old(self)@, now)),
            r is Ok ==> final(self)@ == saved_model(old(self)@, opt_string_view(new_path), now),
            final(self).wf(),
            r is Err ==> final(self)@ == old(self)@,
    {
        if !self.is_editable(allow_editing_of_ca_packfiles) {
            return Err(Error::new(ErrorKind::PackFileIsNonEditable));
        }
        let ghost m = self@;
        let ghost lay = spec_layout(m.version, m.bitmask);
        proof {
            assert(timestamps_fit(m, 0));
        }
        let items = self.save_items()?;
        let ghost iv = items_view(items@);
        let n = items.len();

        // The on-disk order.
        let mut keys: Vec<Vec<u8>> = Vec::new();
        let mut k: usize = 0;
        assert(keys@.map_values(|v: Vec<u8>| v@) =~= iv.map_values(|it: Item| path_key(it.path)).subrange(0, 0));
        while k < n
            invariant
                n == items@.len(),
                iv == items_view(items@),
                k <= n,
                keys@.map_values(|v: Vec<u8>| v@) == iv.map_values(|it: Item| path_key(it.path)).subrange(0, k as int),
            decreases n - k,
        {
            let key = path_sort_key(items[k].path.as_str());
            let ghost old_keys = keys@.map_values(|v: Vec<u8>| v@);
            assert(iv[k as int] == items@[k as int]@);
            keys.push(key);
            assert(keys@.map_values(|v: Vec<u8>| v@) =~= old_keys.push(key@));
            assert(iv.map_values(|it: Item| path_key(it.path)).subrange(0, k + 1) =~= iv.map_values(|it: Item| path_key(it.path)).subrange(0, k as int).push(key@));
            k = k + 1;
        }
        let ord = sorted_order(&keys);
        let ghost kv = keys@.map_values(|v: Vec<u8>| v@);
        assert(kv =~= iv.map_values(|it: Item| path_key(it.path)));
        let ghost sorted = sort_items(iv);
        proof {
            lemma_sorted_indices_range(kv, n as nat);
            assert(ord@.len() == n);
            assert forall|j: int| 0 <= j < n implies ord@[j] < n by {
                assert(ord@.map_values(|x: usize| x as int)[j] == ord@[j] as int);
            }
            assert forall|j: int| 0 <= j < n implies sorted[j] == iv[ord@[j] as int] by {
                assert(ord@.map_values(|x: usize| x as int)[j] == ord@[j] as int);
            }
        }

        if n > 0xFFFF_FFFF || self.pack_files.len() > 0xFFFF_FFFF {
            return Err(Error::new(ErrorKind::PackFileIndexesTooBig));
        }
        let di = write_deps(&self.pack_files);
        if di.len() > 0xFFFF_FFFF {
            return Err(Error::new(ErrorKind::PackFileIndexesTooBig));
        }

        // The entry index, in on-disk order.
        let lay_x = layout(self.pfh_version, self.bitmask);
        let mut ri: Vec<u8> = Vec::new();
        let mut k: usize = 0;
        assert(sorted.subrange(0, 0) =~= Seq::<Item>::empty());
        while k < n
            invariant
                n == items@.len(),
                n == ord@.len(),
                iv == items_view(items@),
                iv == save_items(m),
                sorted == sort_items(iv),
                m == old(self)@,
                self@ == m,
                model_wf(m),
                is_editable(m, allow_editing_of_ca_packfiles),
                all_in_memory(m),
                sorted.len() == n,
                lay_x == lay,
                forall|j: int| 0 <= j < n ==> ord@[j] < n,
                forall|j: int| 0 <= j < n ==> sorted[j] == iv[ord@[j] as int],
                forall|j: int| 0 <= j < n ==> timestamp_fits(lay.entry_timestamp, #[trigger] items@[j].timestamp),
                forall|j: int| 0 <= j < k ==> (#[trigger] sorted[j]).data.len() <= u32::MAX,
                k <= n,
                ri@ == encode_records(sorted.subrange(0, k as int), lay),
            decreases n - k,
        {
            let it = &items[ord[k]];
            assert(it@ == sorted[k as int]);
            if it.data.len() > 0xFFFF_FFFF {
                return Err(Error::new(ErrorKind::PackFileIndexesTooBig));
            }
            write_record(&mut ri, it, lay_x);
            assert(sorted.subrange(0, k + 1).drop_last() =~= sorted.subrange(0, k as int));
            k = k + 1;
        }
        assert(sorted.subrange(0, n as int) =~= sorted);
        if ri.len() > 0xFFFF_FFFF {
            return Err(Error::new(ErrorKind::PackFileIndexesTooBig));
        }
        assert(fits_fields(m, sorted));

        // Header, indexes, then the data of each entry in on-disk order.
        let mut out = self.pfh_version.get_value();
        encode_integer_u32(&mut out, self.bitmask | self.pfh_file_type.get_value());
        encode_integer_u32(&mut out, self.pack_files.len() as u32);
        encode_integer_u32(&mut out, di.len() as u32);
        encode_integer_u32(&mut out, n as u32);
        encode_integer_u32(&mut out, ri.len() as u32);
        assert(out@ =~= encode_header_start(m, di@.len() as int, n as int, ri@.len() as int));
        write_timestamp(&mut out, lay_x.header_timestamp, now);
        out.extend_from_slice(self.subheader.as_slice());
        out.extend_from_slice(di.as_slice());
        out.extend_from_slice(ri.as_slice());
        let ghost head = out@;
        let mut k: usize = 0;
        assert(head =~= head + concat_data(sorted.subrange(0, 0)));
        while k < n
            invariant
                n == items@.len(),
                n == ord@.len(),
                iv == items_view(items@),
                sorted.len() == n,
                forall|j: int| 0 <= j < n ==> ord@[j] < n,
                forall|j: int| 0 <= j < n ==> sorted[j] == iv[ord@[j] as int],
                k <= n,
                out@ == head + concat_data(sorted.subrange(0, k as int)),
            decreases n - k,
        {
            let it = &items[ord[k]];
            assert(it@ == sorted[k as int]);
            out.extend_from_slice(it.data.as_slice());
            assert(sorted.subrange(0, k + 1).drop_last() =~= sorted.subrange(0, k as int));
            assert(out@ =~= head + concat_data(sorted.subrange(0, k + 1)));
            k = k + 1;
        }
        assert(out@ =~= saved_bytes(m, now));

        self.timestamp = now;
        if let Some(p) = new_path {
            self.file_path = p;
        }
        Ok(out)
    }
}


/// The positions, in order, of the entries of `s` that `f` holds of.
pub open spec fn indices_where(s: Seq<EntryModel>, f: spec_fn(EntryModel) -> bool) -> Seq<int>
    decreases s.len(),
{
    if s.len() == 0 {
        seq![]
    } else {
        let r = indices_where(s.drop_last(), f);
        if f(s.last()) {
            r.push(s.len() - 1)
        } else {
            r
        }
    }
}

/// The position of the first entry of `s` at path `p`, if any.
pub open spec fn first_with_path(s: Seq<EntryModel>, p: Seq<Seq<char>>) -> Option<int>
    decreases s.len(),
{
    if s.len() == 0 {
        None
    } else {
        match first_with_path(s.drop_last(), p) {
            Some(i) => Some(i),
            None => if s.last().path == p {
                Some(s.len() - 1)
            } else {
                None
            },
        }
    }
}

/// `s` without its entries at path `p`.
pub open spec fn without_path(s: Seq<EntryModel>, p: Seq<Seq<char>>) -> Seq<EntryModel>
    decreases s.len(),
{
    if s.len() == 0 {
        s
    } else {
        let r = without_path(s.drop_last(), p);
        if s.last().path == p {
            r
        } else {
            r.push(s.last())
        }
    }
}

/// `m` with other entries.
pub open spec fn with_entries(m: PackModel, es: Seq<EntryModel>) -> PackModel {
    PackModel { entries: es, ..m }
}

/// What an entry becomes once its bytes are read from the file `file`.
pub open spec fn loaded_entry(e: EntryModel, file: Seq<u8>) -> EntryModel {
    match e.data {
        DataModel::OnDisk(off, size) => EntryModel {
            data: DataModel::InMemory(file.subrange(off as int, off + size)),
            ..e
        },
        DataModel::InMemory(_) => e,
    }
}

/// Whether the range of every entry still on disk lies inside `file`.
pub open spec fn ranges_in(es: Seq<EntryModel>, file: Seq<u8>) -> bool {
    forall|i: int|
        0 <= i < es.len() ==> match #[trigger] es[i].data {
            DataModel::OnDisk(off, size) => off + size <= file.len(),
            DataModel::InMemory(_) => true,
        }
}

impl PackFile {
    /// An empty container of revision `pfh_version`, of type `Mod`, named
    /// `file_path`, with a zeroed subheader where the revision has one.
    pub fn new_with_name(file_path: String, pfh_version: PFHVersion) -> (r: PackFile)
        ensures
            r@ == (PackModel {
                path: file_path@,
                version: pfh_version,
                file_type: PFHFileType::Mod,
                bitmask: 0,
                timestamp: 0,
                subheader: Seq::new(
                    (spec_layout(pfh_version, 0).header_size - 24 - timestamp_width(
                        spec_layout(pfh_version, 0).header_timestamp,
                    )) as nat,
                    |i: int| 0u8,
                ),
                deps: seq![],
                entries: seq![],
                notes: None,
                settings: seq![],
            }),
            r.wf(),
    {
        let lay = layout(pfh_version, 0);
        proof {
            lemma_layout_bounds(pfh_version, 0);
        }
        let tw: usize = match lay.header_timestamp {
            TimestampField::Absent => 0,
            TimestampField::Ticks => 8,
            TimestampField::Seconds => 4,
        };
        let sub_len: usize = lay.header_size - 24 - tw;
        let subheader = vec![0u8; sub_len];
        let pf = PackFile {
            file_path,
            pfh_version,
            pfh_file_type: PFHFileType::Mod,
            bitmask: 0,
            timestamp: 0,
            subheader,
            pack_files: Vec::new(),
            packed_files: Vec::new(),
            notes: None,
            settings: Vec::new(),
        };
        proof {
            assert(pf.subheader@ =~= Seq::new(
                (spec_layout(pfh_version, 0).header_size - 24 - timestamp_width(
                    spec_layout(pfh_version, 0).header_timestamp,
                )) as nat,
                |i: int| 0u8,
            ));
            assert(pf.pack_files.deep_view() =~= Seq::<Seq<char>>::empty());
            assert(entries_view(pf.packed_files@) =~= Seq::<EntryModel>::empty());
        }
        pf
    }

    /// An empty, unnamed container of revision PFH5, of type `Mod`.
    pub fn new() -> (r: PackFile)
        ensures
            r@ == (PackModel {
                path: seq![],
                version: PFHVersion::PFH5,
                file_type: PFHFileType::Mod,
                bitmask: 0,
                timestamp: 0,
                subheader: seq![],
                deps: seq![],
                entries: seq![],
                notes: None,
                settings: seq![],
            }),
            r.wf(),
    {
        let r = PackFile::new_with_name(String::new(), PFHVersion::PFH5);
        assert(0u32 & 0x100u32 == 0u32) by (bit_vector);
        assert(0u32 & 0x40u32 == 0u32) by (bit_vector);
        assert(r@.subheader =~= Seq::<u8>::empty());
        r
    }

    /// The position of the first entry at `path`, if any.
    pub fn find_packed_file(&self, path: &Vec<String>) -> (r: Option<usize>)
        ensures
            match first_with_path(self@.entries, path.deep_view()) {
                Some(i) => r matches Some(j) && j == i,
                None => r is None,
            },
    {
        let ghost es = self@.entries;
        let ghost p = path.deep_view();
        let mut i: usize = 0;
        assert(es.subrange(0, 0) =~= Seq::<EntryModel>::empty());
        while i < self.packed_files.len()
            invariant
                es == self@.entries,
                p == path.deep_view(),
                i <= es.len(),
                first_with_path(es.subrange(0, i as int), p) is None,
            decreases es.len() - i,
        {
            assert(es.subrange(0, i + 1).drop_last() =~= es.subrange(0, i as int));
            assert(es[i as int] == self.packed_files@[i as int]@);
            if str_vec_eq(&self.packed_files[i].path, path) {
                assert(first_with_path(es.subrange(0, i + 1), p) == Some(i as int));
                proof {
                    lemma_first_with_path_prefix(es, p, i + 1);
                }
                return Some(i);
            }
            i = i + 1;
        }
        assert(es.subrange(0, i as int) =~= es);
        None
    }

    /// The first entry at `path`, if any.
    pub fn get_packed_file_by_path(&self, path: &Vec<String>) -> (r: Option<&PackedFile>)
        ensures
            match first_with_path(self@.entries, path.deep_view()) {
                Some(i) => r matches Some(e) && e@ == self@.entries[i],
                None => r is None,
            },
    {
        match self.find_packed_file(path) {
            Some(i) => {
                proof {
                    lemma_first_with_path_range(self@.entries, path.deep_view());
                    let k = first_with_path(self@.entries, path.deep_view())->Some_0;
                    assert(k == i as int);
                    assert(self@.entries[k] == self.packed_files@[i as int]@);
                }
                Some(&self.packed_files[i])
            },
            None => None,
        }
    }

    /// Adds `packed_file`, unless its path is not valid, is reserved, or is
    /// already taken.
    pub fn insert(&mut self, packed_file: PackedFile) -> (r: Result<(), Error>)
        ensures
            !valid_path(packed_file@.path) ==> r == Err::<(), Error>(err(ErrorKind::InvalidPath)),
            valid_path(packed_file@.path) && is_reserved(packed_file@.path) ==> r == Err::<(), Error>(
                err(ErrorKind::ReservedFiles),
            ),
            valid_path(packed_file@.path) && !is_reserved(packed_file@.path) && first_with_path(
                old(self)@.entries,
                packed_file@.path,
            ) is Some ==> r == Err::<(), Error>(err(ErrorKind::FileAlreadyInPackFile)),
            valid_path(packed_file@.path) && !is_reserved(packed_file@.path) && first_with_path(
                old(self)@.entries,
                packed_file@.path,
            ) is None ==> r is Ok,
            r is Ok ==> final(self)@ == with_entries(old(self)@, old(self)@.entries.push(packed_file@)),
            r is Err ==> final(self)@ == old(self)@,
            old(self).wf() ==> final(self).wf(),
    {
        if !is_valid_path(&packed_file.path) {
            return Err(Error::new(ErrorKind::InvalidPath));
        }
        if is_notes_path(&packed_file.path) || is_settings_path(&packed_file.path) {
            return Err(Error::new(ErrorKind::ReservedFiles));
        }
        if self.find_packed_file(&packed_file.path).is_some() {
            return Err(Error::new(ErrorKind::FileAlreadyInPackFile));
        }
        let ghost old_es = entries_view(self.packed_files@);
        let ghost ev = packed_file@;
        self.packed_files.push(packed_file);
        assert(entries_view(self.packed_files@) =~= old_es.push(ev));
        proof {
            lemma_first_with_path_none(old_es, ev.path);
        }
        Ok(())
    }

    /// Removes every entry at `path`.
    pub fn remove(&mut self, path: &Vec<String>)
        ensures
            final(self)@ == with_entries(old(self)@, without_path(old(self)@.entries, path.deep_view())),
            old(self).wf() ==> final(self).wf(),
    {
        let ghost es = self@.entries;
        let ghost p = path.deep_view();
        let mut kept: Vec<PackedFile> = Vec::new();
        let mut old_files: Vec<PackedFile> = Vec::new();
        std::mem::swap(&mut old_files, &mut self.packed_files);
        assert(entries_view(old_files@) == es);
        let n = old_files.len();
        let mut i: usize = 0;
        assert(es.subrange(0, 0) =~= Seq::<EntryModel>::empty());
        assert(entries_view(kept@) =~= Seq::<EntryModel>::empty());
        while i < n
            invariant
                n == old_files@.len(),
                es == entries_view(old_files@),
                p == path.deep_view(),
                i <= n,
                entries_view(kept@) == without_path(es.subrange(0, i as int), p),
            decreases n - i,
        {
            assert(es.subrange(0, i + 1).drop_last() =~= es.subrange(0, i as int));
            assert(es[i as int] == old_files@[i as int]@);
            if !str_vec_eq(&old_files[i].path, path) {
                let e = clone_packed_file(&old_files[i]);
                let ghost ok = entries_view(kept@);
                kept.push(e);
                assert(entries_view(kept@) =~= ok.push(es[i as int]));
            }
            i = i + 1;
        }
        assert(es.subrange(0, n as int) =~= es);
        self.packed_files = kept;
        proof {
            lemma_without_path(es, p);
        }
    }

    /// Moves the first entry at `old_path` to `new_path`.
    pub fn rename(&mut self, old_path: &Vec<String>, new_path: Vec<String>) -> (r: Result<(), Error>)
        ensures
            first_with_path(old(self)@.entries, old_path.deep_view()) is None ==> r == Err::<(), Error>(
                err(ErrorKind::PackedFileNotFound),
            ),
            first_with_path(old(self)@.entries, old_path.deep_view()) is Some && !valid_path(new_path.deep_view())
                ==> r == Err::<(), Error>(err(ErrorKind::InvalidPath)),
            first_with_path(old(self)@.entries, old_path.deep_view()) is Some && valid_path(new_path.deep_view())
                && is_reserved(new_path.deep_view()) ==> r == Err::<(), Error>(err(ErrorKind::ReservedFiles)),
            first_with_path(old(self)@.entries, old_path.deep_view()) is Some && valid_path(new_path.deep_view())
                && !is_reserved(new_path.deep_view()) && new_path.deep_view() != old_path.deep_view()
                && first_with_path(old(self)@.entries, new_path.deep_view()) is Some ==> r == Err::<(), Error>(
                err(ErrorKind::FileAlreadyInPackFile),
            ),
            r is Ok <==> first_with_path(old(self)@.entries, old_path.deep_view()) is Some && valid_path(
                new_path.deep_view(),
            ) && !is_reserved(new_path.deep_view()) && (new_path.deep_view() == old_path.deep_view()
                || first_with_path(old(self)@.entries, new_path.deep_view()) is None),
            r is Ok ==> ({
                let i = first_with_path(old(self)@.entries, old_path.deep_view())->Some_0;
                final(self)@ == with_entries(
                    old(self)@,
                    old(self)@.entries.update(i, EntryModel { path: new_path.deep_view(), ..old(self)@.entries[i] }),
                )
            }),
            r is Err ==> final(self)@ == old(self)@,
            old(self).wf() ==> final(self).wf(),
    {
        let i = match self.find_packed_file(old_path) {
            Some(i) => i,
            None => return Err(Error::new(ErrorKind::PackedFileNotFound)),
        };
        proof {
            lemma_first_with_path_range(self@.entries, old_path.deep_view());
            assert(first_with_path(self@.entries, old_path.deep_view())->Some_0 == i as int);
        }
        if !is_valid_path(&new_path) {
            return Err(Error::new(ErrorKind::InvalidPath));
        }
        if is_notes_path(&new_path) || is_settings_path(&new_path) {
            return Err(Error::new(ErrorKind::ReservedFiles));
        }
        if !str_vec_eq(&new_path, old_path) && self.find_packed_file(&new_path).is_some() {
            return Err(Error::new(ErrorKind::FileAlreadyInPackFile));
        }
        let ghost old_es = entries_view(self.packed_files@);
        let ghost nv = new_path.deep_view();
        let mut e = self.packed_files.remove(i);
        assert(e@ == old_es[i as int]);
        e.path = new_path;
        let ghost ev = e@;
        assert(ev == EntryModel { path: nv, ..old_es[i as int] });
        self.packed_files.insert(i, e);
        assert(entries_view(self.packed_files@) =~= old_es.update(i as int, ev));
        assert(self@ == with_entries(old(self)@, old_es.update(i as int, ev)));
        proof {
            if nv != old_path.deep_view() {
                lemma_first_with_path_none(old_es, nv);
            }
        }
        Ok(())
    }

    /// The positions, in container order, of the entries of type `t`.
    pub fn list_by_type(&self, t: PackedFileType) -> (r: Vec<usize>)
        ensures
            r@.map_values(|x: usize| x as int) == indices_where(self@.entries, |e: EntryModel| type_of_path(e.path) == t),
    {
        let ghost es = self@.entries;
        let ghost f = |e: EntryModel| type_of_path(e.path) == t;
        let mut r: Vec<usize> = Vec::new();
        let mut i: usize = 0;
        assert(es.subrange(0, 0) =~= Seq::<EntryModel>::empty());
        assert(r@.map_values(|x: usize| x as int) =~= Seq::<int>::empty());
        while i < self.packed_files.len()
            invariant
                es == self@.entries,
                f == (|e: EntryModel| type_of_path(e.path) == t),
                i <= es.len(),
                r@.map_values(|x: usize| x as int) == indices_where(es.subrange(0, i as int), f),
            decreases es.len() - i,
        {
            assert(es.subrange(0, i + 1).drop_last() =~= es.subrange(0, i as int));
            assert(es[i as int] == self.packed_files@[i as int]@);
            let ghost old_r = r@.map_values(|x: usize| x as int);
            if PackedFileType::get_packed_file_type(&self.packed_files[i].path) == t {
                r.push(i);
                assert(r@.map_values(|x: usize| x as int) =~= old_r.push(i as int));
            }
            i = i + 1;
        }
        assert(es.subrange(0, i as int) =~= es);
        r
    }

    /// The positions, in container order, of the entries whose path starts
    /// with the segments of `prefix`.
    pub fn list_by_path_prefix(&self, prefix: &Vec<String>) -> (r: Vec<usize>)
        ensures
            r@.map_values(|x: usize| x as int) == indices_where(self@.entries, |e: EntryModel| has_prefix(e.path, prefix.deep_view())),
    {
        let ghost es = self@.entries;
        let ghost pv = prefix.deep_view();
        let ghost f = |e: EntryModel| has_prefix(e.path, pv);
        let mut r: Vec<usize> = Vec::new();
        let mut i: usize = 0;
        assert(es.subrange(0, 0) =~= Seq::<EntryModel>::empty());
        assert(r@.map_values(|x: usize| x as int) =~= Seq::<int>::empty());
        while i < self.packed_files.len()
            invariant
                es == self@.entries,
                pv == prefix.deep_view(),
                f == (|e: EntryModel| has_prefix(e.path, pv)),
                i <= es.len(),
                r@.map_values(|x: usize| x as int) == indices_where(es.subrange(0, i as int), f),
            decreases es.len() - i,
        {
            assert(es.subrange(0, i + 1).drop_last() =~= es.subrange(0, i as int));
            assert(es[i as int] == self.packed_files@[i as int]@);
            let ghost old_r = r@.map_values(|x: usize| x as int);
            if path_has_prefix(&self.packed_files[i].path, prefix) {
                r.push(i);
                assert(r@.map_values(|x: usize| x as int) =~= old_r.push(i as int));
            }
            i = i + 1;
        }
        assert(es.subrange(0, i as int) =~= es);
        r
    }
}

/// Whether two paths have the same segments.
fn str_vec_eq(a: &Vec<String>, b: &Vec<String>) -> (r: bool)
    ensures
        r == (a.deep_view() == b.deep_view()),
{
    if a.len() != b.len() {
        assert(a.deep_view().len() != b.deep_view().len());
        return false;
    }
    let r = path_has_prefix(a, b);
    assert(a.deep_view().subrange(0, b.deep_view().len() as int) =~= a.deep_view());
    r
}

/// Whether two of `entries` share a path.
fn has_duplicate_paths(entries: &Vec<PackedFile>) -> (r: bool)
    ensures
        r == !unique_paths(entries_view(entries@)),
{
    let ghost es = entries_view(entries@);
    let n = entries.len();
    let mut i: usize = 0;
    while i < n
        invariant
            n == entries@.len(),
            es == entries_view(entries@),
            i <= n,
            forall|a: int, b: int| 0 <= a < i && 0 <= b < n && a != b ==> es[a].path != es[b].path,
        decreases n - i,
    {
        let mut j: usize = 0;
        while j < n
            invariant
                n == entries@.len(),
                es == entries_view(entries@),
                i < n,
                j <= n,
                forall|a: int, b: int| 0 <= a < i && 0 <= b < n && a != b ==> es[a].path != es[b].path,
                forall|b: int| 0 <= b < j && b != i ==> es[i as int].path != es[b].path,
            decreases n - j,
        {
            assert(es[i as int] == entries@[i as int]@);
            assert(es[j as int] == entries@[j as int]@);
            if j != i && str_vec_eq(&entries[i].path, &entries[j].path) {
                assert(es[i as int].path == es[j as int].path);
                return true;
            }
            j = j + 1;
        }
        i = i + 1;
    }
    false
}

/// A copy of the path `p`.
fn clone_path(p: &Vec<String>) -> (r: Vec<String>)
    ensures
        r.deep_view() == p.deep_view(),
{
    let mut path: Vec<String> = Vec::new();
    let mut i: usize = 0;
    while i < p.len()
        invariant
            i <= p@.len(),
            path.deep_view() =~= p.deep_view().subrange(0, i as int),
        decreases p@.len() - i,
    {
        let ghost old_path = path.deep_view();
        let seg = String::from_str(p[i].as_str());
        path.push(seg);
        assert(path.deep_view() =~= old_path.push(p.deep_view()[i as int]));
        assert(p.deep_view().subrange(0, i + 1) =~= p.deep_view().subrange(0, i as int).push(p.deep_view()[i as int]));
        i = i + 1;
    }
    assert(path.deep_view() =~= p.deep_view());
    path
}

/// A copy of `e`.
fn clone_packed_file(e: &PackedFile) -> (r: PackedFile)
    ensures
        r@ == e@,
{
    let path = clone_path(&e.path);
    let data = match &e.data {
        PackedFileData::InMemory(v) => PackedFileData::InMemory(slice_to_vec(v.as_slice())),
        PackedFileData::OnDisk { offset, size } => PackedFileData::OnDisk { offset: *offset, size: *size },
    };
    PackedFile { path, timestamp: e.timestamp, is_compressed: e.is_compressed, is_encrypted: e.is_encrypted, data }
}

proof fn lemma_first_with_path_prefix(es: Seq<EntryModel>, p: Seq<Seq<char>>, k: int)
    requires
        0 <= k <= es.len(),
        first_with_path(es.subrange(0, k), p) is Some,
    ensures
        first_with_path(es, p) == first_with_path(es.subrange(0, k), p),
    decreases es.len() - k,
{
    if k < es.len() {
        assert(es.subrange(0, k + 1).drop_last() =~= es.subrange(0, k));
        lemma_first_with_path_prefix(es, p, k + 1);
    } else {
        assert(es.subrange(0, k) =~= es);
    }
}

proof fn lemma_first_with_path_none(es: Seq<EntryModel>, p: Seq<Seq<char>>)
    ensures
        first_with_path(es, p) is None ==> forall|i: int| 0 <= i < es.len() ==> (#[trigger] es[i]).path != p,
    decreases es.len(),
{
    if es.len() > 0 {
        lemma_first_with_path_none(es.drop_last(), p);
        assert forall|i: int| 0 <= i < es.len() - 1 implies es[i] == es.drop_last()[i] by {}
    }
}

/// Removing the entries at one path keeps the others, in order, and keeps
/// their paths distinct where they were.
proof fn lemma_without_path(es: Seq<EntryModel>, p: Seq<Seq<char>>)
    ensures
        forall|k: int|
            0 <= k < without_path(es, p).len() ==> exists|i: int|
                0 <= i < es.len() && #[trigger] without_path(es, p)[k] == es[i],
        unique_paths(es) ==> unique_paths(without_path(es, p)),
    decreases es.len(),
{
    if es.len() > 0 {
        let d = es.drop_last();
        lemma_without_path(d, p);
        let w = without_path(d, p);
        let r = without_path(es, p);
        assert forall|k: int| 0 <= k < r.len() implies exists|i: int| 0 <= i < es.len() && #[trigger] r[k] == es[i] by {
            if k < w.len() {
                let i = choose|i: int| 0 <= i < d.len() && w[k] == d[i];
                assert(r[k] == es[i]);
            } else {
                assert(r[k] == es[es.len() - 1]);
            }
        }
        if unique_paths(es) {
            assert(unique_paths(d)) by {
                assert forall|a: int, b: int| 0 <= a < d.len() && 0 <= b < d.len() && a != b implies d[a].path != d[b].path by {
                    assert(d[a] == es[a] && d[b] == es[b]);
                }
            }
            if es.last().path != p {
                assert forall|a: int, b: int| 0 <= a < r.len() && 0 <= b < r.len() && a != b implies r[a].path != r[b].path by {
                    if a < w.len() && b < w.len() {
                        assert(r[a] == w[a] && r[b] == w[b]);
                    } else if a < w.len() {
                        let i = choose|i: int| 0 <= i < d.len() && w[a] == d[i];
                        assert(d[i] == es[i]);
                        assert(r[b] == es[es.len() - 1]);
                    } else {
                        let i = choose|i: int| 0 <= i < d.len() && w[b] == d[i];
                        assert(d[i] == es[i]);
                        assert(r[a] == es[es.len() - 1]);
                    }
                }
            }
        }
    }
}

proof fn lemma_first_with_path_range(es: Seq<EntryModel>, p: Seq<Seq<char>>)
    ensures
        first_with_path(es, p) matches Some(i) ==> 0 <= i < es.len() && es[i].path == p,
    decreases es.len(),
{
    if es.len() > 0 {
        lemma_first_with_path_range(es.drop_last(), p);
    }
}


impl PackFile {
    /// Reads into memory the bytes of every entry that is still on disk, from
    /// `file`, the bytes of the file the container was read from. Fails, and
    /// changes nothing, if a range lies outside `file`.
    pub fn load_data(&mut self, file: &[u8]) -> (r: Result<(), Error>)
        ensures
            ranges_in(old(self)@.entries, file@) ==> r is Ok && final(self)@ == with_entries(
                old(self)@,
                old(self)@.entries.map_values(|e: EntryModel| loaded_entry(e, file@)),
            ),
            !ranges_in(old(self)@.entries, file@) ==> r == Err::<(), Error>(
                err(ErrorKind::PackedFileDataCouldNotBeLoaded),
            ) && final(self)@ == old(self)@,
            old(self).wf() ==> final(self).wf(),
    {
        let ghost es = self@.entries;
        let n = self.packed_files.len();
        let mut i: usize = 0;
        while i < n
            invariant
                n == self.packed_files@.len(),
                es == self@.entries,
                i <= n,
                forall|k: int|
                    0 <= k < i ==> match #[trigger] es[k].data {
                        DataModel::OnDisk(off, size) => off + size <= file@.len(),
                        DataModel::InMemory(_) => true,
                    },
            decreases n - i,
        {
            assert(es[i as int] == self.packed_files@[i as int]@);
            match &self.packed_files[i].data {
                PackedFileData::OnDisk { offset, size } => {
                    if *offset > file.len() as u64 || (file.len() as u64) - *offset < *size as u64 {
                        assert(es[i as int].data == DataModel::OnDisk(*offset, *size));
                        return Err(Error::new(ErrorKind::PackedFileDataCouldNotBeLoaded));
                    }
                },
                PackedFileData::InMemory(_) => {},
            }
            i = i + 1;
        }
        let mut old_files: Vec<PackedFile> = Vec::new();
        std::mem::swap(&mut old_files, &mut self.packed_files);
        let mut out: Vec<PackedFile> = Vec::new();
        let ghost target = es.map_values(|e: EntryModel| loaded_entry(e, file@));
        let flen = file.len();
        let mut i: usize = 0;
        assert(entries_view(out@) =~= target.subrange(0, 0));
        while i < n
            invariant
                n == old_files@.len(),
                es == entries_view(old_files@),
                target == es.map_values(|e: EntryModel| loaded_entry(e, file@)),
                ranges_in(es, file@),
                flen == file@.len(),
                i <= n,
                entries_view(out@) == target.subrange(0, i as int),
            decreases n - i,
        {
            let e = &old_files[i];
            assert(es[i as int] == e@);
            assert(e@.data == es[i as int].data);
            let data = match &e.data {
                PackedFileData::OnDisk { offset, size } => {
                    assert(*offset + *size <= flen);
                    let start = *offset as usize;
                    let end = start + *size as usize;
                    PackedFileData::InMemory(slice_to_vec(slice_subrange(file, start, end)))
                },
                PackedFileData::InMemory(v) => PackedFileData::InMemory(slice_to_vec(v.as_slice())),
            };
            let path = clone_path(&e.path);
            let ne = PackedFile {
                path,
                timestamp: e.timestamp,
                is_compressed: e.is_compressed,
                is_encrypted: e.is_encrypted,
                data,
            };
            let ghost old_out = entries_view(out@);
            let ghost nv = ne@;
            assert(nv == target[i as int]);
            out.push(ne);
            assert(entries_view(out@) =~= old_out.push(nv));
            assert(target.subrange(0, i + 1) =~= target.subrange(0, i as int).push(target[i as int]));
            i = i + 1;
        }
        assert(target.subrange(0, n as int) =~= target);
        self.packed_files = out;
        Ok(())
    }

    /// Whether every timestamp that a save at `now` writes fits its field.
    pub fn timestamps_fit(&self, now: i64) -> (r: bool)
        ensures
            r == timestamps_fit(self@, now),
    {
        let lay = layout(self.pfh_version, self.bitmask);
        if !timestamp_fits_exec(lay.header_timestamp, now) {
            return false;
        }
        let mut i: usize = 0;
        while i < self.packed_files.len()
            invariant
                lay == spec_layout(self@.version, self@.bitmask),
                i <= self@.entries.len(),
                forall|k: int| 0 <= k < i ==> timestamp_fits(lay.entry_timestamp, self@.entries[k].timestamp),
            decreases self@.entries.len() - i,
        {
            assert(self@.entries[i as int] == self.packed_files@[i as int]@);
            if !timestamp_fits_exec(lay.entry_timestamp, self.packed_files[i].timestamp) {
                return false;
            }
            i = i + 1;
        }
        true
    }

    /// The path of the container's file.
    pub fn get_file_path(&self) -> (r: &String)
        ensures
            r@ == self@.path,
    {
        &self.file_path
    }

    /// Sets the path of the container's file.
    pub fn set_file_path(&mut self, path: String)
        ensures
            final(self)@ == (PackModel { path: path@, ..old(self)@ }),
    {
        self.file_path = path;
    }

    /// The revision of the format.
    pub fn get_pfh_version(&self) -> (r: PFHVersion)
        ensures
            r == self@.version,
    {
        self.pfh_version
    }

    /// The intended use of the container.
    pub fn get_pfh_file_type(&self) -> (r: PFHFileType)
        ensures
            r == self@.file_type,
    {
        self.pfh_file_type
    }

    /// Sets the intended use of the container.
    pub fn set_pfh_file_type(&mut self, t: PFHFileType)
        ensures
            final(self)@ == (PackModel { file_type: t, ..old(self)@ }),
    {
        self.pfh_file_type = t;
    }

    /// The capability flags.
    pub fn get_bitmask(&self) -> (r: u32)
        ensures
            r == self@.bitmask,
    {
        self.bitmask
    }

    /// Sets the capability flags. Bits that name no known flag are dropped,
    /// and the extended-header flag, which decides the header's length, keeps
    /// its old value.
    pub fn set_bitmask(&mut self, bitmask: u32)
        ensures
            final(self)@ == (PackModel {
                bitmask: (bitmask & 0xd0u32) | (old(self)@.bitmask & HAS_EXTENDED_HEADER),
                ..old(self)@
            }),
            old(self).wf() ==> final(self).wf(),
    {
        let b = (bitmask & (KNOWN_FLAGS & !HAS_EXTENDED_HEADER)) | (self.bitmask & HAS_EXTENDED_HEADER);
        let ghost old_b = self.bitmask;
        assert((KNOWN_FLAGS & !HAS_EXTENDED_HEADER) == 0xd0u32) by (bit_vector);
        assert(((bitmask & 0xd0u32) | (old_b & 0x100u32)) & 0x100u32 == old_b & 0x100u32) by (bit_vector);
        self.bitmask = b;
    }

    /// The container timestamp, in seconds since the Unix epoch.
    pub fn get_timestamp(&self) -> (r: i64)
        ensures
            r == self@.timestamp,
    {
        self.timestamp
    }

    /// The names of the containers this one depends on.
    pub fn get_pack_files_list(&self) -> (r: &Vec<String>)
        ensures
            r.deep_view() == self@.deps,
    {
        &self.pack_files
    }

    /// Replaces the names of the containers this one depends on; fails, and
    /// changes nothing, where a name holds a NUL.
    pub fn set_pack_files_list(&mut self, deps: Vec<String>) -> (r: Result<(), Error>)
        ensures
            (forall|i: int| 0 <= i < deps@.len() ==> no_nul_char(#[trigger] deps.deep_view()[i])) ==> r is Ok
                && final(self)@ == (PackModel { deps: deps.deep_view(), ..old(self)@ }),
            !(forall|i: int| 0 <= i < deps@.len() ==> no_nul_char(#[trigger] deps.deep_view()[i])) ==> r == Err::<
                (),
                Error,
            >(err(ErrorKind::InvalidPath)) && final(self)@ == old(self)@,
    {
        let ghost dv = deps.deep_view();
        let mut i: usize = 0;
        while i < deps.len()
            invariant
                dv == deps.deep_view(),
                i <= deps@.len(),
                forall|k: int| 0 <= k < i ==> no_nul_char(#[trigger] dv[k]),
            decreases deps@.len() - i,
        {
            assert(dv[i as int] == deps@[i as int]@);
            if !str_has_no_nul(deps[i].as_str()) {
                return Err(Error::new(ErrorKind::InvalidPath));
            }
            i = i + 1;
        }
        self.pack_files = deps;
        Ok(())
    }

    /// The entries, in container order.
    pub fn get_packed_files(&self) -> (r: &Vec<PackedFile>)
        ensures
            entries_view(r@) == self@.entries,
    {
        &self.packed_files
    }

    /// The free-text notes.
    pub fn get_notes(&self) -> (r: &Option<String>)
        ensures
            opt_string_view(*r) == self@.notes,
    {
        &self.notes
    }

    /// Replaces the free-text notes.
    pub fn set_notes(&mut self, notes: Option<String>)
        ensures
            final(self)@ == (PackModel { notes: opt_string_view(notes), ..old(self)@ }),
    {
        self.notes = notes;
    }

    /// The serialized settings; empty until a caller sets them or a file
    /// that holds them is read.
    pub fn get_settings(&self) -> (r: &Vec<u8>)
        ensures
            r@ == self@.settings,
    {
        &self.settings
    }

    /// Replaces the serialized settings.
    pub fn set_settings(&mut self, settings: Vec<u8>)
        ensures
            final(self)@ == (PackModel { settings: settings@, ..old(self)@ }),
    {
        self.settings = settings;
    }
}

/// Whether `s` holds no NUL character.
fn str_has_no_nul(s: &str) -> (r: bool)
    ensures
        r == no_nul_char(s@),
{
    let n = s.unicode_len();
    let mut i: usize = 0;
    while i < n
        invariant
            n == s@.len(),
            i <= n,
            forall|k: int| 0 <= k < i ==> s@[k] != '\0',
        decreases n - i,
    {
        if s.get_char(i) == '\0' {
            return false;
        }
        i = i + 1;
    }
    true
}

/// Whether `t` fits a timestamp field of the form `f`.
fn timestamp_fits_exec(f: TimestampField, t: i64) -> (r: bool)
    ensures
        r == timestamp_fits(f, t),
{
    match f {
        TimestampField::Absent => true,
        TimestampField::Ticks => -922_337_203_685 - SEC_TO_UNIX_EPOCH <= t && t <= 922_337_203_685 - SEC_TO_UNIX_EPOCH,
        TimestampField::Seconds => 0 <= t && t <= 0xFFFF_FFFF,
    }
}

} // verus!
