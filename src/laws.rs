//! Properties that hold of every container and every file: what opening and
//! saving guarantee together.

use vstd::prelude::*;
use vstd::bytes::*;

use vstd::utf8::*;

use crate::codec::{cstr_end, spec_cstr};
use crate::entry::{DataModel, unique_paths, EntryModel, PackedFileType, is_reserved, lemma_split_path_valid, no_nul_char, valid_path};
use crate::error::ErrorKind;
use crate::format::{
    data_end, record_offset,     model_wf, parse_deps, parse_record, parse_records, Record,     PackModel, Parsed, build_entries, clamp_u64, encode_header_start, encode_timestamp,
    parse_header, parse_indexes, parse_pack, save_items, saved_bytes, saved_model,
    sort_items, sum_sizes, timestamp_at, Item,
};
use crate::packfile::{indices_where, lemma_sum_sizes_mono, lemma_sum_sizes_prefix, loaded_entry, ranges_in, with_entries};
use crate::sort::{lemma_sorted_indices_ascending, lemma_sorted_indices_permutation, lex_le, path_key, sorted_indices};
use crate::version::{Layout, TimestampField, lemma_layout_bounds, spec_layout, timestamp_width};

verus! {

/// When a file opens, its header, its dependency index, its
/// entry index and the data of every record it lists add up to exactly the
/// length of the file.
pub proof fn size_invariant(name: Seq<char>, b: Seq<u8>, types: Option<Seq<PackedFileType>>, lazy: bool)
    requires
        parse_pack(name, b, types, lazy) is Ok,
    ensures
        parse_indexes(b) matches Ok(p) && p.header.layout.header_size + p.header.dep_index_size
            + p.header.rec_index_size + sum_sizes(p.records) == b.len(),
{
}

/// Cutting bytes off the end of the data region of a file that opens makes it
/// fail to open, with the error that reports the cut length and the length its
/// header and indexes call for.
pub proof fn truncation_detected(name: Seq<char>, b: Seq<u8>, types: Option<Seq<PackedFileType>>, lazy: bool, k: nat)
    requires
        parse_pack(name, b, types, lazy) is Ok,
        k >= 1,
        parse_indexes(b) matches Ok(p) && p.data_start + k <= b.len(),
    ensures
        parse_pack(name, b.subrange(0, b.len() - k), types, lazy) == Err::<PackModel, ErrorKind>(
            ErrorKind::PackFileSizeIsNotWhatWeExpect((b.len() - k) as u64, clamp_u64(b.len() as int)),
        ),
{
    let c = b.subrange(0, b.len() - k);
    let p = parse_indexes(b)->Ok_0;
    let h = parse_header(b)->Ok_0;
    lemma_layout_bounds(h.version, h.bitmask);
    let hs = h.layout.header_size as int;
    assert(b.subrange(0, 4) =~= c.subrange(0, 4));
    assert(b.subrange(4, 8) =~= c.subrange(4, 8));
    assert(b.subrange(8, 12) =~= c.subrange(8, 12));
    assert(b.subrange(12, 16) =~= c.subrange(12, 16));
    assert(b.subrange(16, 20) =~= c.subrange(16, 20));
    assert(b.subrange(20, 24) =~= c.subrange(20, 24));
    let tw = timestamp_width(h.layout.header_timestamp) as int;
    assert(b.subrange(24, 24 + tw) =~= c.subrange(24, 24 + tw));
    assert(b.subrange(24 + tw, hs) =~= c.subrange(24 + tw, hs));
    assert(timestamp_at(b, 24, h.layout.header_timestamp) == timestamp_at(c, 24, h.layout.header_timestamp));
    assert(parse_header(c) == parse_header(b));
    let a = hs + h.dep_index_size;
    let ds = a + h.rec_index_size;
    assert(b.subrange(hs, a) =~= c.subrange(hs, a));
    assert(b.subrange(a, ds) =~= c.subrange(a, ds));
    assert(parse_indexes(c) == parse_indexes(b));
}

/// The positions that a listing returns are positions of entries that the
/// listing's condition holds of.
pub proof fn lemma_indices_where(s: Seq<EntryModel>, f: spec_fn(EntryModel) -> bool)
    ensures
        forall|k: int|
            0 <= k < indices_where(s, f).len() ==> 0 <= #[trigger] indices_where(s, f)[k] < s.len() && f(
                s[indices_where(s, f)[k]],
            ),
    decreases s.len(),
{
    if s.len() > 0 {
        let d = s.drop_last();
        lemma_indices_where(d, f);
        let r = indices_where(d, f);
        assert forall|k: int| 0 <= k < r.len() implies s[r[k]] == d[r[k]] by {}
    }
}

proof fn lemma_build_hides_reserved(
    b: Seq<u8>,
    p: Parsed,
    types: Option<Seq<PackedFileType>>,
    lazy: bool,
    n: nat,
)
    requires
        n <= p.records.len(),
    ensures
        forall|i: int| 0 <= i < build_entries(b, p, types, lazy, n).0.len()
            ==> !is_reserved(#[trigger] build_entries(b, p, types, lazy, n).0[i].path),
        (forall|i: int| 0 <= i < p.records.len() ==> no_nul_char(#[trigger] p.records[i].path)) ==> forall|i: int|
            0 <= i < build_entries(b, p, types, lazy, n).0.len() ==> valid_path(
                #[trigger] build_entries(b, p, types, lazy, n).0[i].path,
            ),
    decreases n,
{
    if n > 0 {
        lemma_build_hides_reserved(b, p, types, lazy, (n - 1) as nat);
        if forall|i: int| 0 <= i < p.records.len() ==> no_nul_char(#[trigger] p.records[i].path) {
            lemma_split_path_valid(p.records[n - 1].path);
        }
    }
}

/// No entry of an opened container has the path
/// of the notes or of the settings, so no listing by type or by path prefix
/// ever returns one.
pub proof fn reserved_entries_hidden(
    name: Seq<char>,
    b: Seq<u8>,
    types: Option<Seq<PackedFileType>>,
    lazy: bool,
    f: spec_fn(EntryModel) -> bool,
)
    requires
        parse_pack(name, b, types, lazy) is Ok,
    ensures
        parse_pack(name, b, types, lazy) matches Ok(m) && (forall|i: int|
            0 <= i < m.entries.len() ==> !is_reserved(#[trigger] m.entries[i].path)) && (forall|k: int|
            0 <= k < indices_where(m.entries, f).len() ==> !is_reserved(
                m.entries[#[trigger] indices_where(m.entries, f)[k]].path,
            )),
{
    let p = parse_indexes(b)->Ok_0;
    lemma_build_hides_reserved(b, p, types, lazy, p.records.len());
    let m = parse_pack(name, b, types, lazy)->Ok_0;
    lemma_indices_where(m.entries, f);
}

proof fn lemma_timestamp_len(f: TimestampField, t: i64)
    ensures
        encode_timestamp(f, t).len() == timestamp_width(f),
{
    lemma_auto_spec_u64_to_from_le_bytes();
    lemma_auto_spec_u32_to_from_le_bytes();
}

/// Saving a container that was just saved writes the same bytes
/// again, but for the container timestamp.
pub proof fn save_idempotent(m: PackModel, new_path: Option<Seq<char>>, t1: i64, t2: i64)
    ensures
        ({
            let first = saved_bytes(m, t1);
            let second = saved_bytes(saved_model(m, new_path, t1), t2);
            let tw = timestamp_width(spec_layout(m.version, m.bitmask).header_timestamp);
            &&& first.len() == second.len()
            &&& forall|i: int| 0 <= i < first.len() && !(24 <= i < 24 + tw) ==> first[i] == second[i]
        }),
{
    let m2 = saved_model(m, new_path, t1);
    assert(save_items(m2) == save_items(m));
    let items = sort_items(save_items(m));
    let lay = spec_layout(m.version, m.bitmask);
    lemma_timestamp_len(lay.header_timestamp, t1);
    lemma_timestamp_len(lay.header_timestamp, t2);
    lemma_auto_spec_u32_to_from_le_bytes();
    let first = saved_bytes(m, t1);
    let second = saved_bytes(m2, t2);
    let a = encode_header_start(m, crate::format::encode_deps(m.deps).len() as int, items.len() as int,
        crate::format::encode_records(items, lay).len() as int);
    let rest = m.subheader + crate::format::encode_deps(m.deps) + crate::format::encode_records(items, lay)
        + crate::format::concat_data(items);
    assert(a.len() == 24) by {
        crate::version::lemma_version_of_magic(m.version);
    }
    assert(first =~= a + encode_timestamp(lay.header_timestamp, t1) + rest);
    assert(second =~= a + encode_timestamp(lay.header_timestamp, t2) + rest);
}

/// Saving writes the entries, with the reserved ones, in ascending
/// order of their lowercase paths; where no two of them share a lowercase path,
/// the order is strictly ascending.
pub proof fn save_order_ascending(m: PackModel)
    ensures
        ({
            let items = sort_items(save_items(m));
            &&& forall|i: int, j: int|
                0 <= i < j < items.len() ==> lex_le(
                    path_key(#[trigger] items[i].path),
                    path_key(#[trigger] items[j].path),
                )
            &&& (forall|i: int, j: int|
                0 <= i < j < save_items(m).len() ==> path_key(#[trigger] save_items(m)[i].path) != path_key(
                    #[trigger] save_items(m)[j].path,
                )) ==> forall|i: int, j: int|
                0 <= i < j < items.len() ==> path_key(#[trigger] items[i].path) != path_key(
                    #[trigger] items[j].path,
                )
        }),
{
    let s = save_items(m);
    let keys = s.map_values(|it: Item| path_key(it.path));
    let ord = sorted_indices(keys, s.len());
    lemma_sorted_indices_ascending(keys, s.len());
    lemma_sorted_indices_permutation(keys, s.len());
    let items = sort_items(s);
    assert forall|i: int, j: int| 0 <= i < j < items.len() implies lex_le(
        path_key(#[trigger] items[i].path),
        path_key(#[trigger] items[j].path),
    ) by {
        assert(items[i] == s[ord[i]]);
        assert(items[j] == s[ord[j]]);
        assert(lex_le(keys[ord[i]], keys[ord[j]]));
    }
    if forall|i: int, j: int|
        0 <= i < j < s.len() ==> path_key(#[trigger] s[i].path) != path_key(#[trigger] s[j].path) {
        assert forall|i: int, j: int| 0 <= i < j < items.len() implies path_key(#[trigger] items[i].path)
            != path_key(#[trigger] items[j].path) by {
            assert(items[i] == s[ord[i]]);
            assert(items[j] == s[ord[j]]);
            assert(ord[i] != ord[j]);
            if ord[i] < ord[j] {
                assert(path_key(s[ord[i]].path) != path_key(s[ord[j]].path));
            } else {
                assert(path_key(s[ord[j]].path) != path_key(s[ord[i]].path));
            }
        }
    }
}


proof fn lemma_cstr_end_nonzero(b: Seq<u8>, from: int, k: int)
    requires
        cstr_end(b, from) matches Some(j) && from <= k < j,
    ensures
        b[k] != 0,
    decreases k - from,
{
    if from < k {
        lemma_cstr_end_nonzero(b, from + 1, k);
    }
}

proof fn lemma_encode_has_nul(s: Seq<char>, i: int)
    requires
        0 <= i < s.len(),
        s[i] == '\0',
    ensures
        exists|k: int| 0 <= k < encode_utf8(s).len() && encode_utf8(s)[k] == 0,
    decreases i,
{
    let a = encode_scalar(s[0] as u32);
    let rest = s.drop_first();
    assert(encode_utf8(s) == a + encode_utf8(rest));
    if i == 0 {
        assert(s[0] as u32 == 0);
        assert((0u32 & 0x7Fu32) as u8 == 0u8) by (bit_vector);
        assert(encode_utf8(s)[0] == 0);
    } else {
        lemma_encode_has_nul(rest, i - 1);
        let k = choose|k: int| 0 <= k < encode_utf8(rest).len() && encode_utf8(rest)[k] == 0;
        assert(encode_utf8(s)[a.len() + k] == 0);
    }
}

proof fn lemma_cstr_end_range(b: Seq<u8>, from: int)
    requires
        cstr_end(b, from) is Some,
    ensures
        0 <= from <= cstr_end(b, from)->Some_0 < b.len(),
    decreases b.len() - from,
{
    if from >= 0 && from < b.len() && b[from] != 0 {
        lemma_cstr_end_range(b, from + 1);
    }
}

/// A NUL-terminated string read from a buffer holds no NUL.
proof fn lemma_cstr_no_nul(b: Seq<u8>, offset: int)
    requires
        spec_cstr(b, offset) is Ok,
    ensures
        no_nul_char(spec_cstr(b, offset)->Ok_0.0),
{
    let j = cstr_end(b, offset)->Some_0;
    lemma_cstr_end_range(b, offset);
    let bytes = b.subrange(offset, j);
    let s = decode_utf8(bytes);
    decode_utf8_encode_utf8(bytes);
    assert forall|i: int| 0 <= i < s.len() implies s[i] != '\0' by {
        if s[i] == '\0' {
            lemma_encode_has_nul(s, i);
            let k = choose|k: int| 0 <= k < encode_utf8(s).len() && encode_utf8(s)[k] == 0;
            lemma_cstr_end_nonzero(b, offset, offset + k);
            assert(bytes[k] == b[offset + k]);
        }
    }
}

proof fn lemma_parse_deps_no_nul(b: Seq<u8>, n: nat)
    requires
        parse_deps(b, n) is Ok,
    ensures
        forall|i: int| 0 <= i < parse_deps(b, n)->Ok_0.0.len() ==> no_nul_char(#[trigger] parse_deps(b, n)->Ok_0.0[i]),
    decreases n,
{
    if n > 0 {
        lemma_parse_deps_no_nul(b, (n - 1) as nat);
        let pos = parse_deps(b, (n - 1) as nat)->Ok_0.1;
        lemma_cstr_no_nul(b, pos);
    }
}

proof fn lemma_parse_records_no_nul(b: Seq<u8>, n: nat, lay: Layout)
    requires
        parse_records(b, n, lay) is Ok,
    ensures
        forall|i: int|
            0 <= i < parse_records(b, n, lay)->Ok_0.0.len() ==> no_nul_char(
                #[trigger] parse_records(b, n, lay)->Ok_0.0[i].path,
            ),
    decreases n,
{
    if n > 0 {
        lemma_parse_records_no_nul(b, (n - 1) as nat, lay);
        let pos = parse_records(b, (n - 1) as nat, lay)->Ok_0.1;
        let ts = crate::format::timestamp_at(b, pos + 4, lay.entry_timestamp)->Ok_0.1;
        let path_pos = if lay.compression_marker { ts + 1 } else { ts };
        lemma_cstr_no_nul(b, path_pos);
    }
}

/// Every container that a file opens into keeps the container invariant.
pub proof fn opened_is_wf(name: Seq<char>, b: Seq<u8>, types: Option<Seq<PackedFileType>>, lazy: bool)
    requires
        parse_pack(name, b, types, lazy) is Ok,
    ensures
        model_wf(parse_pack(name, b, types, lazy)->Ok_0),
{
    let p = parse_indexes(b)->Ok_0;
    let h = parse_header(b)->Ok_0;
    lemma_layout_bounds(h.version, h.bitmask);
    let hs = h.layout.header_size as int;
    let di = b.subrange(hs, hs + h.dep_index_size);
    let ri = b.subrange(hs + h.dep_index_size, p.data_start);
    lemma_parse_deps_no_nul(di, h.dep_count as nat);
    lemma_parse_records_no_nul(ri, h.rec_count as nat, h.layout);
    lemma_build_hides_reserved(b, p, types, lazy, p.records.len());
}


proof fn lemma_build_lazy(b: Seq<u8>, p: Parsed, types: Option<Seq<PackedFileType>>, n: nat)
    requires
        n <= p.records.len(),
        0 <= p.data_start,
        data_end(p) <= b.len() <= u64::MAX,
    ensures
        build_entries(b, p, types, true, n).0.map_values(|e: EntryModel| loaded_entry(e, b)) == build_entries(
            b,
            p,
            types,
            false,
            n,
        ).0,
        build_entries(b, p, types, true, n).1 == build_entries(b, p, types, false, n).1,
        build_entries(b, p, types, true, n).2 == build_entries(b, p, types, false, n).2,
        ranges_in(build_entries(b, p, types, true, n).0, b),
    decreases n,
{
    if n > 0 {
        lemma_build_lazy(b, p, types, (n - 1) as nat);
        lemma_sum_sizes_prefix(p.records, n - 1);
        lemma_sum_sizes_mono(p.records, n as int);
        let off = record_offset(p, n - 1);
        assert(off + p.records[n - 1].size <= b.len());
        let l = build_entries(b, p, types, true, (n - 1) as nat).0;
        let e = build_entries(b, p, types, false, (n - 1) as nat).0;
        let l2 = build_entries(b, p, types, true, n).0;
        assert(l.map_values(|x: EntryModel| loaded_entry(x, b)) == e);
        if l2.len() > l.len() {
            assert(l2 == l.push(l2.last()));
            assert(l2.map_values(|x: EntryModel| loaded_entry(x, b)) =~= l.map_values(
                |x: EntryModel| loaded_entry(x, b),
            ).push(loaded_entry(l2.last(), b)));
            assert forall|i: int| 0 <= i < l2.len() implies match #[trigger] l2[i].data {
                DataModel::OnDisk(o, s) => o + s <= b.len(),
                DataModel::InMemory(_) => true,
            } by {
                if i < l.len() {
                    assert(l2[i] == l[i]);
                }
            }
        } else {
            assert(l2 == l);
        }
    }
}

/// Opening a file lazily and then reading each entry's range from the file
/// gives what opening it eagerly gives; the ranges all lie inside the file.
pub proof fn lazy_open_loads_as_eager(name: Seq<char>, b: Seq<u8>, types: Option<Seq<PackedFileType>>)
    requires
        b.len() <= u64::MAX,
    ensures
        parse_pack(name, b, types, true) is Ok <==> parse_pack(name, b, types, false) is Ok,
        parse_pack(name, b, types, true) matches Ok(m1) ==> ranges_in(m1.entries, b) && with_entries(
            m1,
            m1.entries.map_values(|e: EntryModel| loaded_entry(e, b)),
        ) == parse_pack(name, b, types, false)->Ok_0,
{
    if ends_with_pack(name) && parse_indexes(b) is Ok && data_end(parse_indexes(b)->Ok_0) == b.len() {
        let p = parse_indexes(b)->Ok_0;
        lemma_build_lazy(b, p, types, p.records.len());
        let l = build_entries(b, p, types, true, p.records.len()).0;
        let e = build_entries(b, p, types, false, p.records.len()).0;
        assert forall|i: int| 0 <= i < l.len() implies l[i].path == e[i].path by {
            assert(e[i] == loaded_entry(l[i], b));
        }
        assert(unique_paths(l) == unique_paths(e));
    }
}

spec fn ends_with_pack(name: Seq<char>) -> bool {
    crate::entry::ends_with(name, ".pack"@)
}

} // verus!
