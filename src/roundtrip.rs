//! Saving and then opening a container gives back what was saved.

use vstd::prelude::*;
use vstd::bytes::*;
use vstd::utf8::*;

use crate::sort::{lemma_sorted_indices_onto, lemma_sorted_indices_permutation, lemma_sorted_indices_range, path_key, sorted_indices};
use crate::codec::{cstr_end, nul_free, spec_cstr};
use crate::entry::{unique_paths, no_nul_char, DataModel, EntryModel, ends_with, is_reserved, join_path, notes_name, settings_name, split_path, valid_path};
use crate::error::ErrorKind;
use crate::format::{
    model_wf,     Header, PackModel, Parsed, KNOWN_FLAGS, concat_data, encode_header_start, fits_fields, parse_header,
    parse_indexes, save_items, saved_bytes, sort_items, sum_sizes, timestamps_fit, data_end, record_offset,
    build_entries, entry_item, parse_pack,     Item, Record, encode_deps, encode_record, encode_records, encode_timestamp, parse_deps, parse_record,
    parse_records, timestamp_at, ticks_to_unix, trunc_div, u32_at, u64_at,
};
use crate::version::{magic_of, HAS_ENCRYPTED_INDEX, HAS_ENCRYPTED_DATA, lemma_layout_bounds, lemma_version_of_magic, spec_layout, type_value, valid_file_type, Layout, SEC_TO_UNIX_EPOCH, TimestampField, WINDOWS_TICK, timestamp_fits, timestamp_width};

verus! {

proof fn lemma_scalar_nul_free(c: char)
    requires
        c != '\0',
    ensures
        nul_free(encode_scalar(c as u32)),
{
    let v = c as u32;
    char_is_scalar(c);
    if has_width_1_encoding(v) {
        assert(v != 0);
        assert(1 <= v <= 0x7f ==> (v & 0x7f) as u8 != 0) by (bit_vector);
    } else {
        assert(0xC0u8 | ((v >> 6) & 0x1F) as u8 != 0) by (bit_vector);
        assert(0xE0u8 | ((v >> 12) & 0x0F) as u8 != 0) by (bit_vector);
        assert(0xF0u8 | ((v >> 18) & 0x07) as u8 != 0) by (bit_vector);
        assert(0x80u8 | (v & 0x3F) as u8 != 0) by (bit_vector);
        assert(0x80u8 | ((v >> 6) & 0x3F) as u8 != 0) by (bit_vector);
        assert(0x80u8 | ((v >> 12) & 0x3F) as u8 != 0) by (bit_vector);
    }
}

/// Text without NUL characters encodes to bytes without NUL.
pub proof fn lemma_encode_utf8_nul_free(s: Seq<char>)
    requires
        no_nul_char(s),
    ensures
        nul_free(encode_utf8(s)),
    decreases s.len(),
{
    if s.len() > 0 {
        lemma_scalar_nul_free(s[0]);
        lemma_encode_utf8_nul_free(s.drop_first());
        let a = encode_scalar(s[0] as u32);
        let b = encode_utf8(s.drop_first());
        assert forall|i: int| 0 <= i < (a + b).len() implies (a + b)[i] != 0 by {
            if i < a.len() {
                assert((a + b)[i] == a[i]);
            } else {
                assert((a + b)[i] == b[i - a.len()]);
            }
        }
    }
}

proof fn lemma_cstr_end_run(b: Seq<u8>, from: int, end: int)
    requires
        0 <= from <= end < b.len(),
        b[end] == 0,
        forall|i: int| from <= i < end ==> b[i] != 0,
    ensures
        cstr_end(b, from) == Some(end),
    decreases end - from,
{
    if from < end {
        lemma_cstr_end_run(b, from + 1, end);
    }
}

/// A NUL-terminated encoding of `s` at `pos` reads back as `s`.
pub proof fn lemma_cstr_of(b: Seq<u8>, pos: int, s: Seq<char>)
    requires
        0 <= pos,
        pos + encode_utf8(s).len() < b.len(),
        b.subrange(pos, pos + encode_utf8(s).len() + 1) == encode_utf8(s) + seq![0u8],
        no_nul_char(s),
    ensures
        spec_cstr(b, pos) == Ok::<(Seq<char>, int), crate::error::ErrorKind>((s, pos + encode_utf8(s).len() + 1)),
{
    let e = encode_utf8(s);
    let l = e.len() as int;
    lemma_encode_utf8_nul_free(s);
    assert forall|i: int| pos <= i < pos + l implies b[i] != 0 by {
        assert(b.subrange(pos, pos + l + 1)[i - pos] == e[i - pos]);
    }
    assert(b.subrange(pos, pos + l + 1)[l] == 0u8);
    lemma_cstr_end_run(b, pos, pos + l);
    assert(b.subrange(pos, pos + l) =~= e);
    encode_utf8_valid_utf8(s);
    encode_utf8_decode_utf8(s);
}

proof fn lemma_split_extend(a: Seq<char>, t: Seq<char>)
    requires
        forall|i: int| 0 <= i < t.len() ==> t[i] != '\\',
    ensures
        split_path(a + t) == split_path(a).update(split_path(a).len() - 1, split_path(a).last() + t),
    decreases t.len(),
{
    crate::entry::lemma_split_path_nonempty(a);
    if t.len() == 0 {
        assert(a + t =~= a);
        assert(split_path(a).last() + t =~= split_path(a).last());
        assert(split_path(a).update(split_path(a).len() - 1, split_path(a).last()) =~= split_path(a));
    } else {
        let t0 = t.drop_last();
        lemma_split_extend(a, t0);
        assert((a + t).drop_last() =~= a + t0);
        assert((a + t).last() == t.last());
        let sa = split_path(a);
        let s0 = split_path(a + t0);
        assert(s0.last() =~= sa.last() + t0);
        assert(s0.last().push(t.last()) =~= sa.last() + t);
        assert(s0.update(s0.len() - 1, s0.last().push(t.last())) =~= sa.update(sa.len() - 1, sa.last() + t));
    }
}

/// Splitting a valid path's on-disk form gives back its segments.
pub proof fn lemma_split_join(p: Seq<Seq<char>>)
    requires
        valid_path(p),
    ensures
        split_path(join_path(p)) == p,
    decreases p.len(),
{
    if p.len() == 1 {
        lemma_split_extend(seq![], p[0]);
        assert(seq![] + p[0] =~= p[0]);
        assert(split_path(seq![]) == seq![Seq::<char>::empty()]);
        assert(seq![Seq::<char>::empty()].update(0, Seq::<char>::empty() + p[0]) =~= p);
    } else {
        let d = p.drop_last();
        assert(valid_path(d)) by {
            assert forall|i: int, j: int| 0 <= i < d.len() && 0 <= j < d[i].len() implies d[i][j] != '\\' && d[i][j] != '\0' by {
                assert(d[i] == p[i]);
            }
        }
        lemma_split_join(d);
        let a = join_path(d) + seq!['\\'];
        assert(a.drop_last() =~= join_path(d));
        assert(split_path(a) == d.push(seq![]));
        assert forall|i: int| 0 <= i < p.last().len() implies p.last()[i] != '\\' by {
            assert(p.last() == p[p.len() - 1]);
        }
        lemma_split_extend(a, p.last());
        assert(d.push(seq![]).update(d.len() as int, Seq::<char>::empty() + p.last()) =~= p);
    }
}


proof fn lemma_encode_deps_prefix(ds: Seq<Seq<char>>, k: int)
    requires
        0 <= k <= ds.len(),
    ensures
        encode_deps(ds.subrange(0, k)).len() <= encode_deps(ds).len(),
        encode_deps(ds).subrange(0, encode_deps(ds.subrange(0, k)).len() as int) == encode_deps(ds.subrange(0, k)),
    decreases ds.len(),
{
    if k == ds.len() {
        assert(ds.subrange(0, k) =~= ds);
        assert(encode_deps(ds).subrange(0, encode_deps(ds).len() as int) =~= encode_deps(ds));
    } else {
        let d = ds.drop_last();
        assert(ds.subrange(0, k) =~= d.subrange(0, k));
        lemma_encode_deps_prefix(d, k);
        let a = encode_deps(d);
        let l = encode_deps(d.subrange(0, k)).len() as int;
        assert(encode_deps(ds) == a + encode_utf8(ds.last()) + seq![0u8]);
        assert(encode_deps(ds).subrange(0, l) =~= a.subrange(0, l));
    }
}

/// The dependency index of names without NUL reads back as those names.
pub proof fn lemma_parse_deps_encoded(ds: Seq<Seq<char>>, k: int)
    requires
        0 <= k <= ds.len(),
        forall|i: int| 0 <= i < ds.len() ==> no_nul_char(#[trigger] ds[i]),
    ensures
        parse_deps(encode_deps(ds), k as nat) == Ok::<(Seq<Seq<char>>, int), ErrorKind>(
            (ds.subrange(0, k), encode_deps(ds.subrange(0, k)).len() as int),
        ),
    decreases k,
{
    if k == 0 {
        assert(ds.subrange(0, 0) =~= Seq::<Seq<char>>::empty());
    } else {
        lemma_parse_deps_encoded(ds, k - 1);
        let buf = encode_deps(ds);
        let pk = ds.subrange(0, k);
        let pk1 = ds.subrange(0, k - 1);
        assert(pk.drop_last() =~= pk1);
        let pos = encode_deps(pk1).len() as int;
        let e = encode_utf8(ds[k - 1]);
        assert(encode_deps(pk) == encode_deps(pk1) + e + seq![0u8]);
        lemma_encode_deps_prefix(ds, k);
        assert(buf.subrange(pos, pos + e.len() + 1) =~= encode_deps(pk).subrange(pos, pos + e.len() + 1));
        assert(encode_deps(pk).subrange(pos, pos + e.len() + 1) =~= e + seq![0u8]);
        lemma_cstr_of(buf, pos, ds[k - 1]);
        assert(pk1.push(ds[k - 1]) =~= pk);
    }
}

/// The timestamp a record gives back after a save: the saved one, where the
/// record stores one.
pub open spec fn read_back_timestamp(f: TimestampField, t: i64) -> i64 {
    match f {
        TimestampField::Absent => 0,
        _ => t,
    }
}

proof fn lemma_timestamp_round_trip(b: Seq<u8>, pos: int, f: TimestampField, t: i64)
    requires
        timestamp_fits(f, t),
        0 <= pos,
        pos + timestamp_width(f) <= b.len(),
        b.subrange(pos, pos + timestamp_width(f)) == encode_timestamp(f, t),
    ensures
        timestamp_at(b, pos, f) == Ok::<(i64, int), ErrorKind>((read_back_timestamp(f, t), pos + timestamp_width(f))),
{
    lemma_auto_spec_u64_to_from_le_bytes();
    lemma_auto_spec_u32_to_from_le_bytes();
    match f {
        TimestampField::Absent => {},
        TimestampField::Ticks => {
            let y = t + SEC_TO_UNIX_EPOCH;
            let w = WINDOWS_TICK as int;
            assert(-9_223_372_036_850_000_000 <= y * 10_000_000 <= 9_223_372_036_850_000_000) by (nonlinear_arith)
                requires -922_337_203_685 <= y <= 922_337_203_685;
            let x = ((y * w) as i64);
            assert(spec_u64_from_le_bytes(spec_u64_to_le_bytes(x as u64)) == x as u64);
            assert(u64_at(b, pos) == x as u64);
            assert((x as u64) as i64 == x) by (bit_vector);
            if y >= 0 {
                vstd::arithmetic::div_mod::lemma_div_multiples_vanish(y, w);
                assert((w * y) / w == y);
                assert(y * w == w * y) by (nonlinear_arith);
                assert(trunc_div(x as int, w) == y);
            } else {
                vstd::arithmetic::div_mod::lemma_div_multiples_vanish(-y, w);
                assert((w * (-y)) / w == -y);
                assert(-(y * w) == w * (-y)) by (nonlinear_arith);
                assert(trunc_div(x as int, w) == y);
            }
            assert(ticks_to_unix(x) == t);
        },
        TimestampField::Seconds => {
            assert(b.subrange(pos, pos + 4) == spec_u32_to_le_bytes(t as u32));
            assert(spec_u32_from_le_bytes(spec_u32_to_le_bytes(t as u32)) == t as u32);
            assert(u32_at(b, pos) == t as u32);
        },
    }
}

/// What an item's index record reads back as.
pub open spec fn record_of(it: Item, lay: Layout) -> Record {
    Record {
        path: it.path,
        size: it.data.len() as u32,
        timestamp: read_back_timestamp(lay.entry_timestamp, it.timestamp),
        compressed: lay.compression_marker && it.compressed,
    }
}

proof fn lemma_parse_record_encoded(b: Seq<u8>, pos: int, it: Item, lay: Layout)
    requires
        0 <= pos,
        pos + encode_record(it, lay).len() <= b.len(),
        b.subrange(pos, pos + encode_record(it, lay).len()) == encode_record(it, lay),
        no_nul_char(it.path),
        timestamp_fits(lay.entry_timestamp, it.timestamp),
    ensures
        parse_record(b, pos, lay) == Ok::<(Record, int), ErrorKind>(
            (record_of(it, lay), pos + encode_record(it, lay).len()),
        ),
{
    lemma_auto_spec_u32_to_from_le_bytes();
    lemma_auto_spec_u64_to_from_le_bytes();
    let r = encode_record(it, lay);
    let sz = spec_u32_to_le_bytes(it.data.len() as u32);
    let ts = encode_timestamp(lay.entry_timestamp, it.timestamp);
    let tw = timestamp_width(lay.entry_timestamp) as int;
    assert(ts.len() == tw);
    let mk: Seq<u8> = if lay.compression_marker { seq![if it.compressed { 1u8 } else { 0u8 }] } else { seq![] };
    let e = encode_utf8(it.path);
    assert(r == sz + ts + mk + e + seq![0u8]);
    assert(b.subrange(pos, pos + 4) =~= r.subrange(0, 4));
    assert(r.subrange(0, 4) =~= sz);
    assert(u32_at(b, pos) == it.data.len() as u32);
    assert(b.subrange(pos + 4, pos + 4 + tw) =~= r.subrange(4, 4 + tw));
    assert(r.subrange(4, 4 + tw) =~= ts);
    lemma_timestamp_round_trip(b, pos + 4, lay.entry_timestamp, it.timestamp);
    let p = pos + 4 + tw;
    let path_pos = if lay.compression_marker { p + 1 } else { p };
    if lay.compression_marker {
        assert(b[p] == r[4 + tw]);
    }
    assert(b.subrange(path_pos, path_pos + e.len() + 1) =~= r.subrange(path_pos - pos, path_pos - pos + e.len() + 1));
    assert(r.subrange(path_pos - pos, path_pos - pos + e.len() + 1) =~= e + seq![0u8]);
    lemma_cstr_of(b, path_pos, it.path);
}

proof fn lemma_encode_records_prefix(items: Seq<Item>, k: int, lay: Layout)
    requires
        0 <= k <= items.len(),
    ensures
        encode_records(items.subrange(0, k), lay).len() <= encode_records(items, lay).len(),
        encode_records(items, lay).subrange(0, encode_records(items.subrange(0, k), lay).len() as int)
            == encode_records(items.subrange(0, k), lay),
    decreases items.len(),
{
    if k == items.len() {
        assert(items.subrange(0, k) =~= items);
        assert(encode_records(items, lay).subrange(0, encode_records(items, lay).len() as int) =~= encode_records(items, lay));
    } else {
        let d = items.drop_last();
        assert(items.subrange(0, k) =~= d.subrange(0, k));
        lemma_encode_records_prefix(d, k, lay);
        let a = encode_records(d, lay);
        let l = encode_records(d.subrange(0, k), lay).len() as int;
        assert(encode_records(items, lay).subrange(0, l) =~= a.subrange(0, l));
    }
}

/// The entry index of items with NUL-free paths and fitting timestamps reads
/// back as their records.
pub proof fn lemma_parse_records_encoded(items: Seq<Item>, k: int, lay: Layout)
    requires
        0 <= k <= items.len(),
        forall|i: int| 0 <= i < items.len() ==> no_nul_char(#[trigger] items[i].path),
        forall|i: int| 0 <= i < items.len() ==> timestamp_fits(lay.entry_timestamp, #[trigger] items[i].timestamp),
    ensures
        parse_records(encode_records(items, lay), k as nat, lay) == Ok::<(Seq<Record>, int), ErrorKind>(
            (
                items.subrange(0, k).map_values(|it: Item| record_of(it, lay)),
                encode_records(items.subrange(0, k), lay).len() as int,
            ),
        ),
    decreases k,
{
    if k == 0 {
        assert(items.subrange(0, 0).map_values(|it: Item| record_of(it, lay)) =~= Seq::<Record>::empty());
    } else {
        lemma_parse_records_encoded(items, k - 1, lay);
        let buf = encode_records(items, lay);
        let pk = items.subrange(0, k);
        let pk1 = items.subrange(0, k - 1);
        assert(pk.drop_last() =~= pk1);
        let pos = encode_records(pk1, lay).len() as int;
        let r = encode_record(items[k - 1], lay);
        assert(encode_records(pk, lay) == encode_records(pk1, lay) + r);
        lemma_encode_records_prefix(items, k, lay);
        assert(buf.subrange(pos, pos + r.len()) =~= encode_records(pk, lay).subrange(pos, pos + r.len()));
        assert(encode_records(pk, lay).subrange(pos, pos + r.len()) =~= r);
        lemma_parse_record_encoded(buf, pos, items[k - 1], lay);
        assert(pk1.map_values(|it: Item| record_of(it, lay)).push(record_of(items[k - 1], lay)) =~= pk.map_values(
            |it: Item| record_of(it, lay),
        ));
    }
}


proof fn lemma_join_no_nul(p: Seq<Seq<char>>)
    requires
        forall|i: int, j: int| 0 <= i < p.len() && 0 <= j < p[i].len() ==> p[i][j] != '\0',
    ensures
        no_nul_char(join_path(p)),
    decreases p.len(),
{
    if p.len() > 1 {
        let d = p.drop_last();
        assert forall|i: int, j: int| 0 <= i < d.len() && 0 <= j < d[i].len() implies d[i][j] != '\0' by {
            assert(d[i] == p[i]);
        }
        lemma_join_no_nul(d);
        let a = join_path(d);
        let l = p.last();
        assert forall|i: int| 0 <= i < (a + seq!['\\'] + l).len() implies (a + seq!['\\'] + l)[i] != '\0' by {
            if i < a.len() {
            } else if i == a.len() {
            } else {
                assert(l == p[p.len() - 1]);
                assert((a + seq!['\\'] + l)[i] == l[i - a.len() - 1]);
            }
        }
    }
}

pub proof fn lemma_reserved_names()
    ensures
        no_nul_char(notes_name()),
        no_nul_char(settings_name()),
        valid_path(seq![notes_name()]),
        valid_path(seq![settings_name()]),
        seq![notes_name()] != seq![settings_name()],
{
    reveal_strlit("frodos_biggest_secret.rpfm-notes");
    reveal_strlit("settings.rpfm_reserved");
    assert(notes_name()[0] != settings_name()[0]);
    assert(seq![notes_name()][0] != seq![settings_name()][0]);
}


/// What the round trip asks of a container: the container invariant, a
/// `.pack` name, flags and type that read back as themselves, entries held
/// in memory, fields that fit, and timestamps that fit.
pub open spec fn round_trip_ready(m: PackModel, now: i64) -> bool {
    let lay = spec_layout(m.version, m.bitmask);
    &&& model_wf(m)
    &&& ends_with(m.path, ".pack"@)
    &&& m.bitmask & KNOWN_FLAGS == m.bitmask
    &&& m.bitmask & HAS_ENCRYPTED_INDEX == 0
    &&& valid_file_type(m.file_type)
    &&& forall|i: int| 0 <= i < m.entries.len() ==> (#[trigger] m.entries[i]).data is InMemory
    &&& fits_fields(m, sort_items(save_items(m)))
    &&& timestamps_fit(m, now)
}

pub open spec fn notes_item(n: Seq<char>) -> Item {
    Item { path: notes_name(), timestamp: 0, compressed: false, data: encode_utf8(n) }
}

pub open spec fn settings_item(st: Seq<u8>) -> Item {
    Item { path: settings_name(), timestamp: 0, compressed: false, data: st }
}

pub open spec fn n_reserved(m: PackModel) -> int {
    (if m.notes is Some { 1int } else { 0int }) + 1
}

proof fn lemma_save_item_cases(m: PackModel, i: int)
    requires
        0 <= i < save_items(m).len(),
    ensures
        save_items(m).len() == m.entries.len() + n_reserved(m),
        i < m.entries.len() ==> save_items(m)[i] == entry_item(m.entries[i]),
        i >= m.entries.len() && m.notes is Some && i == m.entries.len() ==> save_items(m)[i] == notes_item(m.notes->0),
        i >= m.entries.len() && !(m.notes is Some && i == m.entries.len()) ==> save_items(m)[i]
            == settings_item(m.settings),
{
}

proof fn lemma_save_items_len(m: PackModel)
    ensures
        save_items(m).len() == m.entries.len() + n_reserved(m),
{
}

/// Every item that saving writes has a path without NUL and a timestamp that fits.
proof fn lemma_sorted_items_props(m: PackModel, now: i64)
    requires
        round_trip_ready(m, now),
    ensures
        sort_items(save_items(m)).len() == save_items(m).len(),
        forall|i: int| 0 <= i < sort_items(save_items(m)).len() ==> no_nul_char(#[trigger] sort_items(save_items(m))[i].path),
        forall|i: int|
            0 <= i < sort_items(save_items(m)).len() ==> timestamp_fits(
                spec_layout(m.version, m.bitmask).entry_timestamp,
                #[trigger] sort_items(save_items(m))[i].timestamp,
            ),
{
    let s = save_items(m);
    let keys = s.map_values(|it: Item| path_key(it.path));
    let ord = sorted_indices(keys, s.len());
    lemma_sorted_indices_range(keys, s.len());
    lemma_reserved_names();
    let lay = spec_layout(m.version, m.bitmask);
    assert forall|i: int| 0 <= i < s.len() implies no_nul_char(#[trigger] s[i].path) && timestamp_fits(lay.entry_timestamp, s[i].timestamp) by {
        lemma_save_item_cases(m, i);
        if i < m.entries.len() {
            let p = m.entries[i].path;
            assert(valid_path(p));
            lemma_join_no_nul(p);
        }
    }
    let sorted = sort_items(s);
    assert forall|i: int| 0 <= i < sorted.len() implies no_nul_char(#[trigger] sorted[i].path) && timestamp_fits(lay.entry_timestamp, sorted[i].timestamp) by {
        assert(sorted[i] == s[ord[i]]);
    }
}

proof fn lemma_sum_sizes_items(items: Seq<Item>, lay: Layout)
    requires
        forall|i: int| 0 <= i < items.len() ==> (#[trigger] items[i]).data.len() <= u32::MAX,
    ensures
        sum_sizes(items.map_values(|it: Item| record_of(it, lay))) == concat_data(items).len(),
    decreases items.len(),
{
    if items.len() > 0 {
        let d = items.drop_last();
        lemma_sum_sizes_items(d, lay);
        assert(items.map_values(|it: Item| record_of(it, lay)).drop_last() =~= d.map_values(|it: Item| record_of(it, lay)));
    }
}

proof fn lemma_flags_word(bm: u32, tv: u32)
    requires
        bm & 0x1d0u32 == bm,
        tv < 16,
    ensures
        (bm | tv) & 0x1d0u32 == bm,
        (bm | tv) & 15u32 == tv,
{
    assert((bm & 0x1d0u32 == bm && tv < 16) ==> ((bm | tv) & 0x1d0u32 == bm && (bm | tv) & 15u32 == tv)) by (bit_vector);
}

/// The bytes of a saved container, part by part.
proof fn lemma_saved_parts(m: PackModel, now: i64)
    ensures
        ({
            let lay = spec_layout(m.version, m.bitmask);
            let items = sort_items(save_items(m));
            let di = encode_deps(m.deps);
            let ri = encode_records(items, lay);
            let h0 = encode_header_start(m, di.len() as int, items.len() as int, ri.len() as int);
            let ts = encode_timestamp(lay.header_timestamp, now);
            &&& saved_bytes(m, now) == h0 + ts + m.subheader + di + ri + concat_data(items)
            &&& h0.len() == 24
            &&& ts.len() == timestamp_width(lay.header_timestamp)
            &&& h0.subrange(0, 4) == magic_of(m.version)
            &&& h0.subrange(4, 8) == spec_u32_to_le_bytes(m.bitmask | type_value(m.file_type))
            &&& h0.subrange(8, 12) == spec_u32_to_le_bytes(m.deps.len() as u32)
            &&& h0.subrange(12, 16) == spec_u32_to_le_bytes(di.len() as u32)
            &&& h0.subrange(16, 20) == spec_u32_to_le_bytes(items.len() as u32)
            &&& h0.subrange(20, 24) == spec_u32_to_le_bytes(ri.len() as u32)
        }),
{
    lemma_auto_spec_u32_to_from_le_bytes();
    lemma_auto_spec_u64_to_from_le_bytes();
    lemma_version_of_magic(m.version);
    let lay = spec_layout(m.version, m.bitmask);
    let items = sort_items(save_items(m));
    let di = encode_deps(m.deps);
    let ri = encode_records(items, lay);
    let h0 = encode_header_start(m, di.len() as int, items.len() as int, ri.len() as int);
    assert(h0.subrange(0, 4) =~= magic_of(m.version));
    assert(h0.subrange(4, 8) =~= spec_u32_to_le_bytes(m.bitmask | type_value(m.file_type)));
    assert(h0.subrange(8, 12) =~= spec_u32_to_le_bytes(m.deps.len() as u32));
    assert(h0.subrange(12, 16) =~= spec_u32_to_le_bytes(di.len() as u32));
    assert(h0.subrange(16, 20) =~= spec_u32_to_le_bytes(items.len() as u32));
    assert(h0.subrange(20, 24) =~= spec_u32_to_le_bytes(ri.len() as u32));
}

/// The header of a saved container reads back as what was saved.
proof fn lemma_parse_saved_header(m: PackModel, now: i64)
    requires
        round_trip_ready(m, now),
    ensures
        ({
            let lay = spec_layout(m.version, m.bitmask);
            let items = sort_items(save_items(m));
            parse_header(saved_bytes(m, now)) == Ok::<Header, ErrorKind>(Header {
                version: m.version,
                file_type: m.file_type,
                bitmask: m.bitmask,
                layout: lay,
                dep_count: m.deps.len() as u32,
                dep_index_size: encode_deps(m.deps).len() as u32,
                rec_count: items.len() as u32,
                rec_index_size: encode_records(items, lay).len() as u32,
                timestamp: read_back_timestamp(lay.header_timestamp, now),
                subheader: m.subheader,
            })
        }),
{
    lemma_auto_spec_u32_to_from_le_bytes();
    lemma_version_of_magic(m.version);
    lemma_layout_bounds(m.version, m.bitmask);
    lemma_saved_parts(m, now);
    let lay = spec_layout(m.version, m.bitmask);
    let items = sort_items(save_items(m));
    let di = encode_deps(m.deps);
    let ri = encode_records(items, lay);
    let h0 = encode_header_start(m, di.len() as int, items.len() as int, ri.len() as int);
    let ts = encode_timestamp(lay.header_timestamp, now);
    let tw = timestamp_width(lay.header_timestamp) as int;
    let hs = lay.header_size as int;
    let b = saved_bytes(m, now);
    let rest = m.subheader + di + ri + concat_data(items);
    assert(b =~= h0 + (ts + rest));
    assert(b.subrange(0, 24) =~= h0);
    assert(b.subrange(0, 4) =~= h0.subrange(0, 4));
    assert(b.subrange(4, 8) =~= h0.subrange(4, 8));
    assert(b.subrange(8, 12) =~= h0.subrange(8, 12));
    assert(b.subrange(12, 16) =~= h0.subrange(12, 16));
    assert(b.subrange(16, 20) =~= h0.subrange(16, 20));
    assert(b.subrange(20, 24) =~= h0.subrange(20, 24));
    let word = m.bitmask | type_value(m.file_type);
    assert(u32_at(b, 4) == word);
    lemma_flags_word(m.bitmask, type_value(m.file_type));
    assert(b.subrange(24, 24 + tw) =~= ts);
    lemma_timestamp_round_trip(b, 24, lay.header_timestamp, now);
    assert(b.subrange(24 + tw, hs) =~= m.subheader);
}

/// The header and indexes of a saved container read back as what was saved,
/// and its data region ends where the file does.
pub proof fn lemma_parse_saved_indexes(m: PackModel, now: i64)
    requires
        round_trip_ready(m, now),
    ensures
        ({
            let lay = spec_layout(m.version, m.bitmask);
            let items = sort_items(save_items(m));
            let di = encode_deps(m.deps);
            let ri = encode_records(items, lay);
            let b = saved_bytes(m, now);
            &&& parse_indexes(b) == Ok::<Parsed, ErrorKind>(Parsed {
                header: parse_header(b)->Ok_0,
                deps: m.deps,
                records: items.map_values(|it: Item| record_of(it, lay)),
                data_start: lay.header_size + di.len() + ri.len(),
            })
            &&& data_end(parse_indexes(b)->Ok_0) == b.len()
            &&& b.subrange(0, lay.header_size + di.len() + ri.len()) + concat_data(items) == b
        }),
{
    lemma_layout_bounds(m.version, m.bitmask);
    lemma_saved_parts(m, now);
    lemma_parse_saved_header(m, now);
    lemma_sorted_items_props(m, now);
    let lay = spec_layout(m.version, m.bitmask);
    let items = sort_items(save_items(m));
    let di = encode_deps(m.deps);
    let ri = encode_records(items, lay);
    let data = concat_data(items);
    let h0 = encode_header_start(m, di.len() as int, items.len() as int, ri.len() as int);
    let ts = encode_timestamp(lay.header_timestamp, now);
    let b = saved_bytes(m, now);
    let head = h0 + ts + m.subheader;
    let hs = lay.header_size as int;
    assert(head.len() == hs);
    assert(b =~= head + di + ri + data);
    let a = hs + di.len();
    let ds = a + ri.len();
    assert(b.subrange(hs, a) =~= di);
    assert(b.subrange(a, ds) =~= ri);
    assert(b.subrange(0, ds) + data =~= b);
    lemma_parse_deps_encoded(m.deps, m.deps.len() as int);
    assert(m.deps.subrange(0, m.deps.len() as int) =~= m.deps);
    lemma_parse_records_encoded(items, items.len() as int, lay);
    assert(items.subrange(0, items.len() as int) =~= items);
    lemma_sum_sizes_items(items, lay);
}


/// The entry that opening a saved item gives.
pub open spec fn entry_of(it: Item, encrypted: bool, lay: Layout) -> EntryModel {
    EntryModel {
        path: split_path(it.path),
        timestamp: read_back_timestamp(lay.entry_timestamp, it.timestamp),
        compressed: lay.compression_marker && it.compressed,
        encrypted,
        data: DataModel::InMemory(it.data),
    }
}

/// Entries, notes and settings from opening saved items, in order.
pub open spec fn reopen_items(items: Seq<Item>, encrypted: bool, lay: Layout) -> (
    Seq<EntryModel>,
    Option<Seq<char>>,
    Seq<u8>,
)
    decreases items.len(),
{
    if items.len() == 0 {
        (seq![], None, seq![])
    } else {
        let (es, notes, settings) = reopen_items(items.drop_last(), encrypted, lay);
        let it = items.last();
        let path = split_path(it.path);
        if path == seq![notes_name()] {
            (es, if valid_utf8(it.data) { Some(decode_utf8(it.data)) } else { notes }, settings)
        } else if path == seq![settings_name()] {
            (es, notes, it.data)
        } else {
            (es.push(entry_of(it, encrypted, lay)), notes, settings)
        }
    }
}

proof fn lemma_concat_data_prefix(items: Seq<Item>, k: int)
    requires
        0 <= k <= items.len(),
    ensures
        concat_data(items.subrange(0, k)).len() <= concat_data(items).len(),
        concat_data(items).subrange(0, concat_data(items.subrange(0, k)).len() as int) == concat_data(items.subrange(0, k)),
    decreases items.len(),
{
    if k == items.len() {
        assert(items.subrange(0, k) =~= items);
        assert(concat_data(items).subrange(0, concat_data(items).len() as int) =~= concat_data(items));
    } else {
        let d = items.drop_last();
        assert(items.subrange(0, k) =~= d.subrange(0, k));
        lemma_concat_data_prefix(d, k);
        let l = concat_data(d.subrange(0, k)).len() as int;
        assert(concat_data(items).subrange(0, l) =~= concat_data(d).subrange(0, l));
    }
}

proof fn lemma_build_saved(b: Seq<u8>, p: Parsed, items: Seq<Item>, lay: Layout, k: int)
    requires
        0 <= k <= items.len(),
        p.records == items.map_values(|it: Item| record_of(it, lay)),
        0 <= p.data_start <= b.len(),
        b == b.subrange(0, p.data_start) + concat_data(items),
        forall|i: int| 0 <= i < items.len() ==> (#[trigger] items[i]).data.len() <= u32::MAX,
    ensures
        build_entries(b, p, None, false, k as nat) == reopen_items(
            items.subrange(0, k),
            p.header.bitmask & HAS_ENCRYPTED_DATA != 0,
            lay,
        ),
    decreases k,
{
    if k > 0 {
        lemma_build_saved(b, p, items, lay, k - 1);
        let pk = items.subrange(0, k);
        let pk1 = items.subrange(0, k - 1);
        assert(pk.drop_last() =~= pk1);
        assert(pk.last() == items[k - 1]);
        assert(p.records[k - 1] == record_of(items[k - 1], lay));
        assert(p.records.subrange(0, k - 1) =~= pk1.map_values(|it: Item| record_of(it, lay)));
        assert forall|i: int| 0 <= i < pk1.len() implies (#[trigger] pk1[i]).data.len() <= u32::MAX by {
            assert(pk1[i] == items[i]);
        }
        lemma_sum_sizes_items(pk1, lay);
        let off = record_offset(p, k - 1);
        let c0 = concat_data(pk1);
        assert(off == p.data_start + c0.len());
        let d = items[k - 1].data;
        assert(concat_data(pk) == c0 + d);
        lemma_concat_data_prefix(items, k);
        let all = concat_data(items);
        assert(all.subrange(c0.len() as int, (c0.len() + d.len()) as int) =~= concat_data(pk).subrange(c0.len() as int, (c0.len() + d.len()) as int));
        assert(concat_data(pk).subrange(c0.len() as int, (c0.len() + d.len()) as int) =~= d);
        let pre = b.subrange(0, p.data_start);
        assert(pre.len() == p.data_start);
        assert(all.len() >= c0.len() + d.len());
        assert forall|i: int| 0 <= i < d.len() implies #[trigger] b.subrange(off, (off + d.len()) as int)[i] == all.subrange(
            c0.len() as int,
            (c0.len() + d.len()) as int,
        )[i] by {
            assert(b[off + i] == (pre + all)[off + i]);
        }
        assert(b.subrange(off, (off + d.len()) as int) =~= all.subrange(c0.len() as int, (c0.len() + d.len()) as int));
        assert(record_of(items[k - 1], lay).size == d.len());
    }
}

proof fn lemma_reopen_notes_none(s: Seq<Item>, enc: bool, lay: Layout)
    requires
        forall|k: int| 0 <= k < s.len() ==> split_path(#[trigger] s[k].path) != seq![notes_name()],
    ensures
        reopen_items(s, enc, lay).1 is None,
    decreases s.len(),
{
    if s.len() > 0 {
        lemma_reopen_notes_none(s.drop_last(), enc, lay);
    }
}

proof fn lemma_reopen_notes_one(s: Seq<Item>, enc: bool, lay: Layout, k0: int, n: Seq<char>)
    requires
        0 <= k0 < s.len(),
        split_path(s[k0].path) == seq![notes_name()],
        s[k0].data == encode_utf8(n),
        forall|k: int| 0 <= k < s.len() && k != k0 ==> split_path(#[trigger] s[k].path) != seq![notes_name()],
    ensures
        reopen_items(s, enc, lay).1 == Some(n),
    decreases s.len(),
{
    encode_utf8_valid_utf8(n);
    encode_utf8_decode_utf8(n);
    if k0 < s.len() - 1 {
        lemma_reopen_notes_one(s.drop_last(), enc, lay, k0, n);
    }
}

proof fn lemma_reopen_settings_one(s: Seq<Item>, enc: bool, lay: Layout, k0: int, st: Seq<u8>)
    requires
        0 <= k0 < s.len(),
        split_path(s[k0].path) == seq![settings_name()],
        split_path(s[k0].path) != seq![notes_name()],
        s[k0].data == st,
        forall|k: int| 0 <= k < s.len() && k != k0 ==> split_path(#[trigger] s[k].path) != seq![settings_name()],
    ensures
        reopen_items(s, enc, lay).2 == st,
    decreases s.len(),
{
    if k0 < s.len() - 1 {
        lemma_reopen_settings_one(s.drop_last(), enc, lay, k0, st);
    }
}

proof fn lemma_reopen_entries_from(s: Seq<Item>, enc: bool, lay: Layout)
    ensures
        forall|j: int|
            0 <= j < reopen_items(s, enc, lay).0.len() ==> exists|k: int|
                0 <= k < s.len() && !is_reserved(split_path(s[k].path)) && #[trigger] reopen_items(s, enc, lay).0[j]
                    == entry_of(s[k], enc, lay),
    decreases s.len(),
{
    if s.len() > 0 {
        let d = s.drop_last();
        lemma_reopen_entries_from(d, enc, lay);
        let r = reopen_items(s, enc, lay).0;
        let rd = reopen_items(d, enc, lay).0;
        assert forall|j: int| 0 <= j < r.len() implies exists|k: int|
            0 <= k < s.len() && !is_reserved(split_path(s[k].path)) && #[trigger] r[j] == entry_of(s[k], enc, lay) by {
            if j < rd.len() {
                assert(r[j] == rd[j]);
                let k = choose|k: int| 0 <= k < d.len() && !is_reserved(split_path(d[k].path)) && rd[j] == entry_of(d[k], enc, lay);
                assert(s[k] == d[k]);
            } else {
                assert(r[j] == entry_of(s[s.len() - 1], enc, lay));
            }
        }
    }
}

proof fn lemma_reopen_entries_to(s: Seq<Item>, enc: bool, lay: Layout, k: int)
    requires
        0 <= k < s.len(),
        !is_reserved(split_path(s[k].path)),
    ensures
        exists|j: int|
            0 <= j < reopen_items(s, enc, lay).0.len() && #[trigger] reopen_items(s, enc, lay).0[j] == entry_of(s[k], enc, lay),
    decreases s.len(),
{
    let r = reopen_items(s, enc, lay).0;
    if k == s.len() - 1 {
        assert(r[r.len() - 1] == entry_of(s[k], enc, lay));
    } else {
        let d = s.drop_last();
        assert(d[k] == s[k]);
        lemma_reopen_entries_to(d, enc, lay, k);
        let rd = reopen_items(d, enc, lay).0;
        let j = choose|j: int| 0 <= j < rd.len() && rd[j] == entry_of(d[k], enc, lay);
        assert(r[j] == rd[j]);
    }
}


proof fn lemma_split_save_item(m: PackModel, now: i64, i: int)
    requires
        round_trip_ready(m, now),
        0 <= i < save_items(m).len(),
    ensures
        i < m.entries.len() ==> split_path(save_items(m)[i].path) == m.entries[i].path && !is_reserved(
            m.entries[i].path,
        ) && save_items(m)[i] == entry_item(m.entries[i]),
        i >= m.entries.len() && m.notes is Some && i == m.entries.len() ==> split_path(save_items(m)[i].path)
            == seq![notes_name()] && save_items(m)[i] == notes_item(m.notes->0),
        i >= m.entries.len() && !(m.notes is Some && i == m.entries.len()) ==> split_path(save_items(m)[i].path)
            == seq![settings_name()] && save_items(m)[i] == settings_item(m.settings),
{
    lemma_save_item_cases(m, i);
    lemma_reserved_names();
    if i < m.entries.len() {
        assert(valid_path(m.entries[i].path));
        lemma_split_join(m.entries[i].path);
    } else {
        lemma_split_join(seq![notes_name()]);
        lemma_split_join(seq![settings_name()]);
        assert(join_path(seq![notes_name()]) == notes_name());
        assert(join_path(seq![settings_name()]) == settings_name());
    }
}

pub open spec fn saved_order(m: PackModel) -> Seq<int> {
    sorted_indices(save_items(m).map_values(|it: Item| path_key(it.path)), save_items(m).len())
}

proof fn lemma_saved_order(m: PackModel)
    ensures
        saved_order(m).len() == save_items(m).len(),
        saved_order(m).no_duplicates(),
        forall|k: int| 0 <= k < save_items(m).len() ==> 0 <= #[trigger] saved_order(m)[k] < save_items(m).len(),
        forall|y: int| 0 <= y < save_items(m).len() ==> saved_order(m).contains(y),
        forall|k: int| 0 <= k < save_items(m).len() ==> #[trigger] sort_items(save_items(m))[k] == save_items(m)[saved_order(m)[k]],
        sort_items(save_items(m)).len() == save_items(m).len(),
{
    let s = save_items(m);
    let keys = s.map_values(|it: Item| path_key(it.path));
    lemma_sorted_indices_permutation(keys, s.len());
    lemma_sorted_indices_onto(keys, s.len());
}

/// Opening a saved container gives the entries, notes and settings of its items.
proof fn lemma_open_saved(m: PackModel, now: i64)
    requires
        round_trip_ready(m, now),
    ensures
        ({
            let lay = spec_layout(m.version, m.bitmask);
            let re = reopen_items(sort_items(save_items(m)), m.bitmask & HAS_ENCRYPTED_DATA != 0, lay);
            parse_pack(m.path, saved_bytes(m, now), None, false) matches Ok(r) && r.version == m.version
                && r.file_type == m.file_type && r.bitmask == m.bitmask && r.subheader == m.subheader && r.deps
                == m.deps && r.entries == re.0 && r.notes == re.1 && r.settings == re.2
        }),
{
    let lay = spec_layout(m.version, m.bitmask);
    let items = sort_items(save_items(m));
    let b = saved_bytes(m, now);
    lemma_parse_saved_indexes(m, now);
    lemma_parse_saved_header(m, now);
    lemma_sorted_items_props(m, now);
    let p = parse_indexes(b)->Ok_0;
    let n = items.len();
    assert(p.records.len() == n);
    assert(p.data_start <= b.len());
    assert forall|i: int| 0 <= i < items.len() implies (#[trigger] items[i]).data.len() <= u32::MAX by {}
    lemma_build_saved(b, p, items, lay, n as int);
    assert(items.subrange(0, n as int) =~= items);
    let ord = saved_order(m);
    lemma_saved_order(m);
    lemma_save_items_len(m);
    lemma_reserved_names();
    assert forall|k1: int, k2: int|
        0 <= k1 < items.len() && 0 <= k2 < items.len() && k1 != k2 && !is_reserved(split_path(items[k1].path))
            && !is_reserved(split_path(items[k2].path)) implies split_path(#[trigger] items[k1].path) != split_path(
        #[trigger] items[k2].path,
    ) by {
        assert(ord[k1] != ord[k2]);
        lemma_split_save_item(m, now, ord[k1]);
        lemma_split_save_item(m, now, ord[k2]);
    }
    lemma_reopen_unique(items, m.bitmask & HAS_ENCRYPTED_DATA != 0, lay);
}

/// Where the items' unreserved paths are distinct, so are the paths of the
/// entries that opening them gives.
proof fn lemma_reopen_unique(s: Seq<Item>, enc: bool, lay: Layout)
    requires
        forall|k1: int, k2: int|
            0 <= k1 < s.len() && 0 <= k2 < s.len() && k1 != k2 && !is_reserved(split_path(s[k1].path))
                && !is_reserved(split_path(s[k2].path)) ==> split_path(#[trigger] s[k1].path) != split_path(
                #[trigger] s[k2].path,
            ),
    ensures
        unique_paths(reopen_items(s, enc, lay).0),
    decreases s.len(),
{
    if s.len() > 0 {
        let d = s.drop_last();
        assert forall|k1: int, k2: int|
            0 <= k1 < d.len() && 0 <= k2 < d.len() && k1 != k2 && !is_reserved(split_path(d[k1].path))
                && !is_reserved(split_path(d[k2].path)) implies split_path(#[trigger] d[k1].path) != split_path(
            #[trigger] d[k2].path,
        ) by {
            assert(d[k1] == s[k1] && d[k2] == s[k2]);
        }
        lemma_reopen_unique(d, enc, lay);
        lemma_reopen_entries_from(d, enc, lay);
        let w = reopen_items(d, enc, lay).0;
        let r = reopen_items(s, enc, lay).0;
        let last = s[s.len() - 1];
        if !is_reserved(split_path(last.path)) {
            assert(r == w.push(entry_of(last, enc, lay)));
            assert forall|a: int, b: int| 0 <= a < r.len() && 0 <= b < r.len() && a != b implies r[a].path != r[b].path by {
                if a < w.len() && b < w.len() {
                    assert(r[a] == w[a] && r[b] == w[b]);
                } else if a < w.len() {
                    let k = choose|k: int| 0 <= k < d.len() && !is_reserved(split_path(d[k].path)) && #[trigger] w[a] == entry_of(d[k], enc, lay);
                    assert(d[k] == s[k]);
                    assert(split_path(s[k].path) != split_path(s[s.len() - 1].path));
                } else {
                    let k = choose|k: int| 0 <= k < d.len() && !is_reserved(split_path(d[k].path)) && #[trigger] w[b] == entry_of(d[k], enc, lay);
                    assert(d[k] == s[k]);
                    assert(split_path(s[k].path) != split_path(s[s.len() - 1].path));
                }
            }
        } else {
            assert(r == w);
        }
    }
}

#[verifier::rlimit(30)]
proof fn lemma_reopen_notes_of(m: PackModel, now: i64)
    requires
        round_trip_ready(m, now),
    ensures
        reopen_items(sort_items(save_items(m)), m.bitmask & HAS_ENCRYPTED_DATA != 0, spec_layout(m.version, m.bitmask)).1
            == m.notes,
{
    let lay = spec_layout(m.version, m.bitmask);
    let items = sort_items(save_items(m));
    let ord = saved_order(m);
    let enc = m.bitmask & HAS_ENCRYPTED_DATA != 0;
    lemma_saved_order(m);
    lemma_save_items_len(m);
    let ne = m.entries.len() as int;
    if m.notes is Some {
        assert(ord.contains(ne));
        let k0 = choose|k: int| 0 <= k < ord.len() && ord[k] == ne;
        lemma_split_save_item(m, now, ne);
        assert(items[k0] == save_items(m)[ne]);
        assert forall|k: int| 0 <= k < items.len() && k != k0 implies split_path(#[trigger] items[k].path) != seq![notes_name()] by {
            assert(ord[k] != ord[k0]);
            assert(items[k] == save_items(m)[ord[k]]);
            lemma_split_save_item(m, now, ord[k]);
            lemma_reserved_names();
        }
        lemma_reopen_notes_one(items, enc, lay, k0, m.notes->0);
    } else {
        assert forall|k: int| 0 <= k < items.len() implies split_path(#[trigger] items[k].path) != seq![notes_name()] by {
            assert(items[k] == save_items(m)[ord[k]]);
            lemma_split_save_item(m, now, ord[k]);
            lemma_reserved_names();
        }
        lemma_reopen_notes_none(items, enc, lay);
    }
}

#[verifier::rlimit(30)]
proof fn lemma_reopen_settings_of(m: PackModel, now: i64)
    requires
        round_trip_ready(m, now),
    ensures
        reopen_items(sort_items(save_items(m)), m.bitmask & HAS_ENCRYPTED_DATA != 0, spec_layout(m.version, m.bitmask)).2
            == m.settings,
{
    let lay = spec_layout(m.version, m.bitmask);
    let items = sort_items(save_items(m));
    let ord = saved_order(m);
    let enc = m.bitmask & HAS_ENCRYPTED_DATA != 0;
    lemma_saved_order(m);
    lemma_save_items_len(m);
    lemma_reserved_names();
    let si = m.entries.len() as int + if m.notes is Some { 1int } else { 0int };
    {
        assert(ord.contains(si));
        let k0 = choose|k: int| 0 <= k < ord.len() && ord[k] == si;
        lemma_split_save_item(m, now, si);
        assert(items[k0] == save_items(m)[si]);
        assert forall|k: int| 0 <= k < items.len() && k != k0 implies split_path(#[trigger] items[k].path) != seq![settings_name()] by {
            assert(ord[k] != ord[k0]);
            assert(items[k] == save_items(m)[ord[k]]);
            lemma_split_save_item(m, now, ord[k]);
        }
        lemma_reopen_settings_one(items, enc, lay, k0, m.settings);
    }
}

pub open spec fn reopened_entries(m: PackModel) -> Seq<EntryModel> {
    reopen_items(sort_items(save_items(m)), m.bitmask & HAS_ENCRYPTED_DATA != 0, spec_layout(m.version, m.bitmask)).0
}

proof fn lemma_saved_entry_back(m: PackModel, now: i64, i: int)
    requires
        round_trip_ready(m, now),
        0 <= i < m.entries.len(),
    ensures
        exists|j: int|
            0 <= j < reopened_entries(m).len() && (#[trigger] reopened_entries(m)[j]).path == m.entries[i].path
                && reopened_entries(m)[j].data == m.entries[i].data,
{
    let lay = spec_layout(m.version, m.bitmask);
    let items = sort_items(save_items(m));
    let ord = saved_order(m);
    let enc = m.bitmask & HAS_ENCRYPTED_DATA != 0;
    let es = reopened_entries(m);
    lemma_saved_order(m);
    lemma_save_items_len(m);
    assert(ord.contains(i));
    let k = choose|k: int| 0 <= k < ord.len() && ord[k] == i;
    lemma_split_save_item(m, now, i);
    assert(items[k] == save_items(m)[i]);
    lemma_reopen_entries_to(items, enc, lay, k);
    let j = choose|j: int| 0 <= j < es.len() && es[j] == entry_of(items[k], enc, lay);
    assert(m.entries[i].data is InMemory);
    assert(es[j].path == m.entries[i].path);
}

proof fn lemma_reopened_entry_saved(m: PackModel, now: i64, j: int)
    requires
        round_trip_ready(m, now),
        0 <= j < reopened_entries(m).len(),
    ensures
        exists|i: int|
            0 <= i < m.entries.len() && reopened_entries(m)[j].path == (#[trigger] m.entries[i]).path
                && reopened_entries(m)[j].data == m.entries[i].data,
{
    let lay = spec_layout(m.version, m.bitmask);
    let items = sort_items(save_items(m));
    let ord = saved_order(m);
    let enc = m.bitmask & HAS_ENCRYPTED_DATA != 0;
    let es = reopened_entries(m);
    lemma_saved_order(m);
    lemma_save_items_len(m);
    lemma_reopen_entries_from(items, enc, lay);
    let k = choose|k: int| 0 <= k < items.len() && !is_reserved(split_path(items[k].path)) && #[trigger] es[j] == entry_of(items[k], enc, lay);
    let i = ord[k];
    assert(items[k] == save_items(m)[i]);
    lemma_split_save_item(m, now, i);
    lemma_reserved_names();
    assert(i < m.entries.len());
    assert(m.entries[i].data is InMemory);
    assert(es[j].path == m.entries[i].path);
}

/// Saving a container that `round_trip_ready` admits and opening the result
/// gives back its revision, type, flags, subheader, dependencies, notes and
/// settings, and as many entries, at distinct paths, as it had: each entry
/// of one side has an entry with the same path and bytes on the other. The
/// entries are the same up to order.
pub proof fn save_then_open(m: PackModel, now: i64)
    requires
        round_trip_ready(m, now),
    ensures
        parse_pack(m.path, saved_bytes(m, now), None, false) matches Ok(r) && r.version == m.version && r.file_type
            == m.file_type && r.bitmask == m.bitmask && r.subheader == m.subheader && r.deps == m.deps && r.notes
            == m.notes && r.settings == m.settings && (forall|i: int|
            0 <= i < m.entries.len() ==> exists|j: int|
                0 <= j < r.entries.len() && (#[trigger] r.entries[j]).path == (#[trigger] m.entries[i]).path
                    && r.entries[j].data == m.entries[i].data) && (forall|j: int|
            0 <= j < r.entries.len() ==> exists|i: int|
                0 <= i < m.entries.len() && (#[trigger] r.entries[j]).path == (#[trigger] m.entries[i]).path
                    && r.entries[j].data == m.entries[i].data) && r.entries.len() == m.entries.len() && unique_paths(
            r.entries,
        ),
{
    lemma_open_saved(m, now);
    lemma_reopen_notes_of(m, now);
    lemma_reopen_settings_of(m, now);
    let r = parse_pack(m.path, saved_bytes(m, now), None, false)->Ok_0;
    assert(r.entries == reopened_entries(m));
    assert forall|i: int| 0 <= i < m.entries.len() implies exists|j: int|
        0 <= j < r.entries.len() && (#[trigger] r.entries[j]).path == (#[trigger] m.entries[i]).path
            && r.entries[j].data == m.entries[i].data by {
        lemma_saved_entry_back(m, now, i);
    }
    assert forall|j: int| 0 <= j < r.entries.len() implies exists|i: int|
        0 <= i < m.entries.len() && (#[trigger] r.entries[j]).path == (#[trigger] m.entries[i]).path
            && r.entries[j].data == m.entries[i].data by {
        lemma_reopened_entry_saved(m, now, j);
    }
    // Both sides hold the same set of distinct paths, so as many entries.
    let rp = r.entries.map_values(|e: EntryModel| e.path);
    let mp = m.entries.map_values(|e: EntryModel| e.path);
    assert(rp.no_duplicates()) by {
        assert forall|i: int, j: int| 0 <= i < rp.len() && 0 <= j < rp.len() && i != j implies rp[i] != rp[j] by {}
    }
    assert(mp.no_duplicates()) by {
        assert forall|i: int, j: int| 0 <= i < mp.len() && 0 <= j < mp.len() && i != j implies mp[i] != mp[j] by {}
    }
    assert forall|x: Seq<Seq<char>>| rp.contains(x) implies mp.contains(x) by {
        let j = choose|j: int| 0 <= j < rp.len() && rp[j] == x;
        assert(r.entries[j].path == x);
        let i = choose|i: int| 0 <= i < m.entries.len() && (#[trigger] r.entries[j]).path == (#[trigger] m.entries[i]).path
            && r.entries[j].data == m.entries[i].data;
        assert(mp[i] == x);
    }
    assert forall|x: Seq<Seq<char>>| mp.contains(x) implies rp.contains(x) by {
        let i = choose|i: int| 0 <= i < mp.len() && mp[i] == x;
        assert(m.entries[i].path == x);
        let j = choose|j: int| 0 <= j < r.entries.len() && (#[trigger] r.entries[j]).path == (#[trigger] m.entries[i]).path
            && r.entries[j].data == m.entries[i].data;
        assert(rp[j] == x);
    }
    assert(rp.to_set() =~= mp.to_set());
    rp.unique_seq_to_set();
    mp.unique_seq_to_set();
}


/// A saved container that keeps the invariant is its header, of exactly its
/// revision's header size, then the dependency index, then the entry index,
/// then the bytes of its entries in on-disk order, and nothing else.
pub proof fn saved_file_layout(m: PackModel, now: i64)
    requires
        model_wf(m),
    ensures
        ({
            let lay = spec_layout(m.version, m.bitmask);
            let items = sort_items(save_items(m));
            let di = encode_deps(m.deps);
            let ri = encode_records(items, lay);
            let b = saved_bytes(m, now);
            let hs = lay.header_size as int;
            &&& b.len() == hs + di.len() + ri.len() + concat_data(items).len()
            &&& b.subrange(hs, hs + di.len()) == di
            &&& b.subrange(hs + di.len(), hs + di.len() + ri.len()) == ri
            &&& b.subrange(hs + di.len() + ri.len(), b.len() as int) == concat_data(items)
        }),
{
    lemma_saved_parts(m, now);
    let lay = spec_layout(m.version, m.bitmask);
    let items = sort_items(save_items(m));
    let di = encode_deps(m.deps);
    let ri = encode_records(items, lay);
    let h0 = encode_header_start(m, di.len() as int, items.len() as int, ri.len() as int);
    let ts = encode_timestamp(lay.header_timestamp, now);
    let head = h0 + ts + m.subheader;
    let b = saved_bytes(m, now);
    let hs = lay.header_size as int;
    assert(head.len() == hs);
    assert(b =~= head + di + ri + concat_data(items));
    assert(b.subrange(hs, hs + di.len()) =~= di);
    assert(b.subrange(hs + di.len(), hs + di.len() + ri.len()) =~= ri);
    assert(b.subrange(hs + di.len() + ri.len(), b.len() as int) =~= concat_data(items));
}

} // verus!
