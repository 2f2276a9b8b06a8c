//! Writing index records, timestamps and indexes into byte buffers.

use vstd::prelude::*;

use crate::codec::{encode_integer_i64, encode_integer_u32, encode_packedfile_string_u8_0terminated};
use crate::format::{Item, encode_deps, encode_record, encode_timestamp};
use crate::version::{Layout, SEC_TO_UNIX_EPOCH, TimestampField, WINDOWS_TICK, timestamp_fits};

verus! {

/// One entry as saving writes it.
pub struct SaveItem {
    pub path: String,
    pub timestamp: i64,
    pub compressed: bool,
    pub data: Vec<u8>,
}

impl SaveItem {
    pub open spec fn view(&self) -> Item {
        Item { path: self.path@, timestamp: self.timestamp, compressed: self.compressed, data: self.data@ }
    }
}

/// Appends timestamp `t` in the form `f`.
pub fn write_timestamp(buf: &mut Vec<u8>, f: TimestampField, t: i64)
    requires
        timestamp_fits(f, t),
    ensures
        final(buf)@ == old(buf)@ + encode_timestamp(f, t),
{
    match f {
        TimestampField::Absent => {
            assert(buf@ =~= old(buf)@ + encode_timestamp(f, t));
        },
        TimestampField::Ticks => {
            let s = t + SEC_TO_UNIX_EPOCH;
            assert(-9_223_372_036_850_000_000 <= s * 10_000_000 <= 9_223_372_036_850_000_000) by (nonlinear_arith)
                requires -922_337_203_685 <= s <= 922_337_203_685;
            let v: i64 = s * WINDOWS_TICK;
            encode_integer_i64(buf, v);
        },
        TimestampField::Seconds => {
            encode_integer_u32(buf, t as u32);
        },
    }
}

/// Appends the index record of `it`.
pub fn write_record(buf: &mut Vec<u8>, it: &SaveItem, lay: Layout)
    requires
        it.data@.len() <= u32::MAX,
        timestamp_fits(lay.entry_timestamp, it.timestamp),
    ensures
        final(buf)@ == old(buf)@ + encode_record(it@, lay),
{
    encode_integer_u32(buf, it.data.len() as u32);
    write_timestamp(buf, lay.entry_timestamp, it.timestamp);
    let ghost mid = buf@;
    if lay.compression_marker {
        buf.push(if it.compressed { 1u8 } else { 0u8 });
    }
    encode_packedfile_string_u8_0terminated(buf, it.path.as_str());
    assert(buf@ =~= old(buf)@ + encode_record(it@, lay));
}

/// The dependency index of `deps`.
pub fn write_deps(deps: &Vec<String>) -> (r: Vec<u8>)
    ensures
        r@ == encode_deps(deps.deep_view()),
{
    let ghost dv = deps.deep_view();
    let mut out: Vec<u8> = Vec::new();
    let mut i: usize = 0;
    assert(dv.subrange(0, 0) =~= Seq::<Seq<char>>::empty());
    while i < deps.len()
        invariant
            dv == deps.deep_view(),
            i <= deps@.len(),
            out@ == encode_deps(dv.subrange(0, i as int)),
        decreases deps@.len() - i,
    {
        encode_packedfile_string_u8_0terminated(&mut out, deps[i].as_str());
        assert(dv.subrange(0, i + 1).drop_last() =~= dv.subrange(0, i as int));
        i = i + 1;
    }
    assert(dv.subrange(0, i as int) =~= dv);
    out
}

} // verus!
