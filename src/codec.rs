//! Fixed-width little-endian integers and UTF-8 strings, read from and written
//! to byte buffers at given offsets.

use vstd::prelude::*;
use vstd::bytes::*;
use vstd::slice::{slice_subrange, slice_to_vec};
use vstd::utf8::*;
use vstd::string::*;

use crate::error::{Error, ErrorKind, err};

verus! {

/// The bytes from `offset` to the first NUL at or after it, as text, and the
/// offset just past that NUL.
pub open spec fn cstr_end(data: Seq<u8>, from: int) -> Option<int>
    decreases data.len() - from,
{
    if from < 0 || from >= data.len() {
        None
    } else if data[from] == 0 {
        Some(from)
    } else {
        cstr_end(data, from + 1)
    }
}

/// What reading a NUL-terminated UTF-8 string at `offset` yields: the text and
/// the offset after the terminator.
pub open spec fn spec_cstr(data: Seq<u8>, offset: int) -> Result<(Seq<char>, int), ErrorKind> {
    match cstr_end(data, offset) {
        None => Err(ErrorKind::NotEnoughBytesToDecode),
        Some(j) => {
            let b = data.subrange(offset, j);
            if valid_utf8(b) {
                Ok((decode_utf8(b), j + 1))
            } else {
                Err(ErrorKind::StringFromUTF8)
            }
        },
    }
}

/// No byte of `s` is NUL.
pub open spec fn nul_free(s: Seq<u8>) -> bool {
    forall|i: int| 0 <= i < s.len() ==> s[i] != 0
}

/// Relies on `String::from_utf8`: it succeeds exactly on valid UTF-8, and then
/// holds the text that the bytes encode.
#[verifier::external_body]
fn string_from_utf8(bytes: Vec<u8>) -> (r: Option<String>)
    ensures
        r is Some <==> valid_utf8(bytes@),
        r matches Some(s) ==> s@ == decode_utf8(bytes@),
{
    String::from_utf8(bytes).ok()
}

/// Reads a little-endian `u16` at `offset`.
pub fn decode_integer_u16(data: &[u8], offset: usize) -> (r: Result<u16, Error>)
    ensures
        offset + 2 <= data@.len() ==> r == Ok::<u16, Error>(
            spec_u16_from_le_bytes(data@.subrange(offset as int, offset + 2)),
        ),
        offset + 2 > data@.len() ==> r == Err::<u16, Error>(err(ErrorKind::NotEnoughBytesToDecode)),
{
    if offset > data.len() || data.len() - offset < 2 {
        return Err(Error::new(ErrorKind::NotEnoughBytesToDecode));
    }
    Ok(u16_from_le_bytes(slice_subrange(data, offset, offset + 2)))
}

/// Reads a little-endian `u32` at `offset`.
pub fn decode_integer_u32(data: &[u8], offset: usize) -> (r: Result<u32, Error>)
    ensures
        offset + 4 <= data@.len() ==> r == Ok::<u32, Error>(
            spec_u32_from_le_bytes(data@.subrange(offset as int, offset + 4)),
        ),
        offset + 4 > data@.len() ==> r == Err::<u32, Error>(err(ErrorKind::NotEnoughBytesToDecode)),
{
    if offset > data.len() || data.len() - offset < 4 {
        return Err(Error::new(ErrorKind::NotEnoughBytesToDecode));
    }
    Ok(u32_from_le_bytes(slice_subrange(data, offset, offset + 4)))
}

/// Reads a little-endian `u64` at `offset`.
pub fn decode_integer_u64(data: &[u8], offset: usize) -> (r: Result<u64, Error>)
    ensures
        offset + 8 <= data@.len() ==> r == Ok::<u64, Error>(
            spec_u64_from_le_bytes(data@.subrange(offset as int, offset + 8)),
        ),
        offset + 8 > data@.len() ==> r == Err::<u64, Error>(err(ErrorKind::NotEnoughBytesToDecode)),
{
    if offset > data.len() || data.len() - offset < 8 {
        return Err(Error::new(ErrorKind::NotEnoughBytesToDecode));
    }
    Ok(u64_from_le_bytes(slice_subrange(data, offset, offset + 8)))
}

/// Reads a little-endian two's-complement `i64` at `offset`.
pub fn decode_integer_i64(data: &[u8], offset: usize) -> (r: Result<i64, Error>)
    ensures
        offset + 8 <= data@.len() ==> r == Ok::<i64, Error>(
            spec_u64_from_le_bytes(data@.subrange(offset as int, offset + 8)) as i64,
        ),
        offset + 8 > data@.len() ==> r == Err::<i64, Error>(err(ErrorKind::NotEnoughBytesToDecode)),
{
    let v = decode_integer_u64(data, offset)?;
    Ok(v as i64)
}

/// Appends `x` in two little-endian bytes.
pub fn encode_integer_u16(buf: &mut Vec<u8>, x: u16)
    ensures
        final(buf)@ == old(buf)@ + spec_u16_to_le_bytes(x),
{
    let mut b = u16_to_le_bytes(x);
    buf.append(&mut b);
}

/// Appends `x` in four little-endian bytes.
pub fn encode_integer_u32(buf: &mut Vec<u8>, x: u32)
    ensures
        final(buf)@ == old(buf)@ + spec_u32_to_le_bytes(x),
{
    let mut b = u32_to_le_bytes(x);
    buf.append(&mut b);
}

/// Appends `x` in eight little-endian bytes.
pub fn encode_integer_u64(buf: &mut Vec<u8>, x: u64)
    ensures
        final(buf)@ == old(buf)@ + spec_u64_to_le_bytes(x),
{
    let mut b = u64_to_le_bytes(x);
    buf.append(&mut b);
}

/// Appends `x` in eight little-endian two's-complement bytes.
pub fn encode_integer_i64(buf: &mut Vec<u8>, x: i64)
    ensures
        final(buf)@ == old(buf)@ + spec_u64_to_le_bytes(x as u64),
{
    encode_integer_u64(buf, x as u64);
}

/// Reads `len` bytes at `offset` as UTF-8 text.
pub fn decode_string_u8(data: &[u8], offset: usize, len: usize) -> (r: Result<String, Error>)
    ensures
        offset + len > data@.len() ==> r == Err::<String, Error>(err(ErrorKind::NotEnoughBytesToDecode)),
        offset + len <= data@.len() ==> {
            let b = data@.subrange(offset as int, offset + len);
            &&& valid_utf8(b) ==> (r matches Ok(s) && s@ == decode_utf8(b))
            &&& !valid_utf8(b) ==> r == Err::<String, Error>(err(ErrorKind::StringFromUTF8))
        },
{
    if offset > data.len() || data.len() - offset < len {
        return Err(Error::new(ErrorKind::NotEnoughBytesToDecode));
    }
    let bytes = slice_to_vec(slice_subrange(data, offset, offset + len));
    match string_from_utf8(bytes) {
        Some(s) => Ok(s),
        None => Err(Error::new(ErrorKind::StringFromUTF8)),
    }
}

/// Reads the NUL-terminated UTF-8 string that starts at `offset`, and returns
/// it with the offset just past its terminator.
pub fn decode_packedfile_string_u8_0terminated(data: &[u8], offset: usize) -> (r: Result<(String, usize), Error>)
    ensures
        match spec_cstr(data@, offset as int) {
            Ok((s, next)) => r matches Ok((t, n)) && t@ == s && n == next,
            Err(k) => r == Err::<(String, usize), Error>(err(k)),
        },
{
    let mut j: usize = offset;
    if j >= data.len() {
        return Err(Error::new(ErrorKind::NotEnoughBytesToDecode));
    }
    while j < data.len() && data[j] != 0
        invariant
            offset <= j <= data@.len(),
            cstr_end(data@, offset as int) == cstr_end(data@, j as int),
        decreases data@.len() - j,
    {
        j = j + 1;
    }
    if j == data.len() {
        return Err(Error::new(ErrorKind::NotEnoughBytesToDecode));
    }
    let s = decode_string_u8(data, offset, j - offset)?;
    Ok((s, j + 1))
}

/// Appends the UTF-8 bytes of `s`, with no terminator.
pub fn encode_string_u8(buf: &mut Vec<u8>, s: &str)
    ensures
        final(buf)@ == old(buf)@ + encode_utf8(s@),
{
    buf.extend_from_slice(s.as_bytes());
    assert(buf@ =~= old(buf)@ + encode_utf8(s@));
}

/// Appends the UTF-8 bytes of `s` and a NUL terminator.
pub fn encode_packedfile_string_u8_0terminated(buf: &mut Vec<u8>, s: &str)
    ensures
        final(buf)@ == old(buf)@ + encode_utf8(s@) + seq![0u8],
{
    encode_string_u8(buf, s);
    buf.push(0);
}


/// Reads the byte at `offset`.
pub fn decode_integer_u8(data: &[u8], offset: usize) -> (r: Result<u8, Error>)
    ensures
        offset < data@.len() ==> r == Ok::<u8, Error>(data@[offset as int]),
        offset >= data@.len() ==> r == Err::<u8, Error>(err(ErrorKind::NotEnoughBytesToDecode)),
{
    if offset >= data.len() {
        return Err(Error::new(ErrorKind::NotEnoughBytesToDecode));
    }
    Ok(data[offset])
}

/// Reads the two's-complement byte at `offset`.
pub fn decode_integer_i8(data: &[u8], offset: usize) -> (r: Result<i8, Error>)
    ensures
        offset < data@.len() ==> r == Ok::<i8, Error>(data@[offset as int] as i8),
        offset >= data@.len() ==> r == Err::<i8, Error>(err(ErrorKind::NotEnoughBytesToDecode)),
{
    let v = decode_integer_u8(data, offset)?;
    Ok(v as i8)
}

/// Reads a little-endian two's-complement `i16` at `offset`.
pub fn decode_integer_i16(data: &[u8], offset: usize) -> (r: Result<i16, Error>)
    ensures
        offset + 2 <= data@.len() ==> r == Ok::<i16, Error>(
            spec_u16_from_le_bytes(data@.subrange(offset as int, offset + 2)) as i16,
        ),
        offset + 2 > data@.len() ==> r == Err::<i16, Error>(err(ErrorKind::NotEnoughBytesToDecode)),
{
    let v = decode_integer_u16(data, offset)?;
    Ok(v as i16)
}

/// Reads a little-endian two's-complement `i32` at `offset`.
pub fn decode_integer_i32(data: &[u8], offset: usize) -> (r: Result<i32, Error>)
    ensures
        offset + 4 <= data@.len() ==> r == Ok::<i32, Error>(
            spec_u32_from_le_bytes(data@.subrange(offset as int, offset + 4)) as i32,
        ),
        offset + 4 > data@.len() ==> r == Err::<i32, Error>(err(ErrorKind::NotEnoughBytesToDecode)),
{
    let v = decode_integer_u32(data, offset)?;
    Ok(v as i32)
}

/// Appends the byte `x`.
pub fn encode_integer_u8(buf: &mut Vec<u8>, x: u8)
    ensures
        final(buf)@ == old(buf)@.push(x),
{
    buf.push(x);
}

/// Appends `x` as one two's-complement byte.
pub fn encode_integer_i8(buf: &mut Vec<u8>, x: i8)
    ensures
        final(buf)@ == old(buf)@.push(x as u8),
{
    buf.push(x as u8);
}

/// Appends `x` in two little-endian two's-complement bytes.
pub fn encode_integer_i16(buf: &mut Vec<u8>, x: i16)
    ensures
        final(buf)@ == old(buf)@ + spec_u16_to_le_bytes(x as u16),
{
    encode_integer_u16(buf, x as u16);
}

/// Appends `x` in four little-endian two's-complement bytes.
pub fn encode_integer_i32(buf: &mut Vec<u8>, x: i32)
    ensures
        final(buf)@ == old(buf)@ + spec_u32_to_le_bytes(x as u32),
{
    encode_integer_u32(buf, x as u32);
}

/// Writing an integer and reading it back at the same offset gives the integer.
pub proof fn integer_round_trip(pre: Seq<u8>, x16: u16, x32: u32, x64: u64, post: Seq<u8>)
    ensures
        spec_u16_from_le_bytes((pre + spec_u16_to_le_bytes(x16) + post).subrange(pre.len() as int, (pre.len() + 2) as int)) == x16,
        spec_u32_from_le_bytes((pre + spec_u32_to_le_bytes(x32) + post).subrange(pre.len() as int, (pre.len() + 4) as int)) == x32,
        spec_u64_from_le_bytes((pre + spec_u64_to_le_bytes(x64) + post).subrange(pre.len() as int, (pre.len() + 8) as int)) == x64,
{
    lemma_auto_spec_u16_to_from_le_bytes();
    lemma_auto_spec_u32_to_from_le_bytes();
    lemma_auto_spec_u64_to_from_le_bytes();
    assert((pre + spec_u16_to_le_bytes(x16) + post).subrange(pre.len() as int, (pre.len() + 2) as int) =~= spec_u16_to_le_bytes(x16));
    assert((pre + spec_u32_to_le_bytes(x32) + post).subrange(pre.len() as int, (pre.len() + 4) as int) =~= spec_u32_to_le_bytes(x32));
    assert((pre + spec_u64_to_le_bytes(x64) + post).subrange(pre.len() as int, (pre.len() + 8) as int) =~= spec_u64_to_le_bytes(x64));
}

/// The text that UTF-16 code units encode, if they are valid UTF-16.
pub uninterp spec fn utf16_text(units: Seq<u16>) -> Option<Seq<char>>;

/// The UTF-16 code units of a text.
pub uninterp spec fn utf16_units(s: Seq<char>) -> Seq<u16>;

/// Relies on `String::from_utf16`: it succeeds exactly on valid UTF-16, and
/// the text depends on the code units alone.
#[verifier::external_body]
fn string_from_utf16(units: &[u16]) -> (r: Option<String>)
    ensures
        r is Some <==> utf16_text(units@) is Some,
        r matches Some(s) ==> utf16_text(units@) == Some(s@),
{
    String::from_utf16(units).ok()
}

/// Relies on `str::encode_utf16`: the code units depend on the text alone.
#[verifier::external_body]
fn utf16_units_of(s: &str) -> (r: Vec<u16>)
    ensures
        r@ == utf16_units(s@),
{
    s.encode_utf16().collect()
}

/// The `n` little-endian code units that start at `pos`.
pub open spec fn units_at(data: Seq<u8>, pos: int, n: nat) -> Seq<u16> {
    Seq::new(n, |i: int| spec_u16_from_le_bytes(data.subrange(pos + 2 * i, pos + 2 * i + 2)))
}

/// Reads a UTF-16 string prefixed by its length in code units (a `u16`) at
/// `offset`, and returns it with the offset just past it.
pub fn decode_packedfile_string_u16(data: &[u8], offset: usize) -> (r: Result<(String, usize), Error>)
    ensures
        offset + 2 > data@.len() ==> r == Err::<(String, usize), Error>(err(ErrorKind::NotEnoughBytesToDecode)),
        offset + 2 <= data@.len() ==> ({
            let n = spec_u16_from_le_bytes(data@.subrange(offset as int, offset + 2)) as nat;
            let end = offset + 2 + 2 * n;
            &&& end > data@.len() ==> r == Err::<(String, usize), Error>(err(ErrorKind::NotEnoughBytesToDecode))
            &&& end <= data@.len() ==> match utf16_text(units_at(data@, offset + 2, n)) {
                None => r == Err::<(String, usize), Error>(err(ErrorKind::StringFromUTF16)),
                Some(t) => r matches Ok((s, next)) && s@ == t && next == end,
            }
        }),
{
    if offset > data.len() || data.len() - offset < 2 {
        return Err(Error::new(ErrorKind::NotEnoughBytesToDecode));
    }
    let n = decode_integer_u16(data, offset)? as usize;
    let start = offset + 2;
    let dl = data.len();
    if data.len() - start < 2 * n {
        return Err(Error::new(ErrorKind::NotEnoughBytesToDecode));
    }
    let ghost target = units_at(data@, start as int, n as nat);
    let mut units: Vec<u16> = Vec::new();
    let mut i: usize = 0;
    while i < n
        invariant
            dl == data@.len(),
            n <= 0xFFFF,
            start + 2 * n <= data@.len(),
            target == units_at(data@, start as int, n as nat),
            i <= n,
            units@ == target.subrange(0, i as int),
        decreases n - i,
    {
        let u = u16_from_le_bytes(slice_subrange(data, start + 2 * i, start + 2 * i + 2));
        units.push(u);
        assert(units@ =~= target.subrange(0, i + 1));
        i = i + 1;
    }
    assert(units@ =~= target);
    match string_from_utf16(units.as_slice()) {
        Some(s) => Ok((s, start + 2 * n)),
        None => Err(Error::new(ErrorKind::StringFromUTF16)),
    }
}

/// The little-endian bytes of each code unit of `units`, in order.
pub open spec fn units_bytes(units: Seq<u16>) -> Seq<u8>
    decreases units.len(),
{
    if units.len() == 0 {
        seq![]
    } else {
        units_bytes(units.drop_last()) + spec_u16_to_le_bytes(units.last())
    }
}

/// Appends `s` as UTF-16 prefixed by its length in code units; fails, writing
/// nothing, where that length does not fit in a `u16`.
pub fn encode_packedfile_string_u16(buf: &mut Vec<u8>, s: &str) -> (r: Result<(), Error>)
    ensures
        utf16_units(s@).len() > u16::MAX ==> r == Err::<(), Error>(err(ErrorKind::StringTooLong)) && final(buf)@
            == old(buf)@,
        utf16_units(s@).len() <= u16::MAX ==> r is Ok && final(buf)@ == old(buf)@ + spec_u16_to_le_bytes(
            utf16_units(s@).len() as u16,
        ) + units_bytes(utf16_units(s@)),
{
    let units = utf16_units_of(s);
    if units.len() > 0xFFFF {
        return Err(Error::new(ErrorKind::StringTooLong));
    }
    encode_integer_u16(buf, units.len() as u16);
    let ghost head = buf@;
    let mut i: usize = 0;
    assert(units@.subrange(0, 0) =~= Seq::<u16>::empty());
    assert(buf@ =~= head + units_bytes(units@.subrange(0, 0)));
    while i < units.len()
        invariant
            i <= units@.len(),
            buf@ == head + units_bytes(units@.subrange(0, i as int)),
        decreases units@.len() - i,
    {
        encode_integer_u16(buf, units[i]);
        assert(units@.subrange(0, i + 1).drop_last() =~= units@.subrange(0, i as int));
        assert(buf@ =~= head + units_bytes(units@.subrange(0, i + 1)));
        i = i + 1;
    }
    assert(units@.subrange(0, i as int) =~= units@);
    Ok(())
}

/// The uppercase hexadecimal digit for `d`, below 16.
pub open spec fn hex_digit(d: nat) -> char {
    if d == 0 {
        '0'
    } else if d == 1 {
        '1'
    } else if d == 2 {
        '2'
    } else if d == 3 {
        '3'
    } else if d == 4 {
        '4'
    } else if d == 5 {
        '5'
    } else if d == 6 {
        '6'
    } else if d == 7 {
        '7'
    } else if d == 8 {
        '8'
    } else if d == 9 {
        '9'
    } else if d == 10 {
        'A'
    } else if d == 11 {
        'B'
    } else if d == 12 {
        'C'
    } else if d == 13 {
        'D'
    } else if d == 14 {
        'E'
    } else {
        'F'
    }
}

/// The value of a hexadecimal digit, in either case.
pub open spec fn hex_value(c: char) -> Option<nat> {
    if '0' <= c && c <= '9' {
        Some((c as u32 - '0' as u32) as nat)
    } else if 'a' <= c && c <= 'f' {
        Some((c as u32 - 'a' as u32 + 10) as nat)
    } else if 'A' <= c && c <= 'F' {
        Some((c as u32 - 'A' as u32 + 10) as nat)
    } else {
        None
    }
}

/// The last `n` hexadecimal digits of `v`, uppercase.
pub open spec fn hex_of(v: nat, n: nat) -> Seq<char>
    decreases n,
{
    if n == 0 {
        seq![]
    } else {
        hex_of(v / 16, (n - 1) as nat).push(hex_digit(v % 16))
    }
}

/// The value of a string of hexadecimal digits, if it is one.
pub open spec fn parse_hex(s: Seq<char>) -> Option<nat>
    decreases s.len(),
{
    if s.len() == 0 {
        Some(0)
    } else {
        match (parse_hex(s.drop_last()), hex_value(s.last())) {
            (Some(a), Some(d)) => Some(a * 16 + d),
            _ => None,
        }
    }
}

fn hex_digit_str(d: u32) -> (r: &'static str)
    requires
        d < 16,
    ensures
        r@ == seq![hex_digit(d as nat)],
{
    proof {
        reveal_strlit("0");
        reveal_strlit("1");
        reveal_strlit("2");
        reveal_strlit("3");
        reveal_strlit("4");
        reveal_strlit("5");
        reveal_strlit("6");
        reveal_strlit("7");
        reveal_strlit("8");
        reveal_strlit("9");
        reveal_strlit("A");
        reveal_strlit("B");
        reveal_strlit("C");
        reveal_strlit("D");
        reveal_strlit("E");
        reveal_strlit("F");
    }
    if d == 0 {
        "0"
    } else if d == 1 {
        "1"
    } else if d == 2 {
        "2"
    } else if d == 3 {
        "3"
    } else if d == 4 {
        "4"
    } else if d == 5 {
        "5"
    } else if d == 6 {
        "6"
    } else if d == 7 {
        "7"
    } else if d == 8 {
        "8"
    } else if d == 9 {
        "9"
    } else if d == 10 {
        "A"
    } else if d == 11 {
        "B"
    } else if d == 12 {
        "C"
    } else if d == 13 {
        "D"
    } else if d == 14 {
        "E"
    } else {
        "F"
    }
}

/// The last `n` hexadecimal digits of `v`, uppercase.
fn hex_string(v: u32, n: usize) -> (r: String)
    ensures
        r@ == hex_of(v as nat, n as nat),
    decreases n,
{
    if n == 0 {
        String::new()
    } else {
        let mut s = hex_string(v / 16, n - 1);
        s.append(hex_digit_str(v % 16));
        s
    }
}

/// Reads an RGB colour stored as a little-endian `u32` at `offset`, as six
/// uppercase hexadecimal digits.
pub fn decode_packedfile_colour_rgb(data: &[u8], offset: usize) -> (r: Result<String, Error>)
    ensures
        offset + 4 <= data@.len() ==> (r matches Ok(s) && s@ == hex_of(
            spec_u32_from_le_bytes(data@.subrange(offset as int, offset + 4)) as nat,
            6,
        )),
        offset + 4 > data@.len() ==> r == Err::<String, Error>(err(ErrorKind::NotEnoughBytesToDecode)),
{
    let v = decode_integer_u32(data, offset)?;
    Ok(hex_string(v, 6))
}

/// Appends the colour written as the six hexadecimal digits `s`, as a
/// little-endian `u32`; fails, writing nothing, where `s` is not six
/// hexadecimal digits.
pub fn encode_packedfile_colour_rgb(buf: &mut Vec<u8>, s: &str) -> (r: Result<(), Error>)
    ensures
        s@.len() == 6 && parse_hex(s@) is Some ==> r is Ok && final(buf)@ == old(buf)@ + spec_u32_to_le_bytes(
            parse_hex(s@)->Some_0 as u32,
        ),
        !(s@.len() == 6 && parse_hex(s@) is Some) ==> r == Err::<(), Error>(err(ErrorKind::InvalidColour))
            && final(buf)@ == old(buf)@,
{
    let n = s.unicode_len();
    if n != 6 {
        return Err(Error::new(ErrorKind::InvalidColour));
    }
    let mut v: u32 = 0;
    let mut i: usize = 0;
    assert(s@.subrange(0, 0) =~= Seq::<char>::empty());
    while i < 6
        invariant
            n == 6,
            s@.len() == 6,
            i <= 6,
            parse_hex(s@.subrange(0, i as int)) == Some(v as nat),
            v < pow16(i as nat),
        decreases 6 - i,
    {
        let c = s.get_char(i);
        assert(s@.subrange(0, i + 1).drop_last() =~= s@.subrange(0, i as int));
        assert(s@.subrange(0, i + 1).last() == c);
        let d: u32 = if '0' <= c && c <= '9' {
            (c as u32) - ('0' as u32)
        } else if 'a' <= c && c <= 'f' {
            (c as u32) - ('a' as u32) + 10
        } else if 'A' <= c && c <= 'F' {
            (c as u32) - ('A' as u32) + 10
        } else {
            proof {
                lemma_parse_hex_none(s@, i + 1);
            }
            return Err(Error::new(ErrorKind::InvalidColour));
        };
        proof {
            lemma_pow16_step(i as nat);
            assert(v * 16 + d < pow16((i + 1) as nat)) by (nonlinear_arith)
                requires v < pow16(i as nat), d < 16, pow16((i + 1) as nat) == 16 * pow16(i as nat);
            assert(pow16((i + 1) as nat) <= 0x100_0000) by {
                lemma_pow16_step(0);
                lemma_pow16_step(1);
                lemma_pow16_step(2);
                lemma_pow16_step(3);
                lemma_pow16_step(4);
                lemma_pow16_step(5);
            }
        }
        v = v * 16 + d;
        i = i + 1;
    }
    assert(s@.subrange(0, 6) =~= s@);
    encode_integer_u32(buf, v);
    Ok(())
}

/// `16` to the power `n`.
pub open spec fn pow16(n: nat) -> nat
    decreases n,
{
    if n == 0 {
        1
    } else {
        16 * pow16((n - 1) as nat)
    }
}

proof fn lemma_pow16_step(n: nat)
    ensures
        pow16(n + 1) == 16 * pow16(n),
        pow16(n) >= 1,
    decreases n,
{
    if n > 0 {
        lemma_pow16_step((n - 1) as nat);
    }
}

proof fn lemma_parse_hex_none(s: Seq<char>, k: int)
    requires
        1 <= k <= s.len(),
        hex_value(s[k - 1]) is None,
    ensures
        parse_hex(s) is None,
    decreases s.len(),
{
    if k < s.len() {
        lemma_parse_hex_none(s.drop_last(), k);
    }
}

/// Writing a colour's six digits back gives its low 24 bits: parsing the
/// digits that `hex_of` writes gives the value they stand for.
pub proof fn colour_round_trip(v: nat, n: nat)
    ensures
        parse_hex(hex_of(v, n)) == Some(v % pow16(n)),
    decreases n,
{
    if n > 0 {
        colour_round_trip(v / 16, (n - 1) as nat);
        lemma_pow16_step((n - 1) as nat);
        let d = v % 16;
        assert(hex_value(hex_digit(d)) == Some(d));
        vstd::arithmetic::div_mod::lemma_mod_breakdown(v as int, 16, pow16((n - 1) as nat) as int);
        assert(hex_of(v, n).drop_last() == hex_of(v / 16, (n - 1) as nat));
    } else {
        assert(v % 1 == 0);
    }
}

} // verus!
