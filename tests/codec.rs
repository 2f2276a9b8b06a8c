use rpfm_packfile::codec::{
    decode_integer_i16, decode_integer_i32, decode_integer_i8, decode_integer_u8, encode_integer_i16,
    encode_integer_i32, encode_integer_i8, encode_integer_u8, decode_packedfile_string_u16, encode_packedfile_string_u16,
    decode_packedfile_colour_rgb, encode_packedfile_colour_rgb,
    decode_integer_i64, decode_integer_u16, decode_integer_u32, decode_integer_u64,
    decode_packedfile_string_u8_0terminated, decode_string_u8, encode_integer_i64, encode_integer_u16,
    encode_integer_u32, encode_integer_u64, encode_packedfile_string_u8_0terminated, encode_string_u8,
};
use rpfm_packfile::entry::{join_segments, split_segments, str_ends_with};
use rpfm_packfile::error::ErrorKind;
use rpfm_packfile::sort::{lex_le_bytes, path_sort_key, sorted_order};

#[test]
fn integers_round_trip() {
    let mut buf = Vec::new();
    encode_integer_u16(&mut buf, 0xbeef);
    encode_integer_u32(&mut buf, 0xdead_beef);
    encode_integer_u64(&mut buf, 0x0102_0304_0506_0708);
    encode_integer_i64(&mut buf, -2);
    assert_eq!(&buf[0..2], &[0xef, 0xbe]);
    assert_eq!(&buf[2..6], &[0xef, 0xbe, 0xad, 0xde]);
    assert_eq!(decode_integer_u16(&buf, 0).unwrap(), 0xbeef);
    assert_eq!(decode_integer_u32(&buf, 2).unwrap(), 0xdead_beef);
    assert_eq!(decode_integer_u64(&buf, 6).unwrap(), 0x0102_0304_0506_0708);
    assert_eq!(decode_integer_i64(&buf, 14).unwrap(), -2);
}

#[test]
fn reads_past_the_end_fail() {
    let buf = [1u8, 2, 3];
    assert_eq!(*decode_integer_u32(&buf, 0).unwrap_err().kind(), ErrorKind::NotEnoughBytesToDecode);
    assert_eq!(*decode_integer_u16(&buf, 2).unwrap_err().kind(), ErrorKind::NotEnoughBytesToDecode);
    assert_eq!(*decode_integer_u64(&buf, 0).unwrap_err().kind(), ErrorKind::NotEnoughBytesToDecode);
    assert_eq!(*decode_integer_u16(&buf, usize::MAX).unwrap_err().kind(), ErrorKind::NotEnoughBytesToDecode);
    assert_eq!(*decode_string_u8(&buf, 2, 2).unwrap_err().kind(), ErrorKind::NotEnoughBytesToDecode);
}

#[test]
fn strings_round_trip() {
    let mut buf = Vec::new();
    encode_packedfile_string_u8_0terminated(&mut buf, "héllo");
    encode_string_u8(&mut buf, "tail");
    let (s, next) = decode_packedfile_string_u8_0terminated(&buf, 0).unwrap();
    assert_eq!(s, "héllo");
    assert_eq!(next, 7);
    assert_eq!(decode_string_u8(&buf, next, 4).unwrap(), "tail");
    let err = decode_packedfile_string_u8_0terminated(&buf, next).unwrap_err();
    assert_eq!(*err.kind(), ErrorKind::NotEnoughBytesToDecode);
    let bad = [0xc3u8, 0x28, 0];
    let err = decode_packedfile_string_u8_0terminated(&bad, 0).unwrap_err();
    assert_eq!(*err.kind(), ErrorKind::StringFromUTF8);
    assert_eq!(*decode_string_u8(&bad, 0, 2).unwrap_err().kind(), ErrorKind::StringFromUTF8);
}

#[test]
fn paths_split_and_join() {
    assert_eq!(split_segments("db\\units_tables\\data"), vec!["db", "units_tables", "data"]);
    assert_eq!(split_segments("one"), vec!["one"]);
    assert_eq!(split_segments(""), vec![""]);
    assert_eq!(split_segments("a\\\\b\\"), vec!["a", "", "b", ""]);
    let p = vec!["x".to_string(), "y".to_string(), "z.txt".to_string()];
    assert_eq!(join_segments(&p), "x\\y\\z.txt");
    assert!(str_ends_with("file.loc", ".loc"));
    assert!(!str_ends_with("loc", ".loc"));
}

#[test]
fn sort_keys_ignore_case() {
    assert_eq!(path_sort_key("AbC\\Dé"), "abc\\dé".as_bytes().to_vec());
    assert!(lex_le_bytes(&b"aa".to_vec(), &b"ab".to_vec()));
    assert!(lex_le_bytes(&b"a".to_vec(), &b"ab".to_vec()));
    assert!(!lex_le_bytes(&b"b".to_vec(), &b"ab".to_vec()));
    assert!(lex_le_bytes(&b"".to_vec(), &b"".to_vec()));
    let keys = vec![path_sort_key("ac"), path_sort_key("Ab"), path_sort_key("aa")];
    assert_eq!(sorted_order(&keys), vec![2, 1, 0]);
    let ties = vec![b"b".to_vec(), b"a".to_vec(), b"b".to_vec(), b"a".to_vec()];
    assert_eq!(sorted_order(&ties), vec![1, 3, 0, 2]);
}

#[test]
fn small_and_signed_integers() {
    let mut buf = Vec::new();
    encode_integer_u8(&mut buf, 200);
    encode_integer_i8(&mut buf, -3);
    encode_integer_i16(&mut buf, -300);
    encode_integer_i32(&mut buf, -70000);
    assert_eq!(buf.len(), 8);
    assert_eq!(decode_integer_u8(&buf, 0).unwrap(), 200);
    assert_eq!(decode_integer_i8(&buf, 1).unwrap(), -3);
    assert_eq!(decode_integer_i16(&buf, 2).unwrap(), -300);
    assert_eq!(decode_integer_i32(&buf, 4).unwrap(), -70000);
    assert_eq!(*decode_integer_u8(&buf, 8).unwrap_err().kind(), ErrorKind::NotEnoughBytesToDecode);
    assert_eq!(*decode_integer_i32(&buf, 5).unwrap_err().kind(), ErrorKind::NotEnoughBytesToDecode);
}

#[test]
fn utf16_strings() {
    let mut buf = Vec::new();
    encode_packedfile_string_u16(&mut buf, "Añ𝄞").unwrap();
    // 'A', 'ñ', and a surrogate pair: four code units.
    assert_eq!(&buf[0..2], &[4, 0]);
    assert_eq!(&buf[2..4], &[0x41, 0]);
    assert_eq!(buf.len(), 2 + 8);
    let (s, next) = decode_packedfile_string_u16(&buf, 0).unwrap();
    assert_eq!(s, "Añ𝄞");
    assert_eq!(next, 10);
    let err = decode_packedfile_string_u16(&buf[..9], 0).unwrap_err();
    assert_eq!(*err.kind(), ErrorKind::NotEnoughBytesToDecode);
    let lone = [1u8, 0, 0x00, 0xd8];
    let err = decode_packedfile_string_u16(&lone, 0).unwrap_err();
    assert_eq!(*err.kind(), ErrorKind::StringFromUTF16);
    let long = "x".repeat(70000);
    let mut out = vec![9u8];
    let err = encode_packedfile_string_u16(&mut out, &long).unwrap_err();
    assert_eq!(*err.kind(), ErrorKind::StringTooLong);
    assert_eq!(out, vec![9u8]);
}

#[test]
fn rgb_colours() {
    let mut buf = Vec::new();
    encode_packedfile_colour_rgb(&mut buf, "ff8000").unwrap();
    assert_eq!(buf, vec![0x00, 0x80, 0xff, 0x00]);
    assert_eq!(decode_packedfile_colour_rgb(&buf, 0).unwrap(), "FF8000");
    let high = [0x01u8, 0x02, 0x03, 0xff];
    assert_eq!(decode_packedfile_colour_rgb(&high, 0).unwrap(), "030201");
    for bad in ["ff800", "ff80000", "gg0000", ""] {
        let mut out = Vec::new();
        let err = encode_packedfile_colour_rgb(&mut out, bad).unwrap_err();
        assert_eq!(*err.kind(), ErrorKind::InvalidColour);
        assert!(out.is_empty());
    }
    assert_eq!(*decode_packedfile_colour_rgb(&buf, 1).unwrap_err().kind(), ErrorKind::NotEnoughBytesToDecode);
}
