use rpfm_packfile::error::{Error, ErrorKind, to_decimal};

#[test]
fn terminal_message_drops_markup() {
    let e = Error::new(ErrorKind::PackFileHeaderNotComplete);
    assert_eq!(e.message(), "<p>The header of the PackFile is incomplete, unsupported or damaged.</p>");
    assert_eq!(e.to_terminal(), "The header of the PackFile is incomplete, unsupported or damaged.\n");
}

#[test]
fn terminal_message_of_lists_and_italics() {
    let e = Error::new(ErrorKind::PackFileIsNonEditable);
    let t = e.to_terminal();
    assert!(t.starts_with("\n            This type of PackFile is supported in Read-Only mode.\n\n            This can happen due to:\n\n            \n"));
    assert!(t.contains("The PackFile's type is 'Other'.\n"));
    assert!(t.contains("<b>NOTE</b>"));
}

#[test]
fn size_mismatch_message_has_both_sizes() {
    let e = Error::new(ErrorKind::PackFileSizeIsNotWhatWeExpect(10, 20));
    assert_eq!(
        e.to_terminal(),
        "This PackFile's reported size is <b>10</b> bytes, but we expected it to be <b>20</b> bytes. This means that either the decoding logic in RPFM is broken for this PackFile, or this PackFile is corrupted.\n"
    );
}

#[test]
fn decimal_digits() {
    assert_eq!(to_decimal(0), "0");
    assert_eq!(to_decimal(7), "7");
    assert_eq!(to_decimal(10), "10");
    assert_eq!(to_decimal(18446744073709551615), "18446744073709551615");
}

#[test]
fn error_from_kind() {
    let e: Error = ErrorKind::InvalidPath.into();
    assert_eq!(*e.kind(), ErrorKind::InvalidPath);
}
