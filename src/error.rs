use vstd::prelude::*;
use vstd::string::*;

verus! {

/// What went wrong, with the values needed to report it precisely.
#[derive(Clone, Copy, Debug, PartialEq, Eq, Structural)]
pub enum ErrorKind {
    /// The file is shorter than the header its revision needs.
    PackFileHeaderNotComplete,
    /// The file ends before both indexes do.
    PackFileIndexesNotComplete,
    /// The name of the file does not end in `.pack`.
    OpenPackFileInvalidExtension,
    /// The container's type or flags forbid saving it.
    PackFileIsNonEditable,
    /// The container's own path is not a file on disk.
    PackFileIsNotAFile,
    /// The first four bytes name no known revision.
    PackFileIsNotAPackFile,
    /// The index of the container is encrypted, which this library cannot read.
    PackFileIndexIsEncrypted,
    /// A count or an index is too large for its 32-bit header field.
    PackFileIndexesTooBig,
    /// The file's real size, then the size that its header and index add up to.
    PackFileSizeIsNotWhatWeExpect(u64, u64),
    /// No entry has the requested path.
    PackedFileNotFound,
    /// The compressed stream of an entry is truncated or malformed.
    PackedFileDataCouldNotBeDecompressed,
    /// The bytes of an entry have not been read into memory yet.
    PackedFileDataIsNotInMemory,
    /// The range of an entry lies outside the data it was resolved against.
    PackedFileDataCouldNotBeLoaded,
    /// An entry with that path already exists.
    FileAlreadyInPackFile,
    /// The path is reserved for the container's notes or settings.
    ReservedFiles,
    /// The path is empty, or holds a separator or a NUL inside a segment.
    InvalidPath,
    /// A read went past the end of the buffer.
    NotEnoughBytesToDecode,
    /// Bytes that should hold UTF-8 text do not.
    StringFromUTF8,
    /// Units that should hold UTF-16 text do not.
    StringFromUTF16,
    /// A text is too long for its 16-bit length prefix.
    StringTooLong,
    /// A colour is not written as six hexadecimal digits.
    InvalidColour,
    /// The file does not exist.
    IOFileNotFound,
    /// The file may not be read or written.
    IOPermissionDenied,
    /// Any other failure of the file system.
    IOGeneric,
}

/// The error type of the library: a kind, and the message that goes with it.
#[derive(Clone, Copy, Debug, PartialEq, Eq, Structural)]
pub struct Error {
    pub kind: ErrorKind,
}

impl Error {
    pub fn new(kind: ErrorKind) -> (r: Error)
        ensures
            r.kind == kind,
    {
        Error { kind }
    }

    /// The kind of this error.
    pub fn kind(&self) -> (r: &ErrorKind)
        ensures
            *r == self.kind,
    {
        &self.kind
    }
}

impl From<ErrorKind> for Error {
    fn from(kind: ErrorKind) -> (r: Error) {
        Error { kind }
    }
}

impl vstd::std_specs::convert::FromSpecImpl<ErrorKind> for Error {
    open spec fn obeys_from_spec() -> bool {
        true
    }

    open spec fn from_spec(kind: ErrorKind) -> Error {
        Error { kind }
    }
}

/// Shorthand for an error of the given kind.
pub open spec fn err(kind: ErrorKind) -> Error {
    Error { kind }
}


/// The decimal digit `d`.
pub open spec fn digit_char(d: nat) -> char {
    if d == 0 { '0' } else if d == 1 { '1' } else if d == 2 { '2' } else if d == 3 { '3' } else if d == 4 {
        '4'
    } else if d == 5 { '5' } else if d == 6 { '6' } else if d == 7 { '7' } else if d == 8 { '8' } else { '9' }
}

/// `n` written in decimal.
pub open spec fn decimal(n: nat) -> Seq<char>
    decreases n,
{
    if n < 10 {
        seq![digit_char(n)]
    } else {
        decimal(n / 10).push(digit_char(n % 10))
    }
}

fn digit_str(d: u64) -> (r: &'static str)
    requires
        d < 10,
    ensures
        r@ == seq![digit_char(d as nat)],
{
    proof {
        reveal_strlit("0");
        reveal_strlit("1");
        reveal_strlit("2");
        reveal_strlit("3");
        reveal_strlit("4");
        reveal_strlit("5");
        reveal_strlit("6");
        reveal_strlit("7");
        reveal_strlit("8");
        reveal_strlit("9");
    }
    if d == 0 { "0" } else if d == 1 { "1" } else if d == 2 { "2" } else if d == 3 { "3" } else if d == 4 {
        "4"
    } else if d == 5 { "5" } else if d == 6 { "6" } else if d == 7 { "7" } else if d == 8 { "8" } else { "9" }
}

/// `n` written in decimal.
pub fn to_decimal(n: u64) -> (r: String)
    ensures
        r@ == decimal(n as nat),
    decreases n,
{
    if n < 10 {
        String::from_str(digit_str(n))
    } else {
        let mut s = to_decimal(n / 10);
        s.append(digit_str(n % 10));
        s
    }
}

/// The message of an error of kind `k`, with markup.
pub open spec fn message_of(k: ErrorKind) -> Seq<char> {
    match k {
        ErrorKind::PackFileSizeIsNotWhatWeExpect(a, b) => "<p>This PackFile's reported size is <i><b>"@ + decimal(a as nat) + "</b></i> bytes, but we expected it to be <i><b>"@ + decimal(
            b as nat,
        ) + "</b></i> bytes. This means that either the decoding logic in RPFM is broken for this PackFile, or this PackFile is corrupted.</p>"@,
        ErrorKind::PackFileHeaderNotComplete => "<p>The header of the PackFile is incomplete, unsupported or damaged.</p>"@,
        ErrorKind::PackFileIndexesNotComplete => "<p>The indexes of this of the PackFile are incomplete, unsupported or damaged.</p>"@,
        ErrorKind::OpenPackFileInvalidExtension => "<p>RPFM can only open packfiles whose name ends in <i>'.pack'</i></p>"@,
        ErrorKind::PackFileIsNonEditable => "\n            <p>This type of PackFile is supported in Read-Only mode.</p>\n            <p>This can happen due to:</p>\n            <ul>\n            <li>The PackFile's type is <i>'Boot'</i>, <i>'Release'</i>, <i>'Patch'</i> or <i>'Music'</i> and you have <i>'Allow edition of CA PackFiles'</i> disabled in the settings.</li>\n            <li>The PackFile's type is <i>'Other'</i>.</li>\n            <li>One of the greyed checkboxes under <i>'PackFile/Change PackFile Type'</i> is checked.</li>\n            </ul>\n            <p>If you really want to save it, go to <i>'PackFile/Change PackFile Type'</i> and change his type to 'Mod' or 'Movie'. Note that if the cause it's the third on the list, there is no way to save the PackFile, yet.</p>\n            <p><b>NOTE</b>: If you created this PackFile using the <i>'Load All CA PackedFiles'</i> feature, NEVER try to save it unless you have 64GB of ram or more. Otherwise it may hang your entire computer to dead.</p>"@,
        ErrorKind::PackFileIsNotAFile => "<p>This PackFile doesn't exists as a file in the disk.</p>"@,
        ErrorKind::PackFileIsNotAPackFile => "<p>This file is not a valid PackFile.</p>"@,
        ErrorKind::PackFileIndexIsEncrypted => "<p>The index of this PackFile is encrypted, and cannot be read.</p>"@,
        ErrorKind::PackFileIndexesTooBig => "<p>This PackFile has too many files, or too long an index, to be saved.</p>"@,
        ErrorKind::PackedFileNotFound => "<p>This PackedFile no longer exists in the PackFile.</p>"@,
        ErrorKind::PackedFileDataCouldNotBeDecompressed => "<p>This is a compressed file and the decompresion failed for some reason. This means this PackedFile cannot be opened in RPFM.</p>"@,
        ErrorKind::PackedFileDataIsNotInMemory => "<p>This PackedFile's data is not in memory. If you see this, report it, as it's a bug.</p>"@,
        ErrorKind::PackedFileDataCouldNotBeLoaded => "<p>This PackedFile's data could not be loaded. This means RPFM can no longer read the PackFile from the disk.</p>"@,
        ErrorKind::FileAlreadyInPackFile => "<p>The provided file/s already exists in the current path.</p>"@,
        ErrorKind::ReservedFiles => "<p>One or more of the files you're trying to add/create/rename to have a reserved name. Those names are reserved for internal use in RPFM. Please, try again with another name.</p>"@,
        ErrorKind::InvalidPath => "<p>The path is empty, or one of its parts holds a backslash or a NUL character.</p>"@,
        ErrorKind::NotEnoughBytesToDecode => "<p>There are not enough bytes to decode in the data you provided.</p>"@,
        ErrorKind::StringFromUTF8 => "<p>Error while converting data to an UTF-8 String.</p>"@,
        ErrorKind::StringFromUTF16 => "<p>Error while converting data to an UTF-16 String.</p>"@,
        ErrorKind::StringTooLong => "<p>The text is too long for its length prefix.</p>"@,
        ErrorKind::InvalidColour => "<p>A colour must be written as six hexadecimal digits.</p>"@,
        ErrorKind::IOFileNotFound => "<p>Error while trying to use a file from disk:</p><p>The file with the specified path hasn't been found.</p>"@,
        ErrorKind::IOPermissionDenied => "<p>Error while trying to read/write a file from disk. This can be caused by two reasons:</p><ul><li>It's a file in the data folder of Warhammer 2 and you haven't close the Assembly Kit.</li><li>You don't have permission to read/write the file in question.</li></ul>"@,
        ErrorKind::IOGeneric => "<p>Error while trying to do an IO operation. This means RPFM failed to read/write something from/to the disk.</p>"@,
    }
}

/// Whether `s` holds `tag` at position `i`.
pub open spec fn tag_at(s: Seq<char>, i: int, tag: Seq<char>) -> bool {
    0 <= i && i + tag.len() <= s.len() && s.subrange(i, i + tag.len()) == tag
}

/// `s` for a terminal: paragraph, list and italic tags removed, with a line
/// break where a paragraph, a list or a list item ends and where a list starts.
pub open spec fn terminal_text(s: Seq<char>) -> Seq<char>
    decreases s.len(),
{
    if s.len() == 0 {
        s
    } else if s.len() >= 3 && tag_at(s, 0, "<p>"@) {
        terminal_text(s.subrange(3, s.len() as int))
    } else if s.len() >= 4 && tag_at(s, 0, "</p>"@) {
        seq!['\n'] + terminal_text(s.subrange(4, s.len() as int))
    } else if s.len() >= 4 && tag_at(s, 0, "<ul>"@) {
        seq!['\n'] + terminal_text(s.subrange(4, s.len() as int))
    } else if s.len() >= 5 && tag_at(s, 0, "</ul>"@) {
        seq!['\n'] + terminal_text(s.subrange(5, s.len() as int))
    } else if s.len() >= 4 && tag_at(s, 0, "<li>"@) {
        terminal_text(s.subrange(4, s.len() as int))
    } else if s.len() >= 5 && tag_at(s, 0, "</li>"@) {
        seq!['\n'] + terminal_text(s.subrange(5, s.len() as int))
    } else if s.len() >= 3 && tag_at(s, 0, "<i>"@) {
        terminal_text(s.subrange(3, s.len() as int))
    } else if s.len() >= 4 && tag_at(s, 0, "</i>"@) {
        terminal_text(s.subrange(4, s.len() as int))
    } else {
        seq![s[0]] + terminal_text(s.subrange(1, s.len() as int))
    }
}

/// Whether `s` holds `tag` at position `i`.
fn has_tag_at(s: &str, n: usize, i: usize, tag: &str) -> (r: bool)
    requires
        n == s@.len(),
        i <= n,
    ensures
        r == tag_at(s@, i as int, tag@),
{
    let m = tag.unicode_len();
    if m > n - i {
        return false;
    }
    let mut k: usize = 0;
    while k < m
        invariant
            n == s@.len(),
            m == tag@.len(),
            i + m <= n,
            k <= m,
            forall|j: int| 0 <= j < k ==> s@[i + j] == tag@[j],
        decreases m - k,
    {
        if s.get_char(i + k) != tag.get_char(k) {
            assert(s@.subrange(i as int, i + m)[k as int] != tag@[k as int]);
            return false;
        }
        k = k + 1;
    }
    assert(s@.subrange(i as int, i + m) =~= tag@);
    true
}

proof fn lemma_tag_shift(s: Seq<char>, i: int, t: Seq<char>)
    requires
        0 <= i <= s.len(),
    ensures
        tag_at(s, i, t) == tag_at(s.subrange(i, s.len() as int), 0, t),
{
    if i + t.len() <= s.len() {
        assert(s.subrange(i, s.len() as int).subrange(0, t.len() as int) =~= s.subrange(i, i + t.len()));
    }
}

/// `s` for a terminal, as `terminal_text` says.
pub fn strip_markup(s: &str) -> (r: String)
    ensures
        r@ == terminal_text(s@),
{
    proof {
        reveal_strlit("<p>");
        reveal_strlit("</p>");
        reveal_strlit("<ul>");
        reveal_strlit("</ul>");
        reveal_strlit("<li>");
        reveal_strlit("</li>");
        reveal_strlit("<i>");
        reveal_strlit("</i>");
        reveal_strlit("\n");
    }
    let n = s.unicode_len();
    let mut r = String::new();
    let mut i: usize = 0;
    assert(s@.subrange(0, n as int) =~= s@);
    while i < n
        invariant
            n == s@.len(),
            i <= n,
            r@ + terminal_text(s@.subrange(i as int, n as int)) == terminal_text(s@),
        decreases n - i,
    {
        let ghost rest = s@.subrange(i as int, n as int);
        let ghost r0 = r@;
        proof {
            reveal_strlit("<p>");
            reveal_strlit("</p>");
            reveal_strlit("<ul>");
            reveal_strlit("</ul>");
            reveal_strlit("<li>");
            reveal_strlit("</li>");
            reveal_strlit("<i>");
            reveal_strlit("</i>");
            reveal_strlit("\n");
        }
        let mut step: usize = 1;
        if has_tag_at(s, n, i, "<p>") {
            step = 3;
        } else if has_tag_at(s, n, i, "</p>") {
            r.append("\n");
            step = 4;
        } else if has_tag_at(s, n, i, "<ul>") {
            r.append("\n");
            step = 4;
        } else if has_tag_at(s, n, i, "</ul>") {
            r.append("\n");
            step = 5;
        } else if has_tag_at(s, n, i, "<li>") {
            step = 4;
        } else if has_tag_at(s, n, i, "</li>") {
            r.append("\n");
            step = 5;
        } else if has_tag_at(s, n, i, "<i>") {
            step = 3;
        } else if has_tag_at(s, n, i, "</i>") {
            step = 4;
        } else {
            r.append(s.substring_char(i, i + 1));
        }
        proof {
            lemma_tag_shift(s@, i as int, "<p>"@);
            lemma_tag_shift(s@, i as int, "</p>"@);
            lemma_tag_shift(s@, i as int, "<ul>"@);
            lemma_tag_shift(s@, i as int, "</ul>"@);
            lemma_tag_shift(s@, i as int, "<li>"@);
            lemma_tag_shift(s@, i as int, "</li>"@);
            lemma_tag_shift(s@, i as int, "<i>"@);
            lemma_tag_shift(s@, i as int, "</i>"@);
            assert(rest.subrange(step as int, rest.len() as int) =~= s@.subrange(i + step, n as int));
            assert(r@ + terminal_text(s@.subrange(i + step, n as int)) =~= r0 + terminal_text(rest));
        }
        i = i + step;
    }
    assert(s@.subrange(n as int, n as int) =~= Seq::<char>::empty());
    assert(r@ =~= r@ + terminal_text(Seq::<char>::empty()));
    r
}

impl ErrorKind {
    /// The message of this error, with markup.
    pub fn message(&self) -> (r: String)
        ensures
            r@ == message_of(*self),
    {
        match self {
            ErrorKind::PackFileSizeIsNotWhatWeExpect(a, b) => {
                let mut s = String::from_str("<p>This PackFile's reported size is <i><b>");
                s.append(to_decimal(*a).as_str());
                s.append("</b></i> bytes, but we expected it to be <i><b>");
                s.append(to_decimal(*b).as_str());
                s.append("</b></i> bytes. This means that either the decoding logic in RPFM is broken for this PackFile, or this PackFile is corrupted.</p>");
                s
            },
            ErrorKind::PackFileHeaderNotComplete => String::from_str("<p>The header of the PackFile is incomplete, unsupported or damaged.</p>"),
            ErrorKind::PackFileIndexesNotComplete => String::from_str("<p>The indexes of this of the PackFile are incomplete, unsupported or damaged.</p>"),
            ErrorKind::OpenPackFileInvalidExtension => String::from_str("<p>RPFM can only open packfiles whose name ends in <i>'.pack'</i></p>"),
            ErrorKind::PackFileIsNonEditable => String::from_str("\n            <p>This type of PackFile is supported in Read-Only mode.</p>\n            <p>This can happen due to:</p>\n            <ul>\n            <li>The PackFile's type is <i>'Boot'</i>, <i>'Release'</i>, <i>'Patch'</i> or <i>'Music'</i> and you have <i>'Allow edition of CA PackFiles'</i> disabled in the settings.</li>\n            <li>The PackFile's type is <i>'Other'</i>.</li>\n            <li>One of the greyed checkboxes under <i>'PackFile/Change PackFile Type'</i> is checked.</li>\n            </ul>\n            <p>If you really want to save it, go to <i>'PackFile/Change PackFile Type'</i> and change his type to 'Mod' or 'Movie'. Note that if the cause it's the third on the list, there is no way to save the PackFile, yet.</p>\n            <p><b>NOTE</b>: If you created this PackFile using the <i>'Load All CA PackedFiles'</i> feature, NEVER try to save it unless you have 64GB of ram or more. Otherwise it may hang your entire computer to dead.</p>"),
            ErrorKind::PackFileIsNotAFile => String::from_str("<p>This PackFile doesn't exists as a file in the disk.</p>"),
            ErrorKind::PackFileIsNotAPackFile => String::from_str("<p>This file is not a valid PackFile.</p>"),
            ErrorKind::PackFileIndexIsEncrypted => String::from_str("<p>The index of this PackFile is encrypted, and cannot be read.</p>"),
            ErrorKind::PackFileIndexesTooBig => String::from_str("<p>This PackFile has too many files, or too long an index, to be saved.</p>"),
            ErrorKind::PackedFileNotFound => String::from_str("<p>This PackedFile no longer exists in the PackFile.</p>"),
            ErrorKind::PackedFileDataCouldNotBeDecompressed => String::from_str("<p>This is a compressed file and the decompresion failed for some reason. This means this PackedFile cannot be opened in RPFM.</p>"),
            ErrorKind::PackedFileDataIsNotInMemory => String::from_str("<p>This PackedFile's data is not in memory. If you see this, report it, as it's a bug.</p>"),
            ErrorKind::PackedFileDataCouldNotBeLoaded => String::from_str("<p>This PackedFile's data could not be loaded. This means RPFM can no longer read the PackFile from the disk.</p>"),
            ErrorKind::FileAlreadyInPackFile => String::from_str("<p>The provided file/s already exists in the current path.</p>"),
            ErrorKind::ReservedFiles => String::from_str("<p>One or more of the files you're trying to add/create/rename to have a reserved name. Those names are reserved for internal use in RPFM. Please, try again with another name.</p>"),
            ErrorKind::InvalidPath => String::from_str("<p>The path is empty, or one of its parts holds a backslash or a NUL character.</p>"),
            ErrorKind::NotEnoughBytesToDecode => String::from_str("<p>There are not enough bytes to decode in the data you provided.</p>"),
            ErrorKind::StringFromUTF8 => String::from_str("<p>Error while converting data to an UTF-8 String.</p>"),
            ErrorKind::StringFromUTF16 => String::from_str("<p>Error while converting data to an UTF-16 String.</p>"),
            ErrorKind::StringTooLong => String::from_str("<p>The text is too long for its length prefix.</p>"),
            ErrorKind::InvalidColour => String::from_str("<p>A colour must be written as six hexadecimal digits.</p>"),
            ErrorKind::IOFileNotFound => String::from_str("<p>Error while trying to use a file from disk:</p><p>The file with the specified path hasn't been found.</p>"),
            ErrorKind::IOPermissionDenied => String::from_str("<p>Error while trying to read/write a file from disk. This can be caused by two reasons:</p><ul><li>It's a file in the data folder of Warhammer 2 and you haven't close the Assembly Kit.</li><li>You don't have permission to read/write the file in question.</li></ul>"),
            ErrorKind::IOGeneric => String::from_str("<p>Error while trying to do an IO operation. This means RPFM failed to read/write something from/to the disk.</p>"),
        }
    }
}

impl Error {
    /// The message of this error, with markup.
    pub fn message(&self) -> (r: String)
        ensures
            r@ == message_of(self.kind),
    {
        self.kind.message()
    }

    /// The message of this error for a terminal, with its markup removed.
    pub fn to_terminal(&self) -> (r: String)
        ensures
            r@ == terminal_text(message_of(self.kind)),
    {
        let m = self.kind.message();
        strip_markup(m.as_str())
    }
}

} // verus!
