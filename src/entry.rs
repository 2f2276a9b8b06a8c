//! Entries of a container: their paths, their classification, and where
//! their bytes are.

use vstd::prelude::*;
use vstd::slice::{slice_subrange, slice_to_vec};
use vstd::string::*;

use crate::error::{Error, ErrorKind, err};

verus! {

/// The on-disk form of a path: its segments joined by backslashes.
pub open spec fn join_path(p: Seq<Seq<char>>) -> Seq<char>
    decreases p.len(),
{
    if p.len() == 0 {
        seq![]
    } else if p.len() == 1 {
        p[0]
    } else {
        join_path(p.drop_last()) + seq!['\\'] + p.last()
    }
}

/// The segments of an on-disk path: the text between backslashes.
pub open spec fn split_path(s: Seq<char>) -> Seq<Seq<char>>
    decreases s.len(),
{
    if s.len() == 0 {
        seq![seq![]]
    } else {
        let init = split_path(s.drop_last());
        if s.last() == '\\' {
            init.push(seq![])
        } else {
            init.update(init.len() - 1, init.last().push(s.last()))
        }
    }
}

pub proof fn lemma_split_path_nonempty(s: Seq<char>)
    ensures
        split_path(s).len() >= 1,
    decreases s.len(),
{
    if s.len() > 0 {
        lemma_split_path_nonempty(s.drop_last());
    }
}

/// No character of `s` is NUL.
pub open spec fn no_nul_char(s: Seq<char>) -> bool {
    forall|i: int| 0 <= i < s.len() ==> s[i] != '\0'
}

/// The segments of text without NUL are valid: none holds a backslash or a NUL.
pub proof fn lemma_split_path_valid(s: Seq<char>)
    requires
        no_nul_char(s),
    ensures
        valid_path(split_path(s)),
    decreases s.len(),
{
    lemma_split_path_nonempty(s);
    if s.len() > 0 {
        let d = s.drop_last();
        assert(no_nul_char(d)) by {
            assert forall|i: int| 0 <= i < d.len() implies d[i] != '\0' by {
                assert(d[i] == s[i]);
            }
        }
        lemma_split_path_valid(d);
        lemma_split_path_nonempty(d);
        let init = split_path(d);
        let r = split_path(s);
        let c = s.last();
        assert(c == s[s.len() - 1]);
        assert forall|i: int, j: int| 0 <= i < r.len() && 0 <= j < r[i].len() implies r[i][j] != '\\' && r[i][j] != '\0' by {
            if c != '\\' && i == init.len() - 1 {
                assert(r[i] == init.last().push(c));
                if j < init.last().len() {
                    assert(r[i][j] == init[i][j]);
                }
            } else if i < init.len() {
                assert(r[i] == init[i]);
            }
        }
    }
}

/// Entries at two different positions have different paths.
pub open spec fn unique_paths(es: Seq<EntryModel>) -> bool {
    forall|i: int, j: int| 0 <= i < es.len() && 0 <= j < es.len() && i != j ==> es[i].path != es[j].path
}

/// A path that an entry may have: at least one segment, and no segment that
/// holds a backslash or a NUL.
pub open spec fn valid_path(p: Seq<Seq<char>>) -> bool {
    &&& p.len() >= 1
    &&& forall|i: int, j: int| 0 <= i < p.len() && 0 <= j < p[i].len() ==> p[i][j] != '\\' && p[i][j] != '\0'
}

/// Whether `path` is a path that an entry may have.
pub fn is_valid_path(path: &Vec<String>) -> (r: bool)
    ensures
        r == valid_path(path.deep_view()),
{
    let ghost p = path.deep_view();
    if path.len() == 0 {
        return false;
    }
    let mut i: usize = 0;
    while i < path.len()
        invariant
            p == path.deep_view(),
            i <= path@.len(),
            forall|a: int, b: int| 0 <= a < i && 0 <= b < p[a].len() ==> p[a][b] != '\\' && p[a][b] != '\0',
        decreases path@.len() - i,
    {
        let seg = path[i].as_str();
        assert(seg@ == p[i as int]);
        let n = seg.unicode_len();
        let mut j: usize = 0;
        while j < n
            invariant
                p == path.deep_view(),
                i < path@.len(),
                seg@ == p[i as int],
                n == seg@.len(),
                j <= n,
                forall|a: int, b: int| 0 <= a < i && 0 <= b < p[a].len() ==> p[a][b] != '\\' && p[a][b] != '\0',
                forall|b: int| 0 <= b < j ==> p[i as int][b] != '\\' && p[i as int][b] != '\0',
            decreases n - j,
        {
            let c = seg.get_char(j);
            if c == '\\' || c == '\0' {
                return false;
            }
            j = j + 1;
        }
        i = i + 1;
    }
    true
}

/// Whether the segments of `a` start with the segments of `prefix`.
pub open spec fn has_prefix(a: Seq<Seq<char>>, prefix: Seq<Seq<char>>) -> bool {
    prefix.len() <= a.len() && a.subrange(0, prefix.len() as int) == prefix
}

/// Whether the segments of `a` start with the segments of `prefix`.
pub fn path_has_prefix(a: &Vec<String>, prefix: &Vec<String>) -> (r: bool)
    ensures
        r == has_prefix(a.deep_view(), prefix.deep_view()),
{
    let ghost av = a.deep_view();
    let ghost pv = prefix.deep_view();
    if prefix.len() > a.len() {
        return false;
    }
    let mut i: usize = 0;
    while i < prefix.len()
        invariant
            av == a.deep_view(),
            pv == prefix.deep_view(),
            prefix@.len() <= a@.len(),
            i <= prefix@.len(),
            forall|k: int| 0 <= k < i ==> av[k] == pv[k],
        decreases prefix@.len() - i,
    {
        if !str_eq(a[i].as_str(), prefix[i].as_str()) {
            assert(av.subrange(0, pv.len() as int)[i as int] != pv[i as int]);
            return false;
        }
        i = i + 1;
    }
    assert(av.subrange(0, pv.len() as int) =~= pv);
    true
}

/// The name of the reserved entry that holds the container's notes.
pub open spec fn notes_name() -> Seq<char> {
    "frodos_biggest_secret.rpfm-notes"@
}

/// The name of the reserved entry that holds the container's settings.
pub open spec fn settings_name() -> Seq<char> {
    "settings.rpfm_reserved"@
}

/// A path that belongs to one of the two reserved entries.
pub open spec fn is_reserved(p: Seq<Seq<char>>) -> bool {
    p == seq![notes_name()] || p == seq![settings_name()]
}

/// `s` ends with `e`.
pub open spec fn ends_with(s: Seq<char>, e: Seq<char>) -> bool {
    s.len() >= e.len() && s.subrange(s.len() - e.len(), s.len() as int) == e
}

/// The kind of content an entry holds, judged by its path.
#[derive(Clone, Copy, Debug, PartialEq, Eq, Structural)]
pub enum PackedFileType {
    /// A database table: `db/<table>/<name>`.
    DB,
    /// A localisation file: `*.loc`.
    Loc,
    /// An image: `*.png`, `*.dds`, `*.tga`, `*.jpg`.
    Image,
    /// Plain text: `*.txt`, `*.xml`, `*.lua`, `*.csv`.
    Text,
    /// Anything else.
    Unknown,
}

/// The kind of content that an entry at path `p` holds.
pub open spec fn type_of_path(p: Seq<Seq<char>>) -> PackedFileType {
    if p.len() == 0 {
        PackedFileType::Unknown
    } else if p.len() == 3 && p[0] == "db"@ {
        PackedFileType::DB
    } else {
        let name = p.last();
        if ends_with(name, ".loc"@) {
            PackedFileType::Loc
        } else if ends_with(name, ".png"@) || ends_with(name, ".dds"@) || ends_with(name, ".tga"@)
            || ends_with(name, ".jpg"@) {
            PackedFileType::Image
        } else if ends_with(name, ".txt"@) || ends_with(name, ".xml"@) || ends_with(name, ".lua"@)
            || ends_with(name, ".csv"@) {
            PackedFileType::Text
        } else {
            PackedFileType::Unknown
        }
    }
}

/// Whether `s` ends with `e`.
pub fn str_ends_with(s: &str, e: &str) -> (r: bool)
    ensures
        r == ends_with(s@, e@),
{
    let n = s.unicode_len();
    let m = e.unicode_len();
    if n < m {
        return false;
    }
    let mut i: usize = 0;
    while i < m
        invariant
            n == s@.len(),
            m == e@.len(),
            m <= n,
            i <= m,
            forall|k: int| 0 <= k < i ==> s@[n - m + k] == e@[k],
        decreases m - i,
    {
        if s.get_char(n - m + i) != e.get_char(i) {
            assert(s@.subrange(n - m, n as int)[i as int] != e@[i as int]);
            return false;
        }
        i = i + 1;
    }
    assert(s@.subrange(n - m, n as int) =~= e@);
    true
}

/// Whether `s` and `t` hold the same text.
pub fn str_eq(s: &str, t: &str) -> (r: bool)
    ensures
        r == (s@ == t@),
{
    if s.unicode_len() != t.unicode_len() {
        return false;
    }
    let r = str_ends_with(s, t);
    assert(s@ =~= s@.subrange(0, s@.len() as int));
    r
}

impl PackedFileType {
    /// The kind of content that an entry at `path` holds.
    pub fn get_packed_file_type(path: &Vec<String>) -> (r: PackedFileType)
        ensures
            r == type_of_path(path.deep_view()),
    {
        let ghost p = path.deep_view();
        if path.len() == 0 {
            return PackedFileType::Unknown;
        }
        if path.len() == 3 && str_eq(path[0].as_str(), "db") {
            return PackedFileType::DB;
        }
        let name = path[path.len() - 1].as_str();
        assert(name@ == p.last());
        if str_ends_with(name, ".loc") {
            PackedFileType::Loc
        } else if str_ends_with(name, ".png") || str_ends_with(name, ".dds") || str_ends_with(name, ".tga")
            || str_ends_with(name, ".jpg") {
            PackedFileType::Image
        } else if str_ends_with(name, ".txt") || str_ends_with(name, ".xml") || str_ends_with(name, ".lua")
            || str_ends_with(name, ".csv") {
            PackedFileType::Text
        } else {
            PackedFileType::Unknown
        }
    }
}

/// Joins the segments of `path` with backslashes.
pub fn join_segments(path: &Vec<String>) -> (r: String)
    ensures
        r@ == join_path(path.deep_view()),
{
    let ghost p = path.deep_view();
    let mut r = String::new();
    let mut i: usize = 0;
    while i < path.len()
        invariant
            p == path.deep_view(),
            i <= path@.len(),
            r@ == join_path(p.subrange(0, i as int)),
        decreases path@.len() - i,
    {
        proof {
            reveal_strlit("\\");
            assert(p.subrange(0, i + 1).drop_last() =~= p.subrange(0, i as int));
        }
        if i > 0 {
            r.append("\\");
        }
        r.append(path[i].as_str());
        i = i + 1;
    }
    assert(p.subrange(0, i as int) =~= p);
    r
}

/// Splits `s` at every backslash.
pub fn split_segments(s: &str) -> (r: Vec<String>)
    ensures
        r.deep_view() == split_path(s@),
{
    let n = s.unicode_len();
    let mut segs: Vec<String> = Vec::new();
    let mut start: usize = 0;
    let mut i: usize = 0;
    proof {
        assert(s@.subrange(0, 0) =~= Seq::<char>::empty());
    }
    while i < n
        invariant
            n == s@.len(),
            start <= i <= n,
            segs.deep_view().push(s@.subrange(start as int, i as int)) == split_path(s@.subrange(0, i as int)),
        decreases n - i,
    {
        let c = s.get_char(i);
        let ghost old_segs = segs.deep_view();
        proof {
            assert(s@.subrange(0, i + 1).drop_last() =~= s@.subrange(0, i as int));
            assert(s@.subrange(0, i + 1).last() == c);
        }
        if c == '\\' {
            let ghost old_start = start;
            let seg = String::from_str(s.substring_char(start, i));
            segs.push(seg);
            start = i + 1;
            proof {
                assert(segs.deep_view() =~= old_segs.push(s@.subrange(old_start as int, i as int)));
                assert(s@.subrange(start as int, i + 1) =~= Seq::<char>::empty());
                assert(segs.deep_view().push(s@.subrange(start as int, i + 1)) =~= split_path(s@.subrange(0, i + 1)));
            }
        } else {
            proof {
                let sp = split_path(s@.subrange(0, i as int));
                assert(s@.subrange(start as int, i + 1) =~= s@.subrange(start as int, i as int).push(c));
                assert(segs.deep_view().push(s@.subrange(start as int, i + 1)) =~= sp.update(sp.len() - 1, sp.last().push(c)));
            }
        }
        i = i + 1;
    }
    let last = String::from_str(s.substring_char(start, n));
    segs.push(last);
    assert(s@.subrange(0, n as int) =~= s@);
    segs
}

/// Where the bytes of an entry are.
#[derive(Debug)]
pub enum PackedFileData {
    /// Already in memory.
    InMemory(Vec<u8>),
    /// A byte range of the file the container was read from, still to be read.
    OnDisk { offset: u64, size: u32 },
}

/// The mathematical value of an entry's data locator.
pub enum DataModel {
    InMemory(Seq<u8>),
    OnDisk(u64, u32),
}

/// One file packed in a container.
#[derive(Debug)]
pub struct PackedFile {
    /// The segments of its path.
    pub path: Vec<String>,
    /// Last modification, in seconds since the Unix epoch.
    pub timestamp: i64,
    /// Whether its stored bytes are compressed.
    pub is_compressed: bool,
    /// Whether its stored bytes are encrypted.
    pub is_encrypted: bool,
    /// Where its bytes are.
    pub data: PackedFileData,
}

/// The mathematical value of an entry.
pub struct EntryModel {
    pub path: Seq<Seq<char>>,
    pub timestamp: i64,
    pub compressed: bool,
    pub encrypted: bool,
    pub data: DataModel,
}

impl PackedFileData {
    pub open spec fn view(&self) -> DataModel {
        match self {
            PackedFileData::InMemory(v) => DataModel::InMemory(v@),
            PackedFileData::OnDisk { offset, size } => DataModel::OnDisk(*offset, *size),
        }
    }
}

/// The stored size of an entry's bytes.
pub open spec fn data_size(d: DataModel) -> nat {
    match d {
        DataModel::InMemory(b) => b.len(),
        DataModel::OnDisk(_, s) => s as nat,
    }
}

impl PackedFile {
    pub open spec fn view(&self) -> EntryModel {
        EntryModel {
            path: self.path.deep_view(),
            timestamp: self.timestamp,
            compressed: self.is_compressed,
            encrypted: self.is_encrypted,
            data: self.data.view(),
        }
    }

    /// A new entry at `path`, holding `data` in memory.
    pub fn new(path: Vec<String>, timestamp: i64, data: Vec<u8>) -> (r: PackedFile)
        ensures
            r@ == (EntryModel {
                path: path.deep_view(),
                timestamp,
                compressed: false,
                encrypted: false,
                data: DataModel::InMemory(data@),
            }),
    {
        PackedFile { path, timestamp, is_compressed: false, is_encrypted: false, data: PackedFileData::InMemory(data) }
    }

    /// The segments of the entry's path.
    pub fn get_path(&self) -> (r: &Vec<String>)
        ensures
            r.deep_view() == self@.path,
    {
        &self.path
    }

    /// The stored size of the entry's bytes.
    pub fn get_size(&self) -> (r: u64)
        ensures
            r == data_size(self@.data),
    {
        match &self.data {
            PackedFileData::InMemory(v) => v.len() as u64,
            PackedFileData::OnDisk { size, .. } => *size as u64,
        }
    }

    /// The entry's bytes, where they are in memory.
    pub fn get_data(&self) -> (r: Result<&Vec<u8>, Error>)
        ensures
            match self@.data {
                DataModel::InMemory(b) => r matches Ok(v) && v@ == b,
                DataModel::OnDisk(_, _) => r == Err::<&Vec<u8>, Error>(err(ErrorKind::PackedFileDataIsNotInMemory)),
            },
    {
        match &self.data {
            PackedFileData::InMemory(v) => Ok(v),
            PackedFileData::OnDisk { .. } => Err(Error::new(ErrorKind::PackedFileDataIsNotInMemory)),
        }
    }

    /// The entry's stored bytes: those it holds in memory, or its range of
    /// `file`, the bytes of the file it was read from.
    pub fn get_raw_data(&self, file: &[u8]) -> (r: Result<Vec<u8>, Error>)
        ensures
            match self@.data {
                DataModel::InMemory(b) => r matches Ok(v) && v@ == b,
                DataModel::OnDisk(off, size) => if off + size <= file@.len() {
                    r matches Ok(v) && v@ == file@.subrange(off as int, off + size)
                } else {
                    r == Err::<Vec<u8>, Error>(err(ErrorKind::PackedFileDataCouldNotBeLoaded))
                },
            },
    {
        match &self.data {
            PackedFileData::InMemory(v) => Ok(slice_to_vec(v.as_slice())),
            PackedFileData::OnDisk { offset, size } => {
                let len = file.len();
                if *offset > len as u64 || (len as u64) - *offset < *size as u64 {
                    return Err(Error::new(ErrorKind::PackedFileDataCouldNotBeLoaded));
                }
                let start = *offset as usize;
                let end = start + *size as usize;
                Ok(slice_to_vec(slice_subrange(file, start, end)))
            },
        }
    }
}

} // verus!
