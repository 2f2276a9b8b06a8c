use rpfm_packfile::entry::{PackedFile, PackedFileData, PackedFileType};
use rpfm_packfile::error::ErrorKind;
use rpfm_packfile::packfile::PackFile;
use rpfm_packfile::version::{HAS_INDEX_WITH_TIMESTAMPS, PFHFileType, PFHVersion};

fn le32(v: u32) -> Vec<u8> {
    v.to_le_bytes().to_vec()
}

/// A PFH5 file of type Mod with no dependencies and the given entries.
fn pfh5_file(entries: &[(&str, &[u8])]) -> Vec<u8> {
    let mut index = Vec::new();
    for (path, data) in entries {
        index.extend(le32(data.len() as u32));
        index.push(0);
        index.extend_from_slice(path.as_bytes());
        index.push(0);
    }
    let mut out = Vec::new();
    out.extend_from_slice(b"PFH5");
    out.extend(le32(3));
    out.extend(le32(0));
    out.extend(le32(0));
    out.extend(le32(entries.len() as u32));
    out.extend(le32(index.len() as u32));
    out.extend(le32(1_600_000_000));
    out.extend(index);
    for (_, data) in entries {
        out.extend_from_slice(data);
    }
    out
}

fn paths(pf: &PackFile) -> Vec<String> {
    pf.get_packed_files().iter().map(|e| e.get_path().join("\\")).collect()
}

fn entry(path: &[&str], data: &[u8]) -> PackedFile {
    PackedFile::new(path.iter().map(|s| s.to_string()).collect(), 0, data.to_vec())
}

fn segs(path: &[&str]) -> Vec<String> {
    path.iter().map(|s| s.to_string()).collect()
}

#[test]
fn minimal_pfh5_scenario() {
    let file = pfh5_file(&[("db\\units_tables\\data", &[1, 2, 3, 4, 5, 6, 7, 8, 9, 10])]);
    let mut pf = PackFile::read("mod.pack", &file, &None, false).unwrap();
    assert_eq!(pf.get_pfh_version(), PFHVersion::PFH5);
    assert_eq!(pf.get_pfh_file_type(), PFHFileType::Mod);
    assert_eq!(pf.get_timestamp(), 1_600_000_000);
    assert_eq!(pf.get_packed_files().len(), 1);
    let e = &pf.get_packed_files()[0];
    assert_eq!(e.get_path(), &segs(&["db", "units_tables", "data"]));
    assert_eq!(e.get_size(), 10);
    assert_eq!(PackedFileType::get_packed_file_type(e.get_path()), PackedFileType::DB);

    let saved = pf.save(None, false, 1_700_000_000).unwrap();
    let again = PackFile::read("mod.pack", &saved, &None, false).unwrap();
    assert_eq!(again.get_packed_files().len(), 1);
    assert_eq!(again.get_packed_files()[0].get_path(), &segs(&["db", "units_tables", "data"]));
    assert_eq!(again.get_packed_files()[0].get_size(), 10);
    assert_eq!(again.get_packed_files()[0].get_data().unwrap(), &vec![1, 2, 3, 4, 5, 6, 7, 8, 9, 10]);
    assert_eq!(again.get_timestamp(), 1_700_000_000);
}

#[test]
fn short_file_is_header_incomplete() {
    for magic in [&b"PFH5"[..], b"PFH0", b"XXXX", b"PFH3"] {
        let mut file = magic.to_vec();
        file.resize(23, 0);
        let err = PackFile::read("a.pack", &file, &None, false).unwrap_err();
        assert_eq!(*err.kind(), ErrorKind::PackFileHeaderNotComplete);
    }
    let err = PackFile::read("a.pack", &[], &None, false).unwrap_err();
    assert_eq!(*err.kind(), ErrorKind::PackFileHeaderNotComplete);
}

#[test]
fn save_sorts_case_insensitively() {
    let mut pf = PackFile::new_with_name("x.pack".to_string(), PFHVersion::PFH5);
    pf.insert(entry(&["ac"], b"3")).unwrap();
    pf.insert(entry(&["Ab"], b"2")).unwrap();
    pf.insert(entry(&["aa"], b"1")).unwrap();
    let bytes = pf.save(None, false, 0).unwrap();
    // The container's own order is untouched by a save.
    assert_eq!(paths(&pf), vec!["ac", "Ab", "aa"]);
    let back = PackFile::read("x.pack", &bytes, &None, false).unwrap();
    assert_eq!(paths(&back), vec!["aa", "Ab", "ac"]);
    let data: Vec<u8> = back.get_packed_files().iter().map(|e| e.get_data().unwrap()[0]).collect();
    assert_eq!(data, b"123".to_vec());
}

#[test]
fn round_trip_keeps_entries() {
    let mut pf = PackFile::new_with_name("r.pack".to_string(), PFHVersion::PFH3);
    pf.set_pack_files_list(vec!["base.pack".to_string(), "other.pack".to_string()]).unwrap();
    pf.insert(entry(&["text", "db", "a.loc"], b"hello")).unwrap();
    pf.insert(entry(&["db", "t_tables", "x"], b"")).unwrap();
    pf.insert(entry(&["Z.png"], &[0xff; 300])).unwrap();
    let bytes = pf.save(None, false, 1_000).unwrap();
    let back = PackFile::read("r.pack", &bytes, &None, false).unwrap();
    assert_eq!(back.get_pfh_version(), PFHVersion::PFH3);
    assert_eq!(back.get_pack_files_list(), &vec!["base.pack".to_string(), "other.pack".to_string()]);
    assert_eq!(back.get_timestamp(), 1_000);
    let mut got: Vec<(String, Vec<u8>)> = back
        .get_packed_files()
        .iter()
        .map(|e| (e.get_path().join("\\"), e.get_data().unwrap().clone()))
        .collect();
    got.sort();
    let mut want: Vec<(String, Vec<u8>)> = pf
        .get_packed_files()
        .iter()
        .map(|e| (e.get_path().join("\\"), e.get_data().unwrap().clone()))
        .collect();
    want.sort();
    assert_eq!(got, want);
}

#[test]
fn saving_twice_differs_only_in_timestamp() {
    let file = pfh5_file(&[("a.txt", b"abc"), ("b.txt", b"de")]);
    let mut pf = PackFile::read("m.pack", &file, &None, false).unwrap();
    let first = pf.save(None, false, 100).unwrap();
    let mut reread = PackFile::read("m.pack", &first, &None, false).unwrap();
    let second = reread.save(None, false, 200).unwrap();
    assert_eq!(first.len(), second.len());
    for i in 0..first.len() {
        if !(24..28).contains(&i) {
            assert_eq!(first[i], second[i], "byte {}", i);
        }
    }
    assert_eq!(&first[24..28], &le32(100)[..]);
    assert_eq!(&second[24..28], &le32(200)[..]);
}

#[test]
fn sizes_add_up_to_file_length() {
    let file = pfh5_file(&[("a.txt", b"abc"), ("b.txt", b"de")]);
    let index_len = u32::from_le_bytes(file[20..24].try_into().unwrap()) as usize;
    assert_eq!(28 + 0 + index_len + 3 + 2, file.len());
    assert!(PackFile::read("m.pack", &file, &None, true).is_ok());
}

#[test]
fn truncated_data_is_size_mismatch() {
    let file = pfh5_file(&[("a.txt", b"abc"), ("b.txt", b"de")]);
    let short = &file[..file.len() - 1];
    let err = PackFile::read("m.pack", short, &None, false).unwrap_err();
    assert_eq!(
        *err.kind(),
        ErrorKind::PackFileSizeIsNotWhatWeExpect(file.len() as u64 - 1, file.len() as u64)
    );
    let mut long = file.clone();
    long.push(0);
    let err = PackFile::read("m.pack", &long, &None, false).unwrap_err();
    assert_eq!(
        *err.kind(),
        ErrorKind::PackFileSizeIsNotWhatWeExpect(file.len() as u64 + 1, file.len() as u64)
    );
}

#[test]
fn notes_and_settings_stay_hidden() {
    let mut pf = PackFile::new_with_name("n.pack".to_string(), PFHVersion::PFH5);
    pf.insert(entry(&["readme.txt"], b"x")).unwrap();
    pf.set_notes(Some("my notes é".to_string()));
    pf.set_settings(b"{}".to_vec());
    let bytes = pf.save(None, false, 5).unwrap();
    let back = PackFile::read("n.pack", &bytes, &None, false).unwrap();
    assert_eq!(paths(&back), vec!["readme.txt"]);
    assert_eq!(back.get_notes(), &Some("my notes é".to_string()));
    assert_eq!(back.get_settings(), &b"{}".to_vec());
    for t in [PackedFileType::Text, PackedFileType::Unknown, PackedFileType::DB] {
        for i in back.list_by_type(t) {
            assert_eq!(back.get_packed_files()[i].get_path(), &segs(&["readme.txt"]));
        }
    }
    assert_eq!(back.list_by_path_prefix(&vec![]), vec![0]);
    // Saving did not leave the reserved entries in the container.
    assert_eq!(paths(&pf), vec!["readme.txt"]);
}

#[test]
fn lazy_entries_load_from_file() {
    let file = pfh5_file(&[("a.txt", b"abc"), ("b.txt", b"de")]);
    let mut pf = PackFile::read("m.pack", &file, &None, true).unwrap();
    match &pf.get_packed_files()[1].data {
        PackedFileData::OnDisk { offset, size } => {
            assert_eq!(*size, 2);
            assert_eq!(*offset as usize, file.len() - 2);
        }
        PackedFileData::InMemory(_) => panic!("expected an on-disk entry"),
    }
    let err = pf.save(None, false, 0).unwrap_err();
    assert_eq!(*err.kind(), ErrorKind::PackedFileDataIsNotInMemory);
    let err = pf.load_data(&file[..file.len() - 1]).unwrap_err();
    assert_eq!(*err.kind(), ErrorKind::PackedFileDataCouldNotBeLoaded);
    pf.load_data(&file).unwrap();
    assert_eq!(pf.get_packed_files()[1].get_data().unwrap(), &b"de".to_vec());
    assert!(pf.save(None, false, 0).is_ok());
}

#[test]
fn type_filter_skips_entries() {
    let file = pfh5_file(&[("a.txt", b"abc"), ("db\\t_tables\\d", b"de"), ("x.loc", b"f")]);
    let pf = PackFile::read("m.pack", &file, &Some(vec![PackedFileType::DB, PackedFileType::Loc]), false).unwrap();
    assert_eq!(paths(&pf), vec!["db\\t_tables\\d", "x.loc"]);
    let all = PackFile::read("m.pack", &file, &None, false).unwrap();
    assert_eq!(all.list_by_type(PackedFileType::Text), vec![0]);
    assert_eq!(all.list_by_type(PackedFileType::Loc), vec![2]);
    assert_eq!(all.list_by_path_prefix(&segs(&["db"])), vec![1]);
    assert_eq!(all.list_by_path_prefix(&segs(&["db", "t_tables", "d", "e"])), Vec::<usize>::new());
}

#[test]
fn open_errors() {
    let file = pfh5_file(&[("a.txt", b"abc")]);
    let err = PackFile::read("m.zip", &file, &None, false).unwrap_err();
    assert_eq!(*err.kind(), ErrorKind::OpenPackFileInvalidExtension);

    let mut bad = file.clone();
    bad[3] = b'9';
    let err = PackFile::read("m.pack", &bad, &None, false).unwrap_err();
    assert_eq!(*err.kind(), ErrorKind::PackFileIsNotAPackFile);

    let err = PackFile::read("m.pack", &file[..30], &None, false).unwrap_err();
    assert_eq!(*err.kind(), ErrorKind::PackFileIndexesNotComplete);

    let err = PackFile::read("m.pack", &file[..27], &None, false).unwrap_err();
    assert_eq!(*err.kind(), ErrorKind::PackFileHeaderNotComplete);

    let mut enc = file.clone();
    enc[4] |= 0x80;
    let err = PackFile::read("m.pack", &enc, &None, false).unwrap_err();
    assert_eq!(*err.kind(), ErrorKind::PackFileIndexIsEncrypted);

    let mut utf = pfh5_file(&[("ab", b"z")]);
    utf[28 + 5] = 0xff;
    let err = PackFile::read("m.pack", &utf, &None, false).unwrap_err();
    assert_eq!(*err.kind(), ErrorKind::StringFromUTF8);

    let mut counted = file.clone();
    counted[16] = 2;
    let err = PackFile::read("m.pack", &counted, &None, false).unwrap_err();
    assert_eq!(*err.kind(), ErrorKind::NotEnoughBytesToDecode);
}

#[test]
fn editability() {
    let mut pf = PackFile::new_with_name("b.pack".to_string(), PFHVersion::PFH5);
    pf.set_pfh_file_type(PFHFileType::Boot);
    assert!(!pf.is_editable(false));
    assert!(pf.is_editable(true));
    let err = pf.save(None, false, 0).unwrap_err();
    assert_eq!(*err.kind(), ErrorKind::PackFileIsNonEditable);
    assert!(pf.save(Some("c.pack".to_string()), true, 0).is_ok());
    assert_eq!(pf.get_file_path(), "c.pack");
    pf.set_pfh_file_type(PFHFileType::Other(7));
    assert!(!pf.is_editable(true));
    pf.set_pfh_file_type(PFHFileType::Movie);
    assert!(pf.is_editable(false));
}

#[test]
fn entry_map_operations() {
    let mut pf = PackFile::new();
    pf.insert(entry(&["a", "b.txt"], b"1")).unwrap();
    let err = pf.insert(entry(&["a", "b.txt"], b"2")).unwrap_err();
    assert_eq!(*err.kind(), ErrorKind::FileAlreadyInPackFile);
    let err = pf.insert(entry(&["settings.rpfm_reserved"], b"2")).unwrap_err();
    assert_eq!(*err.kind(), ErrorKind::ReservedFiles);
    let err = pf.insert(entry(&["frodos_biggest_secret.rpfm-notes"], b"2")).unwrap_err();
    assert_eq!(*err.kind(), ErrorKind::ReservedFiles);
    let err = pf.insert(entry(&["a\\b"], b"2")).unwrap_err();
    assert_eq!(*err.kind(), ErrorKind::InvalidPath);
    let err = pf.insert(entry(&[], b"2")).unwrap_err();
    assert_eq!(*err.kind(), ErrorKind::InvalidPath);
    let err = pf.insert(entry(&["a\0"], b"2")).unwrap_err();
    assert_eq!(*err.kind(), ErrorKind::InvalidPath);
    pf.insert(entry(&["A", "b.txt"], b"3")).unwrap();

    let err = pf.rename(&segs(&["nope"]), segs(&["x"])).unwrap_err();
    assert_eq!(*err.kind(), ErrorKind::PackedFileNotFound);
    let err = pf.rename(&segs(&["a", "b.txt"]), segs(&["A", "b.txt"])).unwrap_err();
    assert_eq!(*err.kind(), ErrorKind::FileAlreadyInPackFile);
    pf.rename(&segs(&["a", "b.txt"]), segs(&["c", "d.txt"])).unwrap();
    assert_eq!(paths(&pf), vec!["c\\d.txt", "A\\b.txt"]);
    assert!(pf.get_packed_file_by_path(&segs(&["c", "d.txt"])).is_some());

    pf.remove(&segs(&["c", "d.txt"]));
    assert_eq!(paths(&pf), vec!["A\\b.txt"]);
    pf.remove(&segs(&["missing"]));
    assert_eq!(paths(&pf), vec!["A\\b.txt"]);
    assert!(pf.get_packed_file_by_path(&segs(&["c", "d.txt"])).is_none());
}

#[test]
fn timestamps_per_revision() {
    // PFH3 stores platform ticks; a tick count converts back to Unix seconds.
    let mut pf = PackFile::new_with_name("t.pack".to_string(), PFHVersion::PFH3);
    assert!(pf.timestamps_fit(1_600_000_000));
    let bytes = pf.save(None, false, 1_600_000_000).unwrap();
    let ticks = i64::from_le_bytes(bytes[24..32].try_into().unwrap());
    assert_eq!(ticks, (1_600_000_000 + 11_644_473_600) * 10_000_000);
    let back = PackFile::read("t.pack", &bytes, &None, false).unwrap();
    assert_eq!(back.get_timestamp(), 1_600_000_000);

    // PFH5 stores seconds in four bytes: negative times do not fit.
    let pf5 = PackFile::new_with_name("t.pack".to_string(), PFHVersion::PFH5);
    assert!(!pf5.timestamps_fit(-1));
    assert!(pf5.timestamps_fit(0));

    // PFH0 has no timestamp at all, and a 24-byte header.
    let mut pf0 = PackFile::new_with_name("t.pack".to_string(), PFHVersion::PFH0);
    let bytes = pf0.save(None, false, 77).unwrap();
    // Header, then the settings record: size, path, NUL.
    assert_eq!(bytes.len(), 24 + 4 + 22 + 1);
    assert_eq!(&bytes[0..4], b"PFH0");
    let back = PackFile::read("t.pack", &bytes, &None, false).unwrap();
    assert_eq!(back.get_timestamp(), 0);

    // PFH6 carries its subheader through a save.
    let mut pf6 = PackFile::new_with_name("t.pack".to_string(), PFHVersion::PFH6);
    let bytes = pf6.save(None, false, 9).unwrap();
    // Header, then the settings record: size, compression byte, path, NUL.
    assert_eq!(bytes.len(), 312 + 4 + 1 + 22 + 1);
    let back = PackFile::read("t.pack", &bytes, &None, false).unwrap();
    assert_eq!(back.get_pfh_version(), PFHVersion::PFH6);
}

#[test]
fn raw_data_of_lazy_entry() {
    let file = pfh5_file(&[("a.txt", b"abc"), ("b.txt", b"de")]);
    let pf = PackFile::read("m.pack", &file, &None, true).unwrap();
    assert_eq!(pf.get_packed_files()[0].get_raw_data(&file).unwrap(), b"abc".to_vec());
    assert_eq!(pf.get_packed_files()[1].get_raw_data(&file).unwrap(), b"de".to_vec());
    let err = pf.get_packed_files()[1].get_raw_data(&file[..file.len() - 1]).unwrap_err();
    assert_eq!(*err.kind(), ErrorKind::PackedFileDataCouldNotBeLoaded);
    let mem = entry(&["x"], b"zz");
    assert_eq!(mem.get_raw_data(&[]).unwrap(), b"zz".to_vec());
}

#[test]
fn resaving_a_sorted_file_is_byte_exact() {
    let file = pfh5_file(&[
        ("a.txt", b"abc"),
        ("db\\b_tables\\c", b"de"),
        ("settings.rpfm_reserved", b"{}"),
        ("Z.loc", b""),
    ]);
    let mut pf = PackFile::read("m.pack", &file, &None, false).unwrap();
    assert_eq!(pf.get_settings(), &b"{}".to_vec());
    let saved = pf.save(None, false, 1_600_000_000).unwrap();
    assert_eq!(saved, file);
}

#[test]
fn entry_timestamps_when_flagged() {
    let mut pf = PackFile::new_with_name("t.pack".to_string(), PFHVersion::PFH5);
    pf.set_bitmask(HAS_INDEX_WITH_TIMESTAMPS | 0x3);
    assert_eq!(pf.get_bitmask(), HAS_INDEX_WITH_TIMESTAMPS);
    pf.insert(PackedFile::new(segs(&["a.txt"]), 1_234_567, b"q".to_vec())).unwrap();
    let bytes = pf.save(None, false, 10).unwrap();
    // Record: size, four-byte timestamp, compression byte, path, NUL.
    assert_eq!(&bytes[28..32], &le32(1)[..]);
    assert_eq!(&bytes[32..36], &le32(1_234_567)[..]);
    assert_eq!(bytes[36], 0);
    let back = PackFile::read("t.pack", &bytes, &None, false).unwrap();
    assert_eq!(back.get_packed_files()[0].timestamp, 1_234_567);

    let mut pf3 = PackFile::new_with_name("t.pack".to_string(), PFHVersion::PFH3);
    pf3.set_bitmask(HAS_INDEX_WITH_TIMESTAMPS);
    pf3.insert(PackedFile::new(segs(&["a.txt"]), -5, b"q".to_vec())).unwrap();
    let bytes = pf3.save(None, false, 10).unwrap();
    let ticks = i64::from_le_bytes(bytes[36..44].try_into().unwrap());
    assert_eq!(ticks, (-5 + 11_644_473_600) * 10_000_000);
    let back = PackFile::read("t.pack", &bytes, &None, false).unwrap();
    assert_eq!(back.get_packed_files()[0].timestamp, -5);
}

#[test]
fn settings_record_is_always_written() {
    let mut pf = PackFile::new_with_name("s.pack".to_string(), PFHVersion::PFH3);
    pf.insert(entry(&["a.txt"], b"x")).unwrap();
    assert!(pf.get_settings().is_empty());
    let bytes = pf.save(None, false, 0).unwrap();
    // Two records: the entry and the (empty) settings.
    assert_eq!(u32::from_le_bytes(bytes[16..20].try_into().unwrap()), 2);
    let back = PackFile::read("s.pack", &bytes, &None, false).unwrap();
    assert_eq!(paths(&back), vec!["a.txt"]);
    assert!(back.get_settings().is_empty());
}

#[test]
fn encrypted_index_flag_by_revision() {
    // PFH3 ignores the flag: a complete file opens, a short index is reported as such.
    let mut pf = PackFile::new_with_name("e.pack".to_string(), PFHVersion::PFH3);
    pf.insert(entry(&["a.txt"], b"x")).unwrap();
    let mut bytes = pf.save(None, false, 0).unwrap();
    bytes[4] |= 0x80;
    let back = PackFile::read("e.pack", &bytes, &None, false).unwrap();
    assert_eq!(paths(&back), vec!["a.txt"]);
    assert!(!back.is_editable(true));
    let err = PackFile::read("e.pack", &bytes[..34], &None, false).unwrap_err();
    assert_eq!(*err.kind(), ErrorKind::PackFileIndexesNotComplete);
    // PFH5 refuses it.
    let mut file = pfh5_file(&[("a.txt", b"x")]);
    file[4] |= 0x80;
    let err = PackFile::read("e.pack", &file, &None, false).unwrap_err();
    assert_eq!(*err.kind(), ErrorKind::PackFileIndexIsEncrypted);
}

#[test]
fn duplicate_paths_are_refused_on_open() {
    let file = pfh5_file(&[("a.txt", b"x"), ("a.txt", b"y")]);
    let err = PackFile::read("d.pack", &file, &None, false).unwrap_err();
    assert_eq!(*err.kind(), ErrorKind::FileAlreadyInPackFile);
}

#[test]
fn dependency_names_without_nul() {
    let mut pf = PackFile::new();
    let err = pf.set_pack_files_list(vec!["ok.pack".to_string(), "bad\0.pack".to_string()]).unwrap_err();
    assert_eq!(*err.kind(), ErrorKind::InvalidPath);
    assert!(pf.get_pack_files_list().is_empty());
    pf.set_pack_files_list(vec!["ok.pack".to_string()]).unwrap();
    assert_eq!(pf.get_pack_files_list(), &vec!["ok.pack".to_string()]);
}

#[test]
fn extended_header_flag_is_kept() {
    let mut pf = PackFile::new_with_name("x.pack".to_string(), PFHVersion::PFH5);
    pf.set_bitmask(0x100 | 0x10);
    assert_eq!(pf.get_bitmask(), 0x10);
}
