use tsg_metadata::archive::tar::TarItem;
use tsg_metadata::archive::{list_entries, ArchiveEntries, Error, FileEntry};
use tsg_metadata::decode::decode_entry;

const TEXT: &str = "{\"id_str\":\"123\",\"screen_name\":\"alice\"}\n{\"id_str\":\"456\",\"screen_name\":\"bob\"}\n";

#[test]
fn zip_listing_two_members() {
    let data = zip_two();
    let entries = list_entries("x.zip", &data).unwrap();
    assert_eq!(entries.len(), 2);
    assert_eq!(entries[0].path, "2021/01/01/10/29.json.bz2");
    assert_eq!(entries[1].path, "2021/01/01/10/30.json.bz2");
    assert!(entries[0].crc32.is_some());
    assert!(entries[1].crc32.is_some());
    assert!(entries[0].size > 0 && entries[1].size > 0);
}

#[test]
fn tar_listing_skips_directory() {
    let data = tar_dir_file();
    let entries = list_entries("x.tar", &data).unwrap();
    assert_eq!(entries.len(), 1);
    assert_eq!(entries[0].path, "2021/payload.txt");
    assert_eq!(entries[0].size, 12);
    assert_eq!(entries[0].crc32, None);
}

#[test]
fn tar_gz_listing_matches_tar() {
    let plain = list_entries("x.tar", &tar_dir_file()).unwrap();
    let gz = list_entries("x.tar.gz", &targz_dir_file()).unwrap();
    assert_eq!(plain.len(), gz.len());
    assert_eq!(plain[0].path, gz[0].path);
    assert_eq!(plain[0].size, gz[0].size);
}

#[test]
fn listing_unknown_extension() {
    match list_entries("x.rar", &zip_two()) {
        Err(Error::UnknownExtension(suffix)) => assert_eq!(suffix, "rar"),
        other => panic!("unexpected result: {:?}", other),
    }
}

#[test]
fn listing_corrupt_zip() {
    match list_entries("x.zip", &[0u8; 16]) {
        Err(Error::Zip(_)) => {}
        other => panic!("unexpected result: {:?}", other),
    }
}

#[test]
fn tar_listing_invalid_path() {
    match list_entries("x.tar", &tar_bad_path()) {
        Err(Error::InvalidEntryPath(raw)) => assert_eq!(raw[0], 0xff),
        other => panic!("unexpected result: {:?}", other),
    }
}

#[test]
fn tar_listing_truncated() {
    match list_entries("x.tar", &tar_trunc()) {
        Err(Error::Io(_)) => {}
        other => panic!("unexpected result: {:?}", other),
    }
}

#[test]
fn tar_iteration_yields_file_only() {
    let data = tar_dir_file();
    let mut it = ArchiveEntries::from_tar(&data);
    match it.next() {
        Some(Ok((entry, text))) => {
            assert_eq!(entry.path, "2021/payload.txt");
            assert_eq!(entry.size, 12);
            assert_eq!(text, "twelve bytes");
        }
        other => panic!("unexpected result: {:?}", other),
    }
    assert!(it.next().is_none());
}

#[test]
fn tar_gz_iteration_decodes_both_layers() {
    let mut it = ArchiveEntries::from_tar_gz(&targz_dir_file());
    match it.next() {
        Some(Ok((entry, text))) => {
            assert_eq!(entry.path, "2021/payload.txt");
            assert_eq!(text, "twelve bytes");
        }
        other => panic!("unexpected result: {:?}", other),
    }
    assert!(it.next().is_none());
}

#[test]
fn tar_iteration_decodes_bzip2_member() {
    let mut it = ArchiveEntries::from_tar(&tar_bz2());
    match it.next() {
        Some(Ok((entry, text))) => {
            assert_eq!(entry.path, "2021/01/01/10/29.json.bz2");
            assert_eq!(text, TEXT);
        }
        other => panic!("unexpected result: {:?}", other),
    }
    assert!(it.next().is_none());
}

#[test]
fn zip_iteration_forward_order() {
    let mut it = ArchiveEntries::from_zip(zip_two()).unwrap();
    match it.next() {
        Some(Ok((entry, text))) => {
            assert_eq!(entry.path, "2021/01/01/10/29.json.bz2");
            assert_eq!(text, TEXT);
        }
        other => panic!("unexpected result: {:?}", other),
    }
    match it.next() {
        Some(Ok((entry, text))) => {
            assert_eq!(entry.path, "2021/01/01/10/30.json.bz2");
            assert_eq!(text, "{\"a\":1}\n");
        }
        other => panic!("unexpected result: {:?}", other),
    }
    assert!(it.next().is_none());
}

#[test]
fn zip_iteration_reports_member_failure() {
    let mut it = ArchiveEntries::from_zip(zip_bad_bz2()).unwrap();
    match it.next() {
        Some(Err(Error::DecodingIo(entry, _))) => assert_eq!(entry.path, "bad.json.bz2"),
        other => panic!("unexpected result: {:?}", other),
    }
    assert!(it.next().is_none());
}

#[test]
fn decode_entry_layers() {
    let bz = bz2_lines();
    let compressed = FileEntry::new("a.json.bz2".to_string(), bz.len() as u32, None);
    assert_eq!(decode_entry(&compressed, &bz).unwrap(), TEXT);

    let plain = FileEntry::new("a.json".to_string(), 5, None);
    assert_eq!(decode_entry(&plain, b"plain").unwrap(), "plain");

    match decode_entry(&compressed, b"garbage") {
        Err(Error::DecodingIo(entry, _)) => assert_eq!(entry.path, "a.json.bz2"),
        other => panic!("unexpected result: {:?}", other),
    }
}

#[test]
fn zip_module_lists_names() {
    let names = tsg_metadata::archive::zip::list(&zip_two()).unwrap();
    assert_eq!(
        names,
        vec![
            "2021/01/01/10/29.json.bz2".to_string(),
            "2021/01/01/10/30.json.bz2".to_string(),
        ]
    );
}

#[test]
fn zip_module_extracts_lines() {
    let lines = tsg_metadata::archive::zip::extract(&zip_two(), "2021/01/01/10/29.json.bz2").unwrap();
    assert_eq!(lines.len(), 2);
    assert_eq!(lines[0], "{\"id_str\":\"123\",\"screen_name\":\"alice\"}");
    assert_eq!(lines[1], "{\"id_str\":\"456\",\"screen_name\":\"bob\"}");
}

#[test]
fn zip_module_extract_missing_member() {
    match tsg_metadata::archive::zip::extract(&zip_two(), "absent") {
        Err(tsg_metadata::archive::zip::Error::Zip(_)) => {}
        other => panic!("unexpected result: {:?}", other),
    }
}

#[test]
fn zip_module_extract_plain_member_fails() {
    match tsg_metadata::archive::zip::extract(&zip_plain(), "hello.txt") {
        Err(tsg_metadata::archive::zip::Error::Io(_)) => {}
        other => panic!("unexpected result: {:?}", other),
    }
}

#[test]
fn tar_module_lists_items() {
    let items: Vec<TarItem> = tsg_metadata::archive::tar::list(&tar_dir_file()).unwrap();
    assert_eq!(items.len(), 1);
    assert_eq!(items[0].path, "2021/payload.txt");
    assert_eq!(items[0].size, 12);
}


/// Builds a 512-byte ustar header.
fn ustar_header(name: &[u8], size: usize, typeflag: u8) -> Vec<u8> {
    let mut h = vec![0u8; 512];
    h[..name.len()].copy_from_slice(name);
    h[100..108].copy_from_slice(b"0000644\0");
    h[108..116].copy_from_slice(b"0000000\0");
    h[116..124].copy_from_slice(b"0000000\0");
    let size_field = format!("{:011o}\0", size);
    h[124..136].copy_from_slice(size_field.as_bytes());
    h[136..148].copy_from_slice(b"00000000000\0");
    h[148..156].copy_from_slice(b"        ");
    h[156] = typeflag;
    h[257..263].copy_from_slice(b"ustar\0");
    h[263..265].copy_from_slice(b"00");
    let checksum: u32 = h.iter().map(|&b| b as u32).sum();
    let chk_field = format!("{:06o}\0 ", checksum);
    h[148..156].copy_from_slice(chk_field.as_bytes());
    h
}

/// Builds a TAR stream out of (name, typeflag, content) triples.
fn tar_of(entries: &[(&[u8], u8, &[u8])]) -> Vec<u8> {
    let mut out = Vec::new();
    for (name, typeflag, data) in entries {
        out.extend_from_slice(&ustar_header(name, data.len(), *typeflag));
        if !data.is_empty() {
            out.extend_from_slice(data);
            out.resize(out.len() + (512 - data.len() % 512) % 512, 0);
        }
    }
    out.resize(out.len() + 1024, 0);
    out
}

fn tar_dir_file() -> Vec<u8> {
    tar_of(&[(b"2021/", b'5', b""), (b"2021/payload.txt", b'0', b"twelve bytes")])
}

fn tar_bz2() -> Vec<u8> {
    let bz = bz2_lines();
    tar_of(&[(b"2021/01/01/10/29.json.bz2", b'0', &bz)])
}

fn tar_bad_path() -> Vec<u8> {
    tar_of(&[(b"\xffbad.txt", b'0', b"xyz")])
}

fn tar_trunc() -> Vec<u8> {
    let mut out = ustar_header(b"a.txt", 1000, b'0');
    out.extend_from_slice(b"0123456789");
    out
}

fn bz2_lines() -> Vec<u8> {
    vec![66,90,104,57,49,65,89,38,83,89,25,109,159,154,0,0,36,91,128,0,16,16,4,63,16,0,0,190,39,156,10,32,0,72,74,163,245,77,12,38,134,67,52,130,84,53,52,211,77,12,4,195,6,208,137,98,130,48,64,237,209,202,92,41,242,130,199,130,69,215,204,102,49,122,19,25,198,84,134,73,232,232,228,224,129,161,13,139,185,34,156,40,72,12,182,207,205,0]
}

fn zip_two() -> Vec<u8> {
    vec![80,75,3,4,20,0,0,0,0,0,92,19,76,93,0,0,0,0,0,0,0,0,0,0,0,0,5,0,0,0,50,48,50,49,47,80,75,3,4,20,0,0,0,0,0,92,19,76,93,179,187,134,41,98,0,0,0,98,0,0,0,25,0,0,0,50,48,50,49,47,48,49,47,48,49,47,49,48,47,50,57,46,106,115,111,110,46,98,122,50,66,90,104,57,49,65,89,38,83,89,25,109,159,154,0,0,36,91,128,0,16,16,4,63,16,0,0,190,39,156,10,32,0,72,74,163,245,77,12,38,134,67,52,130,84,53,52,211,77,12,4,195,6,208,137,98,130,48,64,237,209,202,92,41,242,130,199,130,69,215,204,102,49,122,19,25,198,84,134,73,232,232,228,224,129,161,13,139,185,34,156,40,72,12,182,207,205,0,80,75,3,4,20,0,0,0,0,0,92,19,76,93,184,8,155,30,49,0,0,0,49,0,0,0,25,0,0,0,50,48,50,49,47,48,49,47,48,49,47,49,48,47,51,48,46,106,115,111,110,46,98,122,50,66,90,104,57,49,65,89,38,83,89,186,198,77,219,0,0,3,89,128,0,16,16,0,32,16,32,0,0,10,32,0,34,3,101,8,96,17,74,31,23,114,69,56,80,144,186,198,77,219,80,75,1,2,20,3,20,0,0,0,0,0,92,19,76,93,0,0,0,0,0,0,0,0,0,0,0,0,5,0,0,0,0,0,0,0,0,0,16,0,253,65,0,0,0,0,50,48,50,49,47,80,75,1,2,20,3,20,0,0,0,0,0,92,19,76,93,179,187,134,41,98,0,0,0,98,0,0,0,25,0,0,0,0,0,0,0,0,0,0,0,128,1,35,0,0,0,50,48,50,49,47,48,49,47,48,49,47,49,48,47,50,57,46,106,115,111,110,46,98,122,50,80,75,1,2,20,3,20,0,0,0,0,0,92,19,76,93,184,8,155,30,49,0,0,0,49,0,0,0,25,0,0,0,0,0,0,0,0,0,0,0,128,1,188,0,0,0,50,48,50,49,47,48,49,47,48,49,47,49,48,47,51,48,46,106,115,111,110,46,98,122,50,80,75,5,6,0,0,0,0,3,0,3,0,193,0,0,0,36,1,0,0,0,0]
}

fn zip_plain() -> Vec<u8> {
    vec![80,75,3,4,20,0,0,0,8,0,92,19,76,93,45,59,8,175,14,0,0,0,12,0,0,0,9,0,0,0,104,101,108,108,111,46,116,120,116,203,72,205,201,201,87,40,207,47,202,73,225,2,0,80,75,1,2,20,3,20,0,0,0,8,0,92,19,76,93,45,59,8,175,14,0,0,0,12,0,0,0,9,0,0,0,0,0,0,0,0,0,0,0,128,1,0,0,0,0,104,101,108,108,111,46,116,120,116,80,75,5,6,0,0,0,0,1,0,1,0,55,0,0,0,53,0,0,0,0,0]
}

fn zip_bad_bz2() -> Vec<u8> {
    vec![80,75,3,4,20,0,0,0,0,0,92,19,76,93,190,37,2,5,16,0,0,0,16,0,0,0,12,0,0,0,98,97,100,46,106,115,111,110,46,98,122,50,110,111,116,32,98,122,105,112,50,32,97,116,32,97,108,108,80,75,1,2,20,3,20,0,0,0,0,0,92,19,76,93,190,37,2,5,16,0,0,0,16,0,0,0,12,0,0,0,0,0,0,0,0,0,0,0,128,1,0,0,0,0,98,97,100,46,106,115,111,110,46,98,122,50,80,75,5,6,0,0,0,0,1,0,1,0,58,0,0,0,58,0,0,0,0,0]
}

fn targz_dir_file() -> Vec<u8> {
    vec![31,139,8,0,0,0,0,0,2,3,237,209,61,14,128,32,12,134,225,30,133,19,40,84,224,62,24,217,72,52,82,127,184,189,232,166,113,69,7,250,44,95,183,14,47,74,84,45,148,37,51,171,245,181,217,115,95,110,219,161,5,97,224,3,75,36,55,231,151,80,39,60,251,79,46,133,209,13,13,237,244,75,127,165,239,253,149,52,42,247,151,220,191,56,218,124,88,189,232,19,249,8,140,49,198,170,113,0,185,146,110,79,0,10,0,0]
}

fn zip_unsorted() -> Vec<u8> {
    vec![80,75,3,4,20,0,0,0,0,0,71,20,76,93,163,159,40,6,4,0,0,0,4,0,0,0,5,0,0,0,98,46,116,120,116,98,101,101,10,80,75,3,4,20,0,0,0,0,0,71,20,76,93,164,83,124,168,3,0,0,0,3,0,0,0,5,0,0,0,97,46,116,120,116,97,121,10,80,75,3,4,20,0,0,0,0,0,71,20,76,93,163,159,40,6,4,0,0,0,4,0,0,0,5,0,0,0,98,46,116,120,116,98,101,101,10,80,75,1,2,20,3,20,0,0,0,0,0,71,20,76,93,163,159,40,6,4,0,0,0,4,0,0,0,5,0,0,0,0,0,0,0,0,0,0,0,128,1,0,0,0,0,98,46,116,120,116,80,75,1,2,20,3,20,0,0,0,0,0,71,20,76,93,164,83,124,168,3,0,0,0,3,0,0,0,5,0,0,0,0,0,0,0,0,0,0,0,128,1,39,0,0,0,97,46,116,120,116,80,75,1,2,20,3,20,0,0,0,0,0,71,20,76,93,163,159,40,6,4,0,0,0,4,0,0,0,5,0,0,0,0,0,0,0,0,0,0,0,128,1,77,0,0,0,98,46,116,120,116,80,75,5,6,0,0,0,0,3,0,3,0,153,0,0,0,116,0,0,0,0,0]
}

#[test]
fn zip_listing_sorts_and_dedups() {
    let entries = list_entries("x.zip", &zip_unsorted()).unwrap();
    assert_eq!(entries.len(), 2);
    assert_eq!(entries[0].path, "a.txt");
    assert_eq!(entries[1].path, "b.txt");
}

#[test]
fn zip_listing_truncated_end_record() {
    // an end-of-central-directory magic with nothing after it
    match list_entries("x.zip", b"PK\x05\x06") {
        Err(Error::Zip(_)) => {}
        other => panic!("unexpected result: {:?}", other),
    }
    match tsg_metadata::archive::zip::list(b"PK\x05\x06") {
        Err(tsg_metadata::archive::zip::Error::Zip(_)) => {}
        other => panic!("unexpected result: {:?}", other),
    }
}

#[test]
fn tar_listing_zero_size_bad_path() {
    let data = tar_of(&[(b"\xffdir/", b'5', b""), (b"ok.txt", b'0', b"abc")]);
    match list_entries("x.tar", &data) {
        Err(Error::InvalidEntryPath(raw)) => assert_eq!(raw[0], 0xff),
        other => panic!("unexpected result: {:?}", other),
    }
    match tsg_metadata::archive::tar::list(&data) {
        Err(tsg_metadata::archive::tar::Error::InvalidEntryPath(raw)) => assert_eq!(raw[0], 0xff),
        other => panic!("unexpected result: {:?}", other),
    }
}

#[test]
fn zip_iteration_corrupt_member_data() {
    let mut data = zip_two();
    let member = bz2_lines();
    let pos = data
        .windows(member.len())
        .position(|w| w == member.as_slice())
        .unwrap();
    data[pos + 50] ^= 0xff;
    let mut it = ArchiveEntries::from_zip(data).unwrap();
    match it.next() {
        Some(Err(Error::DecodingIo(entry, _))) => {
            assert_eq!(entry.path, "2021/01/01/10/29.json.bz2");
        }
        other => panic!("unexpected result: {:?}", other),
    }
    match it.next() {
        Some(Ok((entry, text))) => {
            assert_eq!(entry.path, "2021/01/01/10/30.json.bz2");
            assert_eq!(text, "{\"a\":1}\n");
        }
        other => panic!("unexpected result: {:?}", other),
    }
    assert!(it.next().is_none());
}

fn zip_dir_with_data() -> Vec<u8> {
    vec![80,75,3,4,20,0,0,0,0,0,229,28,76,93,151,207,22,56,11,0,0,0,11,0,0,0,4,0,0,0,111,100,100,47,115,116,114,97,121,32,98,121,116,101,115,80,75,3,4,20,0,0,0,0,0,229,28,76,93,18,206,72,95,8,0,0,0,8,0,0,0,8,0,0,0,114,101,97,108,46,116,120,116,112,97,121,108,111,97,100,10,80,75,1,2,20,3,20,0,0,0,0,0,229,28,76,93,151,207,22,56,11,0,0,0,11,0,0,0,4,0,0,0,0,0,0,0,0,0,16,0,253,65,0,0,0,0,111,100,100,47,80,75,1,2,20,3,20,0,0,0,0,0,229,28,76,93,18,206,72,95,8,0,0,0,8,0,0,0,8,0,0,0,0,0,0,0,0,0,0,0,128,1,45,0,0,0,114,101,97,108,46,116,120,116,80,75,5,6,0,0,0,0,2,0,2,0,104,0,0,0,91,0,0,0,0,0]
}

#[test]
fn zip_listing_excludes_directory_named_members() {
    let entries = list_entries("x.zip", &zip_dir_with_data()).unwrap();
    assert_eq!(entries.len(), 1);
    assert_eq!(entries[0].path, "real.txt");

    let mut it = ArchiveEntries::from_zip(zip_dir_with_data()).unwrap();
    match it.next() {
        Some(Ok((entry, text))) => {
            assert_eq!(entry.path, "real.txt");
            assert_eq!(text, "payload\n");
        }
        other => panic!("unexpected result: {:?}", other),
    }
    assert!(it.next().is_none());
}
