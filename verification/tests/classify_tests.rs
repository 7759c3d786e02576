use tsg_metadata::archive::{classify, Error, Extension, FileEntry};

#[test]
fn classify_zip() {
    assert_eq!(classify("x.zip").unwrap(), Extension::Zip);
}

#[test]
fn classify_tar() {
    assert_eq!(classify("x.tar").unwrap(), Extension::Tar);
}

#[test]
fn classify_tar_gz() {
    assert_eq!(classify("x.tar.gz").unwrap(), Extension::TarGz);
}

#[test]
fn classify_tar_bz2_fails() {
    match classify("x.tar.bz2") {
        Err(Error::UnknownExtension(suffix)) => assert_eq!(suffix, "bz2"),
        other => panic!("unexpected result: {:?}", other),
    }
}

#[test]
fn classify_no_extension_fails() {
    match classify("noext") {
        Err(Error::UnknownExtension(suffix)) => assert_eq!(suffix, "noext"),
        other => panic!("unexpected result: {:?}", other),
    }
}

#[test]
fn classify_error_carries_lowercased_suffix() {
    match classify("x.RAR") {
        Err(Error::UnknownExtension(suffix)) => assert_eq!(suffix, "rar"),
        other => panic!("unexpected result: {:?}", other),
    }
    match classify("NOEXT") {
        Err(Error::UnknownExtension(suffix)) => assert_eq!(suffix, "noext"),
        other => panic!("unexpected result: {:?}", other),
    }
}

#[test]
fn classify_ignores_case() {
    assert_eq!(classify("X.ZIP").unwrap(), Extension::Zip);
    assert_eq!(classify("a.TAR").unwrap(), Extension::Tar);
    assert_eq!(classify("a.Tar.Gz").unwrap(), Extension::TarGz);
}

#[test]
fn classify_gz_without_tar_fails() {
    assert!(classify("x.gz").is_err());
    assert!(classify("gz").is_err());
    assert!(classify("x.zip.gz").is_err());
}

#[test]
fn is_bzip2_by_suffix() {
    assert!(FileEntry::new("a/b.json.bz2".to_string(), 1, None).is_bzip2());
    assert!(FileEntry::new("A.BZ2".to_string(), 1, None).is_bzip2());
    assert!(!FileEntry::new("a.bz".to_string(), 1, None).is_bzip2());
    assert!(!FileEntry::new("bz2".to_string(), 1, None).is_bzip2());
    assert!(!FileEntry::new("a.bz2.txt".to_string(), 1, None).is_bzip2());
}
