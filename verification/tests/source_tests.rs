use tsg_metadata::source::{extract_item_name, read_metadata, Error};

fn catalog_xml() -> String {
    let mut s = String::new();
    s.push_str("<files>");
    s.push_str("<file name=\"b.zip\"><format>ZIP</format><size>10</size>");
    s.push_str("<crc32>0a0b0c0d</crc32>");
    s.push_str("<md5>000102030405060708090a0b0c0d0e0f</md5>");
    s.push_str("<sha1>000102030405060708090a0b0c0d0e0f10111213</sha1></file>");
    s.push_str("<file name=\"a.tar\"><format>TAR</format><size>-1</size>");
    s.push_str("<crc32>ffffffff</crc32>");
    s.push_str("<md5>ffeeddccbbaa99887766554433221100</md5>");
    s.push_str("<sha1>ffeeddccbbaa998877665544332211000a0b0c0d</sha1></file>");
    s.push_str("<file name=\"c.xml\"><format>Metadata</format></file>");
    s.push_str("</files>");
    s
}

#[test]
fn read_metadata_retains_zip_and_tar() {
    let records = read_metadata("coll_files.xml", &catalog_xml()).unwrap();
    assert_eq!(records.len(), 2);
    assert_eq!(records[0].item, "coll");
    assert_eq!(records[0].name, "a.tar");
    assert_eq!(records[0].size, -1);
    assert_eq!(records[0].crc32, 0xffffffff);
    assert_eq!(
        records[0].md5,
        [0xff, 0xee, 0xdd, 0xcc, 0xbb, 0xaa, 0x99, 0x88, 0x77, 0x66, 0x55, 0x44, 0x33, 0x22,
            0x11, 0x00]
    );
    assert_eq!(records[1].name, "b.zip");
    assert_eq!(records[1].size, 10);
    assert_eq!(records[1].crc32, 0x0a0b0c0d);
    assert_eq!(
        records[1].sha1,
        [0x00, 0x01, 0x02, 0x03, 0x04, 0x05, 0x06, 0x07, 0x08, 0x09, 0x0a, 0x0b, 0x0c, 0x0d,
            0x0e, 0x0f, 0x10, 0x11, 0x12, 0x13]
    );
}

#[test]
fn read_metadata_fails_on_malformed_digest() {
    let xml = "<files><file name=\"b.zip\"><format>ZIP</format><size>10</size>\
               <crc32>0a0b0c0d</crc32><md5>zz</md5>\
               <sha1>000102030405060708090a0b0c0d0e0f10111213</sha1></file></files>";
    match read_metadata("coll_files.xml", xml) {
        Err(Error::InvalidRecord(name)) => assert_eq!(name, "b.zip"),
        other => panic!("unexpected result: {:?}", other),
    }
}

#[test]
fn read_metadata_fails_on_missing_field() {
    let xml = "<files><file name=\"b.zip\"><format>ZIP</format>\
               <crc32>0a0b0c0d</crc32><md5>000102030405060708090a0b0c0d0e0f</md5>\
               <sha1>000102030405060708090a0b0c0d0e0f10111213</sha1></file></files>";
    match read_metadata("coll_files.xml", xml) {
        Err(Error::InvalidRecord(name)) => assert_eq!(name, "b.zip"),
        other => panic!("unexpected result: {:?}", other),
    }
}

#[test]
fn read_metadata_rejects_bad_xml() {
    match read_metadata("coll_files.xml", "this is no document") {
        Err(Error::Roxmltree(_)) => {}
        other => panic!("unexpected result: {:?}", other),
    }
}

#[test]
fn read_metadata_rejects_bad_file_name() {
    match read_metadata("coll.xml", &catalog_xml()) {
        Err(Error::InvalidPath(name)) => assert_eq!(name, "coll.xml"),
        other => panic!("unexpected result: {:?}", other),
    }
}

#[test]
fn extract_item_name_strips_suffix() {
    assert_eq!(extract_item_name("coll_files.xml").unwrap(), "coll");
    assert_eq!(extract_item_name("a_files").unwrap(), "a");
    assert!(extract_item_name("coll.xml").is_none());
    assert!(extract_item_name("files.xml").is_none());
}
