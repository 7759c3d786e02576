use tsg_metadata::name::{extract_timestamp, to_name, Error, Timestamp};

#[test]
fn extract_timestamp_good() {
    let expected = Timestamp { year: 2021, month: 1, day: 1, hour: 10, minute: 29 };
    let result = extract_timestamp("2021/01/01/10/29.json.bz2").unwrap();

    assert_eq!(result, expected);
}

#[test]
fn extract_timestamp_bad_date() {
    let result = extract_timestamp("2021/13/01/10/29.json.bz2");

    assert!(result.is_err());
}

#[test]
fn extract_timestamp_bad_extension() {
    let result = extract_timestamp("2021/01/01/10/29.json.bz");

    assert!(result.is_err());
}

#[test]
fn extract_timestamp_error_carries_name() {
    match extract_timestamp("2021/13/01/10/29.json.bz2") {
        Err(Error::InvalidFormat(name)) => assert_eq!(name, "2021/13/01/10/29.json.bz2"),
        other => panic!("unexpected result: {:?}", other),
    }
}

#[test]
fn extract_timestamp_leap_day() {
    assert!(extract_timestamp("2020/02/29/00/00.json.bz2").is_ok());
    assert!(extract_timestamp("2021/02/29/00/00.json.bz2").is_err());
    assert!(extract_timestamp("2000/02/29/00/00.json.bz2").is_ok());
    assert!(extract_timestamp("1900/02/29/00/00.json.bz2").is_err());
}

#[test]
fn extract_timestamp_bad_clock() {
    assert!(extract_timestamp("2021/01/01/24/00.json.bz2").is_err());
    assert!(extract_timestamp("2021/01/01/10/60.json.bz2").is_err());
    assert!(extract_timestamp("2021/01/00/10/29.json.bz2").is_err());
}

#[test]
fn to_name_pads_fields() {
    let ts = Timestamp { year: 987, month: 2, day: 3, hour: 4, minute: 5 };
    assert_eq!(to_name(ts), "0987/02/03/04/05.json.bz2");
}

#[test]
fn name_round_trip() {
    let name = "2021/01/01/10/29.json.bz2";
    let ts = extract_timestamp(name).unwrap();
    assert_eq!(to_name(ts), name);

    let name = "2020/12/31/23/59.json.bz2";
    let ts = extract_timestamp(name).unwrap();
    assert_eq!(to_name(ts), name);
}
