use homebox::key::Id;
use homebox::record::{ContainerRecord, DecodeError, ItemRecord, LocationRecord};

const T1: [u8; 8] = [1, 0, 0, 0, 0, 0, 0, 0x80];
const T2: [u8; 8] = [2, 0, 0, 0, 0, 0, 0, 0x80];

fn container_bytes(location: Option<[u8; 16]>, name: Option<&str>) -> Vec<u8> {
    let mut b = Vec::new();
    b.extend_from_slice(&T1);
    b.extend_from_slice(&T2);
    match location {
        Some(id) => {
            b.push(1);
            b.extend_from_slice(&id);
        }
        None => b.push(0),
    }
    match name {
        Some(name) => {
            b.push(1);
            b.extend_from_slice(name.as_bytes());
        }
        None => b.push(0),
    }
    b
}

#[test]
fn location_is_its_name_in_utf8() {
    let record = LocationRecord { name: "Kühlraum".to_string() };
    let bytes = record.encode();
    assert_eq!(bytes, "Kühlraum".as_bytes().to_vec());
    assert_eq!(LocationRecord::decode(&bytes), Ok(record));
    assert_eq!(LocationRecord::decode(&[]), Ok(LocationRecord { name: String::new() }));
}

#[test]
fn location_with_broken_text_is_refused() {
    assert_eq!(LocationRecord::decode(&[0x66, 0xff]), Err(DecodeError::BadText));
    assert_eq!(LocationRecord::decode(&[0xc3]), Err(DecodeError::BadText));
}

#[test]
fn container_layout_is_fixed() {
    let record = ContainerRecord {
        created: 1,
        updated: 2,
        name: Some("Garage".to_string()),
        location: Some(Id::from_bytes([9; 16])),
    };
    assert_eq!(record.encode(), container_bytes(Some([9; 16]), Some("Garage")));
    let bare = ContainerRecord { created: 1, updated: 2, name: None, location: None };
    assert_eq!(bare.encode(), container_bytes(None, None));
    assert_eq!(bare.encode().len(), 18);
}

#[test]
fn stamps_are_shifted_and_little_endian() {
    let record = ContainerRecord { created: -1, updated: 0, name: None, location: None };
    let bytes = record.encode();
    assert_eq!(&bytes[0..8], &[0xff, 0xff, 0xff, 0xff, 0xff, 0xff, 0xff, 0x7f]);
    assert_eq!(&bytes[8..16], &[0, 0, 0, 0, 0, 0, 0, 0x80]);
    let extreme = ContainerRecord {
        created: i64::MIN,
        updated: i64::MAX,
        name: None,
        location: None,
    };
    let bytes = extreme.encode();
    assert_eq!(&bytes[0..8], &[0; 8]);
    assert_eq!(&bytes[8..16], &[0xff; 8]);
    assert_eq!(ContainerRecord::decode(&bytes), Ok(extreme));
}

#[test]
fn container_is_read_back() {
    for location in [None, Some(Id::from_bytes([3; 16]))] {
        for name in [None, Some(String::new()), Some("Büro 2".to_string())] {
            let record = ContainerRecord {
                created: 1_700_000_000_000,
                updated: 1_700_000_000_001,
                name: name.clone(),
                location,
            };
            assert_eq!(ContainerRecord::decode(&record.encode()), Ok(record));
        }
    }
}

#[test]
fn container_faults_are_told_apart() {
    assert_eq!(ContainerRecord::decode(&[]), Err(DecodeError::Truncated));
    assert_eq!(ContainerRecord::decode(&[0; 16]), Err(DecodeError::Truncated));
    // the location flag says an identifier follows, but the bytes end
    let mut b = container_bytes(Some([9; 16]), None);
    b.truncate(20);
    assert_eq!(ContainerRecord::decode(&b), Err(DecodeError::Truncated));
    // no name flag at all
    let mut b = container_bytes(None, None);
    b.truncate(17);
    assert_eq!(ContainerRecord::decode(&b), Err(DecodeError::Truncated));

    let mut b = container_bytes(None, None);
    b[16] = 2;
    assert_eq!(ContainerRecord::decode(&b), Err(DecodeError::BadFlag));
    let mut b = container_bytes(None, None);
    b[17] = 7;
    assert_eq!(ContainerRecord::decode(&b), Err(DecodeError::BadFlag));

    let mut b = container_bytes(None, None);
    b.push(0);
    assert_eq!(ContainerRecord::decode(&b), Err(DecodeError::Trailing));

    let mut b = container_bytes(None, Some("ok"));
    b.push(0xff);
    assert_eq!(ContainerRecord::decode(&b), Err(DecodeError::BadText));

    let mut b = container_bytes(None, Some("ok"));
    b[0..8].copy_from_slice(&T2);
    b[8..16].copy_from_slice(&T1);
    assert_eq!(ContainerRecord::decode(&b), Err(DecodeError::BadStamps));
}

#[test]
fn item_layout_is_fixed() {
    let record = ItemRecord {
        created: 1,
        updated: 2,
        name: "Drill".to_string(),
        quantity: 258,
        description: Some("red".to_string()),
    };
    let mut expected = Vec::new();
    expected.extend_from_slice(&T1);
    expected.extend_from_slice(&T2);
    expected.extend_from_slice(&[2, 1, 0, 0, 0, 0, 0, 0]);
    expected.push(1);
    expected.extend_from_slice(&[3, 0, 0, 0, 0, 0, 0, 0]);
    expected.extend_from_slice(b"red");
    expected.extend_from_slice(b"Drill");
    assert_eq!(record.encode(), expected);

    let plain = ItemRecord {
        created: 1,
        updated: 2,
        name: "Drill".to_string(),
        quantity: 0,
        description: None,
    };
    let mut expected = Vec::new();
    expected.extend_from_slice(&T1);
    expected.extend_from_slice(&T2);
    expected.extend_from_slice(&[0; 8]);
    expected.push(0);
    expected.extend_from_slice(b"Drill");
    assert_eq!(plain.encode(), expected);
}

#[test]
fn item_is_read_back() {
    for description in [None, Some(String::new()), Some("scharf, groß".to_string())] {
        for name in ["", "Säge"] {
            let record = ItemRecord {
                created: -5,
                updated: 12,
                name: name.to_string(),
                quantity: u64::MAX,
                description: description.clone(),
            };
            assert_eq!(ItemRecord::decode(&record.encode()), Ok(record));
        }
    }
}

#[test]
fn item_faults_are_told_apart() {
    let good = ItemRecord {
        created: 1,
        updated: 2,
        name: "Drill".to_string(),
        quantity: 1,
        description: Some("red".to_string()),
    }
    .encode();
    assert_eq!(ItemRecord::decode(&good[..24]), Err(DecodeError::Truncated));
    assert_eq!(ItemRecord::decode(&good[..30]), Err(DecodeError::Truncated));
    // the description is said to be longer than what is left
    let mut b = good.clone();
    b[25] = 200;
    assert_eq!(ItemRecord::decode(&b), Err(DecodeError::Truncated));
    let mut b = good.clone();
    b[32] = 1;
    assert_eq!(ItemRecord::decode(&b), Err(DecodeError::Truncated));

    let mut b = good.clone();
    b[24] = 2;
    assert_eq!(ItemRecord::decode(&b), Err(DecodeError::BadFlag));

    let mut b = good.clone();
    b[34] = 0xff;
    assert_eq!(ItemRecord::decode(&b), Err(DecodeError::BadText));
    let mut b = good.clone();
    b.push(0xc3);
    assert_eq!(ItemRecord::decode(&b), Err(DecodeError::BadText));

    let mut b = good.clone();
    b[0] = 3;
    assert_eq!(ItemRecord::decode(&b), Err(DecodeError::BadStamps));

    // a description may take all that is left: the name is then empty
    let mut b = good.clone();
    b[25] = 8;
    let record = ItemRecord::decode(&b).unwrap();
    assert_eq!(record.description.as_deref(), Some("redDrill"));
    assert_eq!(record.name, "");
}
