use homebox::key::{
    decode, decode_as, encode, encode_pair, has_prefix, prefix, Id, Key, KeyError, Tag,
    CONTAINER_IMAGE_TYPE, CONTAINER_TYPE, ID_LEN, ITEM_IMAGE_TYPE, ITEM_TYPE, LOCATION_TYPE,
    SESSION_TYPE,
};

fn id(fill: u8) -> Id {
    Id::from_bytes([fill; 16])
}

fn counting() -> Id {
    Id::from_bytes([0, 1, 2, 3, 4, 5, 6, 7, 8, 9, 10, 11, 12, 13, 14, 15])
}

#[test]
fn tags_have_their_fixed_bytes() {
    assert_eq!(CONTAINER_TYPE, 1);
    assert_eq!(CONTAINER_IMAGE_TYPE, 2);
    assert_eq!(ITEM_TYPE, 10);
    assert_eq!(ITEM_IMAGE_TYPE, 11);
    assert_eq!(LOCATION_TYPE, 20);
    assert_eq!(SESSION_TYPE, 255);
    assert_eq!(ID_LEN, 16);
    assert_eq!(Tag::Container.byte(), 1);
    assert_eq!(Tag::ContainerImage.byte(), 2);
    assert_eq!(Tag::Item.byte(), 10);
    assert_eq!(Tag::ItemImage.byte(), 11);
    assert_eq!(Tag::Location.byte(), 20);
    assert_eq!(Tag::Session.byte(), 255);
}

#[test]
fn tag_bytes_are_distinct_and_found_again() {
    let tags = [
        Tag::Container,
        Tag::ContainerImage,
        Tag::Item,
        Tag::ItemImage,
        Tag::Location,
        Tag::Session,
    ];
    for (i, a) in tags.iter().enumerate() {
        assert_eq!(Tag::from_byte(a.byte()), Some(*a));
        for (j, b) in tags.iter().enumerate() {
            assert_eq!(a.byte() == b.byte(), i == j);
        }
    }
    assert_eq!(Tag::from_byte(0), None);
    assert_eq!(Tag::from_byte(3), None);
    assert_eq!(Tag::from_byte(254), None);
}

#[test]
fn arity_is_two_for_items_and_their_images() {
    assert_eq!(Tag::Container.arity(), 1);
    assert_eq!(Tag::ContainerImage.arity(), 1);
    assert_eq!(Tag::Location.arity(), 1);
    assert_eq!(Tag::Session.arity(), 1);
    assert_eq!(Tag::Item.arity(), 2);
    assert_eq!(Tag::ItemImage.arity(), 2);
}

#[test]
fn one_identifier_key_is_tag_then_identifier() {
    let key = encode(Tag::Session, &counting());
    assert_eq!(
        key,
        vec![255, 0, 1, 2, 3, 4, 5, 6, 7, 8, 9, 10, 11, 12, 13, 14, 15]
    );
}

#[test]
fn two_identifier_key_keeps_argument_order() {
    let key = encode_pair(Tag::Item, &id(0xaa), &counting());
    let mut expected = vec![10u8];
    expected.extend_from_slice(&[0xaa; 16]);
    expected.extend_from_slice(&[0, 1, 2, 3, 4, 5, 6, 7, 8, 9, 10, 11, 12, 13, 14, 15]);
    assert_eq!(key, expected);
    assert_eq!(key.len(), 33);
    assert_ne!(key, encode_pair(Tag::Item, &counting(), &id(0xaa)));
}

#[test]
fn collection_anchor_is_the_tag_alone() {
    assert_eq!(prefix(Tag::Item), vec![10]);
    assert_eq!(prefix(Tag::Session), vec![255]);
}

#[test]
fn owner_anchor_opens_the_keys_of_its_members_only() {
    let a = id(1);
    let b = id(2);
    let anchor = encode(Tag::Item, &a);
    assert!(has_prefix(&encode_pair(Tag::Item, &a, &id(9)), &anchor));
    assert!(!has_prefix(&encode_pair(Tag::Item, &b, &id(9)), &anchor));
    assert!(!has_prefix(&encode_pair(Tag::ItemImage, &a, &id(9)), &anchor));
    assert!(has_prefix(&anchor, &anchor));
    assert!(has_prefix(&anchor, &[]));
    assert!(!has_prefix(&[10], &anchor));
}

#[test]
fn identifiers_compare_by_their_bytes() {
    assert!(id(3).same(&id(3)));
    assert!(!id(3).same(&id(4)));
    let mut bytes = [3u8; 16];
    bytes[15] = 4;
    assert!(!id(3).same(&Id::from_bytes(bytes)));
    assert_eq!(id(3), id(3));
}

#[test]
fn identifier_is_read_from_the_middle_of_a_slice() {
    let source: Vec<u8> = (0u8..40).collect();
    let got = Id::from_slice(&source, 5);
    let expected: Vec<u8> = (5u8..21).collect();
    assert_eq!(got.bytes.to_vec(), expected);
    let mut out = vec![9u8];
    got.append_to(&mut out);
    assert_eq!(out.len(), 17);
    assert_eq!(&out[1..], &expected[..]);
}

#[test]
fn decode_inverts_encode() {
    let one = encode(Tag::Container, &counting());
    assert_eq!(
        decode(&one),
        Ok(Key { tag: Tag::Container, first: counting(), second: None })
    );
    let two = encode_pair(Tag::ItemImage, &id(7), &counting());
    let key = decode(&two).unwrap();
    assert_eq!(key, Key { tag: Tag::ItemImage, first: id(7), second: Some(counting()) });
    assert_eq!(key.to_bytes(), two);
}

#[test]
fn decode_reports_bad_lengths() {
    assert_eq!(decode(&[]), Err(KeyError::BadLength));
    assert_eq!(decode(&[1]), Err(KeyError::BadLength));
    assert_eq!(decode(&[1; 16]), Err(KeyError::BadLength));
    assert_eq!(decode(&[1; 18]), Err(KeyError::BadLength));
    // a one-identifier length under a two-identifier tag, and the reverse
    assert_eq!(decode(&[10; 17]), Err(KeyError::BadLength));
    assert_eq!(decode(&[1; 33]), Err(KeyError::BadLength));
    assert!(decode(&[10; 33]).is_ok());
    assert!(decode(&[1; 17]).is_ok());
}

#[test]
fn decode_reports_unknown_tags() {
    assert_eq!(decode(&[0; 17]), Err(KeyError::BadTag));
    assert_eq!(decode(&[3; 17]), Err(KeyError::BadTag));
    assert_eq!(decode(&[0]), Err(KeyError::BadTag));
}

#[test]
fn decode_as_insists_on_the_collection() {
    let key = encode(Tag::Location, &id(5));
    assert!(decode_as(Tag::Location, &key).is_ok());
    assert_eq!(decode_as(Tag::Container, &key), Err(KeyError::BadTag));
    assert_eq!(decode_as(Tag::Location, &[]), Err(KeyError::BadLength));
    assert_eq!(decode_as(Tag::Location, &[20, 1, 2]), Err(KeyError::BadLength));
    assert_eq!(decode_as(Tag::Item, &encode(Tag::Item, &id(5))), Err(KeyError::BadLength));
}
