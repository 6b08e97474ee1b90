use homebox::container::ContainerPatch;
use homebox::item::ItemPatch;
use homebox::key::{encode, encode_pair, Id, Tag};
use homebox::record::{ContainerRecord, DecodeError, ItemRecord};
use homebox::schema::{Error, MutationRoot, QueryRoot};
use homebox::stamp::bump;
use homebox::store::{Entry, Write};

fn id(fill: u8) -> Id {
    Id::from_bytes([fill; 16])
}

fn item(created: i64, updated: i64) -> ItemRecord {
    ItemRecord {
        created,
        updated,
        name: "Drill".to_string(),
        quantity: 4,
        description: Some("red".to_string()),
    }
}

#[test]
fn bump_takes_the_time_of_the_writing() {
    // created, now
    assert_eq!(bump(20, 30), 30);
    assert_eq!(bump(20, 20), 20);
    assert_eq!(bump(i64::MIN, i64::MAX), i64::MAX);
    assert_eq!(bump(-5, 0), 0);
    // only a clock that reads before the creation gives the creation
    assert_eq!(bump(20, 10), 20);
    assert_eq!(bump(-1, -2), -1);
}

#[test]
fn new_container_is_stamped_twice_with_now() {
    let writes = MutationRoot::plan_add_container(&id(1), 77, "Garage", &id(5));
    let expected = ContainerRecord {
        created: 77,
        updated: 77,
        name: Some("Garage".to_string()),
        location: Some(id(5)),
    };
    assert_eq!(
        writes,
        vec![Write::Put { key: encode(Tag::Container, &id(1)), value: expected.encode() }]
    );
}

#[test]
fn container_update_writes_the_patched_record() {
    let before = ContainerRecord {
        created: 10,
        updated: 20,
        name: Some("Garage".to_string()),
        location: Some(id(5)),
    };
    let patch = ContainerPatch { name: Some("X".to_string()), location: None };
    let plan =
        MutationRoot::plan_update_container(&Some(before.encode()), &id(1), &patch, 30).unwrap();
    assert!(plan.found);
    let after = ContainerRecord {
        created: 10,
        updated: 30,
        name: Some("X".to_string()),
        location: Some(id(5)),
    };
    assert_eq!(
        plan.writes,
        vec![Write::Put { key: encode(Tag::Container, &id(1)), value: after.encode() }]
    );

    // a call between creation and last update stamps the time of the call
    let updated_at = |now: i64| {
        let plan =
            MutationRoot::plan_update_container(&Some(before.encode()), &id(1), &patch, now)
                .unwrap();
        let value = match &plan.writes[0] {
            Write::Put { value, .. } => value.clone(),
            Write::Delete { .. } => panic!("an update deletes nothing"),
        };
        ContainerRecord::decode(&value).unwrap().updated
    };
    assert_eq!(updated_at(15), 15);
    assert_eq!(updated_at(10), 10);
    assert_eq!(updated_at(5), 10);

    let plan = MutationRoot::plan_update_container(&None, &id(1), &patch, 30).unwrap();
    assert!(!plan.found);
    assert!(plan.writes.is_empty());
    assert_eq!(
        MutationRoot::plan_update_container(&Some(vec![]), &id(1), &patch, 30).err(),
        Some(Error::Record(DecodeError::Truncated))
    );
}

#[test]
fn container_delete_removes_record_then_image() {
    for stored in [true, false] {
        let plan = MutationRoot::plan_delete_container(stored, &id(1));
        assert_eq!(plan.found, stored);
        assert_eq!(
            plan.writes,
            vec![
                Write::Delete { key: encode(Tag::Container, &id(1)) },
                Write::Delete { key: encode(Tag::ContainerImage, &id(1)) },
            ]
        );
    }
}

#[test]
fn new_item_needs_its_container() {
    let text = Some("red".to_string());
    let plan = MutationRoot::plan_add_item(true, &id(1), &id(2), 77, "Drill", 4, &text);
    assert!(plan.found);
    assert_eq!(
        plan.writes,
        vec![Write::Put {
            key: encode_pair(Tag::Item, &id(1), &id(2)),
            value: item(77, 77).encode()
        }]
    );
    let plan = MutationRoot::plan_add_item(false, &id(1), &id(2), 77, "Drill", 4, &text);
    assert!(!plan.found);
    assert!(plan.writes.is_empty());
}

#[test]
fn item_update_writes_the_patched_record() {
    let patch = ItemPatch { name: None, description: None, quantity: Some(9) };
    let plan =
        MutationRoot::plan_update_item(&Some(item(10, 20).encode()), &id(1), &id(2), &patch, 30)
            .unwrap();
    let mut after = item(10, 30);
    after.quantity = 9;
    assert!(plan.found);
    assert_eq!(
        plan.writes,
        vec![Write::Put { key: encode_pair(Tag::Item, &id(1), &id(2)), value: after.encode() }]
    );
    let plan = MutationRoot::plan_update_item(&None, &id(1), &id(2), &patch, 30).unwrap();
    assert!(!plan.found && plan.writes.is_empty());
}

#[test]
fn move_puts_the_new_key_before_it_deletes_the_old() {
    let stored = Some(item(10, 20).encode());
    let plan = MutationRoot::plan_move_item(&stored, &id(3), &id(1), &id(2), 30).unwrap();
    assert!(plan.found);
    assert_eq!(
        plan.writes,
        vec![
            Write::Put {
                key: encode_pair(Tag::Item, &id(2), &id(3)),
                value: item(10, 30).encode()
            },
            Write::Delete { key: encode_pair(Tag::Item, &id(1), &id(3)) },
        ]
    );
    let plan = MutationRoot::plan_move_item(&stored, &id(3), &id(1), &id(1), 30).unwrap();
    assert_eq!(
        plan.writes,
        vec![Write::Put {
            key: encode_pair(Tag::Item, &id(1), &id(3)),
            value: item(10, 30).encode()
        }]
    );
    let plan = MutationRoot::plan_move_item(&None, &id(3), &id(1), &id(2), 30).unwrap();
    assert!(!plan.found && plan.writes.is_empty());
    assert_eq!(
        MutationRoot::plan_move_item(&Some(vec![0; 24]), &id(3), &id(1), &id(2), 30).err(),
        Some(Error::Record(DecodeError::Truncated))
    );
}

#[test]
fn item_delete_removes_record_then_image() {
    let plan = MutationRoot::plan_delete_item(true, &id(1), &id(2));
    assert!(plan.found);
    assert_eq!(
        plan.writes,
        vec![
            Write::Delete { key: encode_pair(Tag::Item, &id(1), &id(2)) },
            Write::Delete { key: encode_pair(Tag::ItemImage, &id(1), &id(2)) },
        ]
    );
}

#[test]
fn location_delete_goes_first_then_the_containers_in_key_order() {
    let linked = |updated| ContainerRecord {
        created: 10,
        updated,
        name: None,
        location: Some(id(5)),
    };
    let unlinked = |updated| ContainerRecord { created: 10, updated, name: None, location: None };
    let elsewhere =
        ContainerRecord { created: 10, updated: 20, name: None, location: Some(id(6)) };
    let containers = vec![
        Entry { key: encode(Tag::Container, &id(1)), value: linked(20).encode() },
        Entry { key: encode(Tag::Container, &id(2)), value: elsewhere.encode() },
        Entry { key: encode(Tag::Container, &id(3)), value: unlinked(20).encode() },
        Entry { key: encode(Tag::Container, &id(4)), value: linked(50).encode() },
    ];
    let plan = MutationRoot::plan_delete_location(true, &id(5), &containers, 30).unwrap();
    assert!(plan.found);
    assert_eq!(
        plan.writes,
        vec![
            Write::Delete { key: encode(Tag::Location, &id(5)) },
            Write::Put { key: encode(Tag::Container, &id(1)), value: unlinked(30).encode() },
            Write::Put { key: encode(Tag::Container, &id(4)), value: unlinked(30).encode() },
        ]
    );
    let plan = MutationRoot::plan_delete_location(false, &id(5), &containers, 30).unwrap();
    assert!(!plan.found && plan.writes.is_empty());
}

#[test]
fn location_changes_are_one_write_each() {
    assert_eq!(
        MutationRoot::plan_add_location(&id(5), "Cellar"),
        vec![Write::Put { key: encode(Tag::Location, &id(5)), value: b"Cellar".to_vec() }]
    );
    let plan = MutationRoot::plan_update_location(true, &id(5), "Attic");
    assert!(plan.found);
    assert_eq!(
        plan.writes,
        vec![Write::Put { key: encode(Tag::Location, &id(5)), value: b"Attic".to_vec() }]
    );
    let plan = MutationRoot::plan_update_location(false, &id(5), "Attic");
    assert!(!plan.found && plan.writes.is_empty());
}

#[test]
fn owner_is_found_in_the_first_key_that_ends_with_the_item() {
    let entries = vec![
        Entry { key: encode_pair(Tag::Item, &id(1), &id(7)), value: vec![] },
        Entry { key: encode_pair(Tag::Item, &id(2), &id(8)), value: vec![0xff] },
        Entry { key: encode_pair(Tag::Item, &id(3), &id(8)), value: vec![] },
        Entry { key: vec![10, 1], value: vec![] },
    ];
    assert_eq!(QueryRoot::find_owner(&entries, &id(7)), Ok(Some(id(1))));
    assert_eq!(QueryRoot::find_owner(&entries, &id(8)), Ok(Some(id(2))));
    assert_eq!(
        QueryRoot::find_owner(&entries, &id(9)),
        Err(Error::Key(homebox::key::KeyError::BadLength))
    );
    assert_eq!(QueryRoot::find_owner(&entries[..3].to_vec(), &id(9)), Ok(None));
    assert_eq!(QueryRoot::find_owner(&vec![], &id(9)), Ok(None));
}

#[test]
fn item_update_and_move_stamp_the_time_of_the_call() {
    let stored = Some(item(10, 50).encode());
    let patch = ItemPatch { name: Some("X".to_string()), description: None, quantity: None };
    let plan = MutationRoot::plan_update_item(&stored, &id(1), &id(2), &patch, 30).unwrap();
    let mut after = item(10, 30);
    after.name = "X".to_string();
    assert_eq!(
        plan.writes,
        vec![Write::Put { key: encode_pair(Tag::Item, &id(1), &id(2)), value: after.encode() }]
    );
    let plan = MutationRoot::plan_move_item(&stored, &id(2), &id(1), &id(3), 30).unwrap();
    assert_eq!(
        plan.writes[0],
        Write::Put { key: encode_pair(Tag::Item, &id(3), &id(2)), value: item(10, 30).encode() }
    );
    let plan = MutationRoot::plan_move_item(&stored, &id(2), &id(1), &id(3), 5).unwrap();
    assert_eq!(
        plan.writes[0],
        Write::Put { key: encode_pair(Tag::Item, &id(3), &id(2)), value: item(10, 10).encode() }
    );
}

#[test]
fn container_is_read_from_what_was_read() {
    let record = ContainerRecord {
        created: 10,
        updated: 20,
        name: Some("Garage".to_string()),
        location: Some(id(5)),
    };
    let stored = Some(record.encode());
    assert_eq!(QueryRoot::location_key_of(&stored), Some(encode(Tag::Location, &id(5))));
    assert_eq!(QueryRoot::location_key_of(&None), None);
    assert_eq!(QueryRoot::location_key_of(&Some(vec![1])), None);
    let bare = ContainerRecord { created: 10, updated: 20, name: None, location: None };
    assert_eq!(QueryRoot::location_key_of(&Some(bare.encode())), None);

    let got = QueryRoot::read_container_at(&id(1), &stored, &Some(b"Cellar".to_vec()))
        .unwrap()
        .unwrap();
    assert_eq!(got.id, id(1));
    assert_eq!(got.created, 10);
    assert_eq!(got.updated, 20);
    assert_eq!(got.name.as_deref(), Some("Garage"));
    assert_eq!(got.location.as_ref().unwrap().id, id(5));
    assert_eq!(got.location.as_ref().unwrap().name, "Cellar");
    let dangling = QueryRoot::read_container_at(&id(1), &stored, &None).unwrap().unwrap();
    assert_eq!(dangling.location, None);
    assert_eq!(QueryRoot::read_container_at(&id(1), &None, &None), Ok(None));
    assert_eq!(
        QueryRoot::read_container_at(&id(1), &Some(vec![1]), &None),
        Err(Error::Record(DecodeError::Truncated))
    );
    assert_eq!(
        QueryRoot::read_container_at(&id(1), &stored, &Some(vec![0xff])),
        Err(Error::Record(DecodeError::BadText))
    );
}

#[test]
fn item_is_read_from_what_was_read() {
    let container = ContainerRecord { created: 1, updated: 2, name: None, location: None };
    let stored = Some(item(10, 20).encode());
    let got = QueryRoot::read_item_at(&id(1), &id(2), &stored, &Some(container.encode()), &None)
        .unwrap()
        .unwrap();
    assert_eq!(got.id, id(2));
    assert_eq!(got.container_id, id(1));
    assert_eq!(got.name, "Drill");
    assert_eq!(got.quantity, 4);
    assert_eq!(got.description.as_deref(), Some("red"));
    assert_eq!(got.container.as_ref().unwrap().id, id(1));
    let orphan = QueryRoot::read_item_at(&id(1), &id(2), &stored, &None, &None).unwrap().unwrap();
    assert_eq!(orphan.container_id, id(1));
    assert_eq!(orphan.container, None);
    assert_eq!(QueryRoot::read_item_at(&id(1), &id(2), &None, &None, &None), Ok(None));
    assert_eq!(
        QueryRoot::read_item_at(&id(1), &id(2), &Some(vec![]), &None, &None),
        Err(Error::Record(DecodeError::Truncated))
    );
    assert_eq!(
        QueryRoot::read_item_at(&id(1), &id(2), &stored, &Some(vec![9]), &None),
        Err(Error::Record(DecodeError::Truncated))
    );
}
