use homebox::container::ContainerPatch;
use homebox::key::{encode, Id, Tag};
use homebox::schema::{MutationRoot, QueryRoot};
use homebox::store::RecordStore;
use homebox::user_session::{issue, revoke, verify};

#[test]
fn garage_drill_is_listed_and_moves() {
    let mut store = RecordStore::new();
    let place = MutationRoot::add_location(&mut store, "Home");
    let a = MutationRoot::add_container(&mut store, "Garage", &place);
    let b = MutationRoot::add_container(&mut store, "Attic", &place);
    let i = MutationRoot::add_item(&mut store, &a, "Drill", 1, &None).unwrap();

    let in_a = QueryRoot::items_in_container(&store, &a).unwrap();
    assert_eq!(in_a.len(), 1);
    assert_eq!(in_a[0].id, i);
    assert_eq!(in_a[0].name, "Drill");
    assert_eq!(in_a[0].quantity, 1);
    assert_eq!(in_a[0].container_id, a);
    let holder = in_a[0].container.as_ref().unwrap();
    assert_eq!(holder.id, a);
    assert_eq!(holder.name.as_deref(), Some("Garage"));

    assert_eq!(MutationRoot::move_item(&mut store, &i, &a, &b), Ok(true));

    assert!(QueryRoot::items_in_container(&store, &a).unwrap().is_empty());
    let in_b = QueryRoot::items_in_container(&store, &b).unwrap();
    assert_eq!(in_b.len(), 1);
    assert_eq!(in_b[0].id, i);
    assert_eq!(in_b[0].container_id, b);
    assert_eq!(in_b[0].container.as_ref().unwrap().id, b);
}

#[test]
fn token_is_valid_until_revoked() {
    let mut store = RecordStore::new();
    let t = issue(&mut store);
    assert!(verify(&store, &Some(t)));
    revoke(&mut store, &t);
    assert!(!verify(&store, &Some(t)));
    assert!(!verify(&store, &Some(t)));
}

#[test]
fn deleting_a_container_removes_its_image() {
    let mut store = RecordStore::new();
    let place = Id::from_bytes([7u8; 16]);
    let c = MutationRoot::add_container(&mut store, "Shed", &place);
    store.put(encode(Tag::ContainerImage, &c), vec![0xff, 0xd8, 0xff]);
    assert!(MutationRoot::delete_container(&mut store, &c));
    assert_eq!(QueryRoot::container(&store, &c), Ok(None));
    assert_eq!(store.get(&encode(Tag::ContainerImage, &c)), None);
    assert!(!MutationRoot::delete_container(&mut store, &c));
    let patch = ContainerPatch { name: Some("X".to_string()), location: None };
    assert_eq!(MutationRoot::update_container(&mut store, &c, &patch), Ok(false));
}
