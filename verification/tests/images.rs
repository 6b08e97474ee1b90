use homebox::images::{
    delete_container_image, delete_item_image, fetch_container_image, fetch_item_image,
    plan_delete_container_image, plan_delete_item_image, plan_upload_container_image,
    plan_upload_item_image, upload_container_image, upload_item_image, Unauthorized,
};
use homebox::key::{encode, encode_pair, Id, Tag};
use homebox::store::{RecordStore, Write};
use homebox::user_session::{issue, revoke};

fn id(fill: u8) -> Id {
    Id::from_bytes([fill; 16])
}

#[test]
fn container_image_is_kept_under_the_key_of_its_owner() {
    let mut store = RecordStore::new();
    let token = Some(issue(&mut store));
    let c = id(1);
    assert_eq!(fetch_container_image(&store, &token, &c), Ok(None));
    assert_eq!(upload_container_image(&mut store, &token, &c, vec![0xff, 0xd8]), Ok(()));
    assert_eq!(store.get(&encode(Tag::ContainerImage, &c)), Some(vec![0xff, 0xd8]));
    assert_eq!(fetch_container_image(&store, &token, &c), Ok(Some(vec![0xff, 0xd8])));
    assert_eq!(upload_container_image(&mut store, &token, &c, vec![]), Ok(()));
    assert_eq!(fetch_container_image(&store, &token, &c), Ok(Some(vec![])));
    assert_eq!(delete_container_image(&mut store, &token, &c), Ok(()));
    assert_eq!(fetch_container_image(&store, &token, &c), Ok(None));
    assert_eq!(delete_container_image(&mut store, &token, &c), Ok(()));
}

#[test]
fn item_image_is_kept_under_the_key_of_its_owner() {
    let mut store = RecordStore::new();
    let token = Some(issue(&mut store));
    let c = id(1);
    let i = id(2);
    assert_eq!(upload_item_image(&mut store, &token, &c, &i, vec![1, 2, 3]), Ok(()));
    assert_eq!(store.get(&encode_pair(Tag::ItemImage, &c, &i)), Some(vec![1, 2, 3]));
    assert_eq!(fetch_item_image(&store, &token, &c, &i), Ok(Some(vec![1, 2, 3])));
    assert_eq!(fetch_item_image(&store, &token, &i, &c), Ok(None));
    assert_eq!(delete_item_image(&mut store, &token, &c, &i), Ok(()));
    assert_eq!(fetch_item_image(&store, &token, &c, &i), Ok(None));
}

#[test]
fn images_are_for_valid_tokens_only() {
    let mut store = RecordStore::new();
    let t = issue(&mut store);
    let c = id(1);
    let i = id(2);
    upload_container_image(&mut store, &Some(t), &c, vec![1]).unwrap();
    upload_item_image(&mut store, &Some(t), &c, &i, vec![2]).unwrap();
    for token in [None, Some(id(9))] {
        assert_eq!(fetch_container_image(&store, &token, &c), Err(Unauthorized));
        assert_eq!(fetch_item_image(&store, &token, &c, &i), Err(Unauthorized));
        assert_eq!(upload_container_image(&mut store, &token, &c, vec![7]), Err(Unauthorized));
        assert_eq!(upload_item_image(&mut store, &token, &c, &i, vec![7]), Err(Unauthorized));
        assert_eq!(delete_container_image(&mut store, &token, &c), Err(Unauthorized));
        assert_eq!(delete_item_image(&mut store, &token, &c, &i), Err(Unauthorized));
    }
    assert_eq!(fetch_container_image(&store, &Some(t), &c), Ok(Some(vec![1])));
    assert_eq!(fetch_item_image(&store, &Some(t), &c, &i), Ok(Some(vec![2])));
    revoke(&mut store, &t);
    assert_eq!(fetch_container_image(&store, &Some(t), &c), Err(Unauthorized));
}

#[test]
fn upload_is_one_write() {
    let c = id(1);
    let i = id(2);
    assert_eq!(
        plan_upload_container_image(&c, vec![5]),
        vec![Write::Put { key: encode(Tag::ContainerImage, &c), value: vec![5] }]
    );
    assert_eq!(
        plan_upload_item_image(&c, &i, vec![6]),
        vec![Write::Put { key: encode_pair(Tag::ItemImage, &c, &i), value: vec![6] }]
    );
}

#[test]
fn image_delete_is_one_write() {
    let c = id(1);
    let i = id(2);
    assert_eq!(
        plan_delete_container_image(&c),
        vec![Write::Delete { key: encode(Tag::ContainerImage, &c) }]
    );
    assert_eq!(
        plan_delete_item_image(&c, &i),
        vec![Write::Delete { key: encode_pair(Tag::ItemImage, &c, &i) }]
    );
}
