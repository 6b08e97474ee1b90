//! Images of containers and items, kept under keys that mirror the keys of
//! their owners, and the barcodes that label them.
//!
//! An image is an opaque byte string. It is handed out and taken only for a
//! caller whose session token is valid.

use vstd::prelude::*;
use crate::key::{encode, encode_pair, key_one, key_two, Id, Tag};
use crate::store::{changes, lemma_effect_of_few, Change, RecordStore, Write};
use crate::user_session::{valid_in, verify};

verus! {

/// The caller's session token is missing or not valid.
#[derive(Clone, Copy, Debug, PartialEq, Eq, Structural)]
pub struct Unauthorized;

/// The change that stores `data` as the image under `key`.
fn plan_upload(key: Vec<u8>, data: Vec<u8>) -> (writes: Vec<Write>)
    ensures
        changes(writes@) == seq![Change::Put(key@, data@)],
{
    let mut writes: Vec<Write> = Vec::new();
    let ghost put = Change::Put(key@, data@);
    writes.push(Write::Put { key, value: data });
    assert(changes(writes@) =~= seq![put]);
    writes
}

/// The change that removes the image under `key`.
fn plan_removal(key: Vec<u8>) -> (writes: Vec<Write>)
    ensures
        changes(writes@) == seq![Change::Delete(key@)],
{
    let mut writes: Vec<Write> = Vec::new();
    let ghost delete = Change::Delete(key@);
    writes.push(Write::Delete { key });
    assert(changes(writes@) =~= seq![delete]);
    writes
}

/// The change that stores `data` as the image of the container `id`.
pub fn plan_upload_container_image(id: &Id, data: Vec<u8>) -> (writes: Vec<Write>)
    ensures
        changes(writes@) == seq![Change::Put(key_one(Tag::ContainerImage, id@), data@)],
{
    plan_upload(encode(Tag::ContainerImage, id), data)
}

/// The change that stores `data` as the image of the item `id` of `owner`.
pub fn plan_upload_item_image(owner: &Id, id: &Id, data: Vec<u8>) -> (writes: Vec<Write>)
    ensures
        changes(writes@) == seq![Change::Put(key_two(Tag::ItemImage, owner@, id@), data@)],
{
    plan_upload(encode_pair(Tag::ItemImage, owner, id), data)
}

/// The change that removes the image of the container `id`.
pub fn plan_delete_container_image(id: &Id) -> (writes: Vec<Write>)
    ensures
        changes(writes@) == seq![Change::Delete(key_one(Tag::ContainerImage, id@))],
{
    plan_removal(encode(Tag::ContainerImage, id))
}

/// The change that removes the image of the item `id` of `owner`.
pub fn plan_delete_item_image(owner: &Id, id: &Id) -> (writes: Vec<Write>)
    ensures
        changes(writes@) == seq![Change::Delete(key_two(Tag::ItemImage, owner@, id@))],
{
    plan_removal(encode_pair(Tag::ItemImage, owner, id))
}

/// Stores `data` as the image of the container `id`, in place of any image
/// it had, for a caller whose token is valid. Nothing changes for another.
pub fn upload_container_image(
    store: &mut RecordStore,
    token: &Option<Id>,
    id: &Id,
    data: Vec<u8>,
) -> (res: Result<(), Unauthorized>)
    ensures
        res is Ok <==> valid_in(old(store)@, *token),
        final(store)@ == if res is Ok {
            old(store)@.insert(key_one(Tag::ContainerImage, id@), data@)
        } else {
            old(store)@
        },
{
    if !verify(store, token) {
        return Err(Unauthorized);
    }
    let writes = plan_upload_container_image(id, data);
    proof {
        lemma_effect_of_few(store@, changes(writes@)[0], changes(writes@)[0]);
    }
    store.apply(&writes);
    Ok(())
}

/// The image of the container `id`, if it has one, for a caller whose token
/// is valid.
pub fn fetch_container_image(store: &RecordStore, token: &Option<Id>, id: &Id) -> (res: Result<
    Option<Vec<u8>>,
    Unauthorized,
>)
    ensures
        res is Ok <==> valid_in(store@, *token),
        res matches Ok(image) ==> (image is Some <==> store@.contains_key(
            key_one(Tag::ContainerImage, id@),
        )),
        res matches Ok(Some(data)) ==> data@ == store@[key_one(Tag::ContainerImage, id@)],
{
    if !verify(store, token) {
        return Err(Unauthorized);
    }
    Ok(store.get(encode(Tag::ContainerImage, id).as_slice()))
}

/// Removes the image of the container `id`, whether it has one or not, for
/// a caller whose token is valid. Nothing changes for another.
pub fn delete_container_image(store: &mut RecordStore, token: &Option<Id>, id: &Id) -> (res:
    Result<(), Unauthorized>)
    ensures
        res is Ok <==> valid_in(old(store)@, *token),
        final(store)@ == if res is Ok {
            old(store)@.remove(key_one(Tag::ContainerImage, id@))
        } else {
            old(store)@
        },
{
    if !verify(store, token) {
        return Err(Unauthorized);
    }
    let writes = plan_delete_container_image(id);
    proof {
        lemma_effect_of_few(store@, changes(writes@)[0], changes(writes@)[0]);
    }
    store.apply(&writes);
    Ok(())
}

/// Stores `data` as the image of the item `id` of `owner`, in place of any
/// image it had, for a caller whose token is valid. Nothing changes for
/// another.
pub fn upload_item_image(
    store: &mut RecordStore,
    token: &Option<Id>,
    owner: &Id,
    id: &Id,
    data: Vec<u8>,
) -> (res: Result<(), Unauthorized>)
    ensures
        res is Ok <==> valid_in(old(store)@, *token),
        final(store)@ == if res is Ok {
            old(store)@.insert(key_two(Tag::ItemImage, owner@, id@), data@)
        } else {
            old(store)@
        },
{
    if !verify(store, token) {
        return Err(Unauthorized);
    }
    let writes = plan_upload_item_image(owner, id, data);
    proof {
        lemma_effect_of_few(store@, changes(writes@)[0], changes(writes@)[0]);
    }
    store.apply(&writes);
    Ok(())
}

/// The image of the item `id` of `owner`, if it has one, for a caller whose
/// token is valid.
pub fn fetch_item_image(store: &RecordStore, token: &Option<Id>, owner: &Id, id: &Id) -> (res:
    Result<Option<Vec<u8>>, Unauthorized>)
    ensures
        res is Ok <==> valid_in(store@, *token),
        res matches Ok(image) ==> (image is Some <==> store@.contains_key(
            key_two(Tag::ItemImage, owner@, id@),
        )),
        res matches Ok(Some(data)) ==> data@ == store@[key_two(Tag::ItemImage, owner@, id@)],
{
    if !verify(store, token) {
        return Err(Unauthorized);
    }
    Ok(store.get(encode_pair(Tag::ItemImage, owner, id).as_slice()))
}

/// Removes the image of the item `id` of `owner`, whether it has one or
/// not, for a caller whose token is valid. Nothing changes for another.
pub fn delete_item_image(store: &mut RecordStore, token: &Option<Id>, owner: &Id, id: &Id) -> (res:
    Result<(), Unauthorized>)
    ensures
        res is Ok <==> valid_in(old(store)@, *token),
        final(store)@ == if res is Ok {
            old(store)@.remove(key_two(Tag::ItemImage, owner@, id@))
        } else {
            old(store)@
        },
{
    if !verify(store, token) {
        return Err(Unauthorized);
    }
    let writes = plan_delete_item_image(owner, id);
    proof {
        lemma_effect_of_few(store@, changes(writes@)[0], changes(writes@)[0]);
    }
    store.apply(&writes);
    Ok(())
}

} // verus!
