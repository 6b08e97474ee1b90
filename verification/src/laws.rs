//! What holds of the accessors together: what is written is read back, a
//! scan stays within its owner, an update touches only what it names, a
//! second delete finds nothing, and a moved item lies in one place.

use vstd::prelude::*;
use vstd::utf8::{decode_utf8_encode_utf8, encode_utf8};
use crate::container::{
    container_at,
    container_reader,
    containers_in,
    delete_location_plan,
    find_location,
    joined,
    new_container,
    patched_container,
    unlink_entry,
    unlink_reader,
    unlinked_container,
    update_container_plan,
};
use crate::item::{
    find_container,
    item_at,
    item_joined,
    item_reader,
    items_in,
    move_item_plan,
    moved_item,
    new_item,
    one_or_none,
    patched_item,
    update_item_plan,
};
use crate::key::{
    key_fault,
    key_fault_as,
    key_one,
    key_two,
    lemma_key_two_injective,
    lemma_owner_isolation,
    lemma_tag_bytes_distinct,
    tag_prefix,
    Id,
    Key,
    Tag,
};
use crate::location::{location_at, location_reader, locations_in};
use crate::record::{
    container_bytes,
    item_bytes,
    lemma_container_canonical,
    lemma_container_round_trip,
    lemma_item_canonical,
    lemma_item_round_trip,
    lemma_location_round_trip,
    location_bytes,
    opt_id,
    parse_container,
    parse_item,
    parse_location,
    ContainerData,
    DecodeError,
    ItemData,
};
use crate::schema::{
    carried_out,
    collect,
    lemma_collect_each,
    lemma_collect_faults,
    stored_at,
    ContainerView,
    Error,
    ItemView,
    LocationView,
};
use crate::stamp::spec_bump;
use crate::store::{effect_of, lemma_effect_of_few, lemma_listing_exists, scan_of, Change};
use crate::user_session::session_key;

verus! {

/// What was encoded is decoded: the bytes of a key that holds as many
/// identifiers as its collection asks for have no fault, in general and as a
/// key of that collection.
pub proof fn law_encoding_decodes(key: Key)
    requires
        key.wf(),
    ensures
        key_fault(key.encoding()) is None,
        key_fault_as(key.tag, key.encoding()) is None,
{
    lemma_tag_bytes_distinct(key.tag, key.tag);
    assert(key.encoding()[0] == key.tag.spec_byte());
}


/// The anchor of a collection matches the keys of that collection and of no
/// other.
pub proof fn law_tag_isolation(tag: Tag, other_tag: Tag, first: Id, second: Id)
    ensures
        tag_prefix(tag).is_prefix_of(key_one(other_tag, first@)) <==> tag == other_tag,
        tag_prefix(tag).is_prefix_of(key_two(other_tag, first@, second@)) <==> tag == other_tag,
{
    lemma_tag_bytes_distinct(tag, other_tag);
    let one = key_one(other_tag, first@);
    let two = key_two(other_tag, first@, second@);
    assert(one.subrange(0, 1) =~= seq![other_tag.spec_byte()]);
    assert(two.subrange(0, 1) =~= seq![other_tag.spec_byte()]);
    if tag != other_tag {
        assert(tag_prefix(tag)[0] != one.subrange(0, 1)[0]);
        assert(tag_prefix(tag)[0] != two.subrange(0, 1)[0]);
    }
}


/// A complete key of a collection is never the anchor of a longer key of
/// that collection: all its keys have one length.
pub proof fn law_fixed_width(a: Key, b: Key)
    requires
        a.wf(),
        b.wf(),
        a.tag == b.tag,
    ensures
        a.encoding().len() == b.encoding().len(),
        a.encoding().is_prefix_of(b.encoding()) ==> a.encoding() == b.encoding(),
{
    if a.encoding().is_prefix_of(b.encoding()) {
        assert(b.encoding().subrange(0, b.encoding().len() as int) =~= b.encoding());
    }
}


/// Stored bytes that hold a record are the stored form of that record, and
/// of no other: a record has one stored form only, and what is read from it
/// is well formed.
pub proof fn law_stored_forms_canonical(b: Seq<u8>)
    ensures
        parse_location(b) matches Ok(name) ==> location_bytes(name) == b,
        parse_container(b) matches Ok(d) ==> d.wf() && container_bytes(d) == b,
        parse_item(b) matches Ok(d) ==> d.wf() && item_bytes(d) == b,
{
    if parse_location(b) is Ok {
        decode_utf8_encode_utf8(b);
    }
    if parse_container(b) is Ok {
        lemma_container_canonical(b);
    }
    if parse_item(b) is Ok {
        lemma_item_canonical(b);
    }
}

/// A location that was stored is read back with the name it was given.
pub proof fn law_location_round_trip(before: Map<Seq<u8>, Seq<u8>>, id: Id, name: Seq<char>)
    ensures
        location_at(before.insert(key_one(Tag::Location, id@), location_bytes(name)), id@) == Ok::<
            Option<LocationView>,
            Error,
        >(Some(LocationView { id: id@, name })),
{
    lemma_location_round_trip(name);
}

/// A container that was created is read back with the name it was given and
/// with both stamps at the time of its creation; its location is what the
/// store holds of the location it refers to.
pub proof fn law_container_round_trip(
    before: Map<Seq<u8>, Seq<u8>>,
    id: Id,
    now: i64,
    name: Seq<char>,
    location: Id,
)
    requires
        location_at(before, location@) is Ok,
    ensures
        container_at(
            before.insert(
                key_one(Tag::Container, id@),
                container_bytes(new_container(now, name, location@)),
            ),
            id@,
        ) == Ok::<Option<ContainerView>, Error>(
            Some(
                joined(
                    id@,
                    new_container(now, name, location@),
                    location_at(before, location@)->Ok_0,
                ),
            ),
        ),
{
    let d = new_container(now, name, location@);
    lemma_container_round_trip(d);
    let after = before.insert(key_one(Tag::Container, id@), container_bytes(d));
    lemma_tags_apart(Tag::Location, location@, Tag::Container, id@);
    assert(location_at(after, location@) == location_at(before, location@));
}

/// An item that was created is read back with the fields it was given,
/// with both stamps at the time of its creation, under the identifier of
/// its container, and with what the store holds of that container.
pub proof fn law_item_round_trip(
    before: Map<Seq<u8>, Seq<u8>>,
    owner: Id,
    id: Id,
    now: i64,
    name: Seq<char>,
    quantity: u64,
    description: Option<Seq<char>>,
)
    requires
        container_at(before, owner@) is Ok,
        new_item(now, name, quantity, description).wf(),
    ensures
        item_at(
            before.insert(
                key_two(Tag::Item, owner@, id@),
                item_bytes(new_item(now, name, quantity, description)),
            ),
            owner@,
            id@,
        ) == Ok::<Option<ItemView>, Error>(
            Some(
                item_joined(
                    owner@,
                    id@,
                    new_item(now, name, quantity, description),
                    container_at(before, owner@)->Ok_0,
                ),
            ),
        ),
{
    let d = new_item(now, name, quantity, description);
    lemma_item_round_trip(d);
    let key = key_two(Tag::Item, owner@, id@);
    let after = before.insert(key, item_bytes(d));
    lemma_container_untouched(before, owner@, key, item_bytes(d));
    assert(key[0] == Tag::Item.spec_byte());
    assert(key_one(Tag::Container, owner@)[0] == Tag::Container.spec_byte());
    assert(container_at(after, owner@) == container_at(before, owner@));
}

/// Writing under a key that opens with another tag than those of containers
/// and locations changes nothing of what the store holds of a container.
proof fn lemma_container_untouched(
    before: Map<Seq<u8>, Seq<u8>>,
    id: Seq<u8>,
    key: Seq<u8>,
    value: Seq<u8>,
)
    requires
        key.len() > 0,
        key[0] != Tag::Container.spec_byte(),
        key[0] != Tag::Location.spec_byte(),
    ensures
        container_at(before.insert(key, value), id) == container_at(before, id),
        container_at(before.remove(key), id) == container_at(before, id),
{
    assert(key_one(Tag::Container, id)[0] == Tag::Container.spec_byte());
    assert forall|reference: Seq<u8>|
        location_at(before.insert(key, value), reference) == location_at(before, reference)
        && location_at(before.remove(key), reference) == location_at(before, reference) by {
        assert(key_one(Tag::Location, reference)[0] == Tag::Location.spec_byte());
    }
}

/// Keys of one identifier that open with different tags differ.
proof fn lemma_tags_apart(a: Tag, first: Seq<u8>, b: Tag, second: Seq<u8>)
    requires
        a != b,
    ensures
        key_one(a, first) != key_one(b, second),
{
    lemma_tag_bytes_distinct(a, b);
    assert(key_one(a, first)[0] == a.spec_byte());
    assert(key_one(b, second)[0] == b.spec_byte());
}

/// A scan anchored at one container never yields an item of another: in a
/// store of finitely many keys, no key of the scan under the anchor of
/// `owner` is the key of an item of `other`.
pub proof fn law_prefix_isolation(
    contents: Map<Seq<u8>, Seq<u8>>,
    owner: Id,
    other: Id,
    item: Id,
)
    requires
        contents.dom().finite(),
        owner != other,
    ensures
        forall|i: int|
            0 <= i < scan_of(contents, key_one(Tag::Item, owner@)).len() ==> (#[trigger] scan_of(
                contents,
                key_one(Tag::Item, owner@),
            )[i]).0 != key_two(Tag::Item, other@, item@),
{
    lemma_listing_exists(contents, key_one(Tag::Item, owner@));
    lemma_owner_isolation(Tag::Item, owner, Tag::Item, other, item);
}

/// A scan anchored at one container yields every item of that container
/// that the store holds, with what the store holds of it.
pub proof fn law_scan_complete(contents: Map<Seq<u8>, Seq<u8>>, owner: Id, item: Id)
    requires
        contents.dom().finite(),
        contents.contains_key(key_two(Tag::Item, owner@, item@)),
    ensures
        exists|i: int|
            0 <= i < scan_of(contents, key_one(Tag::Item, owner@)).len() && (#[trigger] scan_of(
                contents,
                key_one(Tag::Item, owner@),
            )[i]) == (
                key_two(Tag::Item, owner@, item@),
                contents[key_two(Tag::Item, owner@, item@)],
            ),
{
    let found = lemma_listing_exists(contents, key_one(Tag::Item, owner@));
    lemma_owner_isolation(Tag::Item, owner, Tag::Item, owner, item);
    let key = key_two(Tag::Item, owner@, item@);
    assert(crate::store::lists_key(found, key));
    let i = choose|i: int| 0 <= i < found.len() && (#[trigger] found[i]).0 == key;
    assert(found[i] == (key, contents[key]));
}

/// An update changes the fields that it names and the `updated` stamp, and
/// nothing else: the fields of the container that it does not name are as
/// they were, and so is every other key of the store.
pub proof fn law_update_container_partial(
    before: Map<Seq<u8>, Seq<u8>>,
    after: Map<Seq<u8>, Seq<u8>>,
    id: Id,
    name: Option<Seq<char>>,
    location: Option<Id>,
    now: i64,
)
    requires
        carried_out(
            before,
            after,
            Ok::<bool, Error>(true),
            update_container_plan(
                stored_at(before, key_one(Tag::Container, id@)),
                id@,
                name,
                opt_id(location),
                now,
            ),
        ),
    ensures
        before.contains_key(key_one(Tag::Container, id@)),
        after.contains_key(key_one(Tag::Container, id@)),
        parse_container(before[key_one(Tag::Container, id@)]) is Ok,
        parse_container(after[key_one(Tag::Container, id@)]) is Ok,
        ({
            let was = parse_container(before[key_one(Tag::Container, id@)])->Ok_0;
            let is = parse_container(after[key_one(Tag::Container, id@)])->Ok_0;
            &&& is.name == if name is Some {
                name
            } else {
                was.name
            }
            &&& is.location == if location is Some {
                opt_id(location)
            } else {
                was.location
            }
            &&& is.updated == spec_bump(was.created, now)
            &&& now >= was.created ==> is.updated == now
            &&& is.created == was.created
        }),
        after.remove(key_one(Tag::Container, id@)) == before.remove(key_one(Tag::Container, id@)),
{
    let key = key_one(Tag::Container, id@);
    let was = parse_container(before[key])->Ok_0;
    lemma_container_canonical(before[key]);
    let is = patched_container(was, name, opt_id(location), now);
    lemma_container_round_trip(is);
    let put = Change::Put(key, container_bytes(is));
    lemma_effect_of_few(before, put, put);
    assert(after.remove(key) =~= before.remove(key));
}

/// An update changes the fields that it names and the `updated` stamp, and
/// nothing else: the fields of the item that it does not name are as they
/// were, and so is every other key of the store.
pub proof fn law_update_item_partial(
    before: Map<Seq<u8>, Seq<u8>>,
    after: Map<Seq<u8>, Seq<u8>>,
    owner: Id,
    id: Id,
    name: Option<Seq<char>>,
    description: Option<Seq<char>>,
    quantity: Option<u64>,
    now: i64,
)
    requires
        carried_out(
            before,
            after,
            Ok::<bool, Error>(true),
            update_item_plan(
                stored_at(before, key_two(Tag::Item, owner@, id@)),
                owner@,
                id@,
                name,
                description,
                quantity,
                now,
            ),
        ),
        description matches Some(text) ==> encode_utf8(text).len() <= u64::MAX,
    ensures
        before.contains_key(key_two(Tag::Item, owner@, id@)),
        after.contains_key(key_two(Tag::Item, owner@, id@)),
        parse_item(before[key_two(Tag::Item, owner@, id@)]) is Ok,
        parse_item(after[key_two(Tag::Item, owner@, id@)]) is Ok,
        ({
            let was = parse_item(before[key_two(Tag::Item, owner@, id@)])->Ok_0;
            let is = parse_item(after[key_two(Tag::Item, owner@, id@)])->Ok_0;
            &&& is.name == if name is Some {
                name->Some_0
            } else {
                was.name
            }
            &&& is.description == if description is Some {
                description
            } else {
                was.description
            }
            &&& is.quantity == if quantity is Some {
                quantity->Some_0
            } else {
                was.quantity
            }
            &&& is.updated == spec_bump(was.created, now)
            &&& now >= was.created ==> is.updated == now
            &&& is.created == was.created
        }),
        after.remove(key_two(Tag::Item, owner@, id@)) == before.remove(
            key_two(Tag::Item, owner@, id@),
        ),
{
    let key = key_two(Tag::Item, owner@, id@);
    let was = parse_item(before[key])->Ok_0;
    lemma_item_canonical(before[key]);
    let is = patched_item(was, name, description, quantity, now);
    lemma_item_round_trip(is);
    let put = Change::Put(key, item_bytes(is));
    lemma_effect_of_few(before, put, put);
    assert(after.remove(key) =~= before.remove(key));
}

/// Every record that the accessors write is stamped with the time of the
/// writing: a new record is created and updated at that time, and a record
/// that is written again keeps the time of its creation and is updated at
/// the time of the writing. Only where the clock reads before the creation
/// is the record updated at the time of its creation, so that the stamps
/// stay in order.
pub proof fn law_stamped_with_now(d: ContainerData, e: ItemData, now: i64)
    ensures
        forall|name: Seq<char>, location: Seq<u8>|
            (#[trigger] new_container(now, name, location)).created == now && new_container(
                now,
                name,
                location,
            ).updated == now,
        forall|name: Seq<char>, quantity: u64, text: Option<Seq<char>>|
            (#[trigger] new_item(now, name, quantity, text)).created == now && new_item(
                now,
                name,
                quantity,
                text,
            ).updated == now,
        forall|name: Option<Seq<char>>, location: Option<Seq<u8>>|
            written_at(
                d.created,
                (#[trigger] patched_container(d, name, location, now)).created,
                patched_container(d, name, location, now).updated,
                now,
            ),
        forall|name: Option<Seq<char>>, text: Option<Seq<char>>, quantity: Option<u64>|
            written_at(
                e.created,
                (#[trigger] patched_item(e, name, text, quantity, now)).created,
                patched_item(e, name, text, quantity, now).updated,
                now,
            ),
        written_at(e.created, moved_item(e, now).created, moved_item(e, now).updated, now),
        written_at(
            d.created,
            unlinked_container(d, now).created,
            unlinked_container(d, now).updated,
            now,
        ),
{
}

/// A record that was created at `was_created` and is written at `now` has
/// the stamps `created` and `updated`.
pub open spec fn written_at(was_created: i64, created: i64, updated: i64, now: i64) -> bool {
    &&& created == was_created
    &&& created <= updated
    &&& now >= was_created ==> updated == now
    &&& now < was_created ==> updated == was_created
}

/// After a container was deleted, deleting it again finds nothing and
/// changes nothing.
pub proof fn law_delete_container_idempotent(before: Map<Seq<u8>, Seq<u8>>, id: Id)
    ensures
        ({
            let once = before.remove(key_one(Tag::Container, id@)).remove(
                key_one(Tag::ContainerImage, id@),
            );
            &&& !once.contains_key(key_one(Tag::Container, id@))
            &&& !once.contains_key(key_one(Tag::ContainerImage, id@))
            &&& once.remove(key_one(Tag::Container, id@)).remove(
                key_one(Tag::ContainerImage, id@),
            ) == once
        }),
{
    let once = before.remove(key_one(Tag::Container, id@)).remove(
        key_one(Tag::ContainerImage, id@),
    );
    assert(once.remove(key_one(Tag::Container, id@)).remove(key_one(Tag::ContainerImage, id@))
        =~= once);
}

/// After an item was deleted, deleting it again finds nothing and changes
/// nothing.
pub proof fn law_delete_item_idempotent(before: Map<Seq<u8>, Seq<u8>>, owner: Id, id: Id)
    ensures
        ({
            let once = before.remove(key_two(Tag::Item, owner@, id@)).remove(
                key_two(Tag::ItemImage, owner@, id@),
            );
            &&& !once.contains_key(key_two(Tag::Item, owner@, id@))
            &&& !once.contains_key(key_two(Tag::ItemImage, owner@, id@))
            &&& once.remove(key_two(Tag::Item, owner@, id@)).remove(
                key_two(Tag::ItemImage, owner@, id@),
            ) == once
        }),
{
    let once = before.remove(key_two(Tag::Item, owner@, id@)).remove(
        key_two(Tag::ItemImage, owner@, id@),
    );
    assert(once.remove(key_two(Tag::Item, owner@, id@)).remove(
        key_two(Tag::ItemImage, owner@, id@),
    ) =~= once);
}

/// After a token was revoked it is not valid, and revoking it again changes
/// nothing: no token comes back by itself.
pub proof fn law_revoke_idempotent(before: Map<Seq<u8>, Seq<u8>>, token: Id)
    ensures
        !before.remove(session_key(token@)).contains_key(session_key(token@)),
        before.remove(session_key(token@)).remove(session_key(token@)) == before.remove(
            session_key(token@),
        ),
{
    assert(before.remove(session_key(token@)).remove(session_key(token@)) =~= before.remove(
        session_key(token@),
    ));
}

/// The steps that take a location out of the containers that refer to it
/// write under container keys only.
proof fn lemma_unlink_keeps(
    containers: Seq<(Seq<u8>, Seq<u8>)>,
    id: Seq<u8>,
    now: i64,
    contents: Map<Seq<u8>, Seq<u8>>,
    key: Seq<u8>,
)
    requires
        collect(containers, unlink_reader(id, now)) is Ok,
        key.len() > 0,
        key[0] != Tag::Container.spec_byte(),
    ensures
        effect_of(collect(containers, unlink_reader(id, now))->Ok_0, contents).contains_key(key)
            == contents.contains_key(key),
    decreases containers.len(),
{
    let steps = collect(containers, unlink_reader(id, now))->Ok_0;
    if containers.len() > 0 {
        let rest = collect(containers.drop_last(), unlink_reader(id, now))->Ok_0;
        lemma_unlink_keeps(containers.drop_last(), id, now, contents, key);
        if steps != rest {
            assert(steps.drop_last() =~= rest);
            assert(steps.last() matches Change::Put(k, _) && k == containers.last().0);
        }
    }
}

/// After a location was deleted, deleting it again finds nothing and
/// changes nothing.
pub proof fn law_delete_location_idempotent(
    before: Map<Seq<u8>, Seq<u8>>,
    after: Map<Seq<u8>, Seq<u8>>,
    id: Id,
    containers: Seq<(Seq<u8>, Seq<u8>)>,
    now: i64,
    later: Seq<(Seq<u8>, Seq<u8>)>,
    then: i64,
)
    requires
        carried_out(
            before,
            after,
            Ok::<bool, Error>(true),
            delete_location_plan(true, id@, containers, now),
        ),
    ensures
        !after.contains_key(key_one(Tag::Location, id@)),
        delete_location_plan(after.contains_key(key_one(Tag::Location, id@)), id@, later, then)
            == Ok::<(bool, Seq<Change>), Error>((false, Seq::empty())),
        carried_out(
            after,
            after,
            Ok::<bool, Error>(false),
            delete_location_plan(after.contains_key(key_one(Tag::Location, id@)), id@, later, then),
        ),
{
    let key = key_one(Tag::Location, id@);
    let steps = collect(containers, unlink_reader(id@, now))->Ok_0;
    let first = seq![Change::Delete(key)];
    assert(key[0] == Tag::Location.spec_byte());
    lemma_effect_of_concat(first, steps, before);
    lemma_effect_of_few(before, first[0], first[0]);
    lemma_unlink_keeps(containers, id@, now, before.remove(key), key);
    lemma_effect_of_few(after, first[0], first[0]);
}

/// The pair at place `i` holds, under `key`, a container that refers to the
/// location `id`.
spec fn refers_at(
    containers: Seq<(Seq<u8>, Seq<u8>)>,
    id: Seq<u8>,
    now: i64,
    key: Seq<u8>,
    i: int,
) -> bool {
    &&& 0 <= i < containers.len()
    &&& containers[i].0 == key
    &&& unlink_entry(containers[i], id, now) matches Ok(Some(_))
}

/// What the steps that unlink a location leave under one key: the changed
/// record where the key is that of a container that refers to the location,
/// and what was there before under every other key.
proof fn lemma_unlink_effect(
    containers: Seq<(Seq<u8>, Seq<u8>)>,
    id: Seq<u8>,
    now: i64,
    contents: Map<Seq<u8>, Seq<u8>>,
    key: Seq<u8>,
)
    requires
        collect(containers, unlink_reader(id, now)) is Ok,
        forall|i: int, j: int|
            0 <= i < j < containers.len() ==> (#[trigger] containers[i]).0
                != (#[trigger] containers[j]).0,
    ensures
        (forall|i: int| !refers_at(containers, id, now, key, i)) ==> stored_at(
            effect_of(collect(containers, unlink_reader(id, now))->Ok_0, contents),
            key,
        ) == stored_at(contents, key),
        forall|i: int| #[trigger]
            refers_at(containers, id, now, key, i) ==> stored_at(
                effect_of(collect(containers, unlink_reader(id, now))->Ok_0, contents),
                key,
            ) == Some(
                container_bytes(
                    unlinked_container(parse_container(containers[i].1)->Ok_0, now),
                ),
            ),
    decreases containers.len(),
{
    let read = unlink_reader(id, now);
    let steps = collect(containers, read)->Ok_0;
    if containers.len() > 0 {
        let rest = containers.drop_last();
        let last = containers.last();
        let at = containers.len() - 1;
        assert(containers[at] == last);
        assert forall|i: int, j: int| 0 <= i < j < rest.len() implies (#[trigger] rest[i]).0
            != (#[trigger] rest[j]).0 by {
            assert(rest[i] == containers[i] && rest[j] == containers[j]);
        }
        lemma_unlink_effect(rest, id, now, contents, key);
        assert forall|i: int| 0 <= i < rest.len() implies refers_at(rest, id, now, key, i)
            == refers_at(containers, id, now, key, i) by {
            assert(rest[i] == containers[i]);
        }
        if unlink_entry(last, id, now) matches Ok(Some(_)) {
            assert(steps.drop_last() =~= collect(rest, read)->Ok_0);
        }
        if last.0 == key {
            assert forall|i: int| !refers_at(rest, id, now, key, i) by {
                if 0 <= i < rest.len() {
                    assert(rest[i] == containers[i]);
                    assert(containers[i].0 != containers[at].0);
                }
            }
        }
        assert forall|i: int| #[trigger] refers_at(containers, id, now, key, i) implies stored_at(
            effect_of(steps, contents),
            key,
        ) == Some(
            container_bytes(unlinked_container(parse_container(containers[i].1)->Ok_0, now)),
        ) by {
            if i < at {
                assert(refers_at(rest, id, now, key, i));
                assert(containers[i].0 != containers[at].0);
            }
        }
        if forall|i: int| !refers_at(containers, id, now, key, i) {
            assert forall|i: int| !refers_at(rest, id, now, key, i) by {
                if 0 <= i < rest.len() {
                    assert(!refers_at(containers, id, now, key, i));
                }
            }
            assert(!refers_at(containers, id, now, key, at));
        }
    }
}

/// What the deletion of a location leaves: the location is gone, every
/// container that referred to it is stored without the reference and
/// stamped with the time of the deletion, and every other key holds what it
/// held.
pub proof fn law_delete_location_unlinks(
    before: Map<Seq<u8>, Seq<u8>>,
    after: Map<Seq<u8>, Seq<u8>>,
    id: Id,
    now: i64,
    key: Seq<u8>,
)
    requires
        before.dom().finite(),
        carried_out(
            before,
            after,
            Ok::<bool, Error>(true),
            delete_location_plan(
                true,
                id@,
                scan_of(before, tag_prefix(Tag::Container)),
                now,
            ),
        ),
    ensures
        !after.contains_key(key_one(Tag::Location, id@)),
        key != key_one(Tag::Location, id@) ==> stored_at(after, key) == if before.contains_key(key)
            && tag_prefix(Tag::Container).is_prefix_of(key) && parse_container(
            before[key],
        )->Ok_0.location == Some(id@) {
            Some(
                container_bytes(unlinked_container(parse_container(before[key])->Ok_0, now)),
            )
        } else {
            stored_at(before, key)
        },
{
    let gone = key_one(Tag::Location, id@);
    let anchor = tag_prefix(Tag::Container);
    let containers = lemma_listing_exists(before, anchor);
    let read = unlink_reader(id@, now);
    let steps = collect(containers, read)->Ok_0;
    let first = seq![Change::Delete(gone)];
    assert(gone[0] == Tag::Location.spec_byte());
    lemma_effect_of_concat(first, steps, before);
    lemma_effect_of_few(before, first[0], first[0]);
    lemma_unlink_keeps(containers, id@, now, before.remove(gone), gone);
    assert forall|i: int, j: int| 0 <= i < j < containers.len() implies (#[trigger] containers[i]).0
        != (#[trigger] containers[j]).0 by {
        crate::store::lemma_lex_asymmetric(containers[i].0, containers[j].0);
    }
    lemma_unlink_effect(containers, id@, now, before.remove(gone), key);
    lemma_collect_faults(containers, read);
    if key != gone {
        if before.contains_key(key) && anchor.is_prefix_of(key) {
            assert(crate::store::lists_key(containers, key));
            let i = choose|i: int| 0 <= i < containers.len() && (#[trigger] containers[i]).0 == key;
            assert(read(containers[i]) is Ok);
            assert(before[key] == containers[i].1);
            if parse_container(before[key])->Ok_0.location == Some(id@) {
                assert(refers_at(containers, id@, now, key, i));
            } else {
                assert forall|j: int| !refers_at(containers, id@, now, key, j) by {
                    if 0 <= j < containers.len() && containers[j].0 == key {
                        if j < i {
                            assert(containers[j].0 != containers[i].0);
                        } else if i < j {
                            assert(containers[i].0 != containers[j].0);
                        }
                    }
                }
            }
        } else {
            assert forall|j: int| !refers_at(containers, id@, now, key, j) by {
                if 0 <= j < containers.len() && containers[j].0 == key {
                    assert(before.contains_key(containers[j].0));
                    assert(anchor.is_prefix_of(containers[j].0));
                }
            }
        }
    }
}

/// Steps made one after another have the effect of the first ones followed
/// by the effect of the others.
pub proof fn lemma_effect_of_concat(
    first: Seq<Change>,
    second: Seq<Change>,
    contents: Map<Seq<u8>, Seq<u8>>,
)
    ensures
        effect_of(first + second, contents) == effect_of(second, effect_of(first, contents)),
    decreases second.len(),
{
    if second.len() == 0 {
        assert(first + second =~= first);
    } else {
        assert((first + second).drop_last() =~= first + second.drop_last());
        lemma_effect_of_concat(first, second.drop_last(), contents);
    }
}

/// After a move has succeeded the item lies in one place: its record is
/// stored under the key of the new container, as it was but for the
/// `updated` stamp, and, where the containers differ, nothing is stored
/// under the key of the old one. No other key has changed.
pub proof fn law_move_leaves_one(
    before: Map<Seq<u8>, Seq<u8>>,
    after: Map<Seq<u8>, Seq<u8>>,
    id: Id,
    from: Id,
    to: Id,
    now: i64,
)
    requires
        carried_out(
            before,
            after,
            Ok::<bool, Error>(true),
            move_item_plan(stored_at(before, key_two(Tag::Item, from@, id@)), id@, from@, to@, now),
        ),
    ensures
        before.contains_key(key_two(Tag::Item, from@, id@)),
        parse_item(before[key_two(Tag::Item, from@, id@)]) is Ok,
        after.contains_key(key_two(Tag::Item, to@, id@)),
        parse_item(after[key_two(Tag::Item, to@, id@)]) == Ok::<ItemData, DecodeError>(
            moved_item(parse_item(before[key_two(Tag::Item, from@, id@)])->Ok_0, now),
        ),
        from != to ==> !after.contains_key(key_two(Tag::Item, from@, id@)),
        after.remove(key_two(Tag::Item, to@, id@)).remove(key_two(Tag::Item, from@, id@))
            == before.remove(key_two(Tag::Item, to@, id@)).remove(key_two(Tag::Item, from@, id@)),
{
    let old_key = key_two(Tag::Item, from@, id@);
    let new_key = key_two(Tag::Item, to@, id@);
    let was = parse_item(before[old_key])->Ok_0;
    lemma_item_canonical(before[old_key]);
    let is = moved_item(was, now);
    lemma_item_round_trip(is);
    let put = Change::Put(new_key, item_bytes(is));
    let delete = Change::Delete(old_key);
    lemma_effect_of_few(before, put, delete);
    lemma_key_two_injective(Tag::Item, from, id, Tag::Item, to, id);
    crate::key::lemma_id_view_injective(from, to);
    assert(after.remove(new_key).remove(old_key) =~= before.remove(new_key).remove(old_key));
}

/// A move changes nothing of a container or of a location.
pub proof fn law_move_keeps_containers(
    before: Map<Seq<u8>, Seq<u8>>,
    after: Map<Seq<u8>, Seq<u8>>,
    id: Id,
    from: Id,
    to: Id,
    now: i64,
    container: Seq<u8>,
)
    requires
        carried_out(
            before,
            after,
            Ok::<bool, Error>(true),
            move_item_plan(stored_at(before, key_two(Tag::Item, from@, id@)), id@, from@, to@, now),
        ),
    ensures
        container_at(after, container) == container_at(before, container),
{
    let old_key = key_two(Tag::Item, from@, id@);
    let new_key = key_two(Tag::Item, to@, id@);
    let was = parse_item(before[old_key])->Ok_0;
    let value = item_bytes(moved_item(was, now));
    let put = Change::Put(new_key, value);
    let delete = Change::Delete(old_key);
    lemma_effect_of_few(before, put, delete);
    assert(new_key[0] == Tag::Item.spec_byte());
    assert(old_key[0] == Tag::Item.spec_byte());
    lemma_container_untouched(before, container, new_key, value);
    lemma_container_untouched(before.insert(new_key, value), container, old_key, value);
}

/// The first location with an identifier is the only one that has it.
proof fn lemma_find_location(list: Seq<LocationView>, id: Seq<u8>, at: int)
    requires
        0 <= at < list.len(),
        list[at].id == id,
        forall|i: int| 0 <= i < at ==> (#[trigger] list[i]).id != id,
    ensures
        find_location(list, id) == Some(list[at]),
    decreases at,
{
    if at > 0 {
        let rest = list.drop_first();
        assert(list[0].id != id);
        assert forall|i: int| 0 <= i < at - 1 implies (#[trigger] rest[i]).id != id by {
            assert(rest[i] == list[i + 1]);
        }
        lemma_find_location(rest, id, at - 1);
    }
}

/// No location is found where none has the identifier.
proof fn lemma_find_no_location(list: Seq<LocationView>, id: Seq<u8>)
    requires
        forall|i: int| 0 <= i < list.len() ==> (#[trigger] list[i]).id != id,
    ensures
        find_location(list, id) is None,
    decreases list.len(),
{
    if list.len() > 0 {
        let rest = list.drop_first();
        assert(list[0].id != id);
        assert forall|i: int| 0 <= i < rest.len() implies (#[trigger] rest[i]).id != id by {
            assert(rest[i] == list[i + 1]);
        }
        lemma_find_no_location(rest, id);
    }
}

/// The list of all locations and the lookup of one agree: in a store of
/// finitely many keys whose locations are listed as `places`, what the store
/// holds of the location `id` is what `places` holds of it.
pub proof fn law_locations_agree(
    contents: Map<Seq<u8>, Seq<u8>>,
    places: Seq<LocationView>,
    id: Seq<u8>,
)
    requires
        contents.dom().finite(),
        locations_in(scan_of(contents, tag_prefix(Tag::Location))) == Ok::<
            Seq<LocationView>,
            Error,
        >(places),
        id.len() == 16,
    ensures
        location_at(contents, id) == Ok::<Option<LocationView>, Error>(find_location(places, id)),
{
    let anchor = tag_prefix(Tag::Location);
    let found = lemma_listing_exists(contents, anchor);
    let read = location_reader();
    lemma_collect_faults(found, read);
    assert forall|i: int| 0 <= i < found.len() implies !(#[trigger] read(found[i]) matches Ok(
        None,
    )) by {}
    lemma_collect_each(found, read);
    let key = key_one(Tag::Location, id);
    assert forall|i: int| 0 <= i < found.len() implies ((#[trigger] places[i]).id == id
        <==> found[i].0 == key) by {
        assert(read(found[i]) == Ok::<Option<LocationView>, Error>(Some(places[i])));
        assert(found[i].0 =~= key_one(Tag::Location, found[i].0.subrange(1, 17)));
        assert(key.subrange(1, 17) =~= id);
    }
    if contents.contains_key(key) {
        assert(anchor.is_prefix_of(key)) by {
            assert(key.subrange(0, 1) =~= anchor);
        }
        assert(crate::store::lists_key(found, key));
        let at = choose|at: int| 0 <= at < found.len() && (#[trigger] found[at]).0 == key;
        assert(read(found[at]) == Ok::<Option<LocationView>, Error>(Some(places[at])));
        assert forall|i: int| 0 <= i < at implies (#[trigger] places[i]).id != id by {
            crate::store::lemma_lex_asymmetric(found[i].0, found[at].0);
        }
        lemma_find_location(places, id, at);
    } else {
        assert forall|i: int| 0 <= i < places.len() implies (#[trigger] places[i]).id != id by {
            assert(contents.contains_key(found[i].0));
        }
        lemma_find_no_location(places, id);
    }
}

/// The list of all containers and the lookup of one agree: in a store of
/// finitely many keys whose locations are listed as `places` and whose
/// containers are listed as `list`, every stored container is in the list
/// as the lookup yields it, and the list holds nothing else.
pub proof fn law_containers_agree(
    contents: Map<Seq<u8>, Seq<u8>>,
    places: Seq<LocationView>,
    list: Seq<ContainerView>,
    id: Id,
)
    requires
        contents.dom().finite(),
        locations_in(scan_of(contents, tag_prefix(Tag::Location))) == Ok::<
            Seq<LocationView>,
            Error,
        >(places),
        containers_in(scan_of(contents, tag_prefix(Tag::Container)), places) == Ok::<
            Seq<ContainerView>,
            Error,
        >(list),
    ensures
        contents.contains_key(key_one(Tag::Container, id@)) ==> exists|i: int|
            0 <= i < list.len() && container_at(contents, id@) == Ok::<
                Option<ContainerView>,
                Error,
            >(Some(#[trigger] list[i])),
        !contents.contains_key(key_one(Tag::Container, id@)) ==> forall|i: int|
            0 <= i < list.len() ==> (#[trigger] list[i]).id != id@,
        forall|i: int|
            0 <= i < list.len() ==> contents.contains_key(
                key_one(Tag::Container, (#[trigger] list[i]).id),
            ),
{
    let anchor = tag_prefix(Tag::Container);
    let found = lemma_listing_exists(contents, anchor);
    let read = container_reader(places);
    lemma_collect_faults(found, read);
    assert forall|i: int| 0 <= i < found.len() implies !(#[trigger] read(found[i]) matches Ok(
        None,
    )) by {}
    lemma_collect_each(found, read);
    let key = key_one(Tag::Container, id@);
    assert forall|i: int| 0 <= i < found.len() implies (((#[trigger] list[i]).id == id@
        <==> found[i].0 == key) && found[i].0 == key_one(Tag::Container, list[i].id)) by {
        assert(read(found[i]) == Ok::<Option<ContainerView>, Error>(Some(list[i])));
        assert(found[i].0 =~= key_one(Tag::Container, found[i].0.subrange(1, 17)));
        assert(key.subrange(1, 17) =~= id@);
    }
    assert forall|i: int| 0 <= i < list.len() implies contents.contains_key(
        key_one(Tag::Container, (#[trigger] list[i]).id),
    ) by {
        assert(contents.contains_key(found[i].0));
    }
    if contents.contains_key(key) {
        assert(anchor.is_prefix_of(key)) by {
            assert(key.subrange(0, 1) =~= anchor);
        }
        assert(crate::store::lists_key(found, key));
        let at = choose|at: int| 0 <= at < found.len() && (#[trigger] found[at]).0 == key;
        assert(read(found[at]) == Ok::<Option<ContainerView>, Error>(Some(list[at])));
        let d = parse_container(contents[key])->Ok_0;
        if let Some(reference) = d.location {
            law_locations_agree(contents, places, reference);
        }
        assert(container_at(contents, id@) == Ok::<Option<ContainerView>, Error>(
            Some(list[at]),
        ));
    } else {
        assert forall|i: int| 0 <= i < list.len() implies (#[trigger] list[i]).id != id@ by {
            assert(contents.contains_key(found[i].0));
        }
    }
}

/// The list of the items of a container and the lookup of one agree: in a
/// store of finitely many keys whose items under the anchor of `owner` are
/// listed as `list`, every stored item of the container is in the list as
/// the lookup yields it, the list holds nothing else, and it is empty where
/// nothing lies under the anchor, whether the container is stored or not.
pub proof fn law_items_agree(
    contents: Map<Seq<u8>, Seq<u8>>,
    owner: Id,
    list: Seq<ItemView>,
    id: Id,
)
    requires
        contents.dom().finite(),
        container_at(contents, owner@) is Ok,
        items_in(
            scan_of(contents, key_one(Tag::Item, owner@)),
            one_or_none(container_at(contents, owner@)->Ok_0),
        ) == Ok::<Seq<ItemView>, Error>(list),
    ensures
        list.len() == scan_of(contents, key_one(Tag::Item, owner@)).len(),
        contents.contains_key(key_two(Tag::Item, owner@, id@)) ==> exists|i: int|
            0 <= i < list.len() && item_at(contents, owner@, id@) == Ok::<
                Option<ItemView>,
                Error,
            >(Some(#[trigger] list[i])),
        !contents.contains_key(key_two(Tag::Item, owner@, id@)) ==> forall|i: int|
            0 <= i < list.len() ==> (#[trigger] list[i]).id != id@,
        forall|i: int|
            0 <= i < list.len() ==> (#[trigger] list[i]).container_id == owner@
                && contents.contains_key(key_two(Tag::Item, owner@, list[i].id)),
{
    let anchor = key_one(Tag::Item, owner@);
    let found = lemma_listing_exists(contents, anchor);
    let container = container_at(contents, owner@)->Ok_0;
    let read = item_reader(one_or_none(container));
    lemma_collect_faults(found, read);
    assert forall|i: int| 0 <= i < found.len() implies !(#[trigger] read(found[i]) matches Ok(
        None,
    )) by {}
    lemma_collect_each(found, read);
    let key = key_two(Tag::Item, owner@, id@);
    assert(find_container(one_or_none(container), owner@) == container) by {
        match container {
            Some(c) => {
                assert(c.id == owner@);
                assert(one_or_none(container)[0] == c);
            },
            None => {},
        }
    }
    assert forall|i: int| 0 <= i < found.len() implies (((#[trigger] list[i]).id == id@
        <==> found[i].0 == key) && found[i].0 == key_two(Tag::Item, owner@, list[i].id)
        && list[i].container_id == owner@ && list[i].container == container) by {
        assert(read(found[i]) == Ok::<Option<ItemView>, Error>(Some(list[i])));
        assert(anchor.is_prefix_of(found[i].0));
        assert(found[i].0.subrange(0, 17) == anchor);
        assert(found[i].0 =~= found[i].0.subrange(0, 17) + found[i].0.subrange(17, 33));
        assert(found[i].0 =~= key_two(Tag::Item, owner@, found[i].0.subrange(17, 33)));
        assert(found[i].0.subrange(1, 17) =~= anchor.subrange(1, 17));
        assert(anchor.subrange(1, 17) =~= owner@);
        assert(key.subrange(17, 33) =~= id@);
    }
    assert forall|i: int| 0 <= i < list.len() implies (#[trigger] list[i]).container_id == owner@
        && contents.contains_key(key_two(Tag::Item, owner@, list[i].id)) by {
        assert(contents.contains_key(found[i].0));
    }
    if contents.contains_key(key) {
        lemma_owner_isolation(Tag::Item, owner, Tag::Item, owner, id);
        assert(crate::store::lists_key(found, key));
        let at = choose|at: int| 0 <= at < found.len() && (#[trigger] found[at]).0 == key;
        assert(read(found[at]) == Ok::<Option<ItemView>, Error>(Some(list[at])));
        assert(item_at(contents, owner@, id@) == Ok::<Option<ItemView>, Error>(Some(list[at])));
    } else {
        assert forall|i: int| 0 <= i < list.len() implies (#[trigger] list[i]).id != id@ by {
            assert(contents.contains_key(found[i].0));
        }
    }
}

/// The list of all items holds every stored item, once: in a store of
/// finitely many keys whose items are listed as `list` with the containers
/// `containers`, the list has one item for each key of the item collection,
/// in key order, and the item `id` of the container `owner` is in it under
/// both identifiers where it is stored, whether the container is or not.
pub proof fn law_all_items_complete(
    contents: Map<Seq<u8>, Seq<u8>>,
    containers: Seq<ContainerView>,
    list: Seq<ItemView>,
    owner: Id,
    id: Id,
)
    requires
        contents.dom().finite(),
        items_in(scan_of(contents, tag_prefix(Tag::Item)), containers) == Ok::<
            Seq<ItemView>,
            Error,
        >(list),
    ensures
        list.len() == scan_of(contents, tag_prefix(Tag::Item)).len(),
        forall|i: int|
            0 <= i < list.len() ==> (#[trigger] scan_of(contents, tag_prefix(Tag::Item))[i]).0
                == key_two(Tag::Item, list[i].container_id, list[i].id),
        contents.contains_key(key_two(Tag::Item, owner@, id@)) ==> exists|i: int|
            0 <= i < list.len() && (#[trigger] list[i]).id == id@ && list[i].container_id
                == owner@ && parse_item(contents[key_two(Tag::Item, owner@, id@)])
                == Ok::<ItemData, DecodeError>(
                ItemData {
                    created: list[i].created,
                    updated: list[i].updated,
                    name: list[i].name,
                    quantity: list[i].quantity,
                    description: list[i].description,
                },
            ),
{
    let anchor = tag_prefix(Tag::Item);
    let found = lemma_listing_exists(contents, anchor);
    let read = item_reader(containers);
    lemma_collect_faults(found, read);
    assert forall|i: int| 0 <= i < found.len() implies !(#[trigger] read(found[i]) matches Ok(
        None,
    )) by {}
    lemma_collect_each(found, read);
    assert forall|i: int| 0 <= i < list.len() implies (#[trigger] found[i]).0 == key_two(
        Tag::Item,
        list[i].container_id,
        list[i].id,
    ) by {
        assert(read(found[i]) == Ok::<Option<ItemView>, Error>(Some(list[i])));
        assert(found[i].0 =~= key_two(
            Tag::Item,
            found[i].0.subrange(1, 17),
            found[i].0.subrange(17, 33),
        ));
    }
    let key = key_two(Tag::Item, owner@, id@);
    if contents.contains_key(key) {
        assert(anchor.is_prefix_of(key)) by {
            assert(key.subrange(0, 1) =~= anchor);
        }
        assert(crate::store::lists_key(found, key));
        let at = choose|at: int| 0 <= at < found.len() && (#[trigger] found[at]).0 == key;
        assert(read(found[at]) == Ok::<Option<ItemView>, Error>(Some(list[at])));
        assert(key.subrange(1, 17) =~= owner@);
        assert(key.subrange(17, 33) =~= id@);
    }
}

} // verus!
