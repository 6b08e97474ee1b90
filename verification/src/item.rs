//! The collection of items: `tag || container_id || item_id`, holding the
//! item record. The owner comes first in the key, so that a scan anchored at
//! `tag || container_id` yields the items of that container, in the order of
//! their identifiers.

use vstd::prelude::*;
use crate::container::{
    container_at,
    container_from,
    container_views,
    containers_in,
    reference_key,
    stored_under,
};
use crate::key::{
    decode_as,
    encode,
    encode_pair,
    key_fault_as,
    key_one,
    key_two,
    prefix,
    tag_prefix,
    Id,
    Tag,
};
use crate::location::locations_in;
use crate::record::{item_bytes, opt_chars, parse_item, ItemData, ItemRecord};
use crate::schema::{
    carried_out,
    collect,
    lemma_collect_fault,
    opt_bytes,
    plan_is,
    stored_at,
    Container,
    ContainerView,
    Error,
    Item,
    ItemView,
    MutationRoot,
    Plan,
    QueryRoot,
};
use crate::stamp::{bump, fresh_id, now_millis, spec_bump};
use crate::store::{
    changes,
    lemma_effect_of_few,
    listing,
    scan_of,
    Change,
    Entry,
    RecordStore,
    Write,
};

verus! {

/// The fields of an item that an update may replace. A field that is `None`
/// is left as it is.
#[derive(Clone, Debug, PartialEq, Eq)]
pub struct ItemPatch {
    pub name: Option<String>,
    pub description: Option<String>,
    pub quantity: Option<u64>,
}

/// An item record with its identifier, the identifier of its container, and
/// that container where it is stored.
pub open spec fn item_joined(
    owner: Seq<u8>,
    id: Seq<u8>,
    d: ItemData,
    container: Option<ContainerView>,
) -> ItemView {
    ItemView {
        id,
        created: d.created,
        updated: d.updated,
        name: d.name,
        quantity: d.quantity,
        description: d.description,
        container_id: owner,
        container,
    }
}

/// The owner, the identifier and the record that one pair of the item
/// collection holds.
pub open spec fn item_record_of(pair: (Seq<u8>, Seq<u8>)) -> Result<
    (Seq<u8>, Seq<u8>, ItemData),
    Error,
> {
    match key_fault_as(Tag::Item, pair.0) {
        Some(fault) => Err(Error::Key(fault)),
        None => match parse_item(pair.1) {
            Err(fault) => Err(Error::Record(fault)),
            Ok(d) => Ok((pair.0.subrange(1, 17), pair.0.subrange(17, 33), d)),
        },
    }
}

/// The first container of `list` with the identifier `id`.
pub open spec fn find_container(list: Seq<ContainerView>, id: Seq<u8>) -> Option<ContainerView>
    decreases list.len(),
{
    if list.len() == 0 {
        None
    } else if list[0].id == id {
        Some(list[0])
    } else {
        find_container(list.drop_first(), id)
    }
}

/// The item that one pair holds, with its container from `containers`. An
/// item whose container is not among them is an item all the same, without
/// a container.
pub open spec fn item_entry_among(
    pair: (Seq<u8>, Seq<u8>),
    containers: Seq<ContainerView>,
) -> Result<Option<ItemView>, Error> {
    match item_record_of(pair) {
        Err(fault) => Err(fault),
        Ok((owner, id, d)) => Ok(
            Some(item_joined(owner, id, d, find_container(containers, owner))),
        ),
    }
}

/// `item_entry_among` as a function value.
pub open spec fn item_reader(containers: Seq<ContainerView>) -> spec_fn(
    (Seq<u8>, Seq<u8>),
) -> Result<Option<ItemView>, Error> {
    |pair: (Seq<u8>, Seq<u8>)| item_entry_among(pair, containers)
}

/// The items that a scan holds, in key order, each with its container from
/// `containers`.
pub open spec fn items_in(
    found: Seq<(Seq<u8>, Seq<u8>)>,
    containers: Seq<ContainerView>,
) -> Result<Seq<ItemView>, Error> {
    collect(found, item_reader(containers))
}

/// The one container, or none, as a list.
pub open spec fn one_or_none(container: Option<ContainerView>) -> Seq<ContainerView> {
    match container {
        Some(container) => seq![container],
        None => Seq::empty(),
    }
}

/// The items of `list` as mathematical values.
pub open spec fn item_views(list: Seq<Item>) -> Seq<ItemView> {
    Seq::new(list.len(), |i: int| list[i]@)
}

/// What a list of items gave, as a mathematical value.
pub open spec fn items_outcome(res: Result<Vec<Item>, Error>) -> Result<Seq<ItemView>, Error> {
    match res {
        Ok(list) => Ok(item_views(list@)),
        Err(fault) => Err(fault),
    }
}

/// What a lookup of an item gave, as a mathematical value.
pub open spec fn item_outcome(res: Result<Option<Item>, Error>) -> Result<Option<ItemView>, Error> {
    match res {
        Ok(Some(item)) => Ok(Some(item@)),
        Ok(None) => Ok(None),
        Err(fault) => Err(fault),
    }
}

/// The item `id` of the container `owner` as read from what is stored
/// under its key, and its container as read from what is stored under the
/// container's key and under the key of the container's location: nothing,
/// the item, or the fault of the first record that has one. An item whose
/// container is not stored is an item without a container.
pub open spec fn item_from(
    owner: Seq<u8>,
    id: Seq<u8>,
    stored: Option<Seq<u8>>,
    stored_container: Option<Seq<u8>>,
    place: Option<Seq<u8>>,
) -> Result<Option<ItemView>, Error> {
    match stored {
        None => Ok(None),
        Some(bytes) => match parse_item(bytes) {
            Err(fault) => Err(Error::Record(fault)),
            Ok(d) => match container_from(owner, stored_container, place) {
                Err(fault) => Err(fault),
                Ok(container) => Ok(Some(item_joined(owner, id, d, container))),
            },
        },
    }
}

/// What the store `contents` holds of the item `id` of the container
/// `owner`.
pub open spec fn item_at(contents: Map<Seq<u8>, Seq<u8>>, owner: Seq<u8>, id: Seq<u8>) -> Result<
    Option<ItemView>,
    Error,
> {
    let stored_container = stored_at(contents, key_one(Tag::Container, owner));
    item_from(
        owner,
        id,
        stored_at(contents, key_two(Tag::Item, owner, id)),
        stored_container,
        stored_under(contents, reference_key(stored_container)),
    )
}

/// The owner of the first item with the identifier `id` among the pairs
/// `found`, which are keys of the item collection up to that item.
pub open spec fn owner_among(found: Seq<(Seq<u8>, Seq<u8>)>, id: Seq<u8>) -> Result<
    Option<Seq<u8>>,
    Error,
>
    decreases found.len(),
{
    if found.len() == 0 {
        Ok(None)
    } else {
        match key_fault_as(Tag::Item, found[0].0) {
            Some(fault) => Err(Error::Key(fault)),
            None => if found[0].0.subrange(17, 33) == id {
                Ok(Some(found[0].0.subrange(1, 17)))
            } else {
                owner_among(found.drop_first(), id)
            },
        }
    }
}

/// An item that is created at `now`.
pub open spec fn new_item(
    now: i64,
    name: Seq<char>,
    quantity: u64,
    description: Option<Seq<char>>,
) -> ItemData {
    ItemData { created: now, updated: now, name, quantity, description }
}

/// The item `d` after an update at `now` that replaces the fields given.
pub open spec fn patched_item(
    d: ItemData,
    name: Option<Seq<char>>,
    description: Option<Seq<char>>,
    quantity: Option<u64>,
    now: i64,
) -> ItemData {
    ItemData {
        created: d.created,
        updated: spec_bump(d.created, now),
        name: match name {
            Some(name) => name,
            None => d.name,
        },
        quantity: match quantity {
            Some(quantity) => quantity,
            None => d.quantity,
        },
        description: if description is Some {
            description
        } else {
            d.description
        },
    }
}

/// The item `d` after it was moved at `now`.
pub open spec fn moved_item(d: ItemData, now: i64) -> ItemData {
    ItemData {
        created: d.created,
        updated: spec_bump(d.created, now),
        name: d.name,
        quantity: d.quantity,
        description: d.description,
    }
}

/// What the creation of an item in `owner` changes, where `owner_stored`
/// says whether that container is stored: nothing if it is not.
pub open spec fn add_item_plan(
    owner_stored: bool,
    owner: Seq<u8>,
    id: Seq<u8>,
    d: ItemData,
) -> (bool, Seq<Change>) {
    if owner_stored {
        (true, seq![Change::Put(key_two(Tag::Item, owner, id), item_bytes(d))])
    } else {
        (false, Seq::empty())
    }
}

/// What an update of the item `id` of `owner` finds and changes, where
/// `stored` is what the store holds under its key.
pub open spec fn update_item_plan(
    stored: Option<Seq<u8>>,
    owner: Seq<u8>,
    id: Seq<u8>,
    name: Option<Seq<char>>,
    description: Option<Seq<char>>,
    quantity: Option<u64>,
    now: i64,
) -> Result<(bool, Seq<Change>), Error> {
    match stored {
        None => Ok((false, Seq::empty())),
        Some(bytes) => match parse_item(bytes) {
            Err(fault) => Err(Error::Record(fault)),
            Ok(d) => Ok(
                (
                    true,
                    seq![
                        Change::Put(
                            key_two(Tag::Item, owner, id),
                            item_bytes(patched_item(d, name, description, quantity, now)),
                        ),
                    ],
                ),
            ),
        },
    }
}

/// What a move of the item `id` from `from` to `to` finds and changes, where
/// `stored` is what the store holds under the old key: the record goes
/// under the new key first, then the old key is removed. A move within one
/// container only stamps the record.
pub open spec fn move_item_plan(
    stored: Option<Seq<u8>>,
    id: Seq<u8>,
    from: Seq<u8>,
    to: Seq<u8>,
    now: i64,
) -> Result<(bool, Seq<Change>), Error> {
    match stored {
        None => Ok((false, Seq::empty())),
        Some(bytes) => match parse_item(bytes) {
            Err(fault) => Err(Error::Record(fault)),
            Ok(d) => {
                let put = Change::Put(key_two(Tag::Item, to, id), item_bytes(moved_item(d, now)));
                if from == to {
                    Ok((true, seq![put]))
                } else {
                    Ok((true, seq![put, Change::Delete(key_two(Tag::Item, from, id))]))
                }
            },
        },
    }
}

/// The first container of `list` with the identifier `id`, copied.
pub fn lookup_container(list: &Vec<Container>, id: &Id) -> (res: Option<Container>)
    ensures
        match res {
            Some(container) => find_container(container_views(list@), id@) == Some(container@),
            None => find_container(container_views(list@), id@) is None,
        },
{
    let ghost views = container_views(list@);
    let mut i: usize = 0;
    assert(views.skip(0) =~= views);
    while i < list.len()
        invariant
            i <= list@.len(),
            views == container_views(list@),
            find_container(views, id@) == find_container(views.skip(i as int), id@),
        decreases list@.len() - i,
    {
        assert(views.skip(i as int)[0] == list@[i as int]@);
        if list[i].id.same(id) {
            return Some(list[i].duplicate());
        }
        assert(views.skip(i as int).drop_first() =~= views.skip(i + 1));
        i += 1;
    }
    assert(views.skip(i as int).len() == 0);
    None
}

/// Reads the owner, the identifier and the record of one entry of the item
/// collection.
pub fn read_item_record(entry: &Entry) -> (res: Result<(Id, Id, ItemRecord), Error>)
    ensures
        match res {
            Ok((owner, id, record)) => item_record_of((entry.key@, entry.value@)) == Ok::<
                (Seq<u8>, Seq<u8>, ItemData),
                Error,
            >((owner@, id@, record@)),
            Err(fault) => item_record_of((entry.key@, entry.value@)) == Err::<
                (Seq<u8>, Seq<u8>, ItemData),
                Error,
            >(fault),
        },
{
    let key = match decode_as(Tag::Item, entry.key.as_slice()) {
        Ok(key) => key,
        Err(fault) => {
            return Err(Error::Key(fault));
        },
    };
    let second = match key.second {
        Some(second) => second,
        None => {
            return Err(Error::Key(crate::key::KeyError::BadLength));
        },
    };
    assert(key.first@ =~= entry.key@.subrange(1, 17));
    assert(second@ =~= entry.key@.subrange(17, 33));
    match ItemRecord::decode(entry.value.as_slice()) {
        Ok(record) => Ok((key.first, second, record)),
        Err(fault) => Err(Error::Record(fault)),
    }
}

/// Puts a record, its identifier, the identifier of its container and that
/// container together.
pub fn join_item(owner: Id, id: Id, record: ItemRecord, container: Option<Container>) -> (item:
    Item)
    ensures
        item@ == item_joined(
            owner@,
            id@,
            record@,
            match container {
                Some(container) => Some(container@),
                None => None,
            },
        ),
{
    Item {
        id,
        created: record.created,
        updated: record.updated,
        name: record.name,
        quantity: record.quantity,
        description: record.description,
        container_id: owner,
        container,
    }
}

impl QueryRoot {
    /// The items that the entries of a scan of the item collection hold, in
    /// the order of the scan, each with its container from `containers`. An
    /// item whose container is not among them is listed without one.
    pub fn read_items(entries: &Vec<Entry>, containers: &Vec<Container>) -> (res: Result<
        Vec<Item>,
        Error,
    >)
        ensures
            items_outcome(res) == items_in(listing(entries@), container_views(containers@)),
    {
        let mut list: Vec<Item> = Vec::new();
        let mut i: usize = 0;
        let ghost found = listing(entries@);
        let ghost read = item_reader(container_views(containers@));
        assert(item_views(list@) =~= Seq::<ItemView>::empty());
        while i < entries.len()
            invariant
                i <= entries@.len(),
                found == listing(entries@),
                read == item_reader(container_views(containers@)),
                collect(found.take(i as int), read) == Ok::<Seq<ItemView>, Error>(
                    item_views(list@),
                ),
            decreases entries@.len() - i,
        {
            proof {
                assert(found.take(i + 1).drop_last() =~= found.take(i as int));
                assert(found.take(i + 1).last() == (
                    entries@[i as int].key@,
                    entries@[i as int].value@,
                ));
            }
            match read_item_record(&entries[i]) {
                Ok((owner, id, record)) => {
                    let container = lookup_container(containers, &owner);
                    let item = join_item(owner, id, record, container);
                    let ghost before = item_views(list@);
                    list.push(item);
                    assert(item_views(list@) =~= before.push(item@));
                },
                Err(fault) => {
                    proof {
                        lemma_collect_fault(found, read, i + 1);
                    }
                    return Err(fault);
                },
            }
            i += 1;
        }
        assert(found.take(i as int) =~= found);
        Ok(list)
    }

    /// The items of the container `id`, in the order of their identifiers:
    /// what a scan under the container's anchor holds. Where the container
    /// is not stored, the items that lie under its anchor are listed without
    /// a container, and nothing found is an empty list. A faulty record of
    /// the container or of its location is a fault.
    pub fn items_in_container(store: &RecordStore, id: &Id) -> (res: Result<Vec<Item>, Error>)
        ensures
            match container_at(store@, id@) {
                Err(fault) => res == Err::<Vec<Item>, Error>(fault),
                Ok(container) => items_outcome(res) == items_in(
                    scan_of(store@, key_one(Tag::Item, id@)),
                    one_or_none(container),
                ),
            },
    {
        let mut containers: Vec<Container> = Vec::new();
        match QueryRoot::container(store, id) {
            Ok(Some(container)) => {
                containers.push(container);
            },
            Ok(None) => {},
            Err(fault) => {
                return Err(fault);
            },
        }
        assert(container_views(containers@) =~= one_or_none(container_at(store@, id@)->Ok_0));
        let anchor = encode(Tag::Item, id);
        let entries = store.scan_prefix(anchor.as_slice());
        QueryRoot::read_items(&entries, &containers)
    }

    /// All items, in key order: by container, then by item. An item whose
    /// container is not stored is listed without one. A fault among the
    /// locations or the containers comes before one among the items.
    pub fn all_items(store: &RecordStore) -> (res: Result<Vec<Item>, Error>)
        ensures
            match locations_in(scan_of(store@, tag_prefix(Tag::Location))) {
                Err(fault) => res == Err::<Vec<Item>, Error>(fault),
                Ok(places) => match containers_in(
                    scan_of(store@, tag_prefix(Tag::Container)),
                    places,
                ) {
                    Err(fault) => res == Err::<Vec<Item>, Error>(fault),
                    Ok(containers) => items_outcome(res) == items_in(
                        scan_of(store@, tag_prefix(Tag::Item)),
                        containers,
                    ),
                },
            },
    {
        let containers = match QueryRoot::all_containers(store) {
            Ok(containers) => containers,
            Err(fault) => {
                return Err(fault);
            },
        };
        let anchor = prefix(Tag::Item);
        let entries = store.scan_prefix(anchor.as_slice());
        QueryRoot::read_items(&entries, &containers)
    }

    /// Reads the item `id` of the container `owner`, where `stored` is what
    /// the store holds under the item's key, `stored_container` what it
    /// holds under the container's key, and `place` what it holds under the
    /// key of the location that the container refers to.
    pub fn read_item_at(
        owner: &Id,
        id: &Id,
        stored: &Option<Vec<u8>>,
        stored_container: &Option<Vec<u8>>,
        place: &Option<Vec<u8>>,
    ) -> (res: Result<Option<Item>, Error>)
        ensures
            item_outcome(res) == item_from(
                owner@,
                id@,
                opt_bytes(*stored),
                opt_bytes(*stored_container),
                opt_bytes(*place),
            ),
    {
        let bytes = match stored {
            Some(bytes) => bytes,
            None => {
                return Ok(None);
            },
        };
        let record = match ItemRecord::decode(bytes.as_slice()) {
            Ok(record) => record,
            Err(fault) => {
                return Err(Error::Record(fault));
            },
        };
        match QueryRoot::read_container_at(owner, stored_container, place) {
            Ok(container) => Ok(Some(join_item(*owner, *id, record, container))),
            Err(fault) => Err(fault),
        }
    }

    /// The item `id` of the container `owner` with that container, if the
    /// item is stored.
    pub fn item_in(store: &RecordStore, owner: &Id, id: &Id) -> (res: Result<Option<Item>, Error>)
        ensures
            item_outcome(res) == item_at(store@, owner@, id@),
    {
        let stored = store.get(encode_pair(Tag::Item, owner, id).as_slice());
        let stored_container = store.get(encode(Tag::Container, owner).as_slice());
        let place = match QueryRoot::location_key_of(&stored_container) {
            Some(key) => store.get(key.as_slice()),
            None => None,
        };
        QueryRoot::read_item_at(owner, id, &stored, &stored_container, &place)
    }

    /// The owner of the first item with the identifier `id` among the
    /// entries of a scan of the item collection.
    pub fn find_owner(entries: &Vec<Entry>, id: &Id) -> (res: Result<Option<Id>, Error>)
        ensures
            match res {
                Ok(Some(owner)) => owner_among(listing(entries@), id@) == Ok::<
                    Option<Seq<u8>>,
                    Error,
                >(Some(owner@)),
                Ok(None) => owner_among(listing(entries@), id@) == Ok::<Option<Seq<u8>>, Error>(
                    None,
                ),
                Err(fault) => owner_among(listing(entries@), id@) == Err::<Option<Seq<u8>>, Error>(
                    fault,
                ),
            },
    {
        let ghost found = listing(entries@);
        let mut i: usize = 0;
        assert(found.skip(0) =~= found);
        while i < entries.len()
            invariant
                i <= entries@.len(),
                found == listing(entries@),
                owner_among(found, id@) == owner_among(found.skip(i as int), id@),
            decreases entries@.len() - i,
        {
            assert(found.skip(i as int)[0] == (entries@[i as int].key@, entries@[i as int].value@));
            assert(found.skip(i as int).drop_first() =~= found.skip(i + 1));
            let key = match decode_as(Tag::Item, entries[i].key.as_slice()) {
                Ok(key) => key,
                Err(fault) => {
                    return Err(Error::Key(fault));
                },
            };
            assert(key.first@ =~= entries@[i as int].key@.subrange(1, 17));
            match key.second {
                Some(second) => {
                    assert(second@ =~= entries@[i as int].key@.subrange(17, 33));
                    if second.same(id) {
                        return Ok(Some(key.first));
                    }
                },
                None => {},
            }
            i += 1;
        }
        assert(found.skip(i as int).len() == 0);
        Ok(None)
    }

    /// The container that holds the item `id`: the owner in the first key of
    /// the item collection that ends with `id`.
    pub fn locate_item(store: &RecordStore, id: &Id) -> (res: Result<Option<Id>, Error>)
        ensures
            match res {
                Ok(Some(owner)) => owner_among(scan_of(store@, tag_prefix(Tag::Item)), id@) == Ok::<
                    Option<Seq<u8>>,
                    Error,
                >(Some(owner@)),
                Ok(None) => owner_among(scan_of(store@, tag_prefix(Tag::Item)), id@) == Ok::<
                    Option<Seq<u8>>,
                    Error,
                >(None),
                Err(fault) => owner_among(scan_of(store@, tag_prefix(Tag::Item)), id@) == Err::<
                    Option<Seq<u8>>,
                    Error,
                >(fault),
            },
    {
        let entries = store.scan_prefix(prefix(Tag::Item).as_slice());
        QueryRoot::find_owner(&entries, id)
    }

    /// The item `id` with its container, wherever it lies.
    pub fn item(store: &RecordStore, id: &Id) -> (res: Result<Option<Item>, Error>)
        ensures
            match owner_among(scan_of(store@, tag_prefix(Tag::Item)), id@) {
                Err(fault) => res == Err::<Option<Item>, Error>(fault),
                Ok(None) => res == Ok::<Option<Item>, Error>(None),
                Ok(Some(owner)) => item_outcome(res) == item_at(store@, owner, id@),
            },
    {
        match QueryRoot::locate_item(store, id) {
            Err(fault) => Err(fault),
            Ok(None) => Ok(None),
            Ok(Some(owner)) => QueryRoot::item_in(store, &owner, id),
        }
    }
}

impl MutationRoot {
    /// What the creation of an item in the container `owner` at `now`
    /// changes, where `owner_stored` says whether that container is stored.
    pub fn plan_add_item(
        owner_stored: bool,
        owner: &Id,
        id: &Id,
        now: i64,
        name: &str,
        quantity: u64,
        description: &Option<String>,
    ) -> (plan: Plan)
        ensures
            (plan.found, changes(plan.writes@)) == add_item_plan(
                owner_stored,
                owner@,
                id@,
                new_item(now, name@, quantity, opt_chars(*description)),
            ),
            new_item(now, name@, quantity, opt_chars(*description)).wf(),
    {
        let mut writes: Vec<Write> = Vec::new();
        let record = ItemRecord {
            created: now,
            updated: now,
            name: name.to_owned(),
            quantity,
            description: match description {
                Some(text) => Some(text.clone()),
                None => None,
            },
        };
        let value = record.encode();
        assert(record@ == new_item(now, name@, quantity, opt_chars(*description)));
        if !owner_stored {
            assert(changes(writes@) =~= Seq::<Change>::empty());
            return Plan { found: false, writes };
        }
        writes.push(Write::Put { key: encode_pair(Tag::Item, owner, id), value });
        assert(changes(writes@) =~= seq![
            Change::Put(key_two(Tag::Item, owner@, id@), item_bytes(record@)),
        ]);
        Plan { found: true, writes }
    }

    /// Stores a new item in the container `owner` under a fresh identifier,
    /// which is returned. Both stamps are the time of the call. Nothing is
    /// stored, and nothing returned, if the container is not stored.
    pub fn add_item(
        store: &mut RecordStore,
        owner: &Id,
        name: &str,
        quantity: u64,
        description: &Option<String>,
    ) -> (res: Option<Id>)
        ensures
            res is Some <==> old(store)@.contains_key(key_one(Tag::Container, owner@)),
            res is None ==> final(store)@ == old(store)@,
            res matches Some(id) ==> exists|now: i64|
                final(store)@ == old(store)@.insert(
                    key_two(Tag::Item, owner@, id@),
                    #[trigger] item_bytes(new_item(now, name@, quantity, opt_chars(*description))),
                ),
    {
        let owner_stored = store.contains(encode(Tag::Container, owner).as_slice());
        let id = fresh_id();
        let now = now_millis();
        let plan = MutationRoot::plan_add_item(
            owner_stored,
            owner,
            &id,
            now,
            name,
            quantity,
            description,
        );
        proof {
            let put = Change::Put(
                key_two(Tag::Item, owner@, id@),
                item_bytes(new_item(now, name@, quantity, opt_chars(*description))),
            );
            lemma_effect_of_few(store@, put, put);
        }
        store.apply(&plan.writes);
        if plan.found {
            Some(id)
        } else {
            None
        }
    }

    /// What an update of the item `id` of `owner` at `now` finds and
    /// changes, where `stored` is what the store holds under its key.
    pub fn plan_update_item(
        stored: &Option<Vec<u8>>,
        owner: &Id,
        id: &Id,
        patch: &ItemPatch,
        now: i64,
    ) -> (plan: Result<Plan, Error>)
        ensures
            plan_is(
                plan,
                update_item_plan(
                    opt_bytes(*stored),
                    owner@,
                    id@,
                    opt_chars(patch.name),
                    opt_chars(patch.description),
                    patch.quantity,
                    now,
                ),
            ),
    {
        let bytes = match stored {
            Some(bytes) => bytes,
            None => {
                let writes: Vec<Write> = Vec::new();
                assert(changes(writes@) =~= Seq::<Change>::empty());
                return Ok(Plan { found: false, writes });
            },
        };
        let record = match ItemRecord::decode(bytes.as_slice()) {
            Ok(record) => record,
            Err(fault) => {
                return Err(Error::Record(fault));
            },
        };
        let after = ItemRecord {
            created: record.created,
            updated: bump(record.created, now),
            name: match &patch.name {
                Some(name) => name.clone(),
                None => record.name,
            },
            quantity: match patch.quantity {
                Some(quantity) => quantity,
                None => record.quantity,
            },
            description: match &patch.description {
                Some(text) => Some(text.clone()),
                None => record.description,
            },
        };
        let mut writes: Vec<Write> = Vec::new();
        writes.push(Write::Put { key: encode_pair(Tag::Item, owner, id), value: after.encode() });
        assert(after@ == patched_item(
            record@,
            opt_chars(patch.name),
            opt_chars(patch.description),
            patch.quantity,
            now,
        ));
        assert(changes(writes@) =~= seq![
            Change::Put(key_two(Tag::Item, owner@, id@), item_bytes(after@)),
        ]);
        Ok(Plan { found: true, writes })
    }

    /// Replaces the fields of the item `id` of `owner` that `patch` gives
    /// and stamps it with the time of the call. Says whether the item was
    /// found; nothing changes if it was not, or if its record is faulty.
    pub fn update_item(store: &mut RecordStore, owner: &Id, id: &Id, patch: &ItemPatch) -> (res:
        Result<bool, Error>)
        ensures
            exists|now: i64|
                carried_out(
                    old(store)@,
                    final(store)@,
                    res,
                    #[trigger] update_item_plan(
                        stored_at(old(store)@, key_two(Tag::Item, owner@, id@)),
                        owner@,
                        id@,
                        opt_chars(patch.name),
                        opt_chars(patch.description),
                        patch.quantity,
                        now,
                    ),
                ),
    {
        let stored = store.get(encode_pair(Tag::Item, owner, id).as_slice());
        let now = now_millis();
        let ghost expected = update_item_plan(
            stored_at(store@, key_two(Tag::Item, owner@, id@)),
            owner@,
            id@,
            opt_chars(patch.name),
            opt_chars(patch.description),
            patch.quantity,
            now,
        );
        match MutationRoot::plan_update_item(&stored, owner, id, patch, now) {
            Ok(plan) => {
                store.apply(&plan.writes);
                assert(carried_out(old(store)@, store@, Ok::<bool, Error>(plan.found), expected));
                Ok(plan.found)
            },
            Err(fault) => {
                assert(carried_out(old(store)@, store@, Err::<bool, Error>(fault), expected));
                Err(fault)
            },
        }
    }

    /// What a move of the item `id` from the container `from` to the
    /// container `to` at `now` finds and changes, where `stored` is what
    /// the store holds under the old key.
    pub fn plan_move_item(stored: &Option<Vec<u8>>, id: &Id, from: &Id, to: &Id, now: i64) -> (plan:
        Result<Plan, Error>)
        ensures
            plan_is(plan, move_item_plan(opt_bytes(*stored), id@, from@, to@, now)),
    {
        let bytes = match stored {
            Some(bytes) => bytes,
            None => {
                let writes: Vec<Write> = Vec::new();
                assert(changes(writes@) =~= Seq::<Change>::empty());
                return Ok(Plan { found: false, writes });
            },
        };
        let record = match ItemRecord::decode(bytes.as_slice()) {
            Ok(record) => record,
            Err(fault) => {
                return Err(Error::Record(fault));
            },
        };
        let after = ItemRecord {
            created: record.created,
            updated: bump(record.created, now),
            name: record.name,
            quantity: record.quantity,
            description: record.description,
        };
        assert(after@ == moved_item(record@, now));
        let mut writes: Vec<Write> = Vec::new();
        writes.push(Write::Put { key: encode_pair(Tag::Item, to, id), value: after.encode() });
        let ghost put = Change::Put(key_two(Tag::Item, to@, id@), item_bytes(after@));
        if from.same(to) {
            assert(changes(writes@) =~= seq![put]);
        } else {
            writes.push(Write::Delete { key: encode_pair(Tag::Item, from, id) });
            assert(changes(writes@) =~= seq![put, Change::Delete(key_two(Tag::Item, from@, id@))]);
        }
        Ok(Plan { found: true, writes })
    }

    /// Moves the item `id` from the container `from` to the container `to`
    /// and stamps it with the time of the call. Says whether the item was
    /// found under `from`; nothing changes if it was not, or if its record
    /// is faulty.
    pub fn move_item(store: &mut RecordStore, id: &Id, from: &Id, to: &Id) -> (res: Result<
        bool,
        Error,
    >)
        ensures
            exists|now: i64|
                carried_out(
                    old(store)@,
                    final(store)@,
                    res,
                    #[trigger] move_item_plan(
                        stored_at(old(store)@, key_two(Tag::Item, from@, id@)),
                        id@,
                        from@,
                        to@,
                        now,
                    ),
                ),
    {
        let stored = store.get(encode_pair(Tag::Item, from, id).as_slice());
        let now = now_millis();
        let ghost expected = move_item_plan(
            stored_at(store@, key_two(Tag::Item, from@, id@)),
            id@,
            from@,
            to@,
            now,
        );
        match MutationRoot::plan_move_item(&stored, id, from, to, now) {
            Ok(plan) => {
                store.apply(&plan.writes);
                assert(carried_out(old(store)@, store@, Ok::<bool, Error>(plan.found), expected));
                Ok(plan.found)
            },
            Err(fault) => {
                assert(carried_out(old(store)@, store@, Err::<bool, Error>(fault), expected));
                Err(fault)
            },
        }
    }

    /// The changes that delete the item `id` of `owner` and its image.
    pub fn plan_delete_item(stored: bool, owner: &Id, id: &Id) -> (plan: Plan)
        ensures
            plan.found == stored,
            changes(plan.writes@) == seq![
                Change::Delete(key_two(Tag::Item, owner@, id@)),
                Change::Delete(key_two(Tag::ItemImage, owner@, id@)),
            ],
    {
        let mut writes: Vec<Write> = Vec::new();
        writes.push(Write::Delete { key: encode_pair(Tag::Item, owner, id) });
        writes.push(Write::Delete { key: encode_pair(Tag::ItemImage, owner, id) });
        assert(changes(writes@) =~= seq![
            Change::Delete(key_two(Tag::Item, owner@, id@)),
            Change::Delete(key_two(Tag::ItemImage, owner@, id@)),
        ]);
        Plan { found: stored, writes }
    }

    /// Deletes the item `id` of `owner` and its image, and says whether the
    /// item was found.
    pub fn delete_item(store: &mut RecordStore, owner: &Id, id: &Id) -> (found: bool)
        ensures
            found == old(store)@.contains_key(key_two(Tag::Item, owner@, id@)),
            final(store)@ == old(store)@.remove(key_two(Tag::Item, owner@, id@)).remove(
                key_two(Tag::ItemImage, owner@, id@),
            ),
    {
        let stored = store.contains(encode_pair(Tag::Item, owner, id).as_slice());
        let plan = MutationRoot::plan_delete_item(stored, owner, id);
        proof {
            lemma_effect_of_few(
                store@,
                Change::Delete(key_two(Tag::Item, owner@, id@)),
                Change::Delete(key_two(Tag::ItemImage, owner@, id@)),
            );
        }
        store.apply(&plan.writes);
        plan.found
    }
}

} // verus!
