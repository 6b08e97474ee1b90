//! The collection of containers: `tag || id`, holding the container record.
//! A container refers to its location by identifier; reading a container
//! resolves the reference.

use vstd::prelude::*;
use crate::key::{decode_as, encode, key_fault_as, key_one, prefix, tag_prefix, Id, Tag};
use crate::location::{location_from, location_views, locations_in};
use crate::record::{
    container_bytes,
    opt_chars,
    opt_id,
    parse_container,
    ContainerData,
    ContainerRecord,
};
use crate::schema::{
    carried_out,
    collect,
    lemma_collect_fault,
    opt_bytes,
    plan_is,
    stored_at,
    Container,
    ContainerView,
    Error,
    Location,
    LocationView,
    MutationRoot,
    Plan,
    QueryRoot,
};
use crate::stamp::{bump, fresh_id, now_millis, spec_bump};
use crate::store::{
    changes,
    lemma_effect_of_few,
    listing,
    scan_of,
    Change,
    Entry,
    RecordStore,
    Write,
};

verus! {

/// The fields of a container that an update may replace. A field that is
/// `None` is left as it is.
#[derive(Clone, Debug, PartialEq, Eq)]
pub struct ContainerPatch {
    pub name: Option<String>,
    pub location: Option<Id>,
}

/// A container record with the location that its reference resolves to.
pub open spec fn joined(
    id: Seq<u8>,
    d: ContainerData,
    location: Option<LocationView>,
) -> ContainerView {
    ContainerView { id, created: d.created, updated: d.updated, name: d.name, location }
}

/// The first location of `list` with the identifier `id`.
pub open spec fn find_location(list: Seq<LocationView>, id: Seq<u8>) -> Option<LocationView>
    decreases list.len(),
{
    if list.len() == 0 {
        None
    } else if list[0].id == id {
        Some(list[0])
    } else {
        find_location(list.drop_first(), id)
    }
}

/// The location that an optional reference resolves to among `list`.
pub open spec fn resolve(list: Seq<LocationView>, reference: Option<Seq<u8>>) -> Option<
    LocationView,
> {
    match reference {
        Some(id) => find_location(list, id),
        None => None,
    }
}

/// The identifier and the record that one pair of the container collection
/// holds.
pub open spec fn container_record_of(pair: (Seq<u8>, Seq<u8>)) -> Result<
    (Seq<u8>, ContainerData),
    Error,
> {
    match key_fault_as(Tag::Container, pair.0) {
        Some(fault) => Err(Error::Key(fault)),
        None => match parse_container(pair.1) {
            Err(fault) => Err(Error::Record(fault)),
            Ok(d) => Ok((pair.0.subrange(1, 17), d)),
        },
    }
}

/// The container that one pair of the collection holds, its location
/// resolved among `locations`.
pub open spec fn container_entry(pair: (Seq<u8>, Seq<u8>), locations: Seq<LocationView>) -> Result<
    Option<ContainerView>,
    Error,
> {
    match container_record_of(pair) {
        Err(fault) => Err(fault),
        Ok((id, d)) => Ok(Some(joined(id, d, resolve(locations, d.location)))),
    }
}

/// `container_entry` as a function value.
pub open spec fn container_reader(locations: Seq<LocationView>) -> spec_fn(
    (Seq<u8>, Seq<u8>),
) -> Result<Option<ContainerView>, Error> {
    |pair: (Seq<u8>, Seq<u8>)| container_entry(pair, locations)
}

/// The containers that a scan of the collection holds, in key order.
pub open spec fn containers_in(
    found: Seq<(Seq<u8>, Seq<u8>)>,
    locations: Seq<LocationView>,
) -> Result<Seq<ContainerView>, Error> {
    collect(found, container_reader(locations))
}

/// The containers of `list` as mathematical values.
pub open spec fn container_views(list: Seq<Container>) -> Seq<ContainerView> {
    Seq::new(list.len(), |i: int| list[i]@)
}

/// The key of the location that a stored container refers to, where
/// `stored` is what the store holds under the container's key: none where
/// nothing is stored, where the record is faulty, or where it refers to no
/// location.
pub open spec fn reference_key(stored: Option<Seq<u8>>) -> Option<Seq<u8>> {
    match stored {
        Some(bytes) => match parse_container(bytes) {
            Ok(d) => match d.location {
                Some(reference) => Some(key_one(Tag::Location, reference)),
                None => None,
            },
            Err(_) => None,
        },
        None => None,
    }
}

/// The container `id` as read from what is stored under its key and under
/// the key of the location it refers to: nothing, the container with its
/// location, or the fault of the first record that has one. A reference to
/// a location that is not stored resolves to none.
pub open spec fn container_from(
    id: Seq<u8>,
    stored: Option<Seq<u8>>,
    place: Option<Seq<u8>>,
) -> Result<Option<ContainerView>, Error> {
    match stored {
        None => Ok(None),
        Some(bytes) => match parse_container(bytes) {
            Err(fault) => Err(Error::Record(fault)),
            Ok(d) => match d.location {
                None => Ok(Some(joined(id, d, None))),
                Some(reference) => match location_from(reference, place) {
                    Err(fault) => Err(fault),
                    Ok(location) => Ok(Some(joined(id, d, location))),
                },
            },
        },
    }
}

/// What the store holds under an optional key.
pub open spec fn stored_under(contents: Map<Seq<u8>, Seq<u8>>, key: Option<Seq<u8>>) -> Option<
    Seq<u8>,
> {
    match key {
        Some(key) => stored_at(contents, key),
        None => None,
    }
}

/// What the store `contents` holds of the container `id`.
pub open spec fn container_at(contents: Map<Seq<u8>, Seq<u8>>, id: Seq<u8>) -> Result<
    Option<ContainerView>,
    Error,
> {
    let stored = stored_at(contents, key_one(Tag::Container, id));
    container_from(id, stored, stored_under(contents, reference_key(stored)))
}

/// What a lookup of a container gave, as a mathematical value.
pub open spec fn container_outcome(res: Result<Option<Container>, Error>) -> Result<
    Option<ContainerView>,
    Error,
> {
    match res {
        Ok(Some(container)) => Ok(Some(container@)),
        Ok(None) => Ok(None),
        Err(fault) => Err(fault),
    }
}

/// A container that is created at `now`.
pub open spec fn new_container(now: i64, name: Seq<char>, location: Seq<u8>) -> ContainerData {
    ContainerData { created: now, updated: now, name: Some(name), location: Some(location) }
}

/// The container `d` after an update at `now` that replaces the fields
/// given.
pub open spec fn patched_container(
    d: ContainerData,
    name: Option<Seq<char>>,
    location: Option<Seq<u8>>,
    now: i64,
) -> ContainerData {
    ContainerData {
        created: d.created,
        updated: spec_bump(d.created, now),
        name: if name is Some {
            name
        } else {
            d.name
        },
        location: if location is Some {
            location
        } else {
            d.location
        },
    }
}

/// The container `d` after its location was removed at `now`.
pub open spec fn unlinked_container(d: ContainerData, now: i64) -> ContainerData {
    ContainerData {
        created: d.created,
        updated: spec_bump(d.created, now),
        name: d.name,
        location: None,
    }
}

/// What an update of the container `id` finds and changes, where `stored`
/// is what the store holds under its key.
pub open spec fn update_container_plan(
    stored: Option<Seq<u8>>,
    id: Seq<u8>,
    name: Option<Seq<char>>,
    location: Option<Seq<u8>>,
    now: i64,
) -> Result<(bool, Seq<Change>), Error> {
    match stored {
        None => Ok((false, Seq::empty())),
        Some(bytes) => match parse_container(bytes) {
            Err(fault) => Err(Error::Record(fault)),
            Ok(d) => Ok(
                (
                    true,
                    seq![
                        Change::Put(
                            key_one(Tag::Container, id),
                            container_bytes(patched_container(d, name, location, now)),
                        ),
                    ],
                ),
            ),
        },
    }
}

/// The change that removes the reference to the location `id` from the
/// container in `pair`, if it has one.
pub open spec fn unlink_entry(pair: (Seq<u8>, Seq<u8>), id: Seq<u8>, now: i64) -> Result<
    Option<Change>,
    Error,
> {
    match container_record_of(pair) {
        Err(fault) => Err(fault),
        Ok((_, d)) => if d.location == Some(id) {
            Ok(Some(Change::Put(pair.0, container_bytes(unlinked_container(d, now)))))
        } else {
            Ok(None)
        },
    }
}

/// `unlink_entry` as a function value.
pub open spec fn unlink_reader(id: Seq<u8>, now: i64) -> spec_fn((Seq<u8>, Seq<u8>)) -> Result<
    Option<Change>,
    Error,
> {
    |pair: (Seq<u8>, Seq<u8>)| unlink_entry(pair, id, now)
}

/// What the deletion of the location `id` finds and changes: the location
/// goes first, then every container that refers to it loses the reference,
/// in key order. `containers` is the scan of the container collection.
pub open spec fn delete_location_plan(
    stored: bool,
    id: Seq<u8>,
    containers: Seq<(Seq<u8>, Seq<u8>)>,
    now: i64,
) -> Result<(bool, Seq<Change>), Error> {
    if !stored {
        Ok((false, Seq::empty()))
    } else {
        match collect(containers, unlink_reader(id, now)) {
            Err(fault) => Err(fault),
            Ok(steps) => Ok((true, seq![Change::Delete(key_one(Tag::Location, id))] + steps)),
        }
    }
}

/// The first location of `list` with the identifier `id`, copied.
pub fn lookup_location(list: &Vec<Location>, id: &Id) -> (res: Option<Location>)
    ensures
        match res {
            Some(location) => find_location(location_views(list@), id@) == Some(location@),
            None => find_location(location_views(list@), id@) is None,
        },
{
    let ghost views = location_views(list@);
    let mut i: usize = 0;
    assert(views.skip(0) =~= views);
    while i < list.len()
        invariant
            i <= list@.len(),
            views == location_views(list@),
            find_location(views, id@) == find_location(views.skip(i as int), id@),
        decreases list@.len() - i,
    {
        assert(views.skip(i as int)[0] == list@[i as int]@);
        if list[i].id.same(id) {
            return Some(list[i].duplicate());
        }
        assert(views.skip(i as int).drop_first() =~= views.skip(i + 1));
        i += 1;
    }
    assert(views.skip(i as int).len() == 0);
    None
}

/// Reads the identifier and the record of one entry of the container
/// collection.
pub fn read_container_record(entry: &Entry) -> (res: Result<(Id, ContainerRecord), Error>)
    ensures
        match res {
            Ok((id, record)) => container_record_of((entry.key@, entry.value@)) == Ok::<
                (Seq<u8>, ContainerData),
                Error,
            >((id@, record@)),
            Err(fault) => container_record_of((entry.key@, entry.value@)) == Err::<
                (Seq<u8>, ContainerData),
                Error,
            >(fault),
        },
{
    let key = match decode_as(Tag::Container, entry.key.as_slice()) {
        Ok(key) => key,
        Err(fault) => {
            return Err(Error::Key(fault));
        },
    };
    assert(key.first@ =~= entry.key@.subrange(1, 17));
    match ContainerRecord::decode(entry.value.as_slice()) {
        Ok(record) => Ok((key.first, record)),
        Err(fault) => Err(Error::Record(fault)),
    }
}

/// Puts a record and the location it refers to together.
pub fn join_container(id: Id, record: ContainerRecord, location: Option<Location>) -> (container:
    Container)
    ensures
        container@ == joined(
            id@,
            record@,
            match location {
                Some(location) => Some(location@),
                None => None,
            },
        ),
{
    Container {
        id,
        created: record.created,
        updated: record.updated,
        name: record.name,
        location,
    }
}

impl QueryRoot {
    /// The containers that the entries of a scan of the container collection
    /// hold, in the order of the scan, each with its location from
    /// `locations`.
    pub fn read_containers(entries: &Vec<Entry>, locations: &Vec<Location>) -> (res: Result<
        Vec<Container>,
        Error,
    >)
        ensures
            match res {
                Ok(list) => containers_in(listing(entries@), location_views(locations@)) == Ok::<
                    Seq<ContainerView>,
                    Error,
                >(container_views(list@)),
                Err(fault) => containers_in(listing(entries@), location_views(locations@))
                    == Err::<Seq<ContainerView>, Error>(fault),
            },
    {
        let mut list: Vec<Container> = Vec::new();
        let mut i: usize = 0;
        let ghost found = listing(entries@);
        let ghost places = location_views(locations@);
        assert(container_views(list@) =~= Seq::<ContainerView>::empty());
        while i < entries.len()
            invariant
                i <= entries@.len(),
                found == listing(entries@),
                places == location_views(locations@),
                containers_in(found.take(i as int), places) == Ok::<Seq<ContainerView>, Error>(
                    container_views(list@),
                ),
            decreases entries@.len() - i,
        {
            proof {
                assert(found.take(i + 1).drop_last() =~= found.take(i as int));
                assert(found.take(i + 1).last() == (
                    entries@[i as int].key@,
                    entries@[i as int].value@,
                ));
            }
            match read_container_record(&entries[i]) {
                Ok((id, record)) => {
                    let location = match &record.location {
                        Some(reference) => lookup_location(locations, reference),
                        None => None,
                    };
                    let container = join_container(id, record, location);
                    let ghost before = container_views(list@);
                    list.push(container);
                    assert(container_views(list@) =~= before.push(container@));
                },
                Err(fault) => {
                    proof {
                        lemma_collect_fault(found, container_reader(places), i + 1);
                    }
                    return Err(fault);
                },
            }
            i += 1;
        }
        assert(found.take(i as int) =~= found);
        Ok(list)
    }

    /// All containers, in the order of their identifiers, each with its
    /// location. A fault among the locations comes before one among the
    /// containers.
    pub fn all_containers(store: &RecordStore) -> (res: Result<Vec<Container>, Error>)
        ensures
            match locations_in(scan_of(store@, tag_prefix(Tag::Location))) {
                Err(fault) => res == Err::<Vec<Container>, Error>(fault),
                Ok(places) => match res {
                    Ok(list) => containers_in(scan_of(store@, tag_prefix(Tag::Container)), places)
                        == Ok::<Seq<ContainerView>, Error>(container_views(list@)),
                    Err(fault) => containers_in(
                        scan_of(store@, tag_prefix(Tag::Container)),
                        places,
                    ) == Err::<Seq<ContainerView>, Error>(fault),
                },
            },
    {
        let locations = match QueryRoot::all_locations(store) {
            Ok(locations) => locations,
            Err(fault) => {
                return Err(fault);
            },
        };
        let anchor = prefix(Tag::Container);
        let entries = store.scan_prefix(anchor.as_slice());
        QueryRoot::read_containers(&entries, &locations)
    }

    /// The key of the location that a stored container refers to, where
    /// `stored` is what the store holds under the container's key. This is
    /// the one key left to read before the container can be read.
    pub fn location_key_of(stored: &Option<Vec<u8>>) -> (key: Option<Vec<u8>>)
        ensures
            opt_bytes(key) == reference_key(opt_bytes(*stored)),
    {
        match stored {
            Some(bytes) => match ContainerRecord::decode(bytes.as_slice()) {
                Ok(record) => match &record.location {
                    Some(reference) => Some(encode(Tag::Location, reference)),
                    None => None,
                },
                Err(_) => None,
            },
            None => None,
        }
    }

    /// Reads the container `id`, where `stored` is what the store holds
    /// under its key and `place` what it holds under the key of the location
    /// that the container refers to.
    pub fn read_container_at(id: &Id, stored: &Option<Vec<u8>>, place: &Option<Vec<u8>>) -> (res:
        Result<Option<Container>, Error>)
        ensures
            container_outcome(res) == container_from(id@, opt_bytes(*stored), opt_bytes(*place)),
    {
        let bytes = match stored {
            Some(bytes) => bytes,
            None => {
                return Ok(None);
            },
        };
        let record = match ContainerRecord::decode(bytes.as_slice()) {
            Ok(record) => record,
            Err(fault) => {
                return Err(Error::Record(fault));
            },
        };
        let location = match &record.location {
            None => None,
            Some(reference) => match QueryRoot::read_location_at(reference, place) {
                Ok(location) => location,
                Err(fault) => {
                    return Err(fault);
                },
            },
        };
        Ok(Some(join_container(*id, record, location)))
    }

    /// The container `id` with its location, if it is stored.
    pub fn container(store: &RecordStore, id: &Id) -> (res: Result<Option<Container>, Error>)
        ensures
            container_outcome(res) == container_at(store@, id@),
    {
        let stored = store.get(encode(Tag::Container, id).as_slice());
        let place = match QueryRoot::location_key_of(&stored) {
            Some(key) => store.get(key.as_slice()),
            None => None,
        };
        QueryRoot::read_container_at(id, &stored, &place)
    }
}

impl MutationRoot {
    /// The changes that store a container created at `now` under `id`.
    pub fn plan_add_container(id: &Id, now: i64, name: &str, location: &Id) -> (writes: Vec<Write>)
        ensures
            changes(writes@) == seq![
                Change::Put(
                    key_one(Tag::Container, id@),
                    container_bytes(new_container(now, name@, location@)),
                ),
            ],
    {
        let record = ContainerRecord {
            created: now,
            updated: now,
            name: Some(name.to_owned()),
            location: Some(*location),
        };
        let mut writes: Vec<Write> = Vec::new();
        writes.push(Write::Put { key: encode(Tag::Container, id), value: record.encode() });
        assert(changes(writes@) =~= seq![
            Change::Put(
                key_one(Tag::Container, id@),
                container_bytes(new_container(now, name@, location@)),
            ),
        ]);
        writes
    }

    /// Stores a new container under a fresh identifier, which is returned.
    /// Both stamps are the time of the call.
    pub fn add_container(store: &mut RecordStore, name: &str, location: &Id) -> (id: Id)
        ensures
            exists|now: i64|
                final(store)@ == old(store)@.insert(
                    key_one(Tag::Container, id@),
                    #[trigger] container_bytes(new_container(now, name@, location@)),
                ),
    {
        let id = fresh_id();
        let now = now_millis();
        let writes = MutationRoot::plan_add_container(&id, now, name, location);
        proof {
            lemma_effect_of_few(store@, changes(writes@)[0], changes(writes@)[0]);
        }
        store.apply(&writes);
        id
    }

    /// What an update of the container `id` at `now` finds and changes, where
    /// `stored` is what the store holds under its key.
    pub fn plan_update_container(
        stored: &Option<Vec<u8>>,
        id: &Id,
        patch: &ContainerPatch,
        now: i64,
    ) -> (plan: Result<Plan, Error>)
        ensures
            plan_is(
                plan,
                update_container_plan(
                    opt_bytes(*stored),
                    id@,
                    opt_chars(patch.name),
                    opt_id(patch.location),
                    now,
                ),
            ),
    {
        let bytes = match stored {
            Some(bytes) => bytes,
            None => {
                let writes: Vec<Write> = Vec::new();
                assert(changes(writes@) =~= Seq::<Change>::empty());
                return Ok(Plan { found: false, writes });
            },
        };
        let record = match ContainerRecord::decode(bytes.as_slice()) {
            Ok(record) => record,
            Err(fault) => {
                return Err(Error::Record(fault));
            },
        };
        let after = ContainerRecord {
            created: record.created,
            updated: bump(record.created, now),
            name: match &patch.name {
                Some(name) => Some(name.clone()),
                None => record.name,
            },
            location: match &patch.location {
                Some(location) => Some(*location),
                None => record.location,
            },
        };
        let mut writes: Vec<Write> = Vec::new();
        writes.push(Write::Put { key: encode(Tag::Container, id), value: after.encode() });
        assert(after@ == patched_container(
            record@,
            opt_chars(patch.name),
            opt_id(patch.location),
            now,
        ));
        assert(changes(writes@) =~= seq![
            Change::Put(key_one(Tag::Container, id@), container_bytes(after@)),
        ]);
        Ok(Plan { found: true, writes })
    }

    /// Replaces the fields of the container `id` that `patch` gives and
    /// stamps it with the time of the call. Says whether the container was
    /// found; nothing changes if it was not, or if its record is faulty.
    pub fn update_container(store: &mut RecordStore, id: &Id, patch: &ContainerPatch) -> (res:
        Result<bool, Error>)
        ensures
            exists|now: i64|
                carried_out(
                    old(store)@,
                    final(store)@,
                    res,
                    #[trigger] update_container_plan(
                        stored_at(old(store)@, key_one(Tag::Container, id@)),
                        id@,
                        opt_chars(patch.name),
                        opt_id(patch.location),
                        now,
                    ),
                ),
    {
        let stored = store.get(encode(Tag::Container, id).as_slice());
        let now = now_millis();
        let ghost expected = update_container_plan(
            stored_at(store@, key_one(Tag::Container, id@)),
            id@,
            opt_chars(patch.name),
            opt_id(patch.location),
            now,
        );
        match MutationRoot::plan_update_container(&stored, id, patch, now) {
            Ok(plan) => {
                store.apply(&plan.writes);
                assert(carried_out(old(store)@, store@, Ok::<bool, Error>(plan.found), expected));
                Ok(plan.found)
            },
            Err(fault) => {
                assert(carried_out(old(store)@, store@, Err::<bool, Error>(fault), expected));
                Err(fault)
            },
        }
    }

    /// The changes that delete the container `id` and its image. The
    /// container's items are not touched.
    pub fn plan_delete_container(stored: bool, id: &Id) -> (plan: Plan)
        ensures
            plan.found == stored,
            changes(plan.writes@) == seq![
                Change::Delete(key_one(Tag::Container, id@)),
                Change::Delete(key_one(Tag::ContainerImage, id@)),
            ],
    {
        let mut writes: Vec<Write> = Vec::new();
        writes.push(Write::Delete { key: encode(Tag::Container, id) });
        writes.push(Write::Delete { key: encode(Tag::ContainerImage, id) });
        assert(changes(writes@) =~= seq![
            Change::Delete(key_one(Tag::Container, id@)),
            Change::Delete(key_one(Tag::ContainerImage, id@)),
        ]);
        Plan { found: stored, writes }
    }

    /// Deletes the container `id` and its image, and says whether the
    /// container was found. The container's items stay where they are.
    pub fn delete_container(store: &mut RecordStore, id: &Id) -> (found: bool)
        ensures
            found == old(store)@.contains_key(key_one(Tag::Container, id@)),
            final(store)@ == old(store)@.remove(key_one(Tag::Container, id@)).remove(
                key_one(Tag::ContainerImage, id@),
            ),
    {
        let stored = store.contains(encode(Tag::Container, id).as_slice());
        let plan = MutationRoot::plan_delete_container(stored, id);
        proof {
            lemma_effect_of_few(
                store@,
                Change::Delete(key_one(Tag::Container, id@)),
                Change::Delete(key_one(Tag::ContainerImage, id@)),
            );
        }
        store.apply(&plan.writes);
        plan.found
    }

    /// What the deletion of the location `id` at `now` finds and changes,
    /// where `stored` says whether the location is stored and `containers`
    /// is the scan of the container collection.
    pub fn plan_delete_location(stored: bool, id: &Id, containers: &Vec<Entry>, now: i64) -> (plan:
        Result<Plan, Error>)
        ensures
            plan_is(plan, delete_location_plan(stored, id@, listing(containers@), now)),
    {
        let mut writes: Vec<Write> = Vec::new();
        if !stored {
            assert(changes(writes@) =~= Seq::<Change>::empty());
            return Ok(Plan { found: false, writes });
        }
        writes.push(Write::Delete { key: encode(Tag::Location, id) });
        let ghost found = listing(containers@);
        let ghost first = seq![Change::Delete(key_one(Tag::Location, id@))];
        assert(changes(writes@) =~= first + Seq::<Change>::empty());
        let mut i: usize = 0;
        while i < containers.len()
            invariant
                stored,
                i <= containers@.len(),
                found == listing(containers@),
                first == seq![Change::Delete(key_one(Tag::Location, id@))],
                collect(found.take(i as int), unlink_reader(id@, now)) is Ok,
                changes(writes@) == first + collect(
                    found.take(i as int),
                    unlink_reader(id@, now),
                )->Ok_0,
            decreases containers@.len() - i,
        {
            proof {
                assert(found.take(i + 1).drop_last() =~= found.take(i as int));
                assert(found.take(i + 1).last() == (
                    containers@[i as int].key@,
                    containers@[i as int].value@,
                ));
            }
            match read_container_record(&containers[i]) {
                Ok((_, record)) => {
                    let refers = match &record.location {
                        Some(reference) => reference.same(id),
                        None => false,
                    };
                    if refers {
                        let after = ContainerRecord {
                            created: record.created,
                            updated: bump(record.created, now),
                            name: record.name,
                            location: None,
                        };
                        let ghost before = changes(writes@);
                        writes.push(
                            Write::Put {
                                key: crate::store::copy_bytes(containers[i].key.as_slice()),
                                value: after.encode(),
                            },
                        );
                        assert(after@ == unlinked_container(record@, now));
                        assert(changes(writes@) =~= before.push(
                            Change::Put(containers@[i as int].key@, container_bytes(after@)),
                        ));
                        assert(before.push(
                            Change::Put(containers@[i as int].key@, container_bytes(after@)),
                        ) =~= first + collect(
                            found.take(i as int),
                            unlink_reader(id@, now),
                        )->Ok_0.push(
                            Change::Put(containers@[i as int].key@, container_bytes(after@)),
                        ));
                    }
                },
                Err(fault) => {
                    proof {
                        lemma_collect_fault(found, unlink_reader(id@, now), i + 1);
                    }
                    return Err(fault);
                },
            }
            i += 1;
        }
        assert(found.take(i as int) =~= found);
        Ok(Plan { found: true, writes })
    }

    /// Deletes the location `id` and removes the reference to it from every
    /// container that has one, stamping those containers with the time of
    /// the call. Says whether the location was found; nothing changes if it
    /// was not, or if a container is faulty.
    pub fn delete_location(store: &mut RecordStore, id: &Id) -> (res: Result<bool, Error>)
        ensures
            exists|now: i64|
                carried_out(
                    old(store)@,
                    final(store)@,
                    res,
                    #[trigger] delete_location_plan(
                        old(store)@.contains_key(key_one(Tag::Location, id@)),
                        id@,
                        scan_of(old(store)@, tag_prefix(Tag::Container)),
                        now,
                    ),
                ),
    {
        let stored = store.contains(encode(Tag::Location, id).as_slice());
        let containers = store.scan_prefix(prefix(Tag::Container).as_slice());
        let now = now_millis();
        let ghost expected = delete_location_plan(
            stored,
            id@,
            scan_of(store@, tag_prefix(Tag::Container)),
            now,
        );
        match MutationRoot::plan_delete_location(stored, id, &containers, now) {
            Ok(plan) => {
                store.apply(&plan.writes);
                assert(carried_out(old(store)@, store@, Ok::<bool, Error>(plan.found), expected));
                Ok(plan.found)
            },
            Err(fault) => {
                assert(carried_out(old(store)@, store@, Err::<bool, Error>(fault), expected));
                Err(fault)
            },
        }
    }
}

} // verus!
