//! The collection of locations: `tag || id`, holding the name.

use vstd::prelude::*;
use crate::key::{decode_as, encode, key_fault_as, key_one, prefix, tag_prefix, Id, Tag};
use crate::record::{location_bytes, parse_location, LocationRecord};
use crate::schema::{
    collect,
    lemma_collect_fault,
    opt_bytes,
    stored_at,
    Error,
    Location,
    LocationView,
    MutationRoot,
    Plan,
    QueryRoot,
};
use crate::stamp::fresh_id;
use crate::store::{changes, listing, scan_of, Change, Entry, RecordStore, Write};

verus! {

/// What one pair of the location collection holds.
pub open spec fn location_entry(pair: (Seq<u8>, Seq<u8>)) -> Result<Option<LocationView>, Error> {
    match key_fault_as(Tag::Location, pair.0) {
        Some(fault) => Err(Error::Key(fault)),
        None => match parse_location(pair.1) {
            Err(fault) => Err(Error::Record(fault)),
            Ok(name) => Ok(Some(LocationView { id: pair.0.subrange(1, 17), name })),
        },
    }
}

/// The locations that a scan of the collection holds, in key order.
pub open spec fn locations_in(found: Seq<(Seq<u8>, Seq<u8>)>) -> Result<Seq<LocationView>, Error> {
    collect(found, location_reader())
}

/// `location_entry` as a function value.
pub open spec fn location_reader() -> spec_fn((Seq<u8>, Seq<u8>)) -> Result<
    Option<LocationView>,
    Error,
> {
    |pair: (Seq<u8>, Seq<u8>)| location_entry(pair)
}

/// The locations of `list` as mathematical values.
pub open spec fn location_views(list: Seq<Location>) -> Seq<LocationView> {
    Seq::new(list.len(), |i: int| list[i]@)
}

/// The location `id` as read from what is stored under its key: nothing, the
/// location, or the fault of its record.
pub open spec fn location_from(id: Seq<u8>, stored: Option<Seq<u8>>) -> Result<
    Option<LocationView>,
    Error,
> {
    match stored {
        None => Ok(None),
        Some(bytes) => match parse_location(bytes) {
            Err(fault) => Err(Error::Record(fault)),
            Ok(name) => Ok(Some(LocationView { id, name })),
        },
    }
}

/// What the store `contents` holds of the location `id`.
pub open spec fn location_at(contents: Map<Seq<u8>, Seq<u8>>, id: Seq<u8>) -> Result<
    Option<LocationView>,
    Error,
> {
    location_from(id, stored_at(contents, key_one(Tag::Location, id)))
}

/// Reads one entry of the location collection.
pub fn read_location(entry: &Entry) -> (res: Result<Location, Error>)
    ensures
        match res {
            Ok(location) => location_entry((entry.key@, entry.value@)) == Ok::<
                Option<LocationView>,
                Error,
            >(Some(location@)),
            Err(fault) => location_entry((entry.key@, entry.value@)) == Err::<
                Option<LocationView>,
                Error,
            >(fault),
        },
{
    let key = match decode_as(Tag::Location, entry.key.as_slice()) {
        Ok(key) => key,
        Err(fault) => {
            return Err(Error::Key(fault));
        },
    };
    assert(key.first@ =~= entry.key@.subrange(1, 17));
    match LocationRecord::decode(entry.value.as_slice()) {
        Ok(record) => Ok(Location { id: key.first, name: record.name }),
        Err(fault) => Err(Error::Record(fault)),
    }
}

impl QueryRoot {
    /// The locations that the entries of a scan of the location collection
    /// hold, in the order of the scan.
    pub fn read_locations(entries: &Vec<Entry>) -> (res: Result<Vec<Location>, Error>)
        ensures
            match res {
                Ok(list) => locations_in(listing(entries@)) == Ok::<Seq<LocationView>, Error>(
                    location_views(list@),
                ),
                Err(fault) => locations_in(listing(entries@)) == Err::<Seq<LocationView>, Error>(
                    fault,
                ),
            },
    {
        let mut list: Vec<Location> = Vec::new();
        let mut i: usize = 0;
        let ghost found = listing(entries@);
        assert(location_views(list@) =~= Seq::<LocationView>::empty());
        while i < entries.len()
            invariant
                i <= entries@.len(),
                found == listing(entries@),
                locations_in(found.take(i as int)) == Ok::<Seq<LocationView>, Error>(
                    location_views(list@),
                ),
            decreases entries@.len() - i,
        {
            proof {
                assert(found.take(i + 1).drop_last() =~= found.take(i as int));
                assert(found.take(i + 1).last() == (
                    entries@[i as int].key@,
                    entries@[i as int].value@,
                ));
            }
            match read_location(&entries[i]) {
                Ok(location) => {
                    let ghost before = location_views(list@);
                    list.push(location);
                    assert(location_views(list@) =~= before.push(location@));
                },
                Err(fault) => {
                    proof {
                        lemma_collect_fault(found, location_reader(), i + 1);
                    }
                    return Err(fault);
                },
            }
            i += 1;
        }
        assert(found.take(i as int) =~= found);
        Ok(list)
    }

    /// Reads the location `id`, where `stored` is what the store holds under
    /// its key.
    pub fn read_location_at(id: &Id, stored: &Option<Vec<u8>>) -> (res: Result<
        Option<Location>,
        Error,
    >)
        ensures
            match res {
                Ok(Some(location)) => location_from(id@, opt_bytes(*stored)) == Ok::<
                    Option<LocationView>,
                    Error,
                >(Some(location@)),
                Ok(None) => location_from(id@, opt_bytes(*stored)) == Ok::<
                    Option<LocationView>,
                    Error,
                >(None),
                Err(fault) => location_from(id@, opt_bytes(*stored)) == Err::<
                    Option<LocationView>,
                    Error,
                >(fault),
            },
    {
        match stored {
            None => Ok(None),
            Some(bytes) => match LocationRecord::decode(bytes.as_slice()) {
                Ok(record) => Ok(Some(Location { id: *id, name: record.name })),
                Err(fault) => Err(Error::Record(fault)),
            },
        }
    }

    /// The location `id`, if it is stored.
    pub fn location(store: &RecordStore, id: &Id) -> (res: Result<Option<Location>, Error>)
        ensures
            match res {
                Ok(Some(location)) => location_at(store@, id@) == Ok::<
                    Option<LocationView>,
                    Error,
                >(Some(location@)),
                Ok(None) => location_at(store@, id@) == Ok::<Option<LocationView>, Error>(None),
                Err(fault) => location_at(store@, id@) == Err::<Option<LocationView>, Error>(
                    fault,
                ),
            },
    {
        let stored = store.get(encode(Tag::Location, id).as_slice());
        QueryRoot::read_location_at(id, &stored)
    }

    /// All locations, in the order of their identifiers.
    pub fn all_locations(store: &RecordStore) -> (res: Result<Vec<Location>, Error>)
        ensures
            match res {
                Ok(list) => locations_in(scan_of(store@, tag_prefix(Tag::Location))) == Ok::<
                    Seq<LocationView>,
                    Error,
                >(location_views(list@)),
                Err(fault) => locations_in(scan_of(store@, tag_prefix(Tag::Location))) == Err::<
                    Seq<LocationView>,
                    Error,
                >(fault),
            },
    {
        let anchor = prefix(Tag::Location);
        let entries = store.scan_prefix(anchor.as_slice());
        QueryRoot::read_locations(&entries)
    }
}

impl MutationRoot {
    /// The changes that store a location named `name` under `id`.
    pub fn plan_add_location(id: &Id, name: &str) -> (writes: Vec<Write>)
        ensures
            changes(writes@) == seq![
                Change::Put(key_one(Tag::Location, id@), location_bytes(name@)),
            ],
    {
        let mut writes: Vec<Write> = Vec::new();
        let record = LocationRecord { name: name.to_owned() };
        writes.push(Write::Put { key: encode(Tag::Location, id), value: record.encode() });
        assert(changes(writes@) =~= seq![
            Change::Put(key_one(Tag::Location, id@), location_bytes(name@)),
        ]);
        writes
    }

    /// Stores a new location under a fresh identifier, which is returned.
    pub fn add_location(store: &mut RecordStore, name: &str) -> (id: Id)
        ensures
            final(store)@ == old(store)@.insert(
                key_one(Tag::Location, id@),
                location_bytes(name@),
            ),
    {
        let id = fresh_id();
        let writes = MutationRoot::plan_add_location(&id, name);
        proof {
            crate::store::lemma_effect_of_few(store@, changes(writes@)[0], changes(writes@)[0]);
        }
        store.apply(&writes);
        id
    }

    /// The changes that rename the location `id`, which is stored or not as
    /// `stored` says.
    pub fn plan_update_location(stored: bool, id: &Id, name: &str) -> (plan: Plan)
        ensures
            plan.found == stored,
            changes(plan.writes@) == if stored {
                seq![Change::Put(key_one(Tag::Location, id@), location_bytes(name@))]
            } else {
                Seq::<Change>::empty()
            },
    {
        if stored {
            Plan { found: true, writes: MutationRoot::plan_add_location(id, name) }
        } else {
            let writes: Vec<Write> = Vec::new();
            assert(changes(writes@) =~= Seq::<Change>::empty());
            Plan { found: false, writes }
        }
    }

    /// Renames the location `id`. Says whether it was found; nothing changes
    /// if it was not.
    pub fn update_location(store: &mut RecordStore, id: &Id, name: &str) -> (found: bool)
        ensures
            found == old(store)@.contains_key(key_one(Tag::Location, id@)),
            final(store)@ == if found {
                old(store)@.insert(key_one(Tag::Location, id@), location_bytes(name@))
            } else {
                old(store)@
            },
    {
        let key = encode(Tag::Location, id);
        let stored = store.contains(key.as_slice());
        let plan = MutationRoot::plan_update_location(stored, id, name);
        proof {
            let put = Change::Put(key_one(Tag::Location, id@), location_bytes(name@));
            crate::store::lemma_effect_of_few(store@, put, put);
        }
        store.apply(&plan.writes);
        plan.found
    }
}

} // verus!
