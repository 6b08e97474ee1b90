//! The inventory's entities as callers see them, and the two roots that
//! read and change them.

use vstd::prelude::*;
use crate::key::{Id, KeyError};
use crate::record::DecodeError;
use crate::store::{changes, effect_of, Change, Write};

verus! {

/// Why an operation could not be carried out.
#[derive(Clone, Copy, Debug, PartialEq, Eq, Structural)]
pub enum Error {
    /// A key in a collection is not a key of that collection.
    Key(KeyError),
    /// A stored value is not a record.
    Record(DecodeError),
}

/// A place where containers stand.
#[derive(Clone, Debug, PartialEq, Eq)]
pub struct Location {
    pub id: Id,
    pub name: String,
}

/// A location as a mathematical value.
pub struct LocationView {
    pub id: Seq<u8>,
    pub name: Seq<char>,
}

impl View for Location {
    type V = LocationView;

    open spec fn view(&self) -> LocationView {
        LocationView { id: self.id@, name: self.name@ }
    }
}

impl Location {
    /// A copy of the location.
    pub fn duplicate(&self) -> (copy: Location)
        ensures
            copy@ == self@,
    {
        Location { id: self.id, name: self.name.clone() }
    }
}

/// A container with the location it stands at.
#[derive(Clone, Debug, PartialEq, Eq)]
pub struct Container {
    pub id: Id,
    pub created: i64,
    pub updated: i64,
    pub name: Option<String>,
    pub location: Option<Location>,
}

/// A container as a mathematical value.
pub struct ContainerView {
    pub id: Seq<u8>,
    pub created: i64,
    pub updated: i64,
    pub name: Option<Seq<char>>,
    pub location: Option<LocationView>,
}

impl View for Container {
    type V = ContainerView;

    open spec fn view(&self) -> ContainerView {
        ContainerView {
            id: self.id@,
            created: self.created,
            updated: self.updated,
            name: match self.name {
                Some(name) => Some(name@),
                None => None,
            },
            location: match self.location {
                Some(location) => Some(location@),
                None => None,
            },
        }
    }
}

impl Container {
    /// A copy of the container.
    pub fn duplicate(&self) -> (copy: Container)
        ensures
            copy@ == self@,
    {
        Container {
            id: self.id,
            created: self.created,
            updated: self.updated,
            name: match &self.name {
                Some(name) => Some(name.clone()),
                None => None,
            },
            location: match &self.location {
                Some(location) => Some(location.duplicate()),
                None => None,
            },
        }
    }
}

/// An item with the container it lies in. The item belongs to the
/// container `container_id`, whose identifier its key holds; `container` is
/// that container where it is stored, and none for an item that was left
/// behind when its container was deleted.
#[derive(Clone, Debug, PartialEq, Eq)]
pub struct Item {
    pub id: Id,
    pub created: i64,
    pub updated: i64,
    pub name: String,
    pub quantity: u64,
    pub description: Option<String>,
    pub container_id: Id,
    pub container: Option<Container>,
}

/// An item as a mathematical value.
pub struct ItemView {
    pub id: Seq<u8>,
    pub created: i64,
    pub updated: i64,
    pub name: Seq<char>,
    pub quantity: u64,
    pub description: Option<Seq<char>>,
    pub container_id: Seq<u8>,
    pub container: Option<ContainerView>,
}

impl View for Item {
    type V = ItemView;

    open spec fn view(&self) -> ItemView {
        ItemView {
            id: self.id@,
            created: self.created,
            updated: self.updated,
            name: self.name@,
            quantity: self.quantity,
            description: match self.description {
                Some(text) => Some(text@),
                None => None,
            },
            container_id: self.container_id@,
            container: match self.container {
                Some(container) => Some(container@),
                None => None,
            },
        }
    }
}

/// The reading side of the inventory.
pub struct QueryRoot;

/// The changing side of the inventory.
pub struct MutationRoot;

/// What a changing operation found, and the changes it asks for, to be made
/// in order.
pub struct Plan {
    pub found: bool,
    pub writes: Vec<Write>,
}

/// `plan` is what `expected` asks for.
pub open spec fn plan_is(
    plan: Result<Plan, Error>,
    expected: Result<(bool, Seq<Change>), Error>,
) -> bool {
    match plan {
        Ok(plan) => expected == Ok::<(bool, Seq<Change>), Error>(
            (plan.found, changes(plan.writes@)),
        ),
        Err(fault) => expected == Err::<(bool, Seq<Change>), Error>(fault),
    }
}

/// The store went from `before` to `after` and the caller got `res` as
/// `expected` asks: on a fault nothing changed.
pub open spec fn carried_out(
    before: Map<Seq<u8>, Seq<u8>>,
    after: Map<Seq<u8>, Seq<u8>>,
    res: Result<bool, Error>,
    expected: Result<(bool, Seq<Change>), Error>,
) -> bool {
    match expected {
        Ok((found, steps)) => res == Ok::<bool, Error>(found) && after == effect_of(
            steps,
            before,
        ),
        Err(fault) => res == Err::<bool, Error>(fault) && after == before,
    }
}

/// What the store holds under `key`, if anything.
pub open spec fn stored_at(contents: Map<Seq<u8>, Seq<u8>>, key: Seq<u8>) -> Option<Seq<u8>> {
    if contents.contains_key(key) {
        Some(contents[key])
    } else {
        None
    }
}

/// The bytes of an optional value.
pub open spec fn opt_bytes(value: Option<Vec<u8>>) -> Option<Seq<u8>> {
    match value {
        Some(bytes) => Some(bytes@),
        None => None,
    }
}

/// What a scan yields, pair by pair, read by `read`: the values in scan
/// order without the pairs that `read` passes over, or the fault of the
/// first pair that has one.
pub open spec fn collect<T>(
    found: Seq<(Seq<u8>, Seq<u8>)>,
    read: spec_fn((Seq<u8>, Seq<u8>)) -> Result<Option<T>, Error>,
) -> Result<Seq<T>, Error>
    decreases found.len(),
{
    if found.len() == 0 {
        Ok(Seq::empty())
    } else {
        match collect(found.drop_last(), read) {
            Err(fault) => Err(fault),
            Ok(list) => match read(found.last()) {
                Err(fault) => Err(fault),
                Ok(Some(value)) => Ok(list.push(value)),
                Ok(None) => Ok(list),
            },
        }
    }
}

/// Where no pair is passed over, a scan yields one value for each pair, in
/// the order of the pairs.
pub proof fn lemma_collect_each<T>(
    found: Seq<(Seq<u8>, Seq<u8>)>,
    read: spec_fn((Seq<u8>, Seq<u8>)) -> Result<Option<T>, Error>,
)
    requires
        collect(found, read) is Ok,
        forall|i: int| 0 <= i < found.len() ==> !(#[trigger] read(found[i]) matches Ok(None)),
    ensures
        collect(found, read)->Ok_0.len() == found.len(),
        forall|i: int|
            0 <= i < found.len() ==> #[trigger] read(found[i]) == Ok::<Option<T>, Error>(
                Some(collect(found, read)->Ok_0[i]),
            ),
    decreases found.len(),
{
    if found.len() > 0 {
        let rest = found.drop_last();
        assert forall|i: int| 0 <= i < rest.len() implies !(#[trigger] read(rest[i]) matches Ok(
            None,
        )) by {
            assert(rest[i] == found[i]);
        }
        lemma_collect_each(rest, read);
        assert forall|i: int| 0 <= i < found.len() implies #[trigger] read(found[i]) == Ok::<
            Option<T>,
            Error,
        >(Some(collect(found, read)->Ok_0[i])) by {
            if i < found.len() - 1 {
                assert(rest[i] == found[i]);
            } else {
                assert(found[i] == found.last());
            }
        }
    }
}

/// A scan that yields its values has no faulty pair, and a scan that has a
/// faulty pair yields the fault of the first one.
pub proof fn lemma_collect_faults<T>(
    found: Seq<(Seq<u8>, Seq<u8>)>,
    read: spec_fn((Seq<u8>, Seq<u8>)) -> Result<Option<T>, Error>,
)
    ensures
        collect(found, read) is Ok <==> forall|i: int|
            0 <= i < found.len() ==> #[trigger] read(found[i]) is Ok,
        collect(found, read) matches Err(fault) ==> exists|i: int|
            0 <= i < found.len() && #[trigger] read(found[i]) == Err::<Option<T>, Error>(fault)
                && forall|j: int| 0 <= j < i ==> #[trigger] read(found[j]) is Ok,
    decreases found.len(),
{
    if found.len() > 0 {
        let rest = found.drop_last();
        lemma_collect_faults(rest, read);
        assert forall|i: int| 0 <= i < rest.len() implies rest[i] == found[i] by {}
        if collect(rest, read) is Ok {
            assert forall|j: int| 0 <= j < found.len() - 1 implies #[trigger] read(
                found[j],
            ) is Ok by {
                assert(rest[j] == found[j]);
                assert(read(rest[j]) is Ok);
            }
            if read(found.last()) is Err {
                assert(read(found[found.len() - 1]) == read(found.last()));
            } else {
                assert forall|i: int| 0 <= i < found.len() implies #[trigger] read(
                    found[i],
                ) is Ok by {
                    if i < found.len() - 1 {
                    } else {
                        assert(found[i] == found.last());
                    }
                }
            }
        } else {
            let fault = collect(rest, read)->Err_0;
            let i = choose|i: int|
                0 <= i < rest.len() && #[trigger] read(rest[i]) == Err::<Option<T>, Error>(fault)
                    && forall|j: int| 0 <= j < i ==> #[trigger] read(rest[j]) is Ok;
            assert(read(found[i]) == Err::<Option<T>, Error>(fault));
            assert forall|j: int| 0 <= j < i implies #[trigger] read(found[j]) is Ok by {
                assert(rest[j] == found[j]);
                assert(read(rest[j]) is Ok);
            }
        }
    }
}

/// A fault among the first `n` pairs of a scan is the fault of the whole
/// scan.
pub proof fn lemma_collect_fault<T>(
    found: Seq<(Seq<u8>, Seq<u8>)>,
    read: spec_fn((Seq<u8>, Seq<u8>)) -> Result<Option<T>, Error>,
    n: int,
)
    requires
        0 <= n <= found.len(),
        collect(found.take(n), read) is Err,
    ensures
        collect(found, read) == collect(found.take(n), read),
    decreases found.len() - n,
{
    if n < found.len() {
        assert(found.take(n + 1).drop_last() =~= found.take(n));
        lemma_collect_fault(found, read, n + 1);
    } else {
        assert(found.take(n) =~= found);
    }
}

} // verus!
