//! Key codec: the byte keys that place several collections in one ordered
//! keyspace.
//!
//! A key is a tag byte followed by one or two identifiers of sixteen bytes.
//! All parts have a fixed width, so a key of a collection keyed by one
//! identifier is also the scan anchor of a collection keyed by two.

use vstd::prelude::*;

verus! {

/// Width in bytes of one identifier inside a key.
pub const ID_LEN: usize = 16;

/// Tag byte of container records.
pub const CONTAINER_TYPE: u8 = 1;

/// Tag byte of container images.
pub const CONTAINER_IMAGE_TYPE: u8 = 2;

/// Tag byte of item records.
pub const ITEM_TYPE: u8 = 10;

/// Tag byte of item images.
pub const ITEM_IMAGE_TYPE: u8 = 11;

/// Tag byte of location records.
pub const LOCATION_TYPE: u8 = 20;

/// Tag byte of session tokens.
pub const SESSION_TYPE: u8 = 255;

/// A 128-bit identifier in its binary layout.
#[derive(Clone, Copy, Debug, PartialEq, Eq, Hash)]
pub struct Id {
    pub bytes: [u8; 16],
}

impl View for Id {
    type V = Seq<u8>;

    open spec fn view(&self) -> Seq<u8> {
        self.bytes@
    }
}

impl Id {
    /// Builds an identifier from its sixteen bytes.
    pub fn from_bytes(bytes: [u8; 16]) -> (id: Id)
        ensures
            id@ == bytes@,
            id.bytes == bytes,
    {
        Id { bytes }
    }

    /// Reads an identifier from `source`, starting at `offset`.
    pub fn from_slice(source: &[u8], offset: usize) -> (id: Id)
        requires
            offset + 16 <= source@.len(),
        ensures
            id@ == source@.subrange(offset as int, offset + 16),
    {
        let mut bytes = [0u8; 16];
        let len: usize = source.len();
        let mut i: usize = 0;
        while i < 16
            invariant
                i <= 16,
                offset + 16 <= source@.len() == len,
                forall|j: int| 0 <= j < i ==> bytes@[j] == source@[offset + j],
            decreases 16 - i,
        {
            bytes[i] = source[offset + i];
            i += 1;
        }
        assert(bytes@ =~= source@.subrange(offset as int, offset + 16));
        Id { bytes }
    }

    /// Whether two identifiers hold the same bytes.
    pub fn same(&self, other: &Id) -> (equal: bool)
        ensures
            equal == (self@ == other@),
            equal == (*self == *other),
    {
        let mut i: usize = 0;
        while i < 16
            invariant
                i <= 16,
                forall|j: int| 0 <= j < i ==> self.bytes@[j] == other.bytes@[j],
            decreases 16 - i,
        {
            if self.bytes[i] != other.bytes[i] {
                assert(self.bytes@[i as int] != other.bytes@[i as int]);
                return false;
            }
            i += 1;
        }
        assert(self.bytes@ =~= other.bytes@);
        assert(self.bytes =~= other.bytes);
        true
    }

    /// Appends the sixteen bytes to `out`.
    pub fn append_to(&self, out: &mut Vec<u8>)
        ensures
            final(out)@ == old(out)@ + self@,
    {
        let ghost before = out@;
        let mut i: usize = 0;
        while i < 16
            invariant
                i <= 16,
                out@ == before + self@.subrange(0, i as int),
            decreases 16 - i,
        {
            out.push(self.bytes[i]);
            assert(out@ =~= before + self@.subrange(0, i + 1));
            i += 1;
        }
        assert(self@.subrange(0, 16) =~= self@);
    }
}

/// Identifiers are equal exactly when their bytes are.
pub proof fn lemma_id_view_injective(a: Id, b: Id)
    ensures
        (a@ == b@) <==> (a == b),
        a@.len() == 16,
{
    if a@ == b@ {
        assert(a.bytes =~= b.bytes);
    }
}

/// The collections that share the keyspace.
#[derive(Clone, Copy, Debug, PartialEq, Eq, Structural, Hash)]
pub enum Tag {
    Container,
    ContainerImage,
    Item,
    ItemImage,
    Location,
    Session,
}

impl Tag {
    /// The byte that opens every key of this collection.
    pub open spec fn spec_byte(self) -> u8 {
        match self {
            Tag::Container => CONTAINER_TYPE,
            Tag::ContainerImage => CONTAINER_IMAGE_TYPE,
            Tag::Item => ITEM_TYPE,
            Tag::ItemImage => ITEM_IMAGE_TYPE,
            Tag::Location => LOCATION_TYPE,
            Tag::Session => SESSION_TYPE,
        }
    }

    /// How many identifiers a complete key of this collection holds.
    pub open spec fn spec_arity(self) -> usize {
        match self {
            Tag::Item | Tag::ItemImage => 2,
            _ => 1,
        }
    }

    /// The collection that the byte `b` opens, if any.
    pub open spec fn spec_from_byte(b: u8) -> Option<Tag> {
        if b == CONTAINER_TYPE {
            Some(Tag::Container)
        } else if b == CONTAINER_IMAGE_TYPE {
            Some(Tag::ContainerImage)
        } else if b == ITEM_TYPE {
            Some(Tag::Item)
        } else if b == ITEM_IMAGE_TYPE {
            Some(Tag::ItemImage)
        } else if b == LOCATION_TYPE {
            Some(Tag::Location)
        } else if b == SESSION_TYPE {
            Some(Tag::Session)
        } else {
            None
        }
    }

    /// The byte that opens every key of this collection.
    #[verifier::when_used_as_spec(spec_byte)]
    pub fn byte(self) -> (b: u8)
        ensures
            b == self.spec_byte(),
    {
        match self {
            Tag::Container => CONTAINER_TYPE,
            Tag::ContainerImage => CONTAINER_IMAGE_TYPE,
            Tag::Item => ITEM_TYPE,
            Tag::ItemImage => ITEM_IMAGE_TYPE,
            Tag::Location => LOCATION_TYPE,
            Tag::Session => SESSION_TYPE,
        }
    }

    /// How many identifiers a complete key of this collection holds.
    #[verifier::when_used_as_spec(spec_arity)]
    pub fn arity(self) -> (n: usize)
        ensures
            n == self.spec_arity(),
    {
        match self {
            Tag::Item | Tag::ItemImage => 2,
            _ => 1,
        }
    }

    /// The collection that the byte `b` opens, if any.
    pub fn from_byte(b: u8) -> (tag: Option<Tag>)
        ensures
            tag == Tag::spec_from_byte(b),
    {
        if b == CONTAINER_TYPE {
            Some(Tag::Container)
        } else if b == CONTAINER_IMAGE_TYPE {
            Some(Tag::ContainerImage)
        } else if b == ITEM_TYPE {
            Some(Tag::Item)
        } else if b == ITEM_IMAGE_TYPE {
            Some(Tag::ItemImage)
        } else if b == LOCATION_TYPE {
            Some(Tag::Location)
        } else if b == SESSION_TYPE {
            Some(Tag::Session)
        } else {
            None
        }
    }
}

/// Distinct collections open their keys with distinct bytes, and the tag is
/// found again from its byte.
pub proof fn lemma_tag_bytes_distinct(a: Tag, b: Tag)
    ensures
        (a.spec_byte() == b.spec_byte()) <==> (a == b),
        Tag::spec_from_byte(a.spec_byte()) == Some(a),
{
}

/// The scan anchor of a whole collection: the tag byte alone.
pub open spec fn tag_prefix(tag: Tag) -> Seq<u8> {
    seq![tag.spec_byte()]
}

/// A tag followed by one identifier: the key of a one-identifier collection,
/// or the scan anchor of everything that belongs to `first` in a
/// two-identifier collection.
pub open spec fn key_one(tag: Tag, first: Seq<u8>) -> Seq<u8> {
    seq![tag.spec_byte()] + first
}

/// A tag followed by two identifiers.
pub open spec fn key_two(tag: Tag, first: Seq<u8>, second: Seq<u8>) -> Seq<u8> {
    seq![tag.spec_byte()] + first + second
}

/// The anchor for scanning all keys of `tag`.
pub fn prefix(tag: Tag) -> (anchor: Vec<u8>)
    ensures
        anchor@ == tag_prefix(tag),
{
    let mut anchor: Vec<u8> = Vec::new();
    anchor.push(tag.byte());
    assert(anchor@ =~= tag_prefix(tag));
    anchor
}

/// Encodes a tag and one identifier.
pub fn encode(tag: Tag, first: &Id) -> (key: Vec<u8>)
    ensures
        key@ == key_one(tag, first@),
        key@.len() == 17,
{
    let mut key: Vec<u8> = Vec::new();
    key.push(tag.byte());
    assert(key@ =~= seq![tag.spec_byte()]);
    first.append_to(&mut key);
    key
}

/// Encodes a tag and two identifiers, in argument order.
pub fn encode_pair(tag: Tag, first: &Id, second: &Id) -> (key: Vec<u8>)
    ensures
        key@ == key_two(tag, first@, second@),
        key@.len() == 33,
{
    let mut key: Vec<u8> = Vec::new();
    key.push(tag.byte());
    assert(key@ =~= seq![tag.spec_byte()]);
    first.append_to(&mut key);
    second.append_to(&mut key);
    key
}

/// Whether `key` begins with `anchor`.
pub fn has_prefix(key: &[u8], anchor: &[u8]) -> (yes: bool)
    ensures
        yes == anchor@.is_prefix_of(key@),
{
    if anchor.len() > key.len() {
        return false;
    }
    let mut i: usize = 0;
    while i < anchor.len()
        invariant
            i <= anchor@.len() <= key@.len(),
            forall|j: int| 0 <= j < i ==> anchor@[j] == key@[j],
        decreases anchor@.len() - i,
    {
        if anchor[i] != key[i] {
            assert(key@.subrange(0, anchor@.len() as int)[i as int] == key@[i as int]);
            return false;
        }
        i += 1;
    }
    assert(anchor@ =~= key@.subrange(0, anchor@.len() as int));
    true
}

/// What a key holds.
#[derive(Clone, Copy, Debug, PartialEq, Eq)]
pub struct Key {
    pub tag: Tag,
    pub first: Id,
    pub second: Option<Id>,
}

impl Key {
    /// A key holds exactly as many identifiers as its collection asks for.
    pub open spec fn wf(self) -> bool {
        (self.second is Some) <==> self.tag.spec_arity() == 2
    }

    /// The bytes of the key.
    pub open spec fn encoding(self) -> Seq<u8> {
        match self.second {
            Some(second) => key_two(self.tag, self.first@, second@),
            None => key_one(self.tag, self.first@),
        }
    }

    /// Encodes the key.
    pub fn to_bytes(&self) -> (bytes: Vec<u8>)
        ensures
            bytes@ == self.encoding(),
    {
        match &self.second {
            Some(second) => encode_pair(self.tag, &self.first, second),
            None => encode(self.tag, &self.first),
        }
    }
}

/// Why a byte string is not a key of this store.
#[derive(Clone, Copy, Debug, PartialEq, Eq, Structural)]
pub enum KeyError {
    /// The first byte is not the tag of the collection.
    BadTag,
    /// The length is not that of a key of the collection.
    BadLength,
}

/// What is wrong with `bytes` as a key, if anything: an empty string and a
/// string whose length does not fit its collection have a bad length, and a
/// first byte that opens no collection is a bad tag.
pub open spec fn key_fault(bytes: Seq<u8>) -> Option<KeyError> {
    if bytes.len() == 0 {
        Some(KeyError::BadLength)
    } else {
        match Tag::spec_from_byte(bytes[0]) {
            None => Some(KeyError::BadTag),
            Some(tag) => if bytes.len() != 1 + 16 * tag.spec_arity() {
                Some(KeyError::BadLength)
            } else {
                None
            },
        }
    }
}

/// Decodes a key found while iterating. A byte string that this codec did
/// not produce is reported, never guessed at.
pub fn decode(bytes: &[u8]) -> (res: Result<Key, KeyError>)
    ensures
        match res {
            Ok(key) => {
                &&& key_fault(bytes@) is None
                &&& Tag::spec_from_byte(bytes@[0]) == Some(key.tag)
                &&& key.wf()
                &&& key.encoding() == bytes@
            },
            Err(fault) => key_fault(bytes@) == Some(fault),
        },
{
    if bytes.len() == 0 {
        return Err(KeyError::BadLength);
    }
    match Tag::from_byte(bytes[0]) {
        None => Err(KeyError::BadTag),
        Some(tag) => {
            if bytes.len() != 1 + 16 * tag.arity() {
                return Err(KeyError::BadLength);
            }
            let first = Id::from_slice(bytes, 1);
            if tag.arity() == 2 {
                let second = Id::from_slice(bytes, 17);
                assert(bytes@ =~= seq![bytes@[0]] + bytes@.subrange(1, 17) + bytes@.subrange(
                    17,
                    33,
                ));
                Ok(Key { tag, first, second: Some(second) })
            } else {
                assert(bytes@ =~= seq![bytes@[0]] + bytes@.subrange(1, 17));
                Ok(Key { tag, first, second: None })
            }
        },
    }
}

/// What is wrong with `bytes` as a key of the collection `tag`, if anything.
pub open spec fn key_fault_as(tag: Tag, bytes: Seq<u8>) -> Option<KeyError> {
    if bytes.len() == 0 {
        Some(KeyError::BadLength)
    } else if bytes[0] != tag.spec_byte() {
        Some(KeyError::BadTag)
    } else if bytes.len() != 1 + 16 * tag.spec_arity() {
        Some(KeyError::BadLength)
    } else {
        None
    }
}

/// Decodes a key that is expected to belong to the collection `tag`.
pub fn decode_as(tag: Tag, bytes: &[u8]) -> (res: Result<Key, KeyError>)
    ensures
        match res {
            Ok(key) => {
                &&& key_fault_as(tag, bytes@) is None
                &&& key.tag == tag
                &&& key.wf()
                &&& key.encoding() == bytes@
            },
            Err(fault) => key_fault_as(tag, bytes@) == Some(fault),
        },
{
    if bytes.len() == 0 {
        return Err(KeyError::BadLength);
    }
    if bytes[0] != tag.byte() {
        return Err(KeyError::BadTag);
    }
    proof {
        lemma_tag_bytes_distinct(tag, tag);
    }
    decode(bytes)
}

/// Keys are free of collisions: two keys of one identifier are the same
/// bytes only for the same tag and identifier.
pub proof fn lemma_key_one_injective(tag: Tag, id: Id, other_tag: Tag, other_id: Id)
    ensures
        key_one(tag, id@) == key_one(other_tag, other_id@) <==> tag == other_tag && id
            == other_id,
        key_one(tag, id@).len() == 17,
{
    lemma_id_view_injective(id, other_id);
    lemma_tag_bytes_distinct(tag, other_tag);
    let a = key_one(tag, id@);
    let b = key_one(other_tag, other_id@);
    if a == b {
        assert(a[0] == b[0]);
        assert(id@ =~= a.subrange(1, 17));
        assert(other_id@ =~= b.subrange(1, 17));
    }
}

/// Two keys of two identifiers are the same bytes only for the same tag and
/// the same identifiers, in the same order.
pub proof fn lemma_key_two_injective(
    tag: Tag,
    first: Id,
    second: Id,
    other_tag: Tag,
    other_first: Id,
    other_second: Id,
)
    ensures
        key_two(tag, first@, second@) == key_two(other_tag, other_first@, other_second@) <==> tag
            == other_tag && first == other_first && second == other_second,
        key_two(tag, first@, second@).len() == 33,
{
    lemma_id_view_injective(first, other_first);
    lemma_id_view_injective(second, other_second);
    lemma_tag_bytes_distinct(tag, other_tag);
    let a = key_two(tag, first@, second@);
    let b = key_two(other_tag, other_first@, other_second@);
    if a == b {
        assert(a[0] == b[0]);
        assert(first@ =~= a.subrange(1, 17));
        assert(other_first@ =~= b.subrange(1, 17));
        assert(second@ =~= a.subrange(17, 33));
        assert(other_second@ =~= b.subrange(17, 33));
    }
}

/// The anchor of one owner matches the two-identifier keys of that owner in
/// that collection, and no others.
pub proof fn lemma_owner_isolation(
    tag: Tag,
    owner: Id,
    other_tag: Tag,
    other_owner: Id,
    member: Id,
)
    ensures
        key_one(tag, owner@).is_prefix_of(key_two(other_tag, other_owner@, member@)) <==> tag
            == other_tag && owner == other_owner,
{
    lemma_id_view_injective(owner, other_owner);
    lemma_tag_bytes_distinct(tag, other_tag);
    let anchor = key_one(tag, owner@);
    let key = key_two(other_tag, other_owner@, member@);
    assert(key.subrange(0, 17) =~= key_one(other_tag, other_owner@));
    lemma_key_one_injective(tag, owner, other_tag, other_owner);
}

} // verus!
