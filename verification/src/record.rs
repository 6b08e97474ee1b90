//! Record codec: the stored form of containers, items and locations.
//!
//! Layouts, with integers little-endian and time stamps shifted by 2^63 so
//! that they are unsigned:
//!
//! - location: the name in UTF-8.
//! - container: created (8), updated (8), a flag byte and the location
//!   identifier (16) if the flag is 1, a flag byte and the name in UTF-8 to
//!   the end if the flag is 1.
//! - item: created (8), updated (8), quantity (8), a flag byte and, if it is
//!   1, the length of the description (8) and the description in UTF-8; then
//!   the name in UTF-8 to the end.

use vstd::prelude::*;
use vstd::bytes::{
    lemma_auto_spec_u64_to_from_le_bytes,
    spec_u64_from_le_bytes,
    spec_u64_to_le_bytes,
    u64_from_le_bytes,
    u64_to_le_bytes,
};
use vstd::slice::slice_subrange;
use vstd::utf8::{
    decode_utf8,
    decode_utf8_encode_utf8,
    encode_utf8,
    encode_utf8_decode_utf8,
    encode_utf8_valid_utf8,
    valid_utf8,
};
use crate::key::Id;
use crate::store::copy_bytes;

verus! {

/// Why stored bytes are not a record.
#[derive(Clone, Copy, Debug, PartialEq, Eq, Structural)]
pub enum DecodeError {
    /// The bytes end before the record does.
    Truncated,
    /// A flag byte is neither 0 nor 1.
    BadFlag,
    /// Bytes follow a record that holds no trailing text.
    Trailing,
    /// A text field is not valid UTF-8.
    BadText,
    /// The record was updated before it was created.
    BadStamps,
}

/// `String::from_utf8`: the bytes make a string exactly when they are valid
/// UTF-8, and the string then consists of those bytes.
#[verifier::external_body]
pub(crate) fn string_from_utf8(bytes: Vec<u8>) -> (text: Option<String>)
    ensures
        text is Some <==> valid_utf8(bytes@),
        text matches Some(s) ==> encode_utf8(s@) == bytes@,
{
    String::from_utf8(bytes).ok()
}

/// The shift that makes a time stamp unsigned.
pub open spec fn stamp_code(t: i64) -> u64 {
    (t + 0x8000_0000_0000_0000) as u64
}

/// The time stamp that `u` stands for.
pub open spec fn stamp_of(u: u64) -> i64 {
    (u - 0x8000_0000_0000_0000) as i64
}

/// The eight bytes of a time stamp.
pub open spec fn stamp_bytes(t: i64) -> Seq<u8> {
    spec_u64_to_le_bytes(stamp_code(t))
}

/// The time stamp in the eight bytes of `b` from `at`.
pub open spec fn stamp_at(b: Seq<u8>, at: int) -> i64 {
    stamp_of(spec_u64_from_le_bytes(b.subrange(at, at + 8)))
}

/// The unsigned integer in the eight bytes of `b` from `at`.
pub open spec fn u64_at(b: Seq<u8>, at: int) -> u64 {
    spec_u64_from_le_bytes(b.subrange(at, at + 8))
}

/// The bytes of an optional identifier: a flag, then the identifier.
pub open spec fn opt_id_bytes(id: Option<Seq<u8>>) -> Seq<u8> {
    match id {
        None => seq![0u8],
        Some(bytes) => seq![1u8] + bytes,
    }
}

/// The bytes of an optional text that ends the record: a flag, then the text.
pub open spec fn opt_tail_bytes(text: Option<Seq<char>>) -> Seq<u8> {
    match text {
        None => seq![0u8],
        Some(chars) => seq![1u8] + encode_utf8(chars),
    }
}

/// The bytes of an optional text inside a record: a flag, then the length of
/// the text and the text.
pub open spec fn opt_text_bytes(text: Option<Seq<char>>) -> Seq<u8> {
    match text {
        None => seq![0u8],
        Some(chars) => seq![1u8] + spec_u64_to_le_bytes(encode_utf8(chars).len() as u64)
            + encode_utf8(chars),
    }
}

fn put_u64(out: &mut Vec<u8>, x: u64)
    ensures
        final(out)@ == old(out)@ + spec_u64_to_le_bytes(x),
{
    let mut bytes = u64_to_le_bytes(x);
    out.append(&mut bytes);
}

fn put_stamp(out: &mut Vec<u8>, t: i64)
    ensures
        final(out)@ == old(out)@ + stamp_bytes(t),
{
    let shifted: i128 = t as i128 + 0x8000_0000_0000_0000i128;
    put_u64(out, shifted as u64);
}

fn put_bytes(out: &mut Vec<u8>, source: &[u8])
    ensures
        final(out)@ == old(out)@ + source@,
{
    let mut bytes = copy_bytes(source);
    out.append(&mut bytes);
}

fn read_u64(bytes: &[u8], at: usize) -> (x: u64)
    requires
        at + 8 <= bytes@.len(),
    ensures
        x == u64_at(bytes@, at as int),
{
    let len: usize = bytes.len();
    assert(at + 8 <= len);
    u64_from_le_bytes(slice_subrange(bytes, at, at + 8))
}

fn read_stamp(bytes: &[u8], at: usize) -> (t: i64)
    requires
        at + 8 <= bytes@.len(),
    ensures
        t == stamp_at(bytes@, at as int),
{
    let u = read_u64(bytes, at);
    (u as i128 - 0x8000_0000_0000_0000i128) as i64
}

fn read_text(bytes: &[u8], from: usize, to: usize) -> (text: Option<String>)
    requires
        from <= to <= bytes@.len(),
    ensures
        text is Some <==> valid_utf8(bytes@.subrange(from as int, to as int)),
        text matches Some(s) ==> s@ == decode_utf8(bytes@.subrange(from as int, to as int)),
{
    let text = string_from_utf8(copy_bytes(slice_subrange(bytes, from, to)));
    proof {
        if let Some(s) = &text {
            encode_utf8_decode_utf8(s@);
        }
    }
    text
}

/// What a stored location holds.
#[derive(Clone, Debug, PartialEq, Eq)]
pub struct LocationRecord {
    pub name: String,
}

/// The stored form of a location with the name `name`.
pub open spec fn location_bytes(name: Seq<char>) -> Seq<u8> {
    encode_utf8(name)
}

/// What stored bytes hold as a location: its name, or the fault.
pub open spec fn parse_location(b: Seq<u8>) -> Result<Seq<char>, DecodeError> {
    if valid_utf8(b) {
        Ok(decode_utf8(b))
    } else {
        Err(DecodeError::BadText)
    }
}

impl View for LocationRecord {
    type V = Seq<char>;

    open spec fn view(&self) -> Seq<char> {
        self.name@
    }
}

impl LocationRecord {
    /// The stored form of the location.
    pub fn encode(&self) -> (bytes: Vec<u8>)
        ensures
            bytes@ == location_bytes(self@),
    {
        copy_bytes(self.name.as_str().as_bytes())
    }

    /// Reads a stored location, or says why the bytes are none.
    pub fn decode(bytes: &[u8]) -> (res: Result<LocationRecord, DecodeError>)
        ensures
            match res {
                Ok(record) => parse_location(bytes@) == Ok::<Seq<char>, DecodeError>(record@),
                Err(fault) => parse_location(bytes@) == Err::<Seq<char>, DecodeError>(fault),
            },
    {
        assert(bytes@.subrange(0, bytes@.len() as int) =~= bytes@);
        match read_text(bytes, 0, bytes.len()) {
            Some(name) => Ok(LocationRecord { name }),
            None => Err(DecodeError::BadText),
        }
    }
}

/// What a stored container holds.
#[derive(Clone, Debug, PartialEq, Eq)]
pub struct ContainerRecord {
    pub created: i64,
    pub updated: i64,
    pub name: Option<String>,
    pub location: Option<Id>,
}

/// A stored container as a mathematical value.
pub struct ContainerData {
    pub created: i64,
    pub updated: i64,
    pub name: Option<Seq<char>>,
    pub location: Option<Seq<u8>>,
}

impl ContainerData {
    /// A location reference is an identifier, and the record was not updated
    /// before it was created.
    pub open spec fn wf(self) -> bool {
        &&& self.created <= self.updated
        &&& self.location matches Some(id) ==> id.len() == 16
    }
}

/// The stored form of a container.
pub open spec fn container_bytes(d: ContainerData) -> Seq<u8> {
    stamp_bytes(d.created) + stamp_bytes(d.updated) + opt_id_bytes(d.location) + opt_tail_bytes(
        d.name,
    )
}

/// What stored bytes hold as a container, or the fault.
pub open spec fn parse_container(b: Seq<u8>) -> Result<ContainerData, DecodeError> {
    if b.len() < 17 {
        Err(DecodeError::Truncated)
    } else if b[16] > 1 {
        Err(DecodeError::BadFlag)
    } else {
        let name_at: int = if b[16] == 1 {
            33
        } else {
            17
        };
        if b.len() < name_at + 1 {
            Err(DecodeError::Truncated)
        } else if b[name_at] > 1 {
            Err(DecodeError::BadFlag)
        } else if b[name_at] == 0 && b.len() != name_at + 1 {
            Err(DecodeError::Trailing)
        } else if b[name_at] == 1 && !valid_utf8(b.skip(name_at + 1)) {
            Err(DecodeError::BadText)
        } else if stamp_at(b, 8) < stamp_at(b, 0) {
            Err(DecodeError::BadStamps)
        } else {
            Ok(
                ContainerData {
                    created: stamp_at(b, 0),
                    updated: stamp_at(b, 8),
                    name: if b[name_at] == 1 {
                        Some(decode_utf8(b.skip(name_at + 1)))
                    } else {
                        None
                    },
                    location: if b[16] == 1 {
                        Some(b.subrange(17, 33))
                    } else {
                        None
                    },
                },
            )
        }
    }
}

/// The characters of an optional string.
pub open spec fn opt_chars(text: Option<String>) -> Option<Seq<char>> {
    match text {
        Some(s) => Some(s@),
        None => None,
    }
}

/// The bytes of an optional identifier.
pub open spec fn opt_id(id: Option<Id>) -> Option<Seq<u8>> {
    match id {
        Some(id) => Some(id@),
        None => None,
    }
}

impl View for ContainerRecord {
    type V = ContainerData;

    open spec fn view(&self) -> ContainerData {
        ContainerData {
            created: self.created,
            updated: self.updated,
            name: opt_chars(self.name),
            location: opt_id(self.location),
        }
    }
}

impl ContainerRecord {
    /// The stored form of the container.
    pub fn encode(&self) -> (bytes: Vec<u8>)
        ensures
            bytes@ == container_bytes(self@),
    {
        let mut out: Vec<u8> = Vec::new();
        put_stamp(&mut out, self.created);
        put_stamp(&mut out, self.updated);
        match &self.location {
            Some(id) => {
                out.push(1u8);
                id.append_to(&mut out);
            },
            None => {
                out.push(0u8);
            },
        }
        match &self.name {
            Some(name) => {
                out.push(1u8);
                put_bytes(&mut out, name.as_str().as_bytes());
            },
            None => {
                out.push(0u8);
            },
        }
        assert(out@ =~= container_bytes(self@));
        out
    }

    /// Reads a stored container, or says why the bytes are none.
    pub fn decode(bytes: &[u8]) -> (res: Result<ContainerRecord, DecodeError>)
        ensures
            match res {
                Ok(record) => parse_container(bytes@) == Ok::<ContainerData, DecodeError>(
                    record@,
                ),
                Err(fault) => parse_container(bytes@) == Err::<ContainerData, DecodeError>(fault),
            },
    {
        let len = bytes.len();
        if len < 17 {
            return Err(DecodeError::Truncated);
        }
        let created = read_stamp(bytes, 0);
        let updated = read_stamp(bytes, 8);
        if bytes[16] > 1 {
            return Err(DecodeError::BadFlag);
        }
        let name_at: usize = if bytes[16] == 1 {
            33
        } else {
            17
        };
        if len < name_at + 1 {
            return Err(DecodeError::Truncated);
        }
        let location = if bytes[16] == 1 {
            Some(Id::from_slice(bytes, 17))
        } else {
            None
        };
        if bytes[name_at] > 1 {
            return Err(DecodeError::BadFlag);
        }
        assert(bytes@.skip(name_at + 1) =~= bytes@.subrange(name_at + 1, len as int));
        let name = if bytes[name_at] == 1 {
            match read_text(bytes, name_at + 1, len) {
                Some(text) => Some(text),
                None => {
                    return Err(DecodeError::BadText);
                },
            }
        } else {
            if len != name_at + 1 {
                return Err(DecodeError::Trailing);
            }
            None
        };
        if updated < created {
            return Err(DecodeError::BadStamps);
        }
        Ok(ContainerRecord { created, updated, name, location })
    }
}

/// What a stored item holds.
#[derive(Clone, Debug, PartialEq, Eq)]
pub struct ItemRecord {
    pub created: i64,
    pub updated: i64,
    pub name: String,
    pub quantity: u64,
    pub description: Option<String>,
}

/// A stored item as a mathematical value.
pub struct ItemData {
    pub created: i64,
    pub updated: i64,
    pub name: Seq<char>,
    pub quantity: u64,
    pub description: Option<Seq<char>>,
}

impl ItemData {
    /// The record was not updated before it was created, and the length of
    /// its description fits the eight bytes that hold it.
    pub open spec fn wf(self) -> bool {
        &&& self.created <= self.updated
        &&& self.description matches Some(text) ==> encode_utf8(text).len() <= u64::MAX
    }
}

/// The stored form of an item.
pub open spec fn item_bytes(d: ItemData) -> Seq<u8> {
    stamp_bytes(d.created) + stamp_bytes(d.updated) + spec_u64_to_le_bytes(d.quantity)
        + opt_text_bytes(d.description) + encode_utf8(d.name)
}

/// What stored bytes hold as an item, or the fault.
pub open spec fn parse_item(b: Seq<u8>) -> Result<ItemData, DecodeError> {
    if b.len() < 25 {
        Err(DecodeError::Truncated)
    } else if b[24] > 1 {
        Err(DecodeError::BadFlag)
    } else if b[24] == 1 && b.len() < 33 {
        Err(DecodeError::Truncated)
    } else if b[24] == 1 && b.len() - 33 < u64_at(b, 25) {
        Err(DecodeError::Truncated)
    } else {
        let name_at: int = if b[24] == 1 {
            33 + u64_at(b, 25)
        } else {
            25
        };
        if b[24] == 1 && !valid_utf8(b.subrange(33, name_at)) {
            Err(DecodeError::BadText)
        } else if !valid_utf8(b.skip(name_at)) {
            Err(DecodeError::BadText)
        } else if stamp_at(b, 8) < stamp_at(b, 0) {
            Err(DecodeError::BadStamps)
        } else {
            Ok(
                ItemData {
                    created: stamp_at(b, 0),
                    updated: stamp_at(b, 8),
                    name: decode_utf8(b.skip(name_at)),
                    quantity: u64_at(b, 16),
                    description: if b[24] == 1 {
                        Some(decode_utf8(b.subrange(33, name_at)))
                    } else {
                        None
                    },
                },
            )
        }
    }
}

impl View for ItemRecord {
    type V = ItemData;

    open spec fn view(&self) -> ItemData {
        ItemData {
            created: self.created,
            updated: self.updated,
            name: self.name@,
            quantity: self.quantity,
            description: opt_chars(self.description),
        }
    }
}

impl ItemRecord {
    /// The stored form of the item.
    pub fn encode(&self) -> (bytes: Vec<u8>)
        ensures
            bytes@ == item_bytes(self@),
            self@.description matches Some(text) ==> encode_utf8(text).len() <= u64::MAX,
    {
        let mut out: Vec<u8> = Vec::new();
        put_stamp(&mut out, self.created);
        put_stamp(&mut out, self.updated);
        put_u64(&mut out, self.quantity);
        match &self.description {
            Some(text) => {
                let raw = text.as_str().as_bytes();
                out.push(1u8);
                put_u64(&mut out, raw.len() as u64);
                put_bytes(&mut out, raw);
            },
            None => {
                out.push(0u8);
            },
        }
        put_bytes(&mut out, self.name.as_str().as_bytes());
        assert(out@ =~= item_bytes(self@));
        out
    }

    /// Reads a stored item, or says why the bytes are none.
    pub fn decode(bytes: &[u8]) -> (res: Result<ItemRecord, DecodeError>)
        ensures
            match res {
                Ok(record) => parse_item(bytes@) == Ok::<ItemData, DecodeError>(record@),
                Err(fault) => parse_item(bytes@) == Err::<ItemData, DecodeError>(fault),
            },
    {
        let len = bytes.len();
        if len < 25 {
            return Err(DecodeError::Truncated);
        }
        let created = read_stamp(bytes, 0);
        let updated = read_stamp(bytes, 8);
        let quantity = read_u64(bytes, 16);
        if bytes[24] > 1 {
            return Err(DecodeError::BadFlag);
        }
        let mut name_at: usize = 25;
        let mut description: Option<String> = None;
        if bytes[24] == 1 {
            if len < 33 {
                return Err(DecodeError::Truncated);
            }
            let size = read_u64(bytes, 25);
            if ((len - 33) as u64) < size {
                return Err(DecodeError::Truncated);
            }
            name_at = 33 + size as usize;
            match read_text(bytes, 33, name_at) {
                Some(text) => {
                    description = Some(text);
                },
                None => {
                    return Err(DecodeError::BadText);
                },
            }
        }
        assert(bytes@.skip(name_at as int) =~= bytes@.subrange(name_at as int, len as int));
        let name = match read_text(bytes, name_at, len) {
            Some(text) => text,
            None => {
                return Err(DecodeError::BadText);
            },
        };
        if updated < created {
            return Err(DecodeError::BadStamps);
        }
        Ok(ItemRecord { created, updated, name, quantity, description })
    }
}

/// A time stamp is read back from its eight bytes.
pub proof fn lemma_stamp_round_trip(t: i64)
    ensures
        stamp_bytes(t).len() == 8,
        stamp_of(spec_u64_from_le_bytes(stamp_bytes(t))) == t,
{
    lemma_auto_spec_u64_to_from_le_bytes();
}

/// Eight bytes are written back from the time stamp that they hold.
pub proof fn lemma_stamp_canonical(b: Seq<u8>)
    requires
        b.len() == 8,
    ensures
        stamp_bytes(stamp_of(spec_u64_from_le_bytes(b))) == b,
{
    lemma_auto_spec_u64_to_from_le_bytes();
}

/// A location is read back as it was written.
pub proof fn lemma_location_round_trip(name: Seq<char>)
    ensures
        parse_location(location_bytes(name)) == Ok::<Seq<char>, DecodeError>(name),
{
    encode_utf8_valid_utf8(name);
    encode_utf8_decode_utf8(name);
}

/// A container is read back as it was written.
pub proof fn lemma_container_round_trip(d: ContainerData)
    requires
        d.wf(),
    ensures
        parse_container(container_bytes(d)) == Ok::<ContainerData, DecodeError>(d),
{
    let b = container_bytes(d);
    lemma_stamp_round_trip(d.created);
    lemma_stamp_round_trip(d.updated);
    assert(b.subrange(0, 8) =~= stamp_bytes(d.created));
    assert(b.subrange(8, 16) =~= stamp_bytes(d.updated));
    let name_at: int = if d.location is Some {
        33
    } else {
        17
    };
    if let Some(id) = d.location {
        assert(b.subrange(17, 33) =~= id);
    }
    if let Some(chars) = d.name {
        assert(b.skip(name_at + 1) =~= encode_utf8(chars));
        encode_utf8_valid_utf8(chars);
        encode_utf8_decode_utf8(chars);
    }
    assert(b[name_at] == if d.name is Some {
        1u8
    } else {
        0u8
    });
}

/// Bytes that hold a container are the stored form of that container, and
/// what they hold is well formed.
pub proof fn lemma_container_canonical(b: Seq<u8>)
    requires
        parse_container(b) is Ok,
    ensures
        parse_container(b)->Ok_0.wf(),
        container_bytes(parse_container(b)->Ok_0) == b,
{
    let d = parse_container(b)->Ok_0;
    lemma_stamp_canonical(b.subrange(0, 8));
    lemma_stamp_canonical(b.subrange(8, 16));
    let name_at: int = if b[16] == 1 {
        33
    } else {
        17
    };
    if b[name_at] == 1 {
        decode_utf8_encode_utf8(b.skip(name_at + 1));
    }
    assert(container_bytes(d) =~= b);
}

/// An item is read back as it was written.
pub proof fn lemma_item_round_trip(d: ItemData)
    requires
        d.wf(),
    ensures
        parse_item(item_bytes(d)) == Ok::<ItemData, DecodeError>(d),
{
    let b = item_bytes(d);
    lemma_stamp_round_trip(d.created);
    lemma_stamp_round_trip(d.updated);
    lemma_auto_spec_u64_to_from_le_bytes();
    assert(b.subrange(0, 8) =~= stamp_bytes(d.created));
    assert(b.subrange(8, 16) =~= stamp_bytes(d.updated));
    assert(b.subrange(16, 24) =~= spec_u64_to_le_bytes(d.quantity));
    encode_utf8_valid_utf8(d.name);
    encode_utf8_decode_utf8(d.name);
    match d.description {
        Some(text) => {
            let size = encode_utf8(text).len() as u64;
            assert(b[24] == 1u8);
            assert(b.subrange(25, 33) =~= spec_u64_to_le_bytes(size));
            assert(b.subrange(33, 33 + size) =~= encode_utf8(text));
            assert(b.skip(33 + size) =~= encode_utf8(d.name));
            encode_utf8_valid_utf8(text);
            encode_utf8_decode_utf8(text);
        },
        None => {
            assert(b[24] == 0u8);
            assert(b.skip(25) =~= encode_utf8(d.name));
        },
    }
}

/// Bytes that hold an item are the stored form of that item, and what they
/// hold is well formed.
pub proof fn lemma_item_canonical(b: Seq<u8>)
    requires
        parse_item(b) is Ok,
    ensures
        parse_item(b)->Ok_0.wf(),
        item_bytes(parse_item(b)->Ok_0) == b,
{
    let d = parse_item(b)->Ok_0;
    lemma_stamp_canonical(b.subrange(0, 8));
    lemma_stamp_canonical(b.subrange(8, 16));
    lemma_auto_spec_u64_to_from_le_bytes();
    assert(spec_u64_to_le_bytes(u64_at(b, 16)) == b.subrange(16, 24));
    let name_at: int = if b[24] == 1 {
        33 + u64_at(b, 25)
    } else {
        25
    };
    decode_utf8_encode_utf8(b.skip(name_at));
    if b[24] == 1 {
        let text = b.subrange(33, name_at);
        decode_utf8_encode_utf8(text);
        assert(spec_u64_to_le_bytes(u64_at(b, 25)) == b.subrange(25, 33));
        assert(text.len() == u64_at(b, 25));
    }
    assert(item_bytes(d) =~= b);
}

} // verus!
