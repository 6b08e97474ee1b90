//! Session gate: a token is valid exactly while its key is stored.
//!
//! Tokens carry no expiry. A token becomes valid when it is issued and
//! stays valid until it is revoked.

use vstd::prelude::*;
use crate::config::Auth;
use crate::key::{encode, key_one, Id, Tag};
use crate::stamp::fresh_id;
use crate::store::{changes, lemma_effect_of_few, Change, RecordStore, Write};

verus! {

/// What a caller sends to log in.
#[derive(Clone, Debug, PartialEq, Eq)]
pub struct LoginFormData {
    pub password: String,
}

/// The key under which the token `token` is stored.
pub open spec fn session_key(token: Seq<u8>) -> Seq<u8> {
    key_one(Tag::Session, token)
}

/// Whether `token` is valid in a store that holds `contents`.
pub open spec fn valid_in(contents: Map<Seq<u8>, Seq<u8>>, token: Option<Id>) -> bool {
    token matches Some(token) && contents.contains_key(session_key(token@))
}

/// Whether the form holds the configured password.
pub fn password_accepted(auth: &Auth, form: &LoginFormData) -> (accepted: bool)
    ensures
        accepted == (form.password@ == auth.password@),
{
    form.password == auth.password
}

/// The change that makes `token` valid: its key with an empty value.
pub fn plan_issue(token: &Id) -> (writes: Vec<Write>)
    ensures
        changes(writes@) == seq![Change::Put(session_key(token@), Seq::<u8>::empty())],
{
    let mut writes: Vec<Write> = Vec::new();
    writes.push(Write::Put { key: encode(Tag::Session, token), value: Vec::new() });
    assert(changes(writes@) =~= seq![Change::Put(session_key(token@), Seq::<u8>::empty())]);
    writes
}

/// The change that makes `token` invalid.
pub fn plan_revoke(token: &Id) -> (writes: Vec<Write>)
    ensures
        changes(writes@) == seq![Change::Delete(session_key(token@))],
{
    let mut writes: Vec<Write> = Vec::new();
    writes.push(Write::Delete { key: encode(Tag::Session, token) });
    assert(changes(writes@) =~= seq![Change::Delete(session_key(token@))]);
    writes
}

/// Makes a fresh token valid and returns it.
pub fn issue(store: &mut RecordStore) -> (token: Id)
    ensures
        final(store)@ == old(store)@.insert(session_key(token@), Seq::<u8>::empty()),
{
    let token = fresh_id();
    let writes = plan_issue(&token);
    proof {
        lemma_effect_of_few(store@, changes(writes@)[0], changes(writes@)[0]);
    }
    store.apply(&writes);
    token
}

/// Whether the caller's token is valid: there is one and its key is stored.
pub fn verify(store: &RecordStore, token: &Option<Id>) -> (valid: bool)
    ensures
        valid == valid_in(store@, *token),
{
    match token {
        Some(token) => store.contains(encode(Tag::Session, token).as_slice()),
        None => false,
    }
}

/// Makes `token` invalid, whether it was valid or not.
pub fn revoke(store: &mut RecordStore, token: &Id)
    ensures
        final(store)@ == old(store)@.remove(session_key(token@)),
{
    let writes = plan_revoke(token);
    proof {
        lemma_effect_of_few(store@, changes(writes@)[0], changes(writes@)[0]);
    }
    store.apply(&writes);
}

/// Issues a token if the form holds the configured password. Nothing
/// changes, and nothing is returned, if it does not.
pub fn login(store: &mut RecordStore, auth: &Auth, form: &LoginFormData) -> (token: Option<Id>)
    ensures
        token is Some <==> form.password@ == auth.password@,
        token is None ==> final(store)@ == old(store)@,
        token matches Some(token) ==> final(store)@ == old(store)@.insert(
            session_key(token@),
            Seq::<u8>::empty(),
        ),
{
    if password_accepted(auth, form) {
        Some(issue(store))
    } else {
        None
    }
}

/// Revokes the caller's token, if the caller has one.
pub fn logout(store: &mut RecordStore, token: &Option<Id>)
    ensures
        final(store)@ == match *token {
            Some(token) => old(store)@.remove(session_key(token@)),
            None => old(store)@,
        },
{
    match token {
        Some(token) => revoke(store, token),
        None => {},
    }
}

} // verus!
