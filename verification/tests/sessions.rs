use homebox::config::{is_master_key, Auth, Database, MASTER_KEY_LEN};
use homebox::key::{encode, Id, Tag};
use homebox::store::{RecordStore, Write};
use homebox::user_session::{
    issue, login, logout, password_accepted, plan_issue, plan_revoke, revoke, verify,
    LoginFormData,
};

fn auth() -> Auth {
    Auth { password: "hunter2".to_string() }
}

fn form(password: &str) -> LoginFormData {
    LoginFormData { password: password.to_string() }
}

#[test]
fn token_is_its_key_with_an_empty_value() {
    let mut store = RecordStore::new();
    let t = issue(&mut store);
    assert_eq!(store.get(&encode(Tag::Session, &t)), Some(vec![]));
    assert_eq!(store.len(), 1);
    let u = issue(&mut store);
    assert_ne!(t, u);
    assert_eq!(store.len(), 2);
}

#[test]
fn caller_without_a_token_is_not_verified() {
    let mut store = RecordStore::new();
    issue(&mut store);
    assert!(!verify(&store, &None));
    assert!(!verify(&store, &Some(Id::from_bytes([0; 16]))));
}

#[test]
fn revoking_an_absent_token_changes_nothing() {
    let mut store = RecordStore::new();
    let t = issue(&mut store);
    revoke(&mut store, &Id::from_bytes([1; 16]));
    assert!(verify(&store, &Some(t)));
    assert_eq!(store.len(), 1);
}

#[test]
fn token_outlives_other_changes() {
    let mut store = RecordStore::new();
    let t = issue(&mut store);
    store.put(encode(Tag::Container, &t), vec![1]);
    store.delete(&encode(Tag::Container, &t));
    assert!(verify(&store, &Some(t)));
}

#[test]
fn login_takes_the_configured_password_only() {
    let mut store = RecordStore::new();
    assert_eq!(login(&mut store, &auth(), &form("hunter")), None);
    assert_eq!(login(&mut store, &auth(), &form("hunter22")), None);
    assert_eq!(login(&mut store, &auth(), &form("")), None);
    assert_eq!(store.len(), 0);
    let t = login(&mut store, &auth(), &form("hunter2")).unwrap();
    assert!(verify(&store, &Some(t)));
    assert!(password_accepted(&auth(), &form("hunter2")));
    assert!(!password_accepted(&auth(), &form("Hunter2")));
}

#[test]
fn logout_revokes_the_token_of_the_caller() {
    let mut store = RecordStore::new();
    let t = login(&mut store, &auth(), &form("hunter2")).unwrap();
    let u = login(&mut store, &auth(), &form("hunter2")).unwrap();
    logout(&mut store, &None);
    assert!(verify(&store, &Some(t)));
    logout(&mut store, &Some(t));
    assert!(!verify(&store, &Some(t)));
    assert!(verify(&store, &Some(u)));
    logout(&mut store, &Some(t));
    assert_eq!(store.len(), 1);
}

#[test]
fn session_changes_are_one_write_each() {
    let t = Id::from_bytes([4; 16]);
    assert_eq!(
        plan_issue(&t),
        vec![Write::Put { key: encode(Tag::Session, &t), value: vec![] }]
    );
    assert_eq!(plan_revoke(&t), vec![Write::Delete { key: encode(Tag::Session, &t) }]);
}

#[test]
fn master_key_has_sixty_four_bytes() {
    assert_eq!(MASTER_KEY_LEN, 64);
    assert!(is_master_key(&[0; 64]));
    assert!(!is_master_key(&[0; 63]));
    assert!(!is_master_key(&[0; 65]));
    assert!(!is_master_key(&[]));
}

#[test]
fn database_names_both_stores() {
    let database =
        Database { file: "files.db".to_string(), metadata: "sqlite:meta.db".to_string() };
    assert_eq!(database.clone(), database);
    assert_eq!(database.file, "files.db");
}
