//! The storage engine end to end: settings, content addressing, signed
//! entries, heads, and the commit protocol.

use distcomp::crypto::{crypto_init, gen_signing_pair};
use distcomp::journal::SqliteJournal;
use distcomp::laws::{cas_put_get, cas_put_twice, commit_then_get_state};
use distcomp::{ApplicationId, CASKey, CASObj, JournalEntry, JournalError};

fn fresh() -> SqliteJournal {
    SqliteJournal::new_in_memory().expect("in-memory journal")
}

fn app(n: u8) -> ApplicationId {
    ApplicationId([n; 16])
}

fn blob(data: &[u8], links: Vec<CASKey>) -> CASObj {
    CASObj { links, data: data.to_vec() }
}

#[test]
fn settings_roundtrip() {
    let mut j = fresh();
    assert_eq!(j.settings_get("Nothing").unwrap(), None);
    j.settings_set("Greeting", b"hello").unwrap();
    assert_eq!(j.settings_get("Greeting").unwrap(), Some(b"hello".to_vec()));
    j.settings_set("Greeting", b"again").unwrap();
    assert_eq!(j.settings_get("Greeting").unwrap(), Some(b"again".to_vec()));
}

#[test]
fn keypair_persisted_and_matching() {
    let j = fresh();
    let pk = j.settings_get("PublicKey").unwrap().expect("public key stored");
    let sk = j.settings_get("PrivateKey").unwrap().expect("private key stored");
    assert_eq!(pk.len(), 32);
    assert_eq!(sk.len(), 64);
    assert_eq!(j.pubkey().0.to_vec(), pk);
    assert_eq!(j.privkey(), sk);
    // The stored public half is the secret half's embedded one.
    assert_eq!(sk[32..64], pk[..]);
}

#[test]
fn cas_put_is_deduplicating() {
    // Writing the same blob twice yields the same key and one row.
    let mut j = fresh();
    let before = j.cas_list().unwrap().len();
    let k1 = j.cas_put(blob(b"same-bytes", vec![])).unwrap();
    let mid = j.cas_list().unwrap().len();
    let k2 = j.cas_put(blob(b"same-bytes", vec![])).unwrap();
    let after = j.cas_list().unwrap().len();
    assert_eq!(k1, k2);
    assert_eq!(before, 0);
    assert_eq!(mid, 1);
    assert_eq!(after, 1);
}

#[test]
fn cas_put_twice_law_runs() {
    let mut j = fresh();
    let (k1, k2) = cas_put_twice(&mut j, blob(b"abc", vec![]), blob(b"abc", vec![])).unwrap();
    assert_eq!(k1, k2);
    let (k3, k4) = cas_put_twice(&mut j, blob(b"abc", vec![]), blob(b"xyz", vec![])).unwrap();
    assert_ne!(k3, k4);
}

#[test]
fn cas_roundtrip() {
    let mut j = fresh();
    let inner = j.cas_put(blob(b"linked-to", vec![])).unwrap();
    let obj = blob(b"payload", vec![inner]);
    let key = j.cas_put(obj).unwrap();
    let got = j.cas_get(key).unwrap().expect("blob present");
    assert_eq!(got.data, b"payload".to_vec());
    assert_eq!(got.links, vec![inner]);
    let echoed = cas_put_get(&mut j, blob(b"more", vec![inner])).unwrap();
    assert_eq!(echoed.data, b"more".to_vec());
    assert_eq!(echoed.links, vec![inner]);
}

#[test]
fn cas_get_unknown_is_absent() {
    let j = fresh();
    assert!(j.cas_get(CASKey::new([7u8; 32])).unwrap().is_none());
}

#[test]
fn links_change_identity() {
    // A blob's links are part of its identity.
    let mut j = fresh();
    let a = j.cas_put(blob(b"a", vec![])).unwrap();
    let with_link = j.cas_put(blob(b"x", vec![a])).unwrap();
    let without_link = j.cas_put(blob(b"x", vec![])).unwrap();
    assert_ne!(with_link, without_link);
}

#[test]
fn entry_roundtrip_signed() {
    // An entry stored with this device's pair reads back verified.
    let mut j = fresh();
    let state = j.cas_put(blob(b"state", vec![])).unwrap();
    let entry = JournalEntry { application_id: app(1), new_state: state, parents: vec![] };
    let sk: [u8; 64] = j.privkey().try_into().unwrap();
    let pk = j.pubkey().0;
    let key = j.put(entry, (&sk, &pk)).unwrap();
    let got = j.get(key).unwrap().expect("entry present");
    assert_eq!(got.application_id, app(1));
    assert_eq!(got.new_state, state);
    assert!(got.parents.is_empty());
}

#[test]
fn entry_with_foreign_attribution_fails_verification() {
    // An envelope attributed to a key that did not sign it is refused.
    let mut j = fresh();
    crypto_init();
    let state = j.cas_put(blob(b"state", vec![])).unwrap();
    let entry = JournalEntry { application_id: app(1), new_state: state, parents: vec![] };
    let sk: [u8; 64] = j.privkey().try_into().unwrap();
    let (other_pk, _) = gen_signing_pair();
    let key = j.put(entry, (&sk, &other_pk)).unwrap();
    assert_eq!(j.get(key).unwrap_err(), JournalError::BadSignature);
}

#[test]
fn get_unknown_entry_is_absent() {
    let j = fresh();
    assert!(j.get(distcomp::JournalKey([9u8; 32])).unwrap().is_none());
}

#[test]
fn commit_advances_head() {
    // After a commit the state reads back; a second commit supersedes it
    // and records the first head as its only parent.
    let mut j = fresh();
    let a = app(2);
    assert_eq!(j.get_state(a).unwrap(), None);
    let s1 = j.cas_put(blob(b"one", vec![])).unwrap();
    let k1 = j.commit_self(a, s1).unwrap();
    assert_eq!(j.get_state(a).unwrap(), Some(s1));
    assert_eq!(j.this_head(a).unwrap(), Some(k1));
    let s2 = j.cas_put(blob(b"two", vec![])).unwrap();
    let k2 = j.commit_self(a, s2).unwrap();
    assert_eq!(j.get_state(a).unwrap(), Some(s2));
    assert_eq!(j.this_head(a).unwrap(), Some(k2));
    let second = j.get(k2).unwrap().expect("second entry");
    assert_eq!(second.parents, vec![k1]);
    let first = j.get(k1).unwrap().expect("first entry");
    assert!(first.parents.is_empty());
}

#[test]
fn commit_then_get_state_law_runs() {
    let mut j = fresh();
    let s = j.cas_put(blob(b"root", vec![])).unwrap();
    let (_k, got) = commit_then_get_state(&mut j, app(3), s).unwrap();
    assert_eq!(got, Some(s));
}

#[test]
fn absent_head_inserts_no_row() {
    // Reading state for an application never seen leaves the heads table
    // untouched.
    let j = fresh();
    assert_eq!(j.heads().unwrap().len(), 0);
    assert_eq!(j.get_state(app(9)).unwrap(), None);
    assert_eq!(j.heads().unwrap().len(), 0);
}

#[test]
fn heads_snapshot_lists_commits() {
    let mut j = fresh();
    let s = j.cas_put(blob(b"s", vec![])).unwrap();
    j.commit_self(app(4), s).unwrap();
    j.commit_self(app(5), s).unwrap();
    let heads = j.heads().unwrap();
    assert_eq!(heads.len(), 2);
    let device = j.pubkey();
    for ((a, d), k) in &heads {
        assert_eq!(*d, device);
        assert_eq!(j.this_head(*a).unwrap(), Some(*k));
    }
}

#[test]
fn update_head_replaces() {
    let mut j = fresh();
    let device = j.pubkey();
    j.update_head(device, app(6), distcomp::JournalKey([1u8; 32])).unwrap();
    j.update_head(device, app(6), distcomp::JournalKey([2u8; 32])).unwrap();
    assert_eq!(j.this_head(app(6)).unwrap(), Some(distcomp::JournalKey([2u8; 32])));
    assert_eq!(j.heads().unwrap().len(), 1);
}

#[test]
fn hashes_differ_for_different_blobs() {
    let mut j = fresh();
    let k1 = j.cas_put(blob(b"first", vec![])).unwrap();
    let k2 = j.cas_put(blob(b"second", vec![])).unwrap();
    assert_ne!(k1.to_bytes(), k2.to_bytes());
}
