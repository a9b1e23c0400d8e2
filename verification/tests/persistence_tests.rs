//! Journals backed by database files: state survives closing and
//! reopening, and a tampered signing pair is refused at opening.

use distcomp::journal::SqliteJournal;
use distcomp::laws::put_then_get;
use distcomp::{ApplicationId, CASObj, JournalEntry, JournalError};

#[test]
fn state_survives_reopening() {
    let path = "/tmp/distcomp_persistence_test.db";
    let app = ApplicationId([3u8; 16]);
    let committed = {
        let mut j = SqliteJournal::new(path).expect("open journal file");
        let key = j.cas_put(CASObj { links: vec![], data: b"persisted".to_vec() }).unwrap();
        j.commit_self(app, key).unwrap();
        key
    };
    let j = SqliteJournal::new(path).expect("reopen journal file");
    assert_eq!(j.get_state(app).unwrap(), Some(committed));
    let blob = j.cas_get(committed).unwrap().expect("blob survives");
    assert_eq!(blob.data, b"persisted".to_vec());
}

#[test]
fn tampered_keypair_is_refused() {
    let path = "/tmp/distcomp_keypair_test.db";
    match SqliteJournal::new(path) {
        Ok(mut j) => {
            j.settings_set("PrivateKey", b"not a real signing key").unwrap();
            drop(j);
            match SqliteJournal::new(path) {
                Ok(_) => panic!("a tampered signing pair must be refused"),
                Err(e) => assert_eq!(e, JournalError::KeypairMismatch),
            }
        }
        // A previous run already tampered with this database.
        Err(e) => assert_eq!(e, JournalError::KeypairMismatch),
    }
}

#[test]
fn put_then_get_law_runs() {
    let mut j = SqliteJournal::new_in_memory().expect("journal");
    let state = j.cas_put(CASObj { links: vec![], data: b"s".to_vec() }).unwrap();
    let entry = JournalEntry {
        application_id: ApplicationId([4u8; 16]),
        new_state: state,
        parents: vec![],
    };
    let got = put_then_get(&mut j, entry).unwrap().expect("entry read back");
    assert_eq!(got.application_id, ApplicationId([4u8; 16]));
    assert_eq!(got.new_state, state);
    assert!(got.parents.is_empty());
}
