//! The host interface and the handle table, driven the way a guest
//! module would drive them.

use distcomp::abi::{
    abi_cas_get, abi_cas_get_links, abi_cas_put, abi_get_state, abi_handle_release, abi_output,
    abi_read, abi_update_state, invoke_index, AbiError, AbiOutcome, HostContext,
};
use distcomp::handles::{Handle, Handles};
use distcomp::journal::SqliteJournal;
use distcomp::{ApplicationId, CASKey, JournalError};

fn ctx() -> HostContext {
    HostContext::new(SqliteJournal::new_in_memory().expect("journal"), ApplicationId([1u8; 16]))
}

#[test]
fn handles_are_unique_and_reusable() {
    // Live identifiers are unique; a released identifier becomes stale
    // and may be issued again.
    let mut hs = Handles::new();
    let a = hs.insert(Handle::Data(vec![1])).unwrap();
    let b = hs.insert(Handle::Data(vec![2])).unwrap();
    let c = hs.insert(Handle::Key(CASKey::new([0u8; 32]))).unwrap();
    assert_ne!(a, b);
    assert_ne!(b, c);
    assert_ne!(a, c);
    assert!(a != 0 && b != 0 && c != 0);
    assert_eq!(hs.live_count(), 3);
    assert!(hs.release(b));
    assert!(hs.get(b).is_none());
    assert!(!hs.release(b));
    let d = hs.insert(Handle::Data(vec![3])).unwrap();
    assert_eq!(d, b);
    assert_eq!(hs.live_count(), 3);
}

#[test]
fn get_state_on_fresh_app_is_zero() {
    let mut c = ctx();
    assert_eq!(abi_get_state(&mut c).unwrap(), 0);
}

#[test]
fn counter_session() {
    // A guest reads no state, writes a one-byte counter, commits, and a
    // second invocation reads it back, increments and commits again.
    let mut c = ctx();
    assert_eq!(abi_get_state(&mut c).unwrap(), 0);
    let mut mem = vec![0u8; 64];
    mem[0] = 1;
    let h1 = abi_cas_put(&mut c, &mem, 0, 4, 0, 0).unwrap();
    abi_update_state(&mut c, h1).unwrap();

    // Second invocation: fresh handle table, same journal.
    let mut c = HostContext::new(c.journal, c.appid);
    let mut mem = vec![0u8; 64];
    let state = abi_get_state(&mut c).unwrap();
    assert_ne!(state, 0);
    let data = abi_cas_get(&mut c, state).unwrap();
    let copied = abi_read(&c, &mut mem, data, 8, 4, 0).unwrap();
    assert_eq!(copied, 4);
    assert_eq!(&mem[8..12], &[1, 0, 0, 0]);
    mem[8] = 2;
    let h2 = abi_cas_put(&mut c, &mem, 8, 4, 0, 0).unwrap();
    abi_update_state(&mut c, h2).unwrap();

    // The head now decodes to [2,0,0,0] and its parent is the first
    // committed entry.
    let mut c = HostContext::new(c.journal, c.appid);
    let mut mem = vec![0u8; 64];
    let state = abi_get_state(&mut c).unwrap();
    let data = abi_cas_get(&mut c, state).unwrap();
    abi_read(&c, &mut mem, data, 0, 4, 0).unwrap();
    assert_eq!(&mem[0..4], &[2, 0, 0, 0]);
    let head = c.journal.this_head(c.appid).unwrap().unwrap();
    let entry = c.journal.get(head).unwrap().unwrap();
    assert_eq!(entry.parents.len(), 1);
}

#[test]
fn out_of_bounds_traps_before_storage() {
    // A pointer past the end of linear memory fails the call and leaves
    // the store untouched.
    let mut c = ctx();
    let mem = vec![0u8; 16];
    assert_eq!(abi_cas_put(&mut c, &mem, 10, 10, 0, 0).unwrap_err(), AbiError::OutOfBounds);
    assert_eq!(abi_cas_put(&mut c, &mem, 0, 4, 12, 2).unwrap_err(), AbiError::OutOfBounds);
    assert_eq!(c.journal.cas_list().unwrap().len(), 0);
    assert_eq!(abi_output(&mem, 8, 9).unwrap_err(), AbiError::OutOfBounds);
}

#[test]
fn invalid_and_wrong_kind_handles_trap() {
    let mut c = ctx();
    assert_eq!(abi_update_state(&mut c, 77).unwrap_err(), AbiError::InvalidHandle(77));
    let d = c.handles.insert(Handle::Data(vec![1, 2, 3])).unwrap();
    assert_eq!(abi_update_state(&mut c, d).unwrap_err(), AbiError::WrongHandleKind(d));
    assert_eq!(abi_cas_get(&mut c, d).unwrap_err(), AbiError::WrongHandleKind(d));
    let k = c.handles.insert(Handle::Key(CASKey::new([5u8; 32]))).unwrap();
    let mut mem = vec![0u8; 8];
    assert_eq!(
        abi_read(&c, &mut mem, k, 0, 4, 0).unwrap_err(),
        AbiError::WrongHandleKind(k)
    );
    // A key handle naming no stored blob is a storage integrity error.
    assert_eq!(
        abi_cas_get(&mut c, k).unwrap_err(),
        AbiError::Storage(JournalError::MissingBlob)
    );
}

#[test]
fn release_makes_handles_stale() {
    let mut c = ctx();
    let mem = vec![9u8; 8];
    let h = abi_cas_put(&mut c, &mem, 0, 8, 0, 0).unwrap();
    abi_handle_release(&mut c, h).unwrap();
    assert_eq!(abi_cas_get(&mut c, h).unwrap_err(), AbiError::InvalidHandle(h));
    assert_eq!(abi_handle_release(&mut c, h).unwrap_err(), AbiError::InvalidHandle(h));
}

#[test]
fn read_clamps_to_buffer_end() {
    let mut c = ctx();
    let mem = vec![1u8, 2, 3, 4, 5, 6, 7, 8];
    let h = abi_cas_put(&mut c, &mem, 0, 6, 0, 0).unwrap();
    let d = abi_cas_get(&mut c, h).unwrap();
    let mut out = vec![0u8; 8];
    // Reading past the end copies what remains.
    assert_eq!(abi_read(&c, &mut out, d, 0, 10, 4).unwrap(), 2);
    assert_eq!(&out[0..2], &[5, 6]);
    // Reading at the end copies nothing.
    assert_eq!(abi_read(&c, &mut out, d, 0, 4, 6).unwrap(), 0);
    // Writing past the end of linear memory traps.
    assert_eq!(abi_read(&c, &mut out, d, 7, 6, 0).unwrap_err(), AbiError::OutOfBounds);
}

#[test]
fn output_copies_text() {
    let mem = b"say hello".to_vec();
    assert_eq!(abi_output(&mem, 4, 5).unwrap(), b"hello".to_vec());
}

#[test]
fn cas_get_links_hands_out_key_handles() {
    // Each link becomes a fresh key handle whose identifier stands
    // little-endian in the returned buffer.
    let mut c = ctx();
    let mem = vec![7u8; 16];
    let a = abi_cas_put(&mut c, &mem, 0, 2, 0, 0).unwrap();
    let b = abi_cas_put(&mut c, &mem, 2, 3, 0, 0).unwrap();
    // Store the two link handles in guest memory, little-endian.
    let mut guest = vec![0u8; 16];
    guest[0..4].copy_from_slice(&a.to_le_bytes());
    guest[4..8].copy_from_slice(&b.to_le_bytes());
    guest[8] = 0xAB;
    let parent = abi_cas_put(&mut c, &guest, 8, 1, 0, 2).unwrap();
    let links_handle = abi_cas_get_links(&mut c, parent).unwrap();
    let mut out = vec![0u8; 8];
    assert_eq!(abi_read(&c, &mut out, links_handle, 0, 8, 0).unwrap(), 8);
    let id1 = u32::from_le_bytes(out[0..4].try_into().unwrap());
    let id2 = u32::from_le_bytes(out[4..8].try_into().unwrap());
    // The fresh handles name the same blobs as the originals.
    let d1 = abi_cas_get(&mut c, id1).unwrap();
    let mut buf = vec![0u8; 4];
    assert_eq!(abi_read(&c, &mut buf, d1, 0, 4, 0).unwrap(), 2);
    assert_eq!(&buf[0..2], &[7, 7]);
    let d2 = abi_cas_get(&mut c, id2).unwrap();
    assert_eq!(abi_read(&c, &mut buf, d2, 0, 4, 0).unwrap(), 3);
}

#[test]
fn dispatcher_checks_index_and_arity() {
    let mut c = ctx();
    let mut mem = vec![0u8; 8];
    assert_eq!(
        invoke_index(&mut c, &mut mem, 99, &vec![]).unwrap_err(),
        AbiError::UnknownFunction
    );
    assert_eq!(
        invoke_index(&mut c, &mut mem, 1, &vec![]).unwrap_err(),
        AbiError::BadArity
    );
    match invoke_index(&mut c, &mut mem, 2, &vec![]).unwrap() {
        AbiOutcome::Value(v) => assert_eq!(v, 0),
        _ => panic!("get_state returns a value"),
    }
    match invoke_index(&mut c, &mut mem, 5, &vec![0, 3]).unwrap() {
        AbiOutcome::Emit(bytes, len) => {
            assert_eq!(bytes, vec![0, 0, 0]);
            assert_eq!(len, 3);
        }
        _ => panic!("output emits bytes"),
    }
}

#[test]
fn trap_preserves_completed_writes() {
    // A guest stores two blobs, commits the first, then traps: both
    // blobs and the new head survive; the handle table does not.
    let mut c = ctx();
    let mut mem = vec![0u8; 8];
    mem[0] = b'A';
    mem[1] = b'B';
    let ha = abi_cas_put(&mut c, &mem, 0, 1, 0, 0).unwrap();
    let _hb = abi_cas_put(&mut c, &mem, 1, 1, 0, 0).unwrap();
    abi_update_state(&mut c, ha).unwrap();
    // The guest now traps: the invocation ends, handles are dropped.
    let journal = c.journal;
    let appid = c.appid;
    let state = journal.get_state(appid).unwrap().expect("head stands");
    let blob = journal.cas_get(state).unwrap().expect("A survives");
    assert_eq!(blob.data, vec![b'A']);
    assert_eq!(journal.cas_list().unwrap().len(), 2);
}

#[test]
fn dispatcher_runs_a_session() {
    // The whole counter session again, through the numeric dispatcher.
    let mut c = ctx();
    let mut mem = vec![0u8; 32];
    mem[0] = 9;
    let h = match invoke_index(&mut c, &mut mem, 4, &vec![0, 4, 0, 0]).unwrap() {
        AbiOutcome::Value(v) => v,
        _ => panic!("cas_put returns a handle"),
    };
    match invoke_index(&mut c, &mut mem, 1, &vec![h]).unwrap() {
        AbiOutcome::Unit => {}
        _ => panic!("update_state returns nothing"),
    }
    match invoke_index(&mut c, &mut mem, 8, &vec![h]).unwrap() {
        AbiOutcome::Unit => {}
        _ => panic!("handle_release returns nothing"),
    }
    let state = match invoke_index(&mut c, &mut mem, 2, &vec![]).unwrap() {
        AbiOutcome::Value(v) => v,
        _ => panic!("get_state returns a handle"),
    };
    assert_ne!(state, 0);
    let data = match invoke_index(&mut c, &mut mem, 3, &vec![state]).unwrap() {
        AbiOutcome::Value(v) => v,
        _ => panic!("cas_get returns a handle"),
    };
    let copied = match invoke_index(&mut c, &mut mem, 6, &vec![data, 16, 4, 0]).unwrap() {
        AbiOutcome::Value(v) => v,
        _ => panic!("read returns a count"),
    };
    assert_eq!(copied, 4);
    assert_eq!(&mem[16..20], &[9, 0, 0, 0]);
}

#[test]
fn cas_put_validates_link_handles() {
    let mut c = ctx();
    let mut mem = vec![0u8; 16];
    // An identifier that is not live.
    mem[0..4].copy_from_slice(&55u32.to_le_bytes());
    assert_eq!(
        abi_cas_put(&mut c, &mem, 8, 4, 0, 1).unwrap_err(),
        AbiError::InvalidHandle(55)
    );
    // A data handle where a key handle is required.
    let d = c.handles.insert(Handle::Data(vec![1])).unwrap();
    mem[0..4].copy_from_slice(&d.to_le_bytes());
    assert_eq!(
        abi_cas_put(&mut c, &mem, 8, 4, 0, 1).unwrap_err(),
        AbiError::WrongHandleKind(d)
    );
    assert_eq!(c.journal.cas_list().unwrap().len(), 0);
}
