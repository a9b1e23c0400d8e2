//! The host interface a guest module calls: numeric-indexed functions
//! marshalling linear-memory regions through the handle table.
//!
//! All arguments and results are 32-bit values; pointers are byte
//! offsets into the guest's linear memory, modelled here as the byte
//! vector the interpreter exposes. Every read or write of guest memory
//! is bounds-checked and an out-of-range access fails before any storage
//! is touched; an identifier that is not live, or of the wrong kind,
//! fails the call with a structured error. The identifier 0 is never
//! issued and means "absent".

use vstd::prelude::*;
use vstd::bytes::{lemma_auto_spec_u32_to_from_le_bytes, spec_u32_from_le_bytes,
    spec_u32_to_le_bytes, u32_from_le_bytes, u32_to_le_bytes};
use crate::handles::{Handle, Handles};
use crate::journal::{
    committed_entry, device_envelope, key_of_envelope, stores_cas_obj, stores_entry_signed,
    SqliteJournal,
};
use crate::laws::spec_cas_put;
use crate::{ApplicationId, CASKey, CASObj, CASObjView, JournalError};

verus! {

/// A guest protocol error: the invocation traps and nothing more runs.
#[derive(Clone, Copy, Debug, PartialEq, Eq, Structural)]
pub enum AbiError {
    /// The identifier is not live.
    InvalidHandle(u32),
    /// The identifier is live but of the wrong kind for the call.
    WrongHandleKind(u32),
    /// A pointer and length reach outside the guest's linear memory.
    OutOfBounds,
    /// The call carried the wrong number of arguments.
    BadArity,
    /// No function is bound to the index.
    UnknownFunction,
    /// The identifier space is exhausted.
    HandleSpace,
    /// The storage engine failed underneath the call.
    Storage(JournalError),
}

/// Everything one guest invocation runs against: the journal, the
/// application being run, and the invocation's handle table.
pub struct HostContext {
    pub journal: SqliteJournal,
    pub appid: ApplicationId,
    pub handles: Handles,
}

impl HostContext {
    /// A context for one invocation: no handles are live yet.
    pub fn new(journal: SqliteJournal, appid: ApplicationId) -> (r: HostContext)
        ensures
            r.handles@ == (Map::<u32, Handle>::empty()),
            r.handles.wf(),
            r.journal == journal,
            r.appid == appid,
    {
        HostContext { journal, appid, handles: Handles::new() }
    }
}

/// What a commit does to the journal: the head for (application, device)
/// moves to the key of the new entry's envelope, which enters the entry
/// store; nothing else changes.
pub open spec fn commit_effect(
    j1: SqliteJournal,
    j2: SqliteJournal,
    app: Seq<u8>,
    state: Seq<u8>,
    kk: Seq<u8>,
) -> bool {
    let ev = committed_entry(j1.heads_map(), app, j1.device_pk(), state);
    let env = device_envelope(ev, j1.device_sk());
    &&& kk == key_of_envelope(env)
    &&& j2.entries_map() == (if j1.entries_map().contains_key(kk) {
        j1.entries_map()
    } else {
        j1.entries_map().insert(kk, env)
    })
    &&& j2.heads_map() == j1.heads_map().insert((app, j1.device_pk()), kk)
    &&& j2.cas_map() == j1.cas_map()
    &&& j2.settings_map() == j1.settings_map()
    &&& j1.same_device(j2)
}

/// The journal's four tables are unchanged between two context values.
pub open spec fn journal_unchanged(c1: HostContext, c2: HostContext) -> bool {
    &&& c2.journal.cas_map() == c1.journal.cas_map()
    &&& c2.journal.entries_map() == c1.journal.entries_map()
    &&& c2.journal.heads_map() == c1.journal.heads_map()
    &&& c2.journal.settings_map() == c1.journal.settings_map()
    &&& c1.journal.same_device(c2.journal)
}

/// Everything `update_state` guarantees, between the context before and
/// after: the handle table survives untouched; on success the handle was
/// a key handle and the journal committed its key; each error names its
/// exact cause and what it left unchanged.
pub open spec fn update_state_post(
    c1: HostContext,
    c2: HostContext,
    handle: u32,
    r: Result<(), AbiError>,
) -> bool {
    &&& c2.handles.wf()
    &&& c2.handles@ == c1.handles@
    &&& c2.appid == c1.appid
    &&& (match r {
        Ok(_) => c1.handles@.contains_key(handle) && (c1.handles@[handle] matches Handle::Key(k)
            && (exists|kk: Seq<u8>| commit_effect(c1.journal, c2.journal, c1.appid@, k@, kk))),
        Err(e) => match e {
            AbiError::InvalidHandle(h) => h == handle && !c1.handles@.contains_key(handle)
                && journal_unchanged(c1, c2),
            AbiError::WrongHandleKind(h) => h == handle && c1.handles@.contains_key(handle)
                && c1.handles@[handle] is Data && journal_unchanged(c1, c2),
            AbiError::Storage(_) => c1.handles@.contains_key(handle) && (c1.handles@[handle]
                matches Handle::Key(k) && ({
                let ev = committed_entry(
                    c1.journal.heads_map(),
                    c1.appid@,
                    c1.journal.device_pk(),
                    k@,
                );
                let env = device_envelope(ev, c1.journal.device_sk());
                let kk = key_of_envelope(env);
                &&& c2.journal.heads_map() == c1.journal.heads_map()
                &&& c2.journal.cas_map() == c1.journal.cas_map()
                &&& c2.journal.settings_map() == c1.journal.settings_map()
                &&& c1.journal.same_device(c2.journal)
                &&& (c2.journal.entries_map() == c1.journal.entries_map()
                    || c2.journal.entries_map() == (if c1.journal.entries_map().contains_key(kk) {
                    c1.journal.entries_map()
                } else {
                    c1.journal.entries_map().insert(kk, env)
                }))
            })),
            _ => false,
        },
    })
}

/// `update_state`: the handle must be a key handle; the journal commits
/// its key as the application's new state.
pub fn abi_update_state(ctx: &mut HostContext, handle: u32) -> (r: Result<(), AbiError>)
    requires
        old(ctx).handles.wf(),
    ensures
        update_state_post(*old(ctx), *final(ctx), handle, r),
{
    let key = match ctx.handles.get(handle) {
        None => {
            return Err(AbiError::InvalidHandle(handle));
        }
        Some(h) => match h.as_key() {
            None => {
                return Err(AbiError::WrongHandleKind(handle));
            }
            Some(k) => *k,
        },
    };
    let ghost j1 = ctx.journal;
    match ctx.journal.commit_self(ctx.appid, key) {
        Ok(k2) => {
            proof {
                assert(commit_effect(j1, ctx.journal, ctx.appid@, key@, k2@));
            }
            Ok(())
        }
        Err(e) => Err(AbiError::Storage(e)),
    }
}

/// Everything `get_state` guarantees: the journal is untouched; 0 comes
/// back exactly when no committed state can be read, else a fresh key
/// handle pinned to the head entry's state.
pub open spec fn get_state_post(c1: HostContext, c2: HostContext, r: Result<u32, AbiError>)
    -> bool {
    &&& c2.handles.wf()
    &&& c2.journal == c1.journal
    &&& c2.appid == c1.appid
    &&& (match r {
        Ok(id) => if id == 0 {
            c2.handles@ == c1.handles@ && !(c1.journal.heads_map().contains_key(
                (c1.appid@, c1.journal.device_pk()),
            ) && c1.journal.entries_map().contains_key(
                c1.journal.heads_map()[(c1.appid@, c1.journal.device_pk())],
            ))
        } else {
            !c1.handles@.contains_key(id) && c1.journal.heads_map().contains_key(
                (c1.appid@, c1.journal.device_pk()),
            ) && (exists|k: CASKey|
                c2.handles@ == c1.handles@.insert(id, Handle::Key(k)) && (forall|
                    q: crate::EntryView,
                    sk: Seq<u8>,
                |
                    #[trigger] stores_entry_signed(
                        c1.journal.entries_map(),
                        c1.journal.heads_map()[(c1.appid@, c1.journal.device_pk())],
                        q,
                        sk,
                    ) ==> k@ == q.state))
        },
        Err(e) => c2.handles@ == c1.handles@ && match e {
            AbiError::Storage(je) => je == JournalError::Backend || je
                == JournalError::CorruptEnvelope || je == JournalError::BadSignature || je
                == JournalError::CorruptEntry,
            AbiError::HandleSpace => c1.handles.full(),
            _ => false,
        },
    })
}

/// `get_state`: a fresh key handle for the application's current state,
/// or 0 when the application never committed on this device.
pub fn abi_get_state(ctx: &mut HostContext) -> (r: Result<u32, AbiError>)
    requires
        old(ctx).handles.wf(),
    ensures
        get_state_post(*old(ctx), *final(ctx), r),
{
    let state = match ctx.journal.get_state(ctx.appid) {
        Ok(v) => v,
        Err(e) => {
            return Err(AbiError::Storage(e));
        }
    };
    match state {
        None => Ok(0),
        Some(k) => match ctx.handles.insert(Handle::Key(k)) {
            None => Err(AbiError::HandleSpace),
            Some(id) => Ok(id),
        },
    }
}

/// Everything `cas_get` guarantees: the journal is untouched; on
/// success a fresh data handle wraps the payload the store holds for the
/// key handle's blob; each error names its cause and leaves the handles
/// alone.
pub open spec fn cas_get_post(c1: HostContext, c2: HostContext, handle: u32, r: Result<
    u32,
    AbiError,
>) -> bool {
    &&& c2.handles.wf()
    &&& c2.journal == c1.journal
    &&& c2.appid == c1.appid
    &&& (match r {
        Ok(id) => id != 0 && !c1.handles@.contains_key(id) && c1.handles@.contains_key(handle)
            && (c1.handles@[handle] matches Handle::Key(k) && (exists|d: Vec<u8>|
            c2.handles@ == c1.handles@.insert(id, Handle::Data(d)) && (forall|q: CASObjView|
                #[trigger] stores_cas_obj(c1.journal.cas_map(), k@, q) ==> d@ == q.data))),
        Err(e) => match e {
            AbiError::InvalidHandle(h) => h == handle && !c1.handles@.contains_key(handle)
                && c2.handles@ == c1.handles@,
            AbiError::WrongHandleKind(h) => h == handle && c1.handles@.contains_key(handle)
                && c1.handles@[handle] is Data && c2.handles@ == c1.handles@,
            AbiError::Storage(je) => c2.handles@ == c1.handles@ && c1.handles@.contains_key(
                handle,
            ) && c1.handles@[handle] is Key && (je == JournalError::Backend || je
                == JournalError::CorruptCasObject || je == JournalError::MissingBlob),
            AbiError::HandleSpace => c2.handles@ == c1.handles@ && c1.handles@.contains_key(
                handle,
            ) && c1.handles@[handle] is Key && c1.handles.full(),
            _ => false,
        },
    })
}

/// `cas_get`: the handle must be a key handle; a fresh data handle wraps
/// the payload of the blob it names.
pub fn abi_cas_get(ctx: &mut HostContext, handle: u32) -> (r: Result<u32, AbiError>)
    requires
        old(ctx).handles.wf(),
    ensures
        cas_get_post(*old(ctx), *final(ctx), handle, r),
{
    let key = match ctx.handles.get(handle) {
        None => {
            return Err(AbiError::InvalidHandle(handle));
        }
        Some(h) => match h.as_key() {
            None => {
                return Err(AbiError::WrongHandleKind(handle));
            }
            Some(k) => *k,
        },
    };
    let obj = match ctx.journal.cas_get(key) {
        Ok(Some(o)) => o,
        Ok(None) => {
            return Err(AbiError::Storage(JournalError::MissingBlob));
        }
        Err(e) => {
            return Err(AbiError::Storage(e));
        }
    };
    let ghost payload = obj.data;
    match ctx.handles.insert(Handle::Data(obj.data)) {
        None => Err(AbiError::HandleSpace),
        Some(id) => {
            proof {
                assert(ctx.handles@ == old(ctx).handles@.insert(id, Handle::Data(payload)));
            }
            Ok(id)
        }
    }
}

/// Everything `output` guarantees: exactly the addressed bytes come
/// back when the range lies inside linear memory, and an out-of-range
/// request is the one possible failure.
pub open spec fn output_post(m: Seq<u8>, src: u32, len: u32, r: Result<Vec<u8>, AbiError>)
    -> bool {
    match r {
        Ok(v) => src as int + len as int <= m.len() && v@ == m.subrange(
            src as int,
            src as int + len as int,
        ),
        Err(e) => e == AbiError::OutOfBounds && src as int + len as int > m.len(),
    }
}

/// `output`: the bytes the guest asks the host to emit, copied out of
/// linear memory; the caller prints them and hands `len` back.
pub fn abi_output(mem: &Vec<u8>, src: u32, len: u32) -> (r: Result<Vec<u8>, AbiError>)
    ensures
        output_post(mem@, src, len, r),
{
    if (src as u64) + (len as u64) > mem.len() as u64 {
        return Err(AbiError::OutOfBounds);
    }
    let s = vstd::slice::slice_subrange(
        mem.as_slice(),
        src as usize,
        (src as u64 + len as u64) as usize,
    );
    Ok(crate::util::copy_bytes(s))
}

/// `read`: the handle must be a data handle; up to `len` bytes of its
/// buffer, starting at `offset`, are copied into linear memory at
/// `dest`, and the count copied is returned. Reading past the end of the
/// buffer copies what remains, possibly nothing.
/// Everything `read` guarantees: linear memory keeps its size; on
/// success exactly the clamped slice of the data handle's buffer stands
/// at `dest` and the count copied comes back; each error names its cause
/// and leaves memory untouched.
pub open spec fn read_post(
    c: HostContext,
    m1: Seq<u8>,
    m2: Seq<u8>,
    handle: u32,
    dest: u32,
    len: u32,
    offset: u32,
    r: Result<u32, AbiError>,
) -> bool {
    &&& m2.len() == m1.len()
    &&& (match r {
        Ok(n) => c.handles@.contains_key(handle) && (c.handles@[handle] matches Handle::Data(d)
            && ({
            let start = if offset as int <= d@.len() {
                offset as int
            } else {
                d@.len() as int
            };
            let stop = if offset as int + len as int <= d@.len() {
                offset as int + len as int
            } else {
                d@.len() as int
            };
            &&& n == stop - start
            &&& n <= len
            &&& dest as int + n as int <= m1.len()
            &&& m2 == m1.map(
                |i: int, b: u8|
                    if dest as int <= i < dest as int + n as int {
                        d@[start + (i - dest as int)]
                    } else {
                        b
                    },
            )
        })),
        Err(e) => m2 == m1 && match e {
            AbiError::InvalidHandle(h) => h == handle && !c.handles@.contains_key(handle),
            AbiError::WrongHandleKind(h) => h == handle && c.handles@.contains_key(handle)
                && c.handles@[handle] is Key,
            AbiError::OutOfBounds => true,
            _ => false,
        },
    })
}

pub fn abi_read(
    ctx: &HostContext,
    mem: &mut Vec<u8>,
    handle: u32,
    dest: u32,
    len: u32,
    offset: u32,
) -> (r: Result<u32, AbiError>)
    requires
        ctx.handles.wf(),
    ensures
        read_post(*ctx, old(mem)@, final(mem)@, handle, dest, len, offset, r),
{
    let data = match ctx.handles.get(handle) {
        None => {
            return Err(AbiError::InvalidHandle(handle));
        }
        Some(h) => match h.as_data() {
            None => {
                return Err(AbiError::WrongHandleKind(handle));
            }
            Some(d) => d,
        },
    };
    let dlen: u64 = data.len() as u64;
    let start: u64 = if (offset as u64) <= dlen {
        offset as u64
    } else {
        dlen
    };
    let stop: u64 = if (offset as u64) + (len as u64) <= dlen {
        (offset as u64) + (len as u64)
    } else {
        dlen
    };
    let n: u64 = stop - start;
    if (dest as u64) + n > mem.len() as u64 {
        return Err(AbiError::OutOfBounds);
    }
    let ghost mem0 = mem@;
    let mut j: u64 = 0;
    while j < n
        invariant
            0 <= j <= n,
            n == stop - start,
            start <= stop <= data@.len(),
            data@.len() <= usize::MAX,
            dest as int + n as int <= mem0.len(),
            mem0.len() <= usize::MAX,
            mem@.len() == mem0.len(),
            forall|i: int|
                0 <= i < mem0.len() ==> #[trigger] mem@[i] == (if dest as int <= i < dest as int
                    + j as int {
                    data@[start as int + (i - dest as int)]
                } else {
                    mem0[i]
                }),
        decreases n - j,
    {
        let b = *vstd::slice::slice_index_get(data.as_slice(), (start + j) as usize);
        let ghost prev = mem@;
        let idx: usize = (dest as u64 + j) as usize;
        let slot = vstd::std_specs::vec::vec_index_mut(mem, idx);
        *slot = b;
        proof {
            assert(mem@ == prev.update(dest as int + j as int, b));
            assert forall|i: int| 0 <= i < mem0.len() implies #[trigger] mem@[i] == (if dest as int
                <= i < dest as int + (j + 1) as int {
                data@[start as int + (i - dest as int)]
            } else {
                mem0[i]
            }) by {
                if i == dest as int + j as int {
                    assert(b == data@[(start + j) as int]);
                    assert(mem@[i] == b);
                } else {
                    assert(mem@[i] == prev[i]);
                }
            }
        }
        j = j + 1;
    }
    proof {
        assert(mem@ =~= mem0.map(
            |i: int, b: u8|
                if dest as int <= i < dest as int + n as int {
                    data@[start as int + (i - dest as int)]
                } else {
                    b
                },
        ));
    }
    Ok(n as u32)
}

/// `handle_release`: releases a live identifier; releasing a stale or
/// unknown identifier is a trap.
/// Everything `handle_release` guarantees: the journal is untouched;
/// success happens exactly on a live identifier and removes its binding;
/// a stale or unknown identifier is the one failure and changes nothing.
pub open spec fn handle_release_post(
    c1: HostContext,
    c2: HostContext,
    handle: u32,
    r: Result<(), AbiError>,
) -> bool {
    &&& c2.handles.wf()
    &&& c2.journal == c1.journal
    &&& c2.appid == c1.appid
    &&& (match r {
        Ok(_) => c1.handles@.contains_key(handle) && c2.handles@ == c1.handles@.remove(handle),
        Err(e) => e == AbiError::InvalidHandle(handle) && !c1.handles@.contains_key(handle)
            && c2.handles@ == c1.handles@,
    })
}

pub fn abi_handle_release(ctx: &mut HostContext, handle: u32) -> (r: Result<(), AbiError>)
    requires
        old(ctx).handles.wf(),
    ensures
        handle_release_post(*old(ctx), *final(ctx), handle, r),
{
    if ctx.handles.release(handle) {
        Ok(())
    } else {
        Err(AbiError::InvalidHandle(handle))
    }
}

/// Whether position `i` of the link array at `ptr` in guest memory holds
/// a live key handle whose key is `kv`.
pub open spec fn link_at(hs: Map<u32, Handle>, m: Seq<u8>, ptr: int, i: int, kv: Seq<u8>) -> bool {
    let id = spec_u32_from_le_bytes(m.subrange(ptr + 4 * i, ptr + 4 * i + 4));
    hs.contains_key(id) && (hs[id] matches Handle::Key(k) && k@ == kv)
}

/// Whether `h` is the little-endian identifier at position `i` of the
/// link array at `lptr` in guest memory.
pub open spec fn link_id_at(m: Seq<u8>, lptr: u32, i: int, h: u32) -> bool {
    h == spec_u32_from_le_bytes(m.subrange(lptr as int + 4 * i, lptr as int + 4 * i + 4))
}

/// What a successful `cas_put` leaves behind: the blob `o`, drawn from
/// guest memory and the key handles of its link list, enters the store
/// under its key, and a fresh key handle `id` names it.
pub open spec fn put_blob_result(
    hs1: Map<u32, Handle>,
    cas1: Map<Seq<u8>, Seq<u8>>,
    m: Seq<u8>,
    src: int,
    len: int,
    lptr: int,
    lcount: int,
    cas2: Map<Seq<u8>, Seq<u8>>,
    hs2: Map<u32, Handle>,
    id: u32,
    o: CASObjView,
    k: CASKey,
) -> bool {
    &&& o.data == m.subrange(src, src + len)
    &&& o.links.len() == lcount
    &&& (forall|i: int| 0 <= i < o.links.len() ==> link_at(hs1, m, lptr, i, #[trigger] o.links[i]))
    &&& cas2 == spec_cas_put(cas1, o).0
    &&& k@ == spec_cas_put(cas1, o).1
    &&& hs2 == hs1.insert(id, Handle::Key(k))
}

/// Everything `cas_put` guarantees: only the cas table and the handle
/// table can change; on success the blob drawn from guest memory enters
/// the store and a fresh key handle names it; an out-of-range region and
/// every other error leave the store as it was.
pub open spec fn cas_put_post(
    c1: HostContext,
    c2: HostContext,
    m: Seq<u8>,
    src: u32,
    len: u32,
    links_ptr: u32,
    links_count: u32,
    r: Result<u32, AbiError>,
) -> bool {
    &&& c2.handles.wf()
    &&& c2.appid == c1.appid
    &&& c2.journal.entries_map() == c1.journal.entries_map()
    &&& c2.journal.heads_map() == c1.journal.heads_map()
    &&& c2.journal.settings_map() == c1.journal.settings_map()
    &&& c1.journal.same_device(c2.journal)
    &&& (match r {
        Ok(id) => id != 0 && !c1.handles@.contains_key(id) && src as int + len as int <= m.len()
            && links_ptr as int + 4 * (links_count as int) <= m.len() && (exists|
            o: CASObjView,
            k: CASKey,
        |
            #[trigger] put_blob_result(
                c1.handles@,
                c1.journal.cas_map(),
                m,
                src as int,
                len as int,
                links_ptr as int,
                links_count as int,
                c2.journal.cas_map(),
                c2.handles@,
                id,
                o,
                k,
            )),
        Err(e) => match e {
            AbiError::OutOfBounds => (src as int + len as int > m.len() || links_ptr as int + 4 * (
            links_count as int) > m.len()) && c2.journal.cas_map() == c1.journal.cas_map()
                && c2.handles@ == c1.handles@,
            AbiError::InvalidHandle(h) => src as int + len as int <= m.len() && links_ptr as int
                + 4 * (links_count as int) <= m.len() && !c1.handles@.contains_key(h) && (exists|
                i: int,
            |
                0 <= i < links_count as int && #[trigger] link_id_at(m, links_ptr, i, h))
                && c2.journal.cas_map() == c1.journal.cas_map() && c2.handles@ == c1.handles@,
            AbiError::WrongHandleKind(h) => src as int + len as int <= m.len() && links_ptr as int
                + 4 * (links_count as int) <= m.len() && c1.handles@.contains_key(h)
                && c1.handles@[h] is Data && (exists|i: int|
                0 <= i < links_count as int && #[trigger] link_id_at(m, links_ptr, i, h))
                && c2.journal.cas_map() == c1.journal.cas_map() && c2.handles@ == c1.handles@,
            AbiError::Storage(je) => src as int + len as int <= m.len() && links_ptr as int + 4 * (
            links_count as int) <= m.len() && je == JournalError::Backend && c2.journal.cas_map()
                == c1.journal.cas_map() && c2.handles@ == c1.handles@,
            AbiError::HandleSpace => src as int + len as int <= m.len() && links_ptr as int + 4 * (
            links_count as int) <= m.len() && c1.handles.full() && c2.handles@ == c1.handles@,
            _ => false,
        },
    })
}

/// Packaging the witness for a successful `cas_put`.
proof fn lemma_put_exists(
    hs1: Map<u32, Handle>,
    cas1: Map<Seq<u8>, Seq<u8>>,
    m: Seq<u8>,
    src: int,
    len: int,
    lptr: int,
    lcount: int,
    cas2: Map<Seq<u8>, Seq<u8>>,
    hs2: Map<u32, Handle>,
    id: u32,
    o: CASObjView,
    k: CASKey,
)
    requires
        put_blob_result(hs1, cas1, m, src, len, lptr, lcount, cas2, hs2, id, o, k),
    ensures
        (exists|o2: CASObjView, k2: CASKey| #[trigger] put_blob_result(
            hs1,
            cas1,
            m,
            src,
            len,
            lptr,
            lcount,
            cas2,
            hs2,
            id,
            o2,
            k2,
        )),
{
}

/// `cas_put`: stores a new blob whose payload is `len` bytes at `src`
/// and whose links are the keys behind the `links_count` little-endian
/// handle identifiers at `links_ptr`; a fresh key handle names the blob.
/// An out-of-range region fails the call before anything is stored.
#[verifier::rlimit(60)]
pub fn abi_cas_put(
    ctx: &mut HostContext,
    mem: &Vec<u8>,
    src: u32,
    len: u32,
    links_ptr: u32,
    links_count: u32,
) -> (r: Result<u32, AbiError>)
    requires
        old(ctx).handles.wf(),
    ensures
        cas_put_post(*old(ctx), *final(ctx), mem@, src, len, links_ptr, links_count, r),
{
    proof {
        lemma_auto_spec_u32_to_from_le_bytes();
    }
    if (links_ptr as u64) + 4 * (links_count as u64) > mem.len() as u64 {
        return Err(AbiError::OutOfBounds);
    }
    if (src as u64) + (len as u64) > mem.len() as u64 {
        return Err(AbiError::OutOfBounds);
    }
    let mut links: Vec<CASKey> = Vec::new();
    let mut i: u32 = 0;
    while i < links_count
        invariant
            ctx.handles.wf(),
            ctx == old(ctx),
            i <= links_count,
            links@.len() == i as int,
            src as int + len as int <= mem@.len(),
            links_ptr as int + 4 * (links_count as int) <= mem@.len(),
            mem@.len() <= usize::MAX,
            forall|j: int|
                0 <= j < i as int ==> link_at(
                    ctx.handles@,
                    mem@,
                    links_ptr as int,
                    j,
                    (#[trigger] links@[j])@,
                ),
        decreases links_count - i,
    {
        let off = (links_ptr as u64) + 4 * (i as u64);
        let group = vstd::slice::slice_subrange(
            mem.as_slice(),
            off as usize,
            (off + 4) as usize,
        );
        let lid = u32_from_le_bytes(group);
        proof {
            assert(group@ == mem@.subrange(
                links_ptr as int + 4 * (i as int),
                links_ptr as int + 4 * (i as int) + 4,
            ));
            assert(link_id_at(mem@, links_ptr, i as int, lid));
        }
        let key = match ctx.handles.get(lid) {
            None => {
                return Err(AbiError::InvalidHandle(lid));
            }
            Some(h) => match h.as_key() {
                None => {
                    return Err(AbiError::WrongHandleKind(lid));
                }
                Some(k) => *k,
            },
        };
        links.push(key);
        i = i + 1;
    }
    let payload_slice = vstd::slice::slice_subrange(
        mem.as_slice(),
        src as usize,
        (src as u64 + len as u64) as usize,
    );
    let data = crate::util::copy_bytes(payload_slice);
    let obj = CASObj { links, data };
    let ghost o = obj@;
    let key = match ctx.journal.cas_put(obj) {
        Ok(k) => k,
        Err(e) => {
            return Err(AbiError::Storage(e));
        }
    };
    match ctx.handles.insert(Handle::Key(key)) {
        None => {
            proof {
                assert(ctx.journal.cas_map() == spec_cas_put(old(ctx).journal.cas_map(), o).0);
            }
            Err(AbiError::HandleSpace)
        }
        Some(id) => {
            proof {
                assert(o.data == mem@.subrange(src as int, src as int + len as int));
                assert(put_blob_result(
                    old(ctx).handles@,
                    old(ctx).journal.cas_map(),
                    mem@,
                    src as int,
                    len as int,
                    links_ptr as int,
                    links_count as int,
                    ctx.journal.cas_map(),
                    ctx.handles@,
                    id,
                    o,
                    key,
                ));
                lemma_put_exists(
                    old(ctx).handles@,
                    old(ctx).journal.cas_map(),
                    mem@,
                    src as int,
                    len as int,
                    links_ptr as int,
                    links_count as int,
                    ctx.journal.cas_map(),
                    ctx.handles@,
                    id,
                    o,
                    key,
                );
                assert(cas_put_post(
                    *old(ctx),
                    *ctx,
                    mem@,
                    src,
                    len,
                    links_ptr,
                    links_count,
                    Ok(id),
                ));
            }
            Ok(id)
        }
    }
}

/// What a successful `cas_get_links` leaves behind: key handles `ls`
/// for the links of the blob at `kv`, their identifiers little-endian in
/// a buffer behind a fresh data handle `id`.
pub open spec fn links_result(
    cas: Map<Seq<u8>, Seq<u8>>,
    kv: Seq<u8>,
    hs2: Map<u32, Handle>,
    id: u32,
    ls: Seq<CASKey>,
    buf: Vec<u8>,
) -> bool {
    &&& (forall|q: CASObjView|
        #[trigger] stores_cas_obj(cas, kv, q) ==> ls.map_values(|c: CASKey| c@) == q.links)
    &&& buf@.len() == 4 * ls.len()
    &&& hs2.contains_key(id)
    &&& hs2[id] == Handle::Data(buf)
    &&& (forall|i: int|
        0 <= i < ls.len() ==> ({
            let lid = spec_u32_from_le_bytes(buf@.subrange(4 * i, 4 * i + 4));
            hs2.contains_key(lid) && hs2[lid] == Handle::Key(#[trigger] ls[i])
        }))
}

/// What a successful `cas_get_links` call guarantees, between the
/// context before and after.
pub open spec fn cas_get_links_ok(c1: HostContext, c2: HostContext, handle: u32, id: u32) -> bool {
    &&& c1.handles@.contains_key(handle)
    &&& c1.handles@[handle] is Key
    &&& (exists|ls: Seq<CASKey>, buf: Vec<u8>| #[trigger] links_result(
        c1.journal.cas_map(),
        (c1.handles@[handle]->Key_0)@,
        c2.handles@,
        id,
        ls,
        buf,
    ))
}

/// Everything `cas_get_links` guarantees: the journal is untouched; on
/// success the blob's links come back as fresh key handles listed
/// little-endian behind a fresh data handle; each handle error names its
/// cause and leaves the handles alone.
pub open spec fn cas_get_links_post(c1: HostContext, c2: HostContext, handle: u32, r: Result<
    u32,
    AbiError,
>) -> bool {
    &&& c2.handles.wf()
    &&& c2.journal == c1.journal
    &&& c2.appid == c1.appid
    &&& (match r {
        Ok(id) => cas_get_links_ok(c1, c2, handle, id),
        Err(e) => match e {
            AbiError::InvalidHandle(h) => h == handle && !c1.handles@.contains_key(handle)
                && c2.handles@ == c1.handles@,
            AbiError::WrongHandleKind(h) => h == handle && c1.handles@.contains_key(handle)
                && c1.handles@[handle] is Data && c2.handles@ == c1.handles@,
            AbiError::Storage(je) => c1.handles@.contains_key(handle) && c1.handles@[handle]
                is Key && (je == JournalError::Backend || je == JournalError::CorruptCasObject
                || je == JournalError::MissingBlob),
            AbiError::HandleSpace => c1.handles@.contains_key(handle) && c1.handles@[handle]
                is Key,
            _ => false,
        },
    })
}

/// Packaging the witness for a successful `cas_get_links`.
proof fn lemma_links_exists(
    cas: Map<Seq<u8>, Seq<u8>>,
    kv: Seq<u8>,
    hs2: Map<u32, Handle>,
    id: u32,
    ls: Seq<CASKey>,
    buf: Vec<u8>,
)
    requires
        links_result(cas, kv, hs2, id, ls, buf),
    ensures
        (exists|ls2: Seq<CASKey>, buf2: Vec<u8>| #[trigger] links_result(
            cas,
            kv,
            hs2,
            id,
            ls2,
            buf2,
        )),
{
}

/// `cas_get_links`: the handle must be a key handle; every link of the
/// blob it names gets a fresh key handle, and a fresh data handle wraps
/// their identifiers, little-endian, in link order.
#[verifier::rlimit(60)]
pub fn abi_cas_get_links(ctx: &mut HostContext, handle: u32) -> (r: Result<u32, AbiError>)
    requires
        old(ctx).handles.wf(),
    ensures
        cas_get_links_post(*old(ctx), *final(ctx), handle, r),
{
    proof {
        lemma_auto_spec_u32_to_from_le_bytes();
    }
    let key = match ctx.handles.get(handle) {
        None => {
            return Err(AbiError::InvalidHandle(handle));
        }
        Some(h) => match h.as_key() {
            None => {
                return Err(AbiError::WrongHandleKind(handle));
            }
            Some(k) => *k,
        },
    };
    let ghost j0 = ctx.journal;
    let obj = match ctx.journal.cas_get(key) {
        Ok(Some(o)) => o,
        Ok(None) => {
            return Err(AbiError::Storage(JournalError::MissingBlob));
        }
        Err(e) => {
            return Err(AbiError::Storage(e));
        }
    };
    let ghost ls = obj.links@;
    proof {
        assert(old(ctx).handles@.contains_key(handle) && old(ctx).handles@[handle] is Key);
    }
    let mut buf: Vec<u8> = Vec::new();
    let n = obj.links.len();
    let mut i: usize = 0;
    while i < n
        invariant
            ctx.handles.wf(),
            ctx.journal == old(ctx).journal,
            ctx.appid == old(ctx).appid,
            old(ctx).handles@.contains_key(handle) && old(ctx).handles@[handle] is Key,
            n == ls.len(),
            obj.links@ == ls,
            i <= n,
            buf@.len() == 4 * i as int,
            forall|j: int|
                0 <= j < i as int ==> ctx.handles@.contains_key(
                    spec_u32_from_le_bytes(#[trigger] buf@.subrange(4 * j, 4 * j + 4)),
                ) && ctx.handles@[spec_u32_from_le_bytes(buf@.subrange(4 * j, 4 * j + 4))]
                    == Handle::Key(ls[j]),
        decreases n - i,
    {
        let link = obj.links[i];
        let ghost hs0 = ctx.handles@;
        let lid = match ctx.handles.insert(Handle::Key(link)) {
            None => {
                return Err(AbiError::HandleSpace);
            }
            Some(v) => v,
        };
        let ghost buf0 = buf@;
        let mut group = u32_to_le_bytes(lid);
        buf.append(&mut group);
        proof {
            lemma_auto_spec_u32_to_from_le_bytes();
            assert(ctx.handles@ == hs0.insert(lid, Handle::Key(link)));
            assert(buf@ == buf0 + spec_u32_to_le_bytes(lid));
            assert forall|j: int| 0 <= j < i as int + 1 implies ctx.handles@.contains_key(
                spec_u32_from_le_bytes(#[trigger] buf@.subrange(4 * j, 4 * j + 4)),
            ) && ctx.handles@[spec_u32_from_le_bytes(buf@.subrange(4 * j, 4 * j + 4))]
                == Handle::Key(ls[j]) by {
                if j < i as int {
                    assert(buf@.subrange(4 * j, 4 * j + 4) =~= buf0.subrange(4 * j, 4 * j + 4));
                    let lid2 = spec_u32_from_le_bytes(buf0.subrange(4 * j, 4 * j + 4));
                    assert(hs0.contains_key(lid2) && hs0[lid2] == Handle::Key(ls[j]));
                    assert(lid2 != lid);
                } else {
                    assert(buf@.subrange(4 * j, 4 * j + 4) =~= spec_u32_to_le_bytes(lid));
                    assert(spec_u32_from_le_bytes(spec_u32_to_le_bytes(lid)) == lid);
                    assert(ctx.handles@[lid] == Handle::Key(link));
                    assert(link == obj.links@[i as int]);
                }
            }
        }
        i = i + 1;
    }
    let ghost final_links = obj.links;
    let ghost final_buf = buf;
    let ghost prev_handles = ctx.handles@;
    proof {
        assert forall|i2: int| 0 <= i2 < ls.len() implies ({
            let lid = spec_u32_from_le_bytes(
                #[trigger] final_buf@.subrange(4 * i2, 4 * i2 + 4),
            );
            prev_handles.contains_key(lid) && prev_handles[lid] == Handle::Key(ls[i2])
        }) by {
            assert(prev_handles.contains_key(
                spec_u32_from_le_bytes(buf@.subrange(4 * i2, 4 * i2 + 4)),
            ) && prev_handles[spec_u32_from_le_bytes(buf@.subrange(4 * i2, 4 * i2 + 4))]
                == Handle::Key(ls[i2]));
        }
    }
    match ctx.handles.insert(Handle::Data(buf)) {
        None => Err(AbiError::HandleSpace),
        Some(id) => {
            proof {
                assert(j0 == old(ctx).journal);
                assert forall|q: CASObjView|
                    #[trigger] stores_cas_obj(old(ctx).journal.cas_map(), key@, q)
                        implies final_links@.map_values(|c: CASKey| c@) == q.links by {
                    assert(stores_cas_obj(j0.cas_map(), key@, q));
                    assert(obj@ == q);
                    assert(final_links@.map_values(|c: CASKey| c@) =~= q.links);
                }
                assert(ctx.handles@ == prev_handles.insert(id, Handle::Data(final_buf)));
                assert(ctx.handles@[id] == Handle::Data(final_buf));
                assert forall|i2: int| 0 <= i2 < final_links@.len() implies ({
                    let lid = spec_u32_from_le_bytes(final_buf@.subrange(4 * i2, 4 * i2 + 4));
                    ctx.handles@.contains_key(lid) && ctx.handles@[lid] == Handle::Key(
                        #[trigger] final_links@[i2],
                    )
                }) by {
                    let lid = spec_u32_from_le_bytes(final_buf@.subrange(4 * i2, 4 * i2 + 4));
                    assert(final_links@[i2] == ls[i2]);
                    assert(prev_handles.contains_key(lid) && prev_handles[lid] == Handle::Key(
                        ls[i2],
                    ));
                    assert(lid != id);
                }
                assert(links_result(
                    old(ctx).journal.cas_map(),
                    key@,
                    ctx.handles@,
                    id,
                    final_links@,
                    final_buf,
                ));
                assert(old(ctx).handles@.contains_key(handle));
                assert(old(ctx).handles@[handle] == Handle::Key(key));
                assert((old(ctx).handles@[handle]->Key_0)@ == key@);
                lemma_links_exists(
                    old(ctx).journal.cas_map(),
                    (old(ctx).handles@[handle]->Key_0)@,
                    ctx.handles@,
                    id,
                    final_links@,
                    final_buf,
                );
                assert(cas_get_links_ok(*old(ctx), *ctx, handle, id));
            }
            Ok(id)
        }
    }
}

/// What one guest call produces: nothing, a 32-bit value, or bytes for
/// the host to emit together with the value handed back.
#[derive(Debug)]
pub enum AbiOutcome {
    Unit,
    Value(u32),
    Emit(Vec<u8>, u32),
}

/// How many 32-bit arguments each bound index takes.
pub open spec fn index_arity(index: usize) -> int {
    if index == 2 {
        0int
    } else if index == 5 {
        2int
    } else if index == 4 || index == 6 {
        4int
    } else {
        1int
    }
}

/// The fixed function table the guest imports: each index dispatches to
/// one interface call and carries that call's own guarantee; an unknown
/// index or a wrong argument count is a trap that touches nothing.
pub fn invoke_index(ctx: &mut HostContext, mem: &mut Vec<u8>, index: usize, args: &Vec<u32>)
    -> (r: Result<AbiOutcome, AbiError>)
    requires
        old(ctx).handles.wf(),
    ensures
        final(ctx).handles.wf(),
        final(ctx).appid == old(ctx).appid,
        !(1 <= index <= 8) ==> r == Err::<AbiOutcome, AbiError>(AbiError::UnknownFunction)
            && *final(ctx) == *old(ctx) && final(mem)@ == old(mem)@,
        (1 <= index <= 8 && args@.len() != index_arity(index)) ==> r == Err::<
            AbiOutcome,
            AbiError,
        >(AbiError::BadArity) && *final(ctx) == *old(ctx) && final(mem)@ == old(mem)@,
        r == Err::<AbiOutcome, AbiError>(AbiError::BadArity) ==> *final(ctx) == *old(ctx)
            && final(mem)@ == old(mem)@,
        index != 6 ==> final(mem)@ == old(mem)@,
        (index != 1 && index != 4) ==> final(ctx).journal == old(ctx).journal,
        (index == 1 && args@.len() == 1) ==> (match r {
            Ok(o) => o is Unit && update_state_post(*old(ctx), *final(ctx), args@[0], Ok(())),
            Err(e) => update_state_post(*old(ctx), *final(ctx), args@[0], Err(e)),
        }),
        (index == 2 && args@.len() == 0) ==> (match r {
            Ok(o) => (o matches AbiOutcome::Value(v) && get_state_post(
                *old(ctx),
                *final(ctx),
                Ok(v),
            )),
            Err(e) => get_state_post(*old(ctx), *final(ctx), Err(e)),
        }),
        (index == 3 && args@.len() == 1) ==> (match r {
            Ok(o) => (o matches AbiOutcome::Value(v) && cas_get_post(
                *old(ctx),
                *final(ctx),
                args@[0],
                Ok(v),
            )),
            Err(e) => cas_get_post(*old(ctx), *final(ctx), args@[0], Err(e)),
        }),
        (index == 4 && args@.len() == 4) ==> (match r {
            Ok(o) => (o matches AbiOutcome::Value(v) && cas_put_post(
                *old(ctx),
                *final(ctx),
                old(mem)@,
                args@[0],
                args@[1],
                args@[2],
                args@[3],
                Ok(v),
            )),
            Err(e) => cas_put_post(
                *old(ctx),
                *final(ctx),
                old(mem)@,
                args@[0],
                args@[1],
                args@[2],
                args@[3],
                Err(e),
            ),
        }),
        (index == 5 && args@.len() == 2) ==> (*final(ctx) == *old(ctx) && (match r {
            Ok(o) => (o matches AbiOutcome::Emit(bytes, len2) && len2 == args@[1] && output_post(
                old(mem)@,
                args@[0],
                args@[1],
                Ok(bytes),
            )),
            Err(e) => output_post(old(mem)@, args@[0], args@[1], Err(e)),
        })),
        (index == 6 && args@.len() == 4) ==> (*final(ctx) == *old(ctx) && (match r {
            Ok(o) => (o matches AbiOutcome::Value(v) && read_post(
                *old(ctx),
                old(mem)@,
                final(mem)@,
                args@[0],
                args@[1],
                args@[2],
                args@[3],
                Ok(v),
            )),
            Err(e) => read_post(
                *old(ctx),
                old(mem)@,
                final(mem)@,
                args@[0],
                args@[1],
                args@[2],
                args@[3],
                Err(e),
            ),
        })),
        (index == 7 && args@.len() == 1) ==> (match r {
            Ok(o) => (o matches AbiOutcome::Value(v) && cas_get_links_post(
                *old(ctx),
                *final(ctx),
                args@[0],
                Ok(v),
            )),
            Err(e) => cas_get_links_post(*old(ctx), *final(ctx), args@[0], Err(e)),
        }),
        (index == 8 && args@.len() == 1) ==> (match r {
            Ok(o) => o is Unit && handle_release_post(*old(ctx), *final(ctx), args@[0], Ok(())),
            Err(e) => handle_release_post(*old(ctx), *final(ctx), args@[0], Err(e)),
        }),
{
    match index {
        1usize => {
            if args.len() != 1 {
                return Err(AbiError::BadArity);
            }
            match abi_update_state(ctx, args[0]) {
                Ok(()) => Ok(AbiOutcome::Unit),
                Err(e) => Err(e),
            }
        }
        2usize => {
            if args.len() != 0 {
                return Err(AbiError::BadArity);
            }
            match abi_get_state(ctx) {
                Ok(v) => Ok(AbiOutcome::Value(v)),
                Err(e) => Err(e),
            }
        }
        3usize => {
            if args.len() != 1 {
                return Err(AbiError::BadArity);
            }
            match abi_cas_get(ctx, args[0]) {
                Ok(v) => Ok(AbiOutcome::Value(v)),
                Err(e) => Err(e),
            }
        }
        4usize => {
            if args.len() != 4 {
                return Err(AbiError::BadArity);
            }
            match abi_cas_put(ctx, mem, args[0], args[1], args[2], args[3]) {
                Ok(v) => Ok(AbiOutcome::Value(v)),
                Err(e) => Err(e),
            }
        }
        5usize => {
            if args.len() != 2 {
                return Err(AbiError::BadArity);
            }
            match abi_output(mem, args[0], args[1]) {
                Ok(bytes) => Ok(AbiOutcome::Emit(bytes, args[1])),
                Err(e) => Err(e),
            }
        }
        6usize => {
            if args.len() != 4 {
                return Err(AbiError::BadArity);
            }
            match abi_read(ctx, mem, args[0], args[1], args[2], args[3]) {
                Ok(v) => Ok(AbiOutcome::Value(v)),
                Err(e) => Err(e),
            }
        }
        7usize => {
            if args.len() != 1 {
                return Err(AbiError::BadArity);
            }
            match abi_cas_get_links(ctx, args[0]) {
                Ok(v) => Ok(AbiOutcome::Value(v)),
                Err(e) => Err(e),
            }
        }
        8usize => {
            if args.len() != 1 {
                return Err(AbiError::BadArity);
            }
            match abi_handle_release(ctx, args[0]) {
                Ok(()) => Ok(AbiOutcome::Unit),
                Err(e) => Err(e),
            }
        }
        _ => Err(AbiError::UnknownFunction),
    }
}

} // verus!
