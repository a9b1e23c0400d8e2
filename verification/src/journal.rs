//! The journal facade: the content-addressed store, the signed entry
//! store, the per-device heads table and the settings, all kept in one
//! embedded database, together with the device's signing pair.
//!
//! The facade's contracts are stated over the logical contents of the four
//! tables and over the named results of the serialization, hashing and
//! signing collaborators.

use vstd::prelude::*;
use crate::backend::{
    cas_get_raw, cas_ids_raw, cas_of, cas_put_ignore_raw, entries_get_raw, entries_of,
    entries_put_ignore_raw, heads_get_raw, heads_list_raw, heads_of, heads_set_raw, init_schema,
    open_file_db, open_memory_db, settings_get_raw, settings_of, settings_set_raw,
};
use crate::codec::{
    all_len_32, cas_cbor, cas_cbor_decode, cas_cbor_encode, entry_cbor, entry_cbor_decode,
    entry_cbor_encode, envelope_cbor, envelope_cbor_decode, envelope_cbor_encode,
};
use crate::crypto::{
    crypto_init, good_sk, pk_of, sha256, sha256_of, sign_message, signed_of, verify_signed,
    DeviceKeys,
};
use crate::util::{to_array32, to_array64};
use crate::{ApplicationId, CASKey, CASObj, DevicePublicKey, EntryView, JournalEntry, JournalError,
    JournalKey};

verus! {

/// Whether an entry's fields have the widths the on-disk format carries:
/// a 16 byte application id and 32 byte digests.
pub open spec fn wf_entry_view(e: EntryView) -> bool {
    e.app.len() == 16 && e.state.len() == 32 && all_len_32(e.parents)
}

/// The canonical serialization of an entry.
pub open spec fn entry_bytes(e: EntryView) -> Seq<u8> {
    entry_cbor(e.app, e.state, e.parents)
}

/// The envelope stored for an entry signed with `sk` and attributed to
/// `from`.
pub open spec fn envelope_bytes_for(e: EntryView, sk: Seq<u8>, from: Seq<u8>) -> Seq<u8> {
    envelope_cbor(from, signed_of(entry_bytes(e), sk))
}

/// The envelope stored for an entry honestly signed with `sk`: the
/// attribution is the key derived from `sk`.
pub open spec fn device_envelope(e: EntryView, sk: Seq<u8>) -> Seq<u8> {
    envelope_bytes_for(e, sk, pk_of(sk))
}

/// The journal key under which an envelope is stored: its digest.
pub open spec fn key_of_envelope(env: Seq<u8>) -> Seq<u8> {
    sha256_of(env)
}

/// The canonical serialization of a CAS blob.
pub open spec fn cas_obj_enc(o: crate::CASObjView) -> Seq<u8> {
    cas_cbor(o.links, o.data)
}

/// The key under which a CAS blob is stored: the digest of its canonical
/// serialization.
pub open spec fn cas_key_of(o: crate::CASObjView) -> Seq<u8> {
    sha256_of(cas_obj_enc(o))
}

/// Whether the entries table stores, under `key`, the envelope of entry
/// `e` honestly signed with a well-behaved secret key `sk`.
pub open spec fn stores_entry_signed(
    entries: Map<Seq<u8>, Seq<u8>>,
    key: Seq<u8>,
    e: EntryView,
    sk: Seq<u8>,
) -> bool {
    &&& sk.len() == 64
    &&& good_sk(sk)
    &&& pk_of(sk).len() == 32
    &&& wf_entry_view(e)
    &&& entries.contains_key(key)
    &&& entries[key] == device_envelope(e, sk)
}

/// Whether the cas table stores, under `key`, the serialization of the
/// blob `q`.
pub open spec fn stores_cas_obj(cas: Map<Seq<u8>, Seq<u8>>, key: Seq<u8>, q: crate::CASObjView)
    -> bool {
    &&& all_len_32(q.links)
    &&& cas.contains_key(key)
    &&& cas[key] == cas_obj_enc(q)
}

/// The entry a device commit builds: the application, the new state, and
/// as parents exactly the previous head, if one exists.
pub open spec fn committed_entry(
    heads: Map<(Seq<u8>, Seq<u8>), Seq<u8>>,
    app: Seq<u8>,
    pk: Seq<u8>,
    state: Seq<u8>,
) -> EntryView {
    EntryView {
        app,
        state,
        parents: if heads.contains_key((app, pk)) {
            seq![heads[(app, pk)]]
        } else {
            Seq::<Seq<u8>>::empty()
        },
    }
}

/// A journal kept in a SQLite database, together with the device's
/// signing pair, loaded once at opening.
pub struct SqliteJournal {
    db: rusqlite::Connection,
    keys: DeviceKeys,
}

impl SqliteJournal {
    /// The settings table: name to value.
    pub closed spec fn settings_map(self) -> Map<Seq<char>, Seq<u8>> {
        settings_of(self.db)
    }

    /// The cas table: blob digest to stored serialization.
    pub closed spec fn cas_map(self) -> Map<Seq<u8>, Seq<u8>> {
        cas_of(self.db)
    }

    /// The entries table: envelope digest to stored envelope.
    pub closed spec fn entries_map(self) -> Map<Seq<u8>, Seq<u8>> {
        entries_of(self.db)
    }

    /// The heads table: (application, device) to entry digest.
    pub closed spec fn heads_map(self) -> Map<(Seq<u8>, Seq<u8>), Seq<u8>> {
        heads_of(self.db)
    }

    /// This device's public key bytes.
    pub closed spec fn device_pk(self) -> Seq<u8> {
        self.keys.spec_pk()
    }

    /// This device's secret key bytes.
    pub closed spec fn device_sk(self) -> Seq<u8> {
        self.keys.spec_sk()
    }

    /// The device pair is unchanged between two journal values.
    pub open spec fn same_device(self, other: Self) -> bool {
        self.device_pk() == other.device_pk() && self.device_sk() == other.device_sk()
    }

    /// The device pair has the ed25519 widths and its halves match.
    pub proof fn keys_have_ed25519_widths(&self)
        ensures
            self.device_pk().len() == 32,
            self.device_sk().len() == 64,
    {
        self.keys.lemma_key_lens();
    }

    /// Readies the schema and loads or creates the device signing pair:
    /// generated and written to settings on first start, reloaded and
    /// checked afterwards.
    fn attach(db: rusqlite::Connection) -> (r: Result<SqliteJournal, JournalError>)
        ensures
            r matches Ok(j) ==> j.cas_map() == cas_of(db),
            r matches Ok(j) ==> j.entries_map() == entries_of(db),
            r matches Ok(j) ==> j.heads_map() == heads_of(db),
            r matches Ok(j) ==> j.device_pk() == pk_of(j.device_sk()),
            r matches Ok(j) ==> j.settings_map().contains_key("PublicKey"@)
                && j.settings_map()["PublicKey"@] == j.device_pk(),
            r matches Ok(j) ==> j.settings_map().contains_key("PrivateKey"@)
                && j.settings_map()["PrivateKey"@] == j.device_sk(),
            r matches Ok(j) ==> (settings_of(db).contains_key("PrivateKey"@) ==> j.device_sk()
                == settings_of(db)["PrivateKey"@] && j.settings_map() == settings_of(db)),
            r matches Ok(j) ==> (!settings_of(db).contains_key("PrivateKey"@) ==> j.settings_map()
                == settings_of(db).insert("PublicKey"@, j.device_pk()).insert(
                "PrivateKey"@,
                j.device_sk(),
            )),
            r matches Err(e) ==> e == JournalError::Backend || e == JournalError::KeypairMismatch,
            r == Err::<SqliteJournal, JournalError>(JournalError::KeypairMismatch) ==> ({
                let s = settings_of(db);
                &&& s.contains_key("PrivateKey"@)
                &&& !({
                    &&& s.contains_key("PublicKey"@)
                    &&& s["PrivateKey"@].len() == 64
                    &&& s["PublicKey"@].len() == 32
                    &&& s["PublicKey"@] == pk_of(s["PrivateKey"@])
                    &&& good_sk(s["PrivateKey"@])
                })
            }),
    {
        proof {
            reveal_strlit("PublicKey");
            reveal_strlit("PrivateKey");
        }
        let mut db = db;
        if !crypto_init() {
            return Err(JournalError::Backend);
        }
        match init_schema(&mut db) {
            Ok(()) => {}
            Err(_) => {
                return Err(JournalError::Backend);
            }
        }
        let stored_sk = match settings_get_raw(&db, "PrivateKey") {
            Ok(v) => v,
            Err(_) => {
                return Err(JournalError::Backend);
            }
        };
        let keys = match stored_sk {
            None => {
                let keys = DeviceKeys::generate();
                let pk_bytes = keys.pk();
                match settings_set_raw(&mut db, "PublicKey", pk_bytes.as_slice()) {
                    Ok(()) => {}
                    Err(_) => {
                        return Err(JournalError::Backend);
                    }
                }
                match settings_set_raw(&mut db, "PrivateKey", keys.sk().as_slice()) {
                    Ok(()) => {}
                    Err(_) => {
                        return Err(JournalError::Backend);
                    }
                }
                proof {
                    reveal_strlit("PublicKey");
                    reveal_strlit("PrivateKey");
                    assert("PublicKey"@.len() == 9 && "PrivateKey"@.len() == 10);
                    assert("PublicKey"@ != "PrivateKey"@);
                    assert(settings_of(db).contains_key("PublicKey"@) && settings_of(db)[
                        "PublicKey"@] == keys.spec_pk());
                    assert(settings_of(db).contains_key("PrivateKey"@) && settings_of(db)[
                        "PrivateKey"@] == keys.spec_sk());
                }
                keys
            }
            Some(sk_bytes) => {
                let stored_pk = match settings_get_raw(&db, "PublicKey") {
                    Ok(v) => v,
                    Err(_) => {
                        return Err(JournalError::Backend);
                    }
                };
                let pk_bytes = match stored_pk {
                    Some(v) => v,
                    None => {
                        return Err(JournalError::KeypairMismatch);
                    }
                };
                let sk_arr = match to_array64(sk_bytes.as_slice()) {
                    Some(a) => a,
                    None => {
                        return Err(JournalError::KeypairMismatch);
                    }
                };
                let pk_arr = match to_array32(pk_bytes.as_slice()) {
                    Some(a) => a,
                    None => {
                        return Err(JournalError::KeypairMismatch);
                    }
                };
                let k = match DeviceKeys::from_parts(pk_arr, sk_arr) {
                    Some(k) => k,
                    None => {
                        return Err(JournalError::KeypairMismatch);
                    }
                };
                proof {
                    assert(settings_of(db).contains_key("PublicKey"@) && settings_of(db)[
                        "PublicKey"@] == k.spec_pk());
                    assert(settings_of(db).contains_key("PrivateKey"@) && settings_of(db)[
                        "PrivateKey"@] == k.spec_sk());
                }
                k
            }
        };
        Ok(SqliteJournal { db, keys })
    }

    /// Opens (creating if absent) the journal database at a path. The
    /// device pair is created and stored on first use; on later uses the
    /// stored pair is reloaded, and one that does not sign verifiably is
    /// refused.
    pub fn new(path: &str) -> (r: Result<SqliteJournal, JournalError>)
        ensures
            r matches Ok(j) ==> j.device_pk() == pk_of(j.device_sk()),
            r matches Ok(j) ==> j.settings_map().contains_key("PublicKey"@)
                && j.settings_map()["PublicKey"@] == j.device_pk(),
            r matches Ok(j) ==> j.settings_map().contains_key("PrivateKey"@)
                && j.settings_map()["PrivateKey"@] == j.device_sk(),
            r matches Err(e) ==> e == JournalError::Backend || e == JournalError::KeypairMismatch,
    {
        let db = match open_file_db(path) {
            Ok(d) => d,
            Err(_) => {
                return Err(JournalError::Backend);
            }
        };
        Self::attach(db)
    }

    /// Opens a fresh, empty, in-memory journal with a fresh device pair,
    /// written to its settings.
    pub fn new_in_memory() -> (r: Result<SqliteJournal, JournalError>)
        ensures
            r matches Ok(j) ==> j.cas_map() == (Map::<Seq<u8>, Seq<u8>>::empty()),
            r matches Ok(j) ==> j.entries_map() == (Map::<Seq<u8>, Seq<u8>>::empty()),
            r matches Ok(j) ==> j.heads_map() == (Map::<(Seq<u8>, Seq<u8>), Seq<u8>>::empty()),
            r matches Ok(j) ==> j.device_pk() == pk_of(j.device_sk()),
            r matches Ok(j) ==> j.settings_map().contains_key("PublicKey"@)
                && j.settings_map()["PublicKey"@] == j.device_pk(),
            r matches Ok(j) ==> j.settings_map().contains_key("PrivateKey"@)
                && j.settings_map()["PrivateKey"@] == j.device_sk(),
            r matches Err(e) ==> e == JournalError::Backend,
    {
        let db = match open_memory_db() {
            Ok(d) => d,
            Err(_) => {
                return Err(JournalError::Backend);
            }
        };
        Self::attach(db)
    }

    /// Reads one settings value by name.
    pub fn settings_get(&self, key: &str) -> (r: Result<Option<Vec<u8>>, JournalError>)
        ensures
            r matches Ok(v) ==> match v {
                Some(b) => self.settings_map().contains_key(key@) && self.settings_map()[key@]
                    == b@,
                None => !self.settings_map().contains_key(key@),
            },
            r matches Err(e) ==> e == JournalError::Backend,
    {
        match settings_get_raw(&self.db, key) {
            Ok(v) => Ok(v),
            Err(_) => Err(JournalError::Backend),
        }
    }

    /// Writes one settings value by name, replacing any previous value.
    pub fn settings_set(&mut self, key: &str, value: &[u8]) -> (r: Result<(), JournalError>)
        ensures
            r is Ok ==> final(self).settings_map() == old(self).settings_map().insert(
                key@,
                value@,
            ),
            r is Err ==> final(self).settings_map() == old(self).settings_map(),
            final(self).cas_map() == old(self).cas_map(),
            final(self).entries_map() == old(self).entries_map(),
            final(self).heads_map() == old(self).heads_map(),
            final(self).same_device(*old(self)),
    {
        match settings_set_raw(&mut self.db, key, value) {
            Ok(()) => Ok(()),
            Err(_) => Err(JournalError::Backend),
        }
    }

    /// This device's public key.
    pub fn pubkey(&self) -> (r: DevicePublicKey)
        ensures
            r@ == self.device_pk(),
            self.device_pk() == pk_of(self.device_sk()),
            good_sk(self.device_sk()),
    {
        DevicePublicKey(self.keys.pk())
    }

    /// This device's secret key bytes.
    pub fn privkey(&self) -> (r: Vec<u8>)
        ensures
            r@ == self.device_sk(),
    {
        crate::util::copy_bytes(self.keys.sk().as_slice())
    }

    /// Points the head for (application, device) at an entry, replacing
    /// any previous head.
    pub fn update_head(&mut self, device: DevicePublicKey, appid: ApplicationId, key: JournalKey)
        -> (r: Result<(), JournalError>)
        ensures
            r is Ok ==> final(self).heads_map() == old(self).heads_map().insert(
                (appid@, device@),
                key@,
            ),
            r is Err ==> final(self).heads_map() == old(self).heads_map(),
            final(self).cas_map() == old(self).cas_map(),
            final(self).entries_map() == old(self).entries_map(),
            final(self).settings_map() == old(self).settings_map(),
            final(self).same_device(*old(self)),
    {
        match heads_set_raw(&mut self.db, &appid.0, &device.0, &key.0) {
            Ok(()) => Ok(()),
            Err(_) => Err(JournalError::Backend),
        }
    }

    /// This device's head for an application, if it ever committed one.
    pub fn this_head(&self, appid: ApplicationId) -> (r: Result<Option<JournalKey>, JournalError>)
        ensures
            r matches Err(e) ==> e == JournalError::Backend,
            r matches Ok(v) ==> match v {
                Some(k) => self.heads_map().contains_key((appid@, self.device_pk()))
                    && self.heads_map()[(appid@, self.device_pk())] == k@,
                None => !self.heads_map().contains_key((appid@, self.device_pk())),
            },
    {
        let pk = self.keys.pk();
        match heads_get_raw(&self.db, &appid.0, &pk) {
            Ok(Some(arr)) => Ok(Some(JournalKey(arr))),
            Ok(None) => Ok(None),
            Err(_) => Err(JournalError::Backend),
        }
    }

    /// A snapshot of the whole heads table: every (application, device)
    /// head exactly once.
    pub fn heads(&self) -> (r: Result<
        Vec<((ApplicationId, DevicePublicKey), JournalKey)>,
        JournalError,
    >)
        ensures
            r matches Ok(v) ==> self.heads_map().dom().finite(),
            r matches Ok(v) ==> v@.len() == self.heads_map().len(),
            r matches Ok(v) ==> (forall|i: int|
                0 <= i < v@.len() ==> self.heads_map().contains_pair(
                    ((#[trigger] v@[i]).0.0@, v@[i].0.1@),
                    v@[i].1@,
                )),
            r matches Ok(v) ==> (forall|i: int, j: int|
                0 <= i < j < v@.len() ==> ((#[trigger] v@[i]).0.0@, v@[i].0.1@) != (
                (#[trigger] v@[j]).0.0@,
                v@[j].0.1@,
                )),
    {
        let raw = match heads_list_raw(&self.db) {
            Ok(v) => v,
            Err(_) => {
                return Err(JournalError::Backend);
            }
        };
        let mut out: Vec<((ApplicationId, DevicePublicKey), JournalKey)> = Vec::new();
        let n = raw.len();
        let mut i: usize = 0;
        while i < n
            invariant
                n == raw@.len(),
                i <= n,
                out@.len() == i,
                self.heads_map().dom().finite(),
                raw@.len() == self.heads_map().len(),
                forall|k: int|
                    0 <= k < raw@.len() ==> self.heads_map().contains_pair(
                        ((#[trigger] raw@[k]).0@, raw@[k].1@),
                        raw@[k].2@,
                    ),
                forall|k: int, l: int|
                    0 <= k < l < raw@.len() ==> ((#[trigger] raw@[k]).0@, raw@[k].1@) != (
                    (#[trigger] raw@[l]).0@,
                    raw@[l].1@,
                    ),
                forall|k: int|
                    0 <= k < i ==> (#[trigger] out@[k]).0.0@ == raw@[k].0@ && out@[k].0.1@
                        == raw@[k].1@ && out@[k].1@ == raw@[k].2@,
            decreases n - i,
        {
            let t = raw[i];
            out.push(((ApplicationId(t.0), DevicePublicKey(t.1)), JournalKey(t.2)));
            i += 1;
        }
        Ok(out)
    }
}

/// Strips journal keys down to their digests.
fn jkeys_to_arrays(v: &Vec<JournalKey>) -> (r: Vec<[u8; 32]>)
    ensures
        r.deep_view() == v@.map_values(|k: JournalKey| k@),
        r@.len() == v@.len(),
        forall|i: int| 0 <= i < v@.len() ==> (#[trigger] r@[i])@ == v@[i]@,
{
    let mut out: Vec<[u8; 32]> = Vec::new();
    let n = v.len();
    let mut i: usize = 0;
    while i < n
        invariant
            i <= n,
            n == v@.len(),
            out@.len() == i,
            forall|j: int| 0 <= j < i ==> out@[j]@ == v@[j]@,
        decreases n - i,
    {
        out.push(v[i].0);
        i += 1;
    }
    assert(out.deep_view() =~~= v@.map_values(|k: JournalKey| k@));
    out
}

/// Wraps digests as journal keys.
fn arrays_to_jkeys(v: &Vec<[u8; 32]>) -> (r: Vec<JournalKey>)
    ensures
        r@.map_values(|k: JournalKey| k@) == v.deep_view(),
        r@.len() == v@.len(),
        forall|i: int| 0 <= i < v@.len() ==> (#[trigger] r@[i])@ == v@[i]@,
{
    let mut out: Vec<JournalKey> = Vec::new();
    let n = v.len();
    let mut i: usize = 0;
    while i < n
        invariant
            i <= n,
            n == v@.len(),
            out@.len() == i,
            forall|j: int| 0 <= j < i ==> out@[j]@ == v@[j]@,
        decreases n - i,
    {
        out.push(JournalKey(v[i]));
        i += 1;
    }
    assert(out@.map_values(|k: JournalKey| k@) =~~= v.deep_view());
    out
}

/// Strips CAS keys down to their digests.
fn ckeys_to_arrays(v: &Vec<CASKey>) -> (r: Vec<[u8; 32]>)
    ensures
        r.deep_view() == v@.map_values(|k: CASKey| k@),
        r@.len() == v@.len(),
        forall|i: int| 0 <= i < v@.len() ==> (#[trigger] r@[i])@ == v@[i]@,
{
    let mut out: Vec<[u8; 32]> = Vec::new();
    let n = v.len();
    let mut i: usize = 0;
    while i < n
        invariant
            i <= n,
            n == v@.len(),
            out@.len() == i,
            forall|j: int| 0 <= j < i ==> out@[j]@ == v@[j]@,
        decreases n - i,
    {
        out.push(v[i].0);
        i += 1;
    }
    assert(out.deep_view() =~~= v@.map_values(|k: CASKey| k@));
    out
}

/// Wraps digests as CAS keys.
fn arrays_to_ckeys(v: &Vec<[u8; 32]>) -> (r: Vec<CASKey>)
    ensures
        r@.map_values(|k: CASKey| k@) == v.deep_view(),
        r@.len() == v@.len(),
        forall|i: int| 0 <= i < v@.len() ==> (#[trigger] r@[i])@ == v@[i]@,
{
    let mut out: Vec<CASKey> = Vec::new();
    let n = v.len();
    let mut i: usize = 0;
    while i < n
        invariant
            i <= n,
            n == v@.len(),
            out@.len() == i,
            forall|j: int| 0 <= j < i ==> out@[j]@ == v@[j]@,
        decreases n - i,
    {
        out.push(CASKey(v[i]));
        i += 1;
    }
    assert(out@.map_values(|k: CASKey| k@) =~~= v.deep_view());
    out
}

impl SqliteJournal {
    /// Signs an entry with the given pair and stores the envelope under
    /// its digest; storing the same envelope again changes nothing.
    pub fn put(&mut self, entry: JournalEntry, keypair: (&[u8; 64], &[u8; 32])) -> (r: Result<
        JournalKey,
        JournalError,
    >)
        ensures
            ({
                let env = envelope_bytes_for(entry@, keypair.0@, keypair.1@);
                let k = key_of_envelope(env);
                &&& (r matches Ok(key) ==> key@ == k)
                &&& (r matches Ok(key) ==> final(self).entries_map() == (if old(
                    self,
                ).entries_map().contains_key(k) {
                    old(self).entries_map()
                } else {
                    old(self).entries_map().insert(k, env)
                }))
            }),
            r is Err ==> final(self).entries_map() == old(self).entries_map(),
            final(self).cas_map() == old(self).cas_map(),
            final(self).heads_map() == old(self).heads_map(),
            final(self).settings_map() == old(self).settings_map(),
            final(self).same_device(*old(self)),
    {
        let parents_arr = jkeys_to_arrays(&entry.parents);
        let ser = entry_cbor_encode(&entry.application_id.0, &entry.new_state.0, &parents_arr);
        let signed = sign_message(ser.as_slice(), keypair.0);
        let env = envelope_cbor_encode(keypair.1, &signed);
        let digest = sha256(env.as_slice());
        match entries_put_ignore_raw(&mut self.db, &digest, env.as_slice()) {
            Ok(()) => Ok(JournalKey(digest)),
            Err(_) => Err(JournalError::Backend),
        }
    }

    /// Reads an entry back: absent keys give `None`; a stored envelope is
    /// decoded and its signature verified before the entry is released.
    pub fn get(&self, key: JournalKey) -> (r: Result<Option<JournalEntry>, JournalError>)
        ensures
            r matches Ok(v) ==> (v is Some <==> self.entries_map().contains_key(key@)),
            r matches Ok(v) ==> (v matches Some(e) ==> wf_entry_view(e@)),
            r matches Err(e) ==> e == JournalError::Backend || e == JournalError::CorruptEnvelope
                || e == JournalError::BadSignature || e == JournalError::CorruptEntry,
            (match r {
                Ok(v) => match v {
                    Some(e) => forall|q: EntryView, sk: Seq<u8>|
                        #[trigger] stores_entry_signed(self.entries_map(), key@, q, sk) ==> e@
                            == q,
                    None => !self.entries_map().contains_key(key@),
                },
                Err(er) => er == JournalError::Backend || (forall|q: EntryView, sk: Seq<u8>|
                    !#[trigger] stores_entry_signed(self.entries_map(), key@, q, sk)),
            }),
    {
        let stored = match entries_get_raw(&self.db, &key.0) {
            Ok(v) => v,
            Err(_) => {
                return Err(JournalError::Backend);
            }
        };
        let env_bytes = match stored {
            Some(b) => b,
            None => {
                return Ok(None);
            }
        };
        let decoded = match envelope_cbor_decode(env_bytes.as_slice()) {
            Some(t) => t,
            None => {
                proof {
                    assert forall|q: EntryView, sk: Seq<u8>|
                        !#[trigger] stores_entry_signed(self.entries_map(), key@, q, sk) by {
                        if stores_entry_signed(self.entries_map(), key@, q, sk) {
                            assert(env_bytes@ == envelope_cbor(
                                pk_of(sk),
                                signed_of(entry_bytes(q), sk),
                            ));
                        }
                    }
                }
                return Err(JournalError::CorruptEnvelope);
            }
        };
        let (from, inner) = decoded;
        let msg = match verify_signed(inner.as_slice(), &from) {
            Some(m) => m,
            None => {
                proof {
                    assert forall|q: EntryView, sk: Seq<u8>|
                        !#[trigger] stores_entry_signed(self.entries_map(), key@, q, sk) by {
                        if stores_entry_signed(self.entries_map(), key@, q, sk) {
                            assert(env_bytes@ == envelope_cbor(
                                pk_of(sk),
                                signed_of(entry_bytes(q), sk),
                            ));
                            assert(from@ == pk_of(sk) && inner@ == signed_of(
                                entry_bytes(q),
                                sk,
                            ));
                        }
                    }
                }
                return Err(JournalError::BadSignature);
            }
        };
        let fields = match entry_cbor_decode(msg.as_slice()) {
            Some(t) => t,
            None => {
                proof {
                    assert forall|q: EntryView, sk: Seq<u8>|
                        !#[trigger] stores_entry_signed(self.entries_map(), key@, q, sk) by {
                        if stores_entry_signed(self.entries_map(), key@, q, sk) {
                            assert(env_bytes@ == envelope_cbor(
                                pk_of(sk),
                                signed_of(entry_bytes(q), sk),
                            ));
                            assert(from@ == pk_of(sk) && inner@ == signed_of(
                                entry_bytes(q),
                                sk,
                            ));
                            assert(msg@ == entry_bytes(q));
                            assert(msg@ == entry_cbor(q.app, q.state, q.parents));
                        }
                    }
                }
                return Err(JournalError::CorruptEntry);
            }
        };
        let (app, state, parents) = fields;
        let entry = JournalEntry {
            application_id: ApplicationId(app),
            new_state: CASKey(state),
            parents: arrays_to_jkeys(&parents),
        };
        proof {
            assert forall|q: EntryView, sk: Seq<u8>|
                #[trigger] stores_entry_signed(self.entries_map(), key@, q, sk) implies entry@
                == q by {
                assert(env_bytes@ == envelope_cbor(pk_of(sk), signed_of(entry_bytes(q), sk)));
                assert(from@ == pk_of(sk) && inner@ == signed_of(entry_bytes(q), sk));
                assert(msg@ == entry_bytes(q));
                assert(msg@ == entry_cbor(q.app, q.state, q.parents));
                assert(app@ == q.app && state@ == q.state && parents.deep_view() == q.parents);
                assert(entry@ =~= q);
            }
        }
        Ok(Some(entry))
    }

    /// Stores a blob under the digest of its serialization; storing an
    /// equal blob again changes nothing and yields the same key.
    pub fn cas_put(&mut self, obj: CASObj) -> (r: Result<CASKey, JournalError>)
        ensures
            ({
                let k = cas_key_of(obj@);
                &&& (r matches Ok(key) ==> key@ == k)
                &&& (r matches Ok(key) ==> final(self).cas_map() == (if old(
                    self,
                ).cas_map().contains_key(k) {
                    old(self).cas_map()
                } else {
                    old(self).cas_map().insert(k, cas_obj_enc(obj@))
                }))
            }),
            r is Err ==> final(self).cas_map() == old(self).cas_map(),
            r matches Err(e) ==> e == JournalError::Backend,
            final(self).entries_map() == old(self).entries_map(),
            final(self).heads_map() == old(self).heads_map(),
            final(self).settings_map() == old(self).settings_map(),
            final(self).same_device(*old(self)),
    {
        let links_arr = ckeys_to_arrays(&obj.links);
        let enc = cas_cbor_encode(&links_arr, &obj.data);
        let digest = sha256(enc.as_slice());
        match cas_put_ignore_raw(&mut self.db, &digest, enc.as_slice()) {
            Ok(()) => Ok(CASKey(digest)),
            Err(_) => Err(JournalError::Backend),
        }
    }

    /// Reads a blob back: unknown keys give `None`; stored bytes are
    /// decoded into the payload and its links.
    pub fn cas_get(&self, key: CASKey) -> (r: Result<Option<CASObj>, JournalError>)
        ensures
            r matches Ok(v) ==> (v is Some <==> self.cas_map().contains_key(key@)),
            r matches Ok(v) ==> (v matches Some(o) ==> all_len_32(o@.links)),
            r matches Err(e) ==> e == JournalError::Backend || e == JournalError::CorruptCasObject,
            (match r {
                Ok(v) => match v {
                    Some(o) => forall|q: crate::CASObjView|
                        stores_cas_obj(self.cas_map(), key@, q) ==> o@ == q,
                    None => !self.cas_map().contains_key(key@),
                },
                Err(er) => er == JournalError::Backend || (forall|q: crate::CASObjView|
                    !stores_cas_obj(self.cas_map(), key@, q)),
            }),
    {
        let stored = match cas_get_raw(&self.db, &key.0) {
            Ok(v) => v,
            Err(_) => {
                return Err(JournalError::Backend);
            }
        };
        let bytes = match stored {
            Some(b) => b,
            None => {
                return Ok(None);
            }
        };
        let decoded = match cas_cbor_decode(bytes.as_slice()) {
            Some(t) => t,
            None => {
                proof {
                    assert forall|q: crate::CASObjView|
                        !stores_cas_obj(self.cas_map(), key@, q) by {
                        if stores_cas_obj(self.cas_map(), key@, q) {
                            assert(bytes@ == cas_cbor(q.links, q.data));
                        }
                    }
                }
                return Err(JournalError::CorruptCasObject);
            }
        };
        let (links_arr, data) = decoded;
        let obj = CASObj { links: arrays_to_ckeys(&links_arr), data };
        proof {
            assert(obj@.links == links_arr.deep_view());
            assert forall|i: int| 0 <= i < obj@.links.len() implies (#[trigger] obj@.links[i]).len()
                == 32 by {
                assert(obj@.links[i] == links_arr@[i]@);
            }
            assert forall|q: crate::CASObjView|
                stores_cas_obj(self.cas_map(), key@, q) implies obj@ == q by {
                assert(bytes@ == cas_cbor(q.links, q.data));
                assert(links_arr.deep_view() == q.links && data@ == q.data);
                assert(obj@ =~= q);
            }
        }
        Ok(Some(obj))
    }

    /// Reads a blob back and additionally checks that the stored bytes
    /// are exactly the blob's canonical serialization, so the result is
    /// pinned to how the store reads at that key. Bytes that decode but
    /// re-encode differently are refused as corrupt.
    pub fn cas_get_canonical(&self, key: CASKey) -> (r: Result<Option<CASObj>, JournalError>)
        ensures
            (match r {
                Ok(v) => match v {
                    Some(o) => crate::log::obj_at(self.cas_map(), key@) == Some(o@)
                        && all_len_32(o@.links),
                    None => !self.cas_map().contains_key(key@),
                },
                Err(er) => er == JournalError::Backend || (self.cas_map().contains_key(key@)
                    && crate::log::obj_at(self.cas_map(), key@) is None),
            }),
    {
        broadcast use vstd::array::group_array_axioms;

        let stored = match cas_get_raw(&self.db, &key.0) {
            Ok(v) => v,
            Err(_) => {
                return Err(JournalError::Backend);
            }
        };
        let bytes = match stored {
            Some(b) => b,
            None => {
                return Ok(None);
            }
        };
        let decoded = match cas_cbor_decode(bytes.as_slice()) {
            Some(t) => t,
            None => {
                proof {
                    if crate::log::obj_at(self.cas_map(), key@) is Some {
                        let q = crate::log::obj_at(self.cas_map(), key@).unwrap();
                        assert(all_len_32(q.links) && bytes@ == cas_cbor(q.links, q.data));
                    }
                }
                return Err(JournalError::CorruptCasObject);
            }
        };
        let (links_arr, data) = decoded;
        let reencoded = cas_cbor_encode(&links_arr, &data);
        if !crate::util::bytes_eq(reencoded.as_slice(), bytes.as_slice()) {
            proof {
                if crate::log::obj_at(self.cas_map(), key@) is Some {
                    let q = crate::log::obj_at(self.cas_map(), key@).unwrap();
                    assert(all_len_32(q.links) && bytes@ == cas_cbor(q.links, q.data));
                    assert(links_arr.deep_view() == q.links && data@ == q.data);
                    assert(reencoded@ == cas_cbor(q.links, q.data));
                }
            }
            return Err(JournalError::CorruptCasObject);
        }
        let obj = CASObj { links: arrays_to_ckeys(&links_arr), data };
        proof {
            assert(obj@.links =~~= links_arr.deep_view());
            assert(reencoded@ == cas_obj_enc(obj@));
            assert forall|i: int| 0 <= i < obj@.links.len() implies (#[trigger] obj@.links[i]).len()
                == 32 by {
                assert(obj@.links[i] == links_arr@[i]@);
            }
            assert(crate::log::obj_at(self.cas_map(), key@) is Some);
            let q = crate::log::obj_at(self.cas_map(), key@).unwrap();
            assert(all_len_32(q.links) && bytes@ == cas_cbor(q.links, q.data));
            assert(links_arr.deep_view() == q.links && data@ == q.data);
            assert(obj@ =~= q);
        }
        Ok(Some(obj))
    }

    /// Every key the store holds, exactly once, in some order.
    pub fn cas_list(&self) -> (r: Result<Vec<CASKey>, JournalError>)
        ensures
            r matches Ok(v) ==> self.cas_map().dom().finite(),
            r matches Ok(v) ==> v@.len() == self.cas_map().len(),
            r matches Ok(v) ==> (forall|i: int|
                0 <= i < v@.len() ==> self.cas_map().contains_key((#[trigger] v@[i])@)),
            r matches Ok(v) ==> (forall|i: int, j: int|
                0 <= i < j < v@.len() ==> (#[trigger] v@[i])@ != (#[trigger] v@[j])@),
    {
        let raw = match cas_ids_raw(&self.db) {
            Ok(v) => v,
            Err(_) => {
                return Err(JournalError::Backend);
            }
        };
        let out = arrays_to_ckeys(&raw);
        proof {
            assert(out@.len() == raw@.len());
            assert forall|i: int| 0 <= i < out@.len() implies self.cas_map().contains_key(
                (#[trigger] out@[i])@,
            ) by {
                assert(out@[i]@ == out@.map_values(|k: CASKey| k@)[i]);
                assert(out@[i]@ == raw@[i]@);
            }
            assert forall|i: int, j: int| 0 <= i < j < out@.len() implies (#[trigger] out@[i])@ != (
            #[trigger] out@[j])@ by {
                assert(out@[i]@ == raw@[i]@ && out@[j]@ == raw@[j]@);
            }
        }
        Ok(out)
    }
}

impl SqliteJournal {
    /// Builds, signs and stores an entry advancing this device's head for
    /// the application: the new entry's parents are exactly the previous
    /// head, and the head then points at the new entry.
    pub fn commit_self(&mut self, application_id: ApplicationId, new_state: CASKey) -> (r: Result<
        JournalKey,
        JournalError,
    >)
        ensures
            (r matches Ok(k) ==> ({
                let ev = committed_entry(
                    old(self).heads_map(),
                    application_id@,
                    old(self).device_pk(),
                    new_state@,
                );
                let env = device_envelope(ev, old(self).device_sk());
                let kk = key_of_envelope(env);
                &&& wf_entry_view(ev)
                &&& k@ == kk
                &&& final(self).entries_map() == (if old(self).entries_map().contains_key(kk) {
                    old(self).entries_map()
                } else {
                    old(self).entries_map().insert(kk, env)
                })
                &&& final(self).heads_map() == old(self).heads_map().insert(
                    (application_id@, old(self).device_pk()),
                    kk,
                )
            })),
            r is Err ==> final(self).heads_map() == old(self).heads_map(),
            r is Err ==> ({
                let ev = committed_entry(
                    old(self).heads_map(),
                    application_id@,
                    old(self).device_pk(),
                    new_state@,
                );
                let env = device_envelope(ev, old(self).device_sk());
                let kk = key_of_envelope(env);
                final(self).entries_map() == old(self).entries_map() || final(self).entries_map()
                    == (if old(self).entries_map().contains_key(kk) {
                    old(self).entries_map()
                } else {
                    old(self).entries_map().insert(kk, env)
                })
            }),
            final(self).cas_map() == old(self).cas_map(),
            final(self).settings_map() == old(self).settings_map(),
            final(self).same_device(*old(self)),
            old(self).device_pk() == pk_of(old(self).device_sk()),
            good_sk(old(self).device_sk()),
            old(self).device_pk().len() == 32,
            old(self).device_sk().len() == 64,
    {
        let sk = *self.keys.sk();
        let pk = self.keys.pk();
        proof {
            self.keys.lemma_key_lens();
        }
        let head = match self.this_head(application_id) {
            Ok(h) => h,
            Err(e) => {
                return Err(e);
            }
        };
        let mut parents: Vec<JournalKey> = Vec::new();
        if let Some(h) = head {
            parents.push(h);
        }
        let entry = JournalEntry { application_id, new_state, parents };
        proof {
            assert(entry@ =~= committed_entry(
                self.heads_map(),
                application_id@,
                self.device_pk(),
                new_state@,
            ));
        }
        let put_key = match self.put(entry, (&sk, &pk)) {
            Ok(k) => k,
            Err(e) => {
                return Err(e);
            }
        };
        match self.update_head(DevicePublicKey(pk), application_id, put_key) {
            Ok(()) => Ok(put_key),
            Err(e) => Err(e),
        }
    }

    /// The CAS root of the application's current state on this device:
    /// the new state of the entry the head points at, or nothing when the
    /// application never committed here.
    pub fn get_state(&self, appid: ApplicationId) -> (r: Result<Option<CASKey>, JournalError>)
        ensures
            r matches Err(e) ==> e == JournalError::Backend || e == JournalError::CorruptEnvelope
                || e == JournalError::BadSignature || e == JournalError::CorruptEntry,
            r matches Ok(v) ==> (v is Some ==> self.heads_map().contains_key(
                (appid@, self.device_pk()),
            )),
            r matches Ok(v) ==> (match v {
                Some(s) => forall|q: EntryView, sk: Seq<u8>|
                    #[trigger] stores_entry_signed(
                        self.entries_map(),
                        self.heads_map()[(appid@, self.device_pk())],
                        q,
                        sk,
                    ) ==> s@ == q.state,
                None => !self.heads_map().contains_key((appid@, self.device_pk()))
                    || !self.entries_map().contains_key(
                    self.heads_map()[(appid@, self.device_pk())],
                ),
            }),
    {
        let head = match self.this_head(appid) {
            Ok(h) => h,
            Err(e) => {
                return Err(e);
            }
        };
        let head = match head {
            Some(h) => h,
            None => {
                return Ok(None);
            }
        };
        match self.get(head) {
            Ok(Some(entry)) => Ok(Some(entry.new_state)),
            Ok(None) => Ok(None),
            Err(e) => Err(e),
        }
    }
}

} // verus!
