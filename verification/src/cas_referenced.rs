//! A phantom-typed reference to a CAS blob: just the blob's key, with
//! the payload encoded and decoded by the referenced type's canonical
//! encoding.

use vstd::prelude::*;
use core::marker::PhantomData;
use crate::encode::Codec;
use crate::handles::Handle;
use crate::journal::{cas_key_of, cas_obj_enc, committed_entry, device_envelope, key_of_envelope,
    stores_cas_obj, stores_entry_signed, SqliteJournal};
use crate::{ApplicationId, JournalEntry, JournalKey};
use crate::{CASKey, CASObj, CASObjView, EntryView, JournalError};

verus! {

/// The blob a plain typed value is stored as: no links, the encoded
/// value as payload.
pub open spec fn value_blob(payload: Seq<u8>) -> CASObjView {
    CASObjView { links: Seq::empty(), data: payload }
}

/// A typed reference into the CAS: a key, tagged with the type the
/// payload encodes. Two references with equal keys are equal.
#[derive(Debug, PartialEq, Eq, Hash)]
pub struct CASReferenced<T> {
    pub key: CASKey,
    _marker: PhantomData<T>,
}

impl<T> View for CASReferenced<T> {
    type V = Seq<u8>;

    closed spec fn view(&self) -> Seq<u8> {
        self.key@
    }
}

impl<T> Clone for CASReferenced<T> {
    fn clone(&self) -> (r: Self)
        ensures
            r@ == self@,
    {
        CASReferenced { key: self.key, _marker: PhantomData }
    }
}

impl<T: Codec> CASReferenced<T> {
    /// A typed reference to the blob behind a key.
    pub fn from_key(key: CASKey) -> (r: Self)
        ensures
            r@ == key@,
    {
        CASReferenced { key, _marker: PhantomData }
    }

    /// A typed reference from a key handle; data handles hold no key.
    pub fn from_handle(handle: &Handle) -> (r: Option<Self>)
        ensures
            r is Some <==> handle is Key,
            r matches Some(c) ==> c@ == (handle->Key_0)@,
    {
        match handle {
            Handle::Key(k) => Some(CASReferenced { key: *k, _marker: PhantomData }),
            Handle::Data(_) => None,
        }
    }

    /// Encodes a value and stores it as a blob without links, returning
    /// the typed reference to it.
    pub fn put(journal: &mut SqliteJournal, value: &T) -> (r: Result<Self, JournalError>)
        ensures
            (match r {
                Ok(c) => ({
                    let o = value_blob(value.enc());
                    &&& value.enc_ok()
                    &&& c@ == cas_key_of(o)
                    &&& final(journal).cas_map() == (if old(journal).cas_map().contains_key(
                        cas_key_of(o),
                    ) {
                        old(journal).cas_map()
                    } else {
                        old(journal).cas_map().insert(cas_key_of(o), cas_obj_enc(o))
                    })
                }),
                Err(_) => final(journal).cas_map() == old(journal).cas_map(),
            }),
            final(journal).entries_map() == old(journal).entries_map(),
            final(journal).heads_map() == old(journal).heads_map(),
            final(journal).settings_map() == old(journal).settings_map(),
            final(journal).same_device(*old(journal)),
    {
        let payload = value.encode();
        let obj = CASObj { links: Vec::new(), data: payload };
        proof {
            assert(obj@.links =~= value_blob(value.enc()).links);
        }
        match journal.cas_put(obj) {
            Ok(k) => Ok(CASReferenced { key: k, _marker: PhantomData }),
            Err(e) => Err(e),
        }
    }

    /// Reads the referenced blob back and decodes its payload. Each
    /// error names its cause: an unbound key, stored bytes that are no
    /// blob serialization, or a payload no value of the type encodes to.
    pub fn get(&self, journal: &SqliteJournal) -> (r: Result<T, JournalError>)
        ensures
            (match r {
                Ok(v) => v.enc_ok() && (forall|q: CASObjView|
                    #[trigger] stores_cas_obj(journal.cas_map(), self@, q) ==> v.enc() == q.data),
                Err(e) => match e {
                    JournalError::Backend => true,
                    JournalError::MissingBlob => !journal.cas_map().contains_key(self@),
                    JournalError::CorruptCasObject => forall|q: CASObjView|
                        !stores_cas_obj(journal.cas_map(), self@, q),
                    JournalError::CorruptPayload => journal.cas_map().contains_key(self@) && (
                    forall|q: CASObjView|
                        #[trigger] stores_cas_obj(journal.cas_map(), self@, q) ==> (forall|v: T|
                            !(v.enc_ok() && v.enc() == q.data))),
                    _ => false,
                },
            }),
    {
        let obj = match journal.cas_get(self.key) {
            Ok(Some(o)) => o,
            Ok(None) => {
                return Err(JournalError::MissingBlob);
            }
            Err(e) => {
                return Err(e);
            }
        };
        match T::decode(obj.data.as_slice()) {
            Some(v) => {
                proof {
                    assert forall|q: CASObjView|
                        #[trigger] stores_cas_obj(journal.cas_map(), self@, q) implies v.enc()
                        == q.data by {
                        assert(obj@ == q);
                    }
                }
                Ok(v)
            }
            None => {
                proof {
                    assert forall|q: CASObjView|
                        #[trigger] stores_cas_obj(journal.cas_map(), self@, q) implies (forall|
                        v: T,
                    |
                        !(v.enc_ok() && v.enc() == q.data)) by {
                        assert(obj@ == q);
                        assert(obj.data@ == q.data);
                    }
                }
                Err(JournalError::CorruptPayload)
            }
        }
    }
}

/// Law (typed round trip): reading a freshly stored value back yields a
/// value with the same canonical encoding — for an injective encoding,
/// the value itself. The proviso guards against the store already
/// binding the blob's key to different bytes, as only a digest collision
/// or a corrupted table could.
pub fn put_get<T: Codec>(journal: &mut SqliteJournal, value: &T) -> (r: Result<T, JournalError>)
    ensures
        (match r {
            Ok(v) => (old(journal).cas_map().contains_key(cas_key_of(value_blob(value.enc())))
                ==> old(journal).cas_map()[cas_key_of(value_blob(value.enc()))] == cas_obj_enc(
                value_blob(value.enc()),
            )) ==> v.enc() == value.enc() && v.enc_ok(),
            Err(_) => true,
        }),
{
    let ghost o = value_blob(value.enc());
    let reference = match CASReferenced::<T>::put(journal, value) {
        Ok(c) => c,
        Err(e) => {
            return Err(e);
        }
    };
    let got = match reference.get(journal) {
        Ok(v) => v,
        Err(e) => {
            return Err(e);
        }
    };
    proof {
        if old(journal).cas_map().contains_key(cas_key_of(o)) ==> old(journal).cas_map()[
            cas_key_of(o)] == cas_obj_enc(o) {
            assert(journal.cas_map().contains_key(cas_key_of(o)));
            assert(journal.cas_map()[cas_key_of(o)] == cas_obj_enc(o));
            assert(stores_cas_obj(journal.cas_map(), reference@, o));
            assert(got.enc() == o.data);
        }
    }
    Ok(got)
}

impl SqliteJournal {
    /// Stores a typed value as a blob and commits its key as the
    /// application's new state, in one step.
    pub fn update_state<T: Codec>(&mut self, value: &T, app: ApplicationId) -> (r: Result<
        (CASKey, JournalKey),
        JournalError,
    >)
        ensures
            (match r {
                Ok(p) => ({
                    let o = value_blob(value.enc());
                    let ev = committed_entry(
                        old(self).heads_map(),
                        app@,
                        old(self).device_pk(),
                        cas_key_of(o),
                    );
                    let kk = key_of_envelope(device_envelope(ev, old(self).device_sk()));
                    &&& value.enc_ok()
                    &&& p.0@ == cas_key_of(o)
                    &&& p.1@ == kk
                    &&& final(self).cas_map() == (if old(self).cas_map().contains_key(
                        cas_key_of(o),
                    ) {
                        old(self).cas_map()
                    } else {
                        old(self).cas_map().insert(cas_key_of(o), cas_obj_enc(o))
                    })
                    &&& final(self).heads_map() == old(self).heads_map().insert(
                        (app@, old(self).device_pk()),
                        kk,
                    )
                }),
                Err(_) => final(self).heads_map() == old(self).heads_map(),
            }),
            final(self).settings_map() == old(self).settings_map(),
            final(self).same_device(*old(self)),
    {
        let reference = match CASReferenced::<T>::put(self, value) {
            Ok(c) => c,
            Err(e) => {
                return Err(e);
            }
        };
        let key = reference.key;
        match self.commit_self(app, key) {
            Ok(jk) => Ok((key, jk)),
            Err(e) => Err(e),
        }
    }

    /// Reads the application's current state root back as a typed value,
    /// together with the verified journal entry naming it.
    pub fn get_state_typed<T: Codec>(&self, app: ApplicationId) -> (r: Result<
        Option<(T, JournalEntry)>,
        JournalError,
    >)
        ensures
            (match r {
                Ok(v) => match v {
                    Some(p) => self.heads_map().contains_key((app@, self.device_pk())) && (forall|
                        q: EntryView,
                        sk: Seq<u8>,
                    |
                        #[trigger] stores_entry_signed(
                            self.entries_map(),
                            self.heads_map()[(app@, self.device_pk())],
                            q,
                            sk,
                        ) ==> p.1@ == q) && (forall|qo: CASObjView|
                        #[trigger] stores_cas_obj(self.cas_map(), p.1@.state, qo) ==> p.0.enc()
                            == qo.data),
                    None => !self.heads_map().contains_key((app@, self.device_pk()))
                        || !self.entries_map().contains_key(
                        self.heads_map()[(app@, self.device_pk())],
                    ),
                },
                Err(e) => match e {
                    JournalError::Backend => true,
                    JournalError::CorruptEnvelope => self.heads_map().contains_key(
                        (app@, self.device_pk()),
                    ),
                    JournalError::BadSignature => self.heads_map().contains_key(
                        (app@, self.device_pk()),
                    ),
                    JournalError::CorruptEntry => self.heads_map().contains_key(
                        (app@, self.device_pk()),
                    ),
                    JournalError::MissingBlob => self.heads_map().contains_key(
                        (app@, self.device_pk()),
                    ),
                    JournalError::CorruptCasObject => self.heads_map().contains_key(
                        (app@, self.device_pk()),
                    ),
                    JournalError::CorruptPayload => self.heads_map().contains_key(
                        (app@, self.device_pk()),
                    ),
                    _ => false,
                },
            }),
    {
        let head = match self.this_head(app) {
            Ok(Some(h)) => h,
            Ok(None) => {
                return Ok(None);
            }
            Err(e) => {
                return Err(e);
            }
        };
        let entry = match self.get(head) {
            Ok(Some(e)) => e,
            Ok(None) => {
                return Ok(None);
            }
            Err(e) => {
                return Err(e);
            }
        };
        let reference = CASReferenced::<T>::from_key(entry.new_state);
        match reference.get(self) {
            Ok(v) => Ok(Some((v, entry))),
            Err(e) => Err(e),
        }
    }
}

} // verus!
