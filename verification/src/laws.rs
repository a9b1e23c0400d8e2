//! The storage engine's laws, each stated over the journal's contracts
//! and checked by the verifier.

use vstd::prelude::*;
use crate::journal::{
    cas_key_of, cas_obj_enc, committed_entry, device_envelope, envelope_bytes_for,
    key_of_envelope, stores_entry_signed, wf_entry_view, SqliteJournal,
};
use crate::util::to_array64;
use crate::{ApplicationId, CASKey, CASObj, JournalEntry, JournalError, JournalKey};

verus! {

/// What one blob write does to the cas table: nothing when the blob's key
/// is already bound, else it binds the key to the blob's serialization.
pub open spec fn spec_cas_put(cas: Map<Seq<u8>, Seq<u8>>, o: crate::CASObjView) -> (
    Map<Seq<u8>, Seq<u8>>,
    Seq<u8>,
) {
    let k = cas_key_of(o);
    (
        if cas.contains_key(k) {
            cas
        } else {
            cas.insert(k, cas_obj_enc(o))
        },
        k,
    )
}

/// Law (content-addressing): writing the same blob twice yields the same
/// key both times, and the second write leaves the table exactly as the
/// first left it, with a single binding for that key.
pub proof fn lemma_cas_put_idempotent(cas: Map<Seq<u8>, Seq<u8>>, o: crate::CASObjView)
    ensures
        ({
            let first = spec_cas_put(cas, o);
            let second = spec_cas_put(first.0, o);
            &&& first.1 == second.1
            &&& second.0 == first.0
            &&& first.0.contains_key(first.1)
            &&& first.0[first.1] == (if cas.contains_key(first.1) {
                cas[first.1]
            } else {
                cas_obj_enc(o)
            })
        }),
{
}

/// Law (content-addressing, on the running engine): storing a blob and
/// then an equal blob returns the same key twice, and the second write
/// changes nothing.
pub fn cas_put_twice(j: &mut SqliteJournal, first: CASObj, second: CASObj) -> (r: Result<
    (CASKey, CASKey),
    JournalError,
>)
    ensures
        r matches Ok(ks) ==> ks.0@ == cas_key_of(first@),
        (match r {
            Ok(ks) => first@ == second@ ==> ks.0@ == ks.1@ && final(j).cas_map() == spec_cas_put(
                old(j).cas_map(),
                first@,
            ).0,
            Err(_) => true,
        }),
{
    let k1 = match j.cas_put(first) {
        Ok(k) => k,
        Err(e) => {
            return Err(e);
        }
    };
    let k2 = match j.cas_put(second) {
        Ok(k) => k,
        Err(e) => {
            return Err(e);
        }
    };
    Ok((k1, k2))
}

/// Law (round trip): reading back a freshly stored blob yields the blob.
/// The proviso guards against the store already binding the blob's key to
/// different bytes, as only a digest collision or a corrupted table
/// could.
pub fn cas_put_get(j: &mut SqliteJournal, obj: CASObj) -> (r: Result<CASObj, JournalError>)
    ensures
        (match r {
            Ok(o) => (old(j).cas_map().contains_key(cas_key_of(obj@)) ==> old(j).cas_map()[
                cas_key_of(obj@)] == cas_obj_enc(obj@)) ==> o@ == obj@,
            Err(_) => true,
        }),
{
    broadcast use vstd::array::group_array_axioms;

    let ghost ov = obj@;
    proof {
        assert forall|i: int| 0 <= i < ov.links.len() implies (#[trigger] ov.links[i]).len()
            == 32 by {
            assert(ov.links[i] == obj.links@[i]@);
        }
    }
    let key = match j.cas_put(obj) {
        Ok(k) => k,
        Err(e) => {
            return Err(e);
        }
    };
    match j.cas_get(key) {
        Ok(Some(o)) => {
            proof {
                if old(j).cas_map().contains_key(cas_key_of(ov)) ==> old(j).cas_map()[cas_key_of(
                    ov,
                )] == cas_obj_enc(ov) {
                    assert(j.cas_map().contains_key(cas_key_of(ov)));
                    assert(j.cas_map()[cas_key_of(ov)] == cas_obj_enc(ov));
                    assert(crate::journal::stores_cas_obj(j.cas_map(), key@, ov));
                    assert(o@ =~= ov);
                }
            }
            Ok(o)
        }
        Ok(None) => {
            // A freshly stored key cannot be absent.
            proof {
                assert(false);
            }
            Err(JournalError::CorruptCasObject)
        }
        Err(e) => Err(e),
    }
}

/// Law (head monotonicity): after a commit, reading the state back gives
/// exactly the committed root, and the committed entry's parents are
/// exactly the previous head. The proviso guards against the entry store
/// already binding the new entry's key to different bytes, as only a
/// digest collision or a corrupted table could.
pub fn commit_then_get_state(j: &mut SqliteJournal, app: ApplicationId, s: CASKey) -> (r: Result<
    (JournalKey, Option<CASKey>),
    JournalError,
>)
    ensures
        (match r {
            Ok(p) => ({
                let ev = committed_entry(old(j).heads_map(), app@, old(j).device_pk(), s@);
                let env = device_envelope(ev, old(j).device_sk());
                let kk = key_of_envelope(env);
                (old(j).entries_map().contains_key(kk) ==> old(j).entries_map()[kk] == env) ==> {
                    &&& p.0@ == kk
                    &&& p.1 matches Some(c) && c@ == s@
                }
            }),
            Err(_) => true,
        }),
{
    let k = match j.commit_self(app, s) {
        Ok(k) => k,
        Err(e) => {
            return Err(e);
        }
    };
    let ghost ev = committed_entry(old(j).heads_map(), app@, old(j).device_pk(), s@);
    let ghost env = device_envelope(ev, old(j).device_sk());
    let ghost kk = key_of_envelope(env);
    let st = match j.get_state(app) {
        Ok(v) => v,
        Err(e) => {
            return Err(e);
        }
    };
    proof {
        if old(j).entries_map().contains_key(kk) ==> old(j).entries_map()[kk] == env {
            assert(j.heads_map().contains_key((app@, j.device_pk())));
            assert(j.heads_map()[(app@, j.device_pk())] == kk);
            assert(j.entries_map().contains_key(kk));
            assert(j.entries_map()[kk] == env);
            assert(stores_entry_signed(j.entries_map(), kk, ev, old(j).device_sk()));
            assert(st is Some);
        }
    }
    Ok((k, st))
}

/// Law (signature binding): an entry signed and stored with this
/// device's own pair reads back verified as exactly that entry. The
/// proviso guards against the entry store already binding the envelope's
/// key to different bytes, as only a digest collision or a corrupted
/// table could.
pub fn put_then_get(j: &mut SqliteJournal, entry: JournalEntry) -> (r: Result<
    Option<JournalEntry>,
    JournalError,
>)
    ensures
        (match r {
            Ok(v) => ({
                let env = device_envelope(entry@, old(j).device_sk());
                let kk = key_of_envelope(env);
                (old(j).entries_map().contains_key(kk) ==> old(j).entries_map()[kk] == env)
                    ==> (v matches Some(e) && e@ == entry@)
            }),
            Err(_) => true,
        }),
{
    let ghost ev = entry@;
    let ghost sk0 = j.device_sk();
    let pk = j.pubkey().0;
    let sk_vec = j.privkey();
    let sk = match to_array64(sk_vec.as_slice()) {
        Some(a) => a,
        None => {
            proof {
                j.keys_have_ed25519_widths();
            }
            return Err(JournalError::KeypairMismatch);
        }
    };
    proof {
        j.keys_have_ed25519_widths();
    }
    let key = match j.put(entry, (&sk, &pk)) {
        Ok(k) => k,
        Err(e) => {
            return Err(e);
        }
    };
    let got = match j.get(key) {
        Ok(v) => v,
        Err(e) => {
            proof {
                let env = device_envelope(ev, sk0);
                let kk = key_of_envelope(env);
                if old(j).entries_map().contains_key(kk) ==> old(j).entries_map()[kk] == env {
                    assert(stores_entry_signed(j.entries_map(), key@, ev, sk0));
                }
            }
            return Err(e);
        }
    };
    proof {
        let env = device_envelope(ev, sk0);
        let kk = key_of_envelope(env);
        if old(j).entries_map().contains_key(kk) ==> old(j).entries_map()[kk] == env {
            assert(envelope_bytes_for(ev, sk0, pk@) == env);
            assert(j.entries_map().contains_key(kk) && j.entries_map()[kk] == env);
            assert(wf_entry_view(ev));
            assert(stores_entry_signed(j.entries_map(), key@, ev, sk0));
            assert(got is Some);
        }
    }
    Ok(got)
}

} // verus!
