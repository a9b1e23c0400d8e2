//! The canonical serialization of the persisted structures, computed by
//! `serde_cbor`.
//!
//! Three shapes are persisted: a CAS blob `(links, data)`, a journal entry
//! `(application, new state, parents)`, and a signed envelope `(from,
//! signed bytes)`. Each is encoded as a CBOR tuple of byte strings. The
//! encodings are deterministic functions of their fields, far too long to
//! restate, so each is named by an uninterpreted function; the decoders
//! state that they invert the encoders.

use vstd::prelude::*;

verus! {

/// Whether every element of a sequence of byte strings is a 32 byte
/// digest.
pub open spec fn all_len_32(s: Seq<Seq<u8>>) -> bool {
    forall|i: int| 0 <= i < s.len() ==> (#[trigger] s[i]).len() == 32
}

/// The CBOR serialization of a CAS blob: its link digests and its payload.
pub uninterp spec fn cas_cbor(links: Seq<Seq<u8>>, data: Seq<u8>) -> Seq<u8>;

/// The CBOR serialization of a journal entry: its application, the CAS
/// root of the new state, and its parent entry digests.
pub uninterp spec fn entry_cbor(app: Seq<u8>, state: Seq<u8>, parents: Seq<Seq<u8>>) -> Seq<u8>;

/// The CBOR serialization of a signed envelope: the author's public key
/// and the combined signed message.
pub uninterp spec fn envelope_cbor(from: Seq<u8>, inner: Seq<u8>) -> Seq<u8>;

/// Relies on serde_cbor::to_vec: a deterministic serialization of the
/// pair; serializing vectors of fixed byte arrays into memory cannot fail.
#[verifier::external_body]
pub fn cas_cbor_encode(links: &Vec<[u8; 32]>, data: &Vec<u8>) -> (r: Vec<u8>)
    ensures
        r@ == cas_cbor(links.deep_view(), data@),
{
    serde_cbor::to_vec(&(links, data)).expect("serialization into memory cannot fail")
}

/// Relies on serde_cbor::from_slice inverting serde_cbor::to_vec: bytes
/// produced by the encoder decode to exactly the encoded pair, and bytes
/// the decoder refuses were produced by no encoding.
#[verifier::external_body]
pub fn cas_cbor_decode(bytes: &[u8]) -> (r: Option<(Vec<[u8; 32]>, Vec<u8>)>)
    ensures
        (match r {
            Some(v) => forall|ls: Seq<Seq<u8>>, d: Seq<u8>|
                (all_len_32(ls) && bytes@ == #[trigger] cas_cbor(ls, d)) ==> v.0.deep_view() == ls
                    && v.1@ == d,
            None => forall|ls: Seq<Seq<u8>>, d: Seq<u8>|
                all_len_32(ls) ==> bytes@ != #[trigger] cas_cbor(ls, d),
        }),
{
    serde_cbor::from_slice(bytes).ok()
}

/// Relies on serde_cbor::to_vec: a deterministic serialization of the
/// triple; serializing fixed byte arrays into memory cannot fail.
#[verifier::external_body]
pub fn entry_cbor_encode(app: &[u8; 16], state: &[u8; 32], parents: &Vec<[u8; 32]>) -> (r: Vec<
    u8,
>)
    ensures
        r@ == entry_cbor(app@, state@, parents.deep_view()),
{
    serde_cbor::to_vec(&(app, state, parents)).expect("serialization into memory cannot fail")
}

/// Relies on serde_cbor::from_slice inverting serde_cbor::to_vec: bytes
/// produced by the encoder decode to exactly the encoded triple, and bytes
/// the decoder refuses were produced by no encoding.
#[verifier::external_body]
pub fn entry_cbor_decode(bytes: &[u8]) -> (r: Option<([u8; 16], [u8; 32], Vec<[u8; 32]>)>)
    ensures
        (match r {
            Some(v) => forall|a: Seq<u8>, st: Seq<u8>, ps: Seq<Seq<u8>>|
                (a.len() == 16 && st.len() == 32 && all_len_32(ps) && bytes@
                    == #[trigger] entry_cbor(a, st, ps)) ==> v.0@ == a && v.1@ == st
                    && v.2.deep_view() == ps,
            None => forall|a: Seq<u8>, st: Seq<u8>, ps: Seq<Seq<u8>>|
                (a.len() == 16 && st.len() == 32 && all_len_32(ps)) ==> bytes@
                    != #[trigger] entry_cbor(a, st, ps),
        }),
{
    serde_cbor::from_slice(bytes).ok()
}

/// Relies on serde_cbor::to_vec: a deterministic serialization of the
/// envelope; serializing byte vectors into memory cannot fail.
#[verifier::external_body]
pub fn envelope_cbor_encode(from: &[u8; 32], inner: &Vec<u8>) -> (r: Vec<u8>)
    ensures
        r@ == envelope_cbor(from@, inner@),
{
    serde_cbor::to_vec(&(from, inner)).expect("serialization into memory cannot fail")
}

/// Relies on serde_cbor::from_slice inverting serde_cbor::to_vec: bytes
/// produced by the encoder decode to exactly the encoded envelope, and
/// bytes the decoder refuses were produced by no encoding.
#[verifier::external_body]
pub fn envelope_cbor_decode(bytes: &[u8]) -> (r: Option<([u8; 32], Vec<u8>)>)
    ensures
        (match r {
            Some(v) => forall|f: Seq<u8>, sm: Seq<u8>|
                (f.len() == 32 && bytes@ == #[trigger] envelope_cbor(f, sm)) ==> v.0@ == f && v.1@
                    == sm,
            None => forall|f: Seq<u8>, sm: Seq<u8>|
                f.len() == 32 ==> bytes@ != #[trigger] envelope_cbor(f, sm),
        }),
{
    serde_cbor::from_slice(bytes).ok()
}

} // verus!
