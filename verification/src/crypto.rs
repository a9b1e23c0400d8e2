//! The cryptographic collaborators: a 256-bit digest and an ed25519
//! signing scheme, reached through `sodiumoxide`.
//!
//! What the primitives compute is far too long to restate, but each result
//! is a function of its arguments alone, so the results are named by
//! uninterpreted functions and every wrapper states its result through
//! those names. The one relation the journal needs is that a message
//! signed with a secret key verifies under the matching public key and
//! yields the message back.

use vstd::prelude::*;

verus! {

/// The 32 byte digest that `sodiumoxide::crypto::hash::sha256::hash`
/// computes from a message.
pub uninterp spec fn sha256_of(m: Seq<u8>) -> Seq<u8>;

/// The combined signed message (signature followed by message) that
/// `sodiumoxide::crypto::sign::sign` computes from a message and a secret
/// key.
pub uninterp spec fn signed_of(m: Seq<u8>, sk: Seq<u8>) -> Seq<u8>;

/// The public key that `sodiumoxide::crypto::sign::SecretKey::public_key`
/// derives from a secret key.
pub uninterp spec fn pk_of(sk: Seq<u8>) -> Seq<u8>;

/// Whether a 64 byte secret key is in generated form: equal to the key
/// libsodium derives from the key's own seed half, so its stored public
/// half is exactly the derived point and everything it signs verifies
/// under the matching public key. Generated pairs are; a pair assembled
/// from arbitrary bytes need not be, since signing embeds the stored
/// public half while verification recomputes the point from the seed,
/// making verification of such a key's signatures message-dependent.
pub uninterp spec fn good_sk(sk: Seq<u8>) -> bool;

/// The public half of the pair libsodium derives from a seed.
pub uninterp spec fn seed_pk(seed: Seq<u8>) -> Seq<u8>;

/// The secret half of the pair libsodium derives from a seed.
pub uninterp spec fn seed_sk(seed: Seq<u8>) -> Seq<u8>;

/// Relies on sodiumoxide::init: readies the library; calling it more than
/// once is harmless. Returns whether initialization succeeded.
#[verifier::external_body]
pub fn crypto_init() -> (r: bool) {
    sodiumoxide::init().is_ok()
}

/// Relies on sodiumoxide::crypto::hash::sha256::hash: a 32 byte digest
/// that depends on the message alone.
#[verifier::external_body]
pub fn sha256(m: &[u8]) -> (r: [u8; 32])
    ensures
        r@ == sha256_of(m@),
{
    let digest = sodiumoxide::crypto::hash::sha256::hash(m);
    digest.0
}

/// Relies on sodiumoxide::crypto::sign::sign: the combined signed message
/// depends on the message and the secret key alone.
#[verifier::external_body]
pub fn sign_message(m: &[u8], sk: &[u8; 64]) -> (r: Vec<u8>)
    ensures
        r@ == signed_of(m@, sk@),
{
    let key = sodiumoxide::crypto::sign::SecretKey(*sk);
    sodiumoxide::crypto::sign::sign(m, &key)
}

/// Relies on sodiumoxide::crypto::sign::gen_keypair: the two freshly
/// generated halves match and the secret half is in generated form;
/// nothing else is known of the random keys.
#[verifier::external_body]
pub fn gen_signing_pair() -> (r: ([u8; 32], [u8; 64]))
    ensures
        r.0@ == pk_of(r.1@),
        good_sk(r.1@),
{
    let (pk, sk) = sodiumoxide::crypto::sign::gen_keypair();
    (pk.0, sk.0)
}

/// Relies on sodiumoxide::crypto::sign::verify: a combined signed
/// message produced with a well-behaved secret key verifies under the
/// matching public key and yields the embedded message. Nothing is
/// claimed of other inputs, and nothing of keys that are not known to be
/// well behaved.
#[verifier::external_body]
pub fn verify_signed(sm: &[u8], pk: &[u8; 32]) -> (r: Option<Vec<u8>>)
    ensures
        (match r {
            Some(v) => forall|m: Seq<u8>, sk: Seq<u8>|
                (sk.len() == 64 && good_sk(sk) && sm@ == #[trigger] signed_of(m, sk) && pk@
                    == pk_of(sk)) ==> v@ == m,
            None => forall|m: Seq<u8>, sk: Seq<u8>|
                !(sk.len() == 64 && good_sk(sk) && sm@ == #[trigger] signed_of(m, sk) && pk@
                    == pk_of(sk)),
        }),
{
    let key = sodiumoxide::crypto::sign::PublicKey(*pk);
    sodiumoxide::crypto::sign::verify(sm, &key).ok()
}

/// Relies on sodiumoxide::crypto::sign::keypair_from_seed
/// (libsodium's crypto_sign_ed25519_seed_keypair): the derived pair is a
/// function of the seed alone and is in generated form — its halves
/// match and its secret half is well behaved — and a well-behaved key is
/// exactly the one derived from its own seed half.
#[verifier::external_body]
fn derive_pair_from_seed(seed: &[u8; 32]) -> (r: ([u8; 32], [u8; 64]))
    ensures
        r.0@ == seed_pk(seed@),
        r.1@ == seed_sk(seed@),
        r.0@ == pk_of(r.1@),
        good_sk(r.1@),
        (r.1@ == seed_sk(seed@)) ==> (forall|sk: Seq<u8>|
            (sk.len() == 64 && good_sk(sk) && sk.subrange(0, 32) == seed@) ==> sk == seed_sk(
                seed@,
            )),
{
    let (pk, sk) = sodiumoxide::crypto::sign::keypair_from_seed(
        &sodiumoxide::crypto::sign::Seed(*seed),
    );
    (pk.0, sk.0)
}

/// A device's signing pair. The two halves always match — the public
/// half is the one derived from the secret half — and the secret half is
/// well behaved, so what it signs verifies.
pub struct DeviceKeys {
    pk: [u8; 32],
    sk: [u8; 64],
}

impl DeviceKeys {
    /// The halves match and the secret half behaves like a generated one.
    #[verifier::type_invariant]
    pub closed spec fn wf(self) -> bool {
        self.pk@ == pk_of(self.sk@) && good_sk(self.sk@)
    }

    /// The public half.
    pub closed spec fn spec_pk(self) -> Seq<u8> {
        self.pk@
    }

    /// The secret half.
    pub closed spec fn spec_sk(self) -> Seq<u8> {
        self.sk@
    }

    /// The halves have the ed25519 widths.
    pub proof fn lemma_key_lens(&self)
        ensures
            self.spec_pk().len() == 32,
            self.spec_sk().len() == 64,
    {
    }

    /// Generates a fresh matching pair.
    pub fn generate() -> (r: Self)
        ensures
            r.spec_pk() == pk_of(r.spec_sk()),
            good_sk(r.spec_sk()),
    {
        let (pk, sk) = gen_signing_pair();
        DeviceKeys { pk, sk }
    }

    /// Rebuilds a pair from persisted halves, refusing any pair that is
    /// not byte for byte the one derived from its own seed half.
    pub fn from_parts(pk: [u8; 32], sk: [u8; 64]) -> (r: Option<Self>)
        ensures
            r matches Some(k) ==> k.spec_pk() == pk@ && k.spec_sk() == sk@,
            r matches Some(k) ==> k.spec_pk() == pk_of(k.spec_sk()) && good_sk(k.spec_sk()),
            r is Some <==> (pk@ == pk_of(sk@) && good_sk(sk@)),
    {
        let seed = match crate::util::to_array32(
            vstd::slice::slice_subrange(sk.as_slice(), 0, 32),
        ) {
            Some(a) => a,
            None => {
                proof {
                    assert(false);
                }
                return None;
            }
        };
        let (dpk, dsk) = derive_pair_from_seed(&seed);
        if crate::util::eq64(&dsk, &sk) && crate::util::eq32(&dpk, &pk) {
            Some(DeviceKeys { pk, sk })
        } else {
            proof {
                if pk@ == pk_of(sk@) && good_sk(sk@) {
                    assert(sk@.subrange(0, 32) == seed@);
                    assert(sk@ == seed_sk(seed@));
                }
            }
            None
        }
    }

    /// The public half, as stored in settings and in the heads table.
    pub fn pk(&self) -> (r: [u8; 32])
        ensures
            r@ == self.spec_pk(),
            r@ == pk_of(self.spec_sk()),
            good_sk(self.spec_sk()),
    {
        proof {
            use_type_invariant(self);
        }
        self.pk
    }

    /// The secret half, for signing.
    pub(crate) fn sk(&self) -> (r: &[u8; 64])
        ensures
            r@ == self.spec_sk(),
            self.spec_pk() == pk_of(self.spec_sk()),
            good_sk(self.spec_sk()),
    {
        proof {
            use_type_invariant(self);
        }
        &self.sk
    }
}

} // verus!
