//! The canonical byte encoding of typed payloads stored in the CAS.
//!
//! A type stored through the typed layer provides a deterministic byte
//! encoding: equal encodings identify the payload, and the decoder
//! accepts exactly the encoder's outputs. The typed layer's contracts are
//! all phrased over these encodings.

use vstd::prelude::*;
use vstd::bytes::{lemma_auto_spec_u32_to_from_le_bytes, spec_u32_to_le_bytes, u32_from_le_bytes,
    u32_to_le_bytes};
use vstd::string::StringSliceAdditionalSpecFns;
use vstd::utf8::{encode_utf8, encode_utf8_valid_utf8, valid_utf8};

verus! {

/// A payload with a canonical byte encoding.
pub trait Codec: Sized {
    /// The canonical encoding of this value.
    spec fn enc(&self) -> Seq<u8>;

    /// Whether this value can actually be encoded; every value an
    /// executable encoder produces or consumes satisfies it.
    spec fn enc_ok(&self) -> bool;

    /// Encodes the value.
    fn encode(&self) -> (r: Vec<u8>)
        ensures
            r@ == self.enc(),
            self.enc_ok(),
    ;

    /// Decodes a value from exactly the given bytes: whatever comes back
    /// encodes to the input, and bytes that encode some value are never
    /// refused.
    fn decode(bytes: &[u8]) -> (r: Option<Self>)
        ensures
            r matches Some(v) ==> v.enc() == bytes@ && v.enc_ok(),
            (exists|v: Self| v.enc_ok() && v.enc() == bytes@) ==> r is Some,
    ;
}

impl Codec for () {
    open spec fn enc(&self) -> Seq<u8> {
        Seq::empty()
    }

    open spec fn enc_ok(&self) -> bool {
        true
    }

    fn encode(&self) -> (r: Vec<u8>) {
        Vec::new()
    }

    fn decode(bytes: &[u8]) -> (r: Option<Self>) {
        if bytes.len() == 0 {
            Some(())
        } else {
            None
        }
    }
}

impl Codec for u32 {
    open spec fn enc(&self) -> Seq<u8> {
        spec_u32_to_le_bytes(*self)
    }

    open spec fn enc_ok(&self) -> bool {
        true
    }

    fn encode(&self) -> (r: Vec<u8>) {
        proof {
            lemma_auto_spec_u32_to_from_le_bytes();
        }
        u32_to_le_bytes(*self)
    }

    fn decode(bytes: &[u8]) -> (r: Option<Self>) {
        proof {
            lemma_auto_spec_u32_to_from_le_bytes();
        }
        if bytes.len() != 4 {
            return None;
        }
        Some(u32_from_le_bytes(bytes))
    }
}

impl Codec for Vec<u8> {
    open spec fn enc(&self) -> Seq<u8> {
        self@
    }

    open spec fn enc_ok(&self) -> bool {
        true
    }

    fn encode(&self) -> (r: Vec<u8>) {
        crate::util::copy_bytes(self.as_slice())
    }

    fn decode(bytes: &[u8]) -> (r: Option<Self>) {
        Some(crate::util::copy_bytes(bytes))
    }
}

/// Relies on String::from_utf8: it accepts exactly valid UTF-8 and
/// returns the string holding those bytes.
#[verifier::external_body]
fn bytes_to_string(v: Vec<u8>) -> (r: Option<String>)
    ensures
        (match r {
            Some(s) => encode_utf8(s@) == v@,
            None => !valid_utf8(v@),
        }),
{
    String::from_utf8(v).ok()
}

impl Codec for String {
    open spec fn enc(&self) -> Seq<u8> {
        encode_utf8(self@)
    }

    open spec fn enc_ok(&self) -> bool {
        true
    }

    fn encode(&self) -> (r: Vec<u8>) {
        let s: &str = self;
        let r = vstd::slice::slice_to_vec(s.as_bytes());
        assert(r@ == s.spec_bytes());
        r
    }

    fn decode(bytes: &[u8]) -> (r: Option<Self>) {
        let owned = crate::util::copy_bytes(bytes);
        let r = bytes_to_string(owned);
        proof {
            if exists|v: String| v.enc_ok() && v.enc() == bytes@ {
                let v = choose|v: String| v.enc_ok() && v.enc() == bytes@;
                encode_utf8_valid_utf8(v@);
            }
        }
        r
    }
}

} // verus!
