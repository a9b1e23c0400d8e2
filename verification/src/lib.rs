//! A personal, signed, content-addressed append-only journal.
//!
//! Guest applications persist state across runs by writing immutable,
//! hash-identified blobs into a content-addressable store (CAS) and by
//! advancing a per-(application, device) head that points at a signed
//! journal entry naming the current CAS root. The journal entries form a
//! DAG through their parent references, values are deduplicated by
//! cryptographic hash, and authorship is proven by a detached signature.
//!
//! Sandboxed guests manipulate this state only through a numeric host
//! interface mediated by an opaque handle table, so they never hold host
//! pointers or raw keys.

use vstd::prelude::*;

pub mod abi;
pub mod backend;
pub mod cas_referenced;
pub mod codec;
pub mod crypto;
pub mod encode;
pub mod handles;
pub mod journal;
pub mod kvs;
pub mod laws;
pub mod log;
pub mod stack;
pub mod util;

verus! {

/// Errors surfaced by the storage engine. Integrity errors indicate
/// tampering with persisted state and are fatal for the affected read;
/// backend errors come from the embedded store itself.
#[derive(Clone, Copy, Debug, PartialEq, Eq, Structural)]
pub enum JournalError {
    /// The embedded byte store reported an error.
    Backend,
    /// Stored CAS bytes do not decode as a blob with links.
    CorruptCasObject,
    /// Stored entry bytes do not decode as a signed envelope.
    CorruptEnvelope,
    /// The envelope's signature does not verify under its embedded key.
    BadSignature,
    /// The signed payload does not decode as a journal entry.
    CorruptEntry,
    /// A stored payload does not decode as the expected typed value.
    CorruptPayload,
    /// A blob a live key names is missing from the store.
    MissingBlob,
    /// The persisted settings do not hold a matching signing pair.
    KeypairMismatch,
}

/// A 32 byte key identifying a stored CAS blob: the digest of the blob's
/// canonical serialization. Two equal blobs share a key.
#[derive(Clone, Copy, Debug, PartialEq, Eq, Hash)]
pub struct CASKey(pub [u8; 32]);

impl View for CASKey {
    type V = Seq<u8>;

    open spec fn view(&self) -> Seq<u8> {
        self.0@
    }
}

impl CASKey {
    pub fn new(array: [u8; 32]) -> (r: Self)
        ensures
            r@ == array@,
    {
        CASKey(array)
    }

    /// The raw digest bytes.
    pub fn to_bytes(&self) -> (r: [u8; 32])
        ensures
            r@ == self@,
    {
        self.0
    }
}

/// A 32 byte key identifying a signed journal entry: the digest of the
/// stored envelope. Similar to a commit id.
#[derive(Clone, Copy, Debug, PartialEq, Eq, Hash)]
pub struct JournalKey(pub [u8; 32]);

impl View for JournalKey {
    type V = Seq<u8>;

    open spec fn view(&self) -> Seq<u8> {
        self.0@
    }
}

/// A 128 bit identifier naming an application, chosen by its author and
/// stable across installations.
#[derive(Clone, Copy, Debug, PartialEq, Eq, Hash)]
pub struct ApplicationId(pub [u8; 16]);

impl View for ApplicationId {
    type V = Seq<u8>;

    open spec fn view(&self) -> Seq<u8> {
        self.0@
    }
}

/// The public half of a device's signing pair, unique per installation.
#[derive(Clone, Copy, Debug, PartialEq, Eq, Hash)]
pub struct DevicePublicKey(pub [u8; 32]);

impl View for DevicePublicKey {
    type V = Seq<u8>;

    open spec fn view(&self) -> Seq<u8> {
        self.0@
    }
}

/// A CAS blob: an opaque payload together with the keys of the blobs it
/// references. The links are part of the blob's identity, which makes the
/// store a directed graph.
#[derive(Clone, Debug)]
pub struct CASObj {
    pub links: Vec<CASKey>,
    pub data: Vec<u8>,
}

/// The mathematical shape of a CAS blob: the link digests and the payload.
#[verifier::ext_equal]
pub struct CASObjView {
    pub links: Seq<Seq<u8>>,
    pub data: Seq<u8>,
}

impl View for CASObj {
    type V = CASObjView;

    open spec fn view(&self) -> CASObjView {
        CASObjView { links: self.links@.map_values(|k: CASKey| k@), data: self.data@ }
    }
}

/// A journal entry: the application it belongs to, the CAS root of the
/// application's state after this entry, and the entries it supersedes.
#[derive(Clone, Debug)]
pub struct JournalEntry {
    pub application_id: ApplicationId,
    pub new_state: CASKey,
    pub parents: Vec<JournalKey>,
}

/// The mathematical shape of a journal entry.
#[verifier::ext_equal]
pub struct EntryView {
    pub app: Seq<u8>,
    pub state: Seq<u8>,
    pub parents: Seq<Seq<u8>>,
}

impl View for JournalEntry {
    type V = EntryView;

    open spec fn view(&self) -> EntryView {
        EntryView {
            app: self.application_id@,
            state: self.new_state@,
            parents: self.parents@.map_values(|k: JournalKey| k@),
        }
    }
}

} // verus!
