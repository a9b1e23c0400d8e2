//! The guest-facing persistent stack: the same CAS-backed functional
//! list as the log, under the push/walk names guests use.

use vstd::prelude::*;
use crate::encode::Codec;
use crate::journal::{cas_key_of, cas_obj_enc, SqliteJournal};
use crate::log::{chain_nodes, decodable_log, log_wf, Log, Node};
use crate::JournalError;

verus! {

/// A persistent stack of `T` values stored in the CAS. Pushing returns a
/// new stack and leaves every older stack value intact.
pub struct Stack<T> {
    log: Log<T>,
}

impl<T> View for Stack<T> {
    type V = Option<Seq<u8>>;

    closed spec fn view(&self) -> Option<Seq<u8>> {
        self.log@
    }
}

impl<T: Codec> Stack<T> {
    /// The empty stack.
    pub fn new() -> (r: Self)
        ensures
            r@ == None::<Seq<u8>>,
    {
        Stack { log: Log::new() }
    }

    /// Pushes one element, storing one node linked to the previous head.
    /// The stack this was called on is not touched.
    pub fn push(&self, journal: &mut SqliteJournal, data: T) -> (r: Result<Stack<T>, JournalError>)
        ensures
            (match r {
                Ok(s2) => ({
                    let o = crate::log::node_view(self@, data.enc());
                    let kk = cas_key_of(o);
                    &&& data.enc_ok()
                    &&& s2@ == Some(kk)
                    &&& final(journal).cas_map() == (if old(journal).cas_map().contains_key(kk) {
                        old(journal).cas_map()
                    } else {
                        old(journal).cas_map().insert(kk, cas_obj_enc(o))
                    })
                    &&& ((old(journal).cas_map().contains_key(kk) ==> old(journal).cas_map()[kk]
                        == cas_obj_enc(o)) ==> crate::log::obj_at(final(journal).cas_map(), kk)
                        == Some(o))
                }),
                Err(_) => final(journal).cas_map() == old(journal).cas_map(),
            }),
            final(journal).entries_map() == old(journal).entries_map(),
            final(journal).heads_map() == old(journal).heads_map(),
            final(journal).settings_map() == old(journal).settings_map(),
            final(journal).same_device(*old(journal)),
    {
        match self.log.push(journal, &data) {
            Ok(l2) => Ok(Stack { log: l2 }),
            Err(e) => Err(e),
        }
    }

    /// Streams the elements from the most recent push back to the first.
    /// Succeeds exactly when the stored chain resolves and every payload
    /// decodes.
    pub fn walk_backwards(&self, journal: &SqliteJournal) -> (r: Result<
        Vec<Node<T>>,
        JournalError,
    >)
        ensures
            r matches Ok(vs) ==> log_wf(journal.cas_map(), self@),
            (match r {
                Ok(vs) => forall|fuel: nat|
                    (#[trigger] chain_nodes(journal.cas_map(), self@, fuel)) is Some ==> ({
                        let s = chain_nodes(journal.cas_map(), self@, fuel).unwrap();
                        vs@.len() == s.len() && (forall|i: int|
                            0 <= i < s.len() ==> ((#[trigger] vs@[i]).data.enc() == s[i].1
                                && vs@[i].data.enc_ok() && crate::log::key_view(vs@[i].parent)
                                == (if i + 1 < s.len() {
                                Some(s[i + 1].0)
                            } else {
                                None
                            })))
                    }),
                Err(er) => er == JournalError::Backend || !decodable_log::<T>(
                    journal.cas_map(),
                    self@,
                ),
            }),
    {
        self.log.walk_back(journal)
    }
}

} // verus!
