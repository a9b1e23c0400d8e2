//! A key-value store persisted as a log of operations.
//!
//! The persisted form is only the head of an operation log in the CAS;
//! the in-memory table is rebuilt by replaying the log from the oldest
//! operation to the newest. A freshly deserialized store is uninitialized
//! and holds nothing; `init` replays the log; reads and writes then work
//! on the in-memory table, and each write also appends one operation to
//! the log.
//!
//! The store's model is the map obtained by replaying its operation
//! history; keys are compared by their canonical encodings.

use vstd::prelude::*;
use vstd::bytes::{lemma_auto_spec_u64_to_from_le_bytes, spec_u64_to_le_bytes, u64_from_le_bytes,
    u64_to_le_bytes};
use crate::encode::Codec;
use crate::journal::SqliteJournal;
use crate::log::{chain_nodes, lemma_chain_unique, log_wf, Log};
use crate::JournalError;

verus! {

/// One step of a key-value history.
pub enum KeyValueStoreOperation<K, V> {
    Insert { key: K, value: V },
    Clear,
    Remove { key: K },
}

impl<K: Codec, V: Codec> Codec for KeyValueStoreOperation<K, V> {
    open spec fn enc(&self) -> Seq<u8> {
        match self {
            KeyValueStoreOperation::Insert { key, value } => seq![1u8] + spec_u64_to_le_bytes(
                key.enc().len() as u64,
            ) + key.enc() + value.enc(),
            KeyValueStoreOperation::Remove { key } => seq![2u8] + key.enc(),
            KeyValueStoreOperation::Clear => seq![3u8],
        }
    }

    open spec fn enc_ok(&self) -> bool {
        match self {
            KeyValueStoreOperation::Insert { key, value } => key.enc_ok() && value.enc_ok()
                && key.enc().len() <= u64::MAX,
            KeyValueStoreOperation::Remove { key } => key.enc_ok(),
            KeyValueStoreOperation::Clear => true,
        }
    }

    fn encode(&self) -> (r: Vec<u8>) {
        proof {
            lemma_auto_spec_u64_to_from_le_bytes();
        }
        match self {
            KeyValueStoreOperation::Insert { key, value } => {
                let mut out: Vec<u8> = Vec::new();
                out.push(1u8);
                let kb = key.encode();
                let mut prefix = u64_to_le_bytes(kb.len() as u64);
                out.append(&mut prefix);
                let mut kb = kb;
                out.append(&mut kb);
                let mut vb = value.encode();
                out.append(&mut vb);
                proof {
                    assert(out@ =~= self.enc());
                }
                out
            }
            KeyValueStoreOperation::Remove { key } => {
                let mut out: Vec<u8> = Vec::new();
                out.push(2u8);
                let mut kb = key.encode();
                out.append(&mut kb);
                proof {
                    assert(out@ =~= self.enc());
                }
                out
            }
            KeyValueStoreOperation::Clear => {
                let mut out: Vec<u8> = Vec::new();
                out.push(3u8);
                proof {
                    assert(out@ =~= self.enc());
                }
                out
            }
        }
    }

    fn decode(bytes: &[u8]) -> (r: Option<Self>) {
        proof {
            lemma_auto_spec_u64_to_from_le_bytes();
        }
        if bytes.len() == 0 {
            return None;
        }
        let tag = *vstd::slice::slice_index_get(bytes, 0);
        if tag == 1 {
            if bytes.len() < 9 {
                proof {
                    assert forall|op: Self| !(op.enc_ok() && op.enc() == bytes@) by {
                        if op.enc_ok() && op.enc() == bytes@ {
                            assert(op is Insert);
                        }
                    }
                }
                return None;
            }
            let prefix = vstd::slice::slice_subrange(bytes, 1, 9);
            let klen = u64_from_le_bytes(prefix);
            if klen > (bytes.len() - 9) as u64 {
                proof {
                    assert forall|op: Self| !(op.enc_ok() && op.enc() == bytes@) by {
                        if op.enc_ok() && op.enc() == bytes@ {
                            assert(op is Insert);
                            let ke = op->Insert_key.enc();
                            assert(bytes@.subrange(1, 9) =~= spec_u64_to_le_bytes(
                                ke.len() as u64,
                            ));
                        }
                    }
                }
                return None;
            }
            let kend = 9 + klen as usize;
            let kpart = vstd::slice::slice_subrange(bytes, 9, kend);
            let vpart = vstd::slice::slice_subrange(bytes, kend, bytes.len());
            let key = K::decode(kpart);
            let value = V::decode(vpart);
            match (key, value) {
                (Some(key), Some(value)) => {
                    let op = KeyValueStoreOperation::Insert { key, value };
                    proof {
                        assert(op.enc() =~= bytes@);
                    }
                    Some(op)
                }
                _ => {
                    proof {
                        assert forall|op: Self| !(op.enc_ok() && op.enc() == bytes@) by {
                            if op.enc_ok() && op.enc() == bytes@ {
                                assert(op is Insert);
                                let ke = op->Insert_key.enc();
                                let ve = op->Insert_value.enc();
                                assert(bytes@.subrange(1, 9) =~= spec_u64_to_le_bytes(
                                    ke.len() as u64,
                                ));
                                assert(kpart@ =~= ke);
                                assert(vpart@ =~= ve);
                            }
                        }
                    }
                    None
                }
            }
        } else if tag == 2 {
            let kpart = vstd::slice::slice_subrange(bytes, 1, bytes.len());
            match K::decode(kpart) {
                Some(key) => {
                    let op = KeyValueStoreOperation::Remove { key };
                    proof {
                        assert(op.enc() =~= bytes@);
                    }
                    Some(op)
                }
                None => {
                    proof {
                        assert forall|op: Self| !(op.enc_ok() && op.enc() == bytes@) by {
                            if op.enc_ok() && op.enc() == bytes@ {
                                assert(op is Remove);
                                assert(kpart@ =~= op->Remove_key.enc());
                            }
                        }
                    }
                    None
                }
            }
        } else if tag == 3 {
            if bytes.len() == 1 {
                let op = KeyValueStoreOperation::Clear;
                proof {
                    assert(op.enc() =~= bytes@);
                }
                Some(op)
            } else {
                proof {
                    assert forall|op: Self| !(op.enc_ok() && op.enc() == bytes@) by {
                        if op.enc_ok() && op.enc() == bytes@ {
                            assert(op is Clear);
                        }
                    }
                }
                None
            }
        } else {
            proof {
                assert forall|op: Self| !(op.enc_ok() && op.enc() == bytes@) by {
                    if op.enc_ok() && op.enc() == bytes@ {
                        assert(op.enc()[0] == tag);
                    }
                }
            }
            None
        }
    }
}

/// What one operation does to the map: keys are identified by their
/// canonical encodings.
pub open spec fn apply_op<K: Codec, V: Codec>(
    m: Map<Seq<u8>, V>,
    op: KeyValueStoreOperation<K, V>,
) -> Map<Seq<u8>, V> {
    match op {
        KeyValueStoreOperation::Insert { key, value } => m.insert(key.enc(), value),
        KeyValueStoreOperation::Remove { key } => m.remove(key.enc()),
        KeyValueStoreOperation::Clear => Map::empty(),
    }
}

/// The map a history of operations builds, replayed oldest first.
pub open spec fn replay<K: Codec, V: Codec>(ops: Seq<KeyValueStoreOperation<K, V>>) -> Map<
    Seq<u8>,
    V,
>
    decreases ops.len(),
{
    if ops.len() == 0 {
        Map::empty()
    } else {
        apply_op(replay(ops.drop_last()), ops.last())
    }
}

/// Whether the in-memory table lists exactly the bindings of the map:
/// every pair is in the map, every key of the map is listed, listed keys
/// are distinct by encoding, and every listed key can be encoded.
pub open spec fn entries_match<K: Codec, V: Codec>(s: Seq<(K, V)>, m: Map<Seq<u8>, V>) -> bool {
    &&& (forall|i: int|
        0 <= i < s.len() ==> m.contains_pair(((#[trigger] s[i]).0).enc(), s[i].1))
    &&& (forall|k: Seq<u8>|
        #[trigger] m.contains_key(k) ==> exists|i: int| 0 <= i < s.len() && (#[trigger] s[i]).0.enc()
            == k)
    &&& (forall|i: int, j: int|
        0 <= i < j < s.len() ==> ((#[trigger] s[i]).0).enc() != ((#[trigger] s[j]).0).enc())
    &&& (forall|i: int| 0 <= i < s.len() ==> ((#[trigger] s[i]).0).enc_ok())
}

/// A key-value store: the in-memory table, whether the log has been
/// replayed into it, and the persisted operation log with its (ghost)
/// history.
pub struct KeyValueStore<K, V> {
    inner: Vec<(K, V)>,
    was_init: bool,
    log: Log<KeyValueStoreOperation<K, V>>,
    hist: Ghost<Seq<KeyValueStoreOperation<K, V>>>,
}

impl<K: Codec, V: Codec> KeyValueStore<K, V> {
    /// Whether the log has been replayed into the in-memory table.
    pub closed spec fn is_init(self) -> bool {
        self.was_init
    }

    /// The operation history, oldest first.
    pub closed spec fn history(self) -> Seq<KeyValueStoreOperation<K, V>> {
        self.hist@
    }

    /// The head of the persisted operation log.
    pub closed spec fn log_head(self) -> Option<Seq<u8>> {
        self.log@
    }

    /// The store's model: the map its history builds.
    pub open spec fn model(self) -> Map<Seq<u8>, V> {
        replay(self.history())
    }

    /// The in-memory table as a sequence of pairs.
    pub closed spec fn table(self) -> Seq<(K, V)> {
        self.inner@
    }

    /// An initialized store's table lists exactly its model, and its
    /// history is encodable.
    pub open spec fn wf(self) -> bool {
        &&& self.is_init() ==> entries_match(self.table(), self.model())
        &&& (forall|i: int|
            0 <= i < self.history().len() ==> (#[trigger] self.history()[i]).enc_ok())
        &&& !self.is_init() ==> self.table().len() == 0
    }

    /// Whether every resolving reading of the store's log out of `cas`
    /// carries exactly the store's history, newest first.
    pub open spec fn linked(self, cas: Map<Seq<u8>, Seq<u8>>) -> bool {
        self.is_init() ==> (forall|fuel: nat|
            (#[trigger] chain_nodes(cas, self.log_head(), fuel)) is Some ==> ({
                let s = chain_nodes(cas, self.log_head(), fuel).unwrap();
                s.len() == self.history().len() && (forall|i: int|
                    0 <= i < s.len() ==> (#[trigger] s[i]).1 == self.history()[s.len() - 1
                        - i].enc())
            }))
    }

    /// A fresh, empty, initialized store with an empty log.
    pub fn new() -> (r: Self)
        ensures
            r.wf(),
            r.is_init(),
            r.history().len() == 0,
            r.model() == (Map::<Seq<u8>, V>::empty()),
            r.log_head() == None::<Seq<u8>>,
    {
        KeyValueStore {
            inner: Vec::new(),
            was_init: true,
            log: Log::new(),
            hist: Ghost(Seq::empty()),
        }
    }

    /// An uninitialized store resuming a persisted operation log; `init`
    /// replays it before first use.
    pub fn from_log(log: Log<KeyValueStoreOperation<K, V>>) -> (r: Self)
        ensures
            r.wf(),
            !r.is_init(),
            r.log_head() == log@,
    {
        KeyValueStore { inner: Vec::new(), was_init: false, log, hist: Ghost(Seq::empty()) }
    }

    /// The position of a key in the table, by encoding.
    fn find(&self, kb: &Vec<u8>) -> (r: Option<usize>)
        ensures
            (match r {
                Some(i) => i < self.table().len() && self.table()[i as int].0.enc() == kb@,
                None => forall|i: int|
                    0 <= i < self.table().len() ==> (#[trigger] self.table()[i]).0.enc() != kb@,
            }),
    {
        let n = self.inner.len();
        let mut i: usize = 0;
        while i < n
            invariant
                n == self.inner@.len(),
                i <= n,
                forall|j: int| 0 <= j < i ==> (#[trigger] self.inner@[j]).0.enc() != kb@,
            decreases n - i,
        {
            let eb = self.inner[i].0.encode();
            if crate::util::bytes_eq(eb.as_slice(), kb.as_slice()) {
                return Some(i);
            }
            i += 1;
        }
        None
    }

    /// Applies one operation to the in-memory table alone.
    fn internal_do_oper(
        &mut self,
        oper: KeyValueStoreOperation<K, V>,
        Ghost(m): Ghost<Map<Seq<u8>, V>>,
    )
        requires
            entries_match(old(self).table(), m),
            oper.enc_ok(),
        ensures
            entries_match(final(self).table(), apply_op(m, oper)),
            final(self).was_init == old(self).was_init,
            final(self).log == old(self).log,
            final(self).hist == old(self).hist,
    {
        match oper {
            KeyValueStoreOperation::Insert { key, value } => {
                let kb = key.encode();
                let ghost before = self.inner@;
                match self.find(&kb) {
                    Some(i) => {
                        let _ = self.inner.remove(i);
                        proof {
                            lemma_entries_remove(before, m, i as int);
                        }
                    }
                    None => {
                        proof {
                            assert(entries_match(self.inner@, m.remove(key.enc())));
                        }
                    }
                }
                let ghost mid = self.inner@;
                self.inner.push((key, value));
                proof {
                    lemma_entries_insert(mid, m.remove(key.enc()), key, value);
                    assert(m.remove(key.enc()).insert(key.enc(), value) =~= m.insert(
                        key.enc(),
                        value,
                    ));
                }
            }
            KeyValueStoreOperation::Remove { key } => {
                let kb = key.encode();
                let ghost before = self.inner@;
                match self.find(&kb) {
                    Some(i) => {
                        let _ = self.inner.remove(i);
                        proof {
                            lemma_entries_remove(before, m, i as int);
                        }
                    }
                    None => {
                        proof {
                            assert(entries_match(self.inner@, m.remove(key.enc())));
                        }
                    }
                }
            }
            KeyValueStoreOperation::Clear => {
                self.inner.clear();
                proof {
                    assert(entries_match(
                        self.inner@,
                        Map::<Seq<u8>, V>::empty(),
                    ));
                }
            }
        }
    }
}


impl<K: Codec, V: Codec> Default for KeyValueStore<K, V> {
    /// A fresh, empty, initialized store with an empty log.
    fn default() -> (r: Self)
        ensures
            r.wf(),
            r.is_init(),
            r.history().len() == 0,
    {
        KeyValueStore::new()
    }
}

impl<K: Codec, V: Codec> KeyValueStore<K, V> {
    /// Replays the persisted log into the in-memory table, once; later
    /// calls change nothing. Reads and writes require this to have run.
    pub fn init(&mut self, journal: &SqliteJournal) -> (r: Result<(), JournalError>)
        requires
            old(self).wf(),
        ensures
            final(self).wf(),
            final(self).log_head() == old(self).log_head(),
            old(self).is_init() ==> *final(self) == *old(self) && r is Ok,
            (match r {
                Ok(_) => final(self).is_init() && (!old(self).is_init() ==> final(self).linked(
                    journal.cas_map(),
                ) && log_wf(journal.cas_map(), final(self).log_head())),
                Err(_) => *final(self) == *old(self),
            }),
    {
        if self.was_init {
            return Ok(());
        }
        let ops = match self.log.forward_list(journal) {
            Ok(v) => v,
            Err(e) => {
                return Err(e);
            }
        };
        self.hist = Ghost(ops@);
        let ghost full = ops@;
        let mut remaining = ops;
        let ghost done: int = 0;
        proof {
            assert(remaining@ =~= full.subrange(0, full.len() as int));
            assert(full.subrange(0, 0) =~= Seq::<KeyValueStoreOperation<K, V>>::empty());
            assert(entries_match(self.inner@, replay(full.subrange(0, 0))));
        }
        while remaining.len() > 0
            invariant
                full.len() >= remaining@.len(),
                remaining@ == full.subrange(
                    full.len() - remaining@.len(),
                    full.len() as int,
                ),
                forall|i: int| 0 <= i < full.len() ==> (#[trigger] full[i]).enc_ok(),
                entries_match(
                    self.inner@,
                    replay(full.subrange(0, full.len() - remaining@.len())),
                ),
                self.hist@ == full,
                self.log == old(self).log,
                self.was_init == false,
            decreases remaining@.len(),
        {
            let ghost k = full.len() - remaining@.len();
            let op = remaining.remove(0);
            proof {
                assert(op == full[k]);
                assert(remaining@ =~= full.subrange(k + 1, full.len() as int));
            }
            let ghost m = replay(full.subrange(0, k));
            self.internal_do_oper(op, Ghost(m));
            proof {
                assert(full.subrange(0, k + 1).drop_last() =~= full.subrange(0, k));
                assert(full.subrange(0, k + 1).last() == full[k]);
                assert(replay(full.subrange(0, k + 1)) == apply_op(m, op));
            }
        }
        self.was_init = true;
        proof {
            assert(full.subrange(0, full.len() as int) =~= full);
            assert(entries_match(self.table(), self.model()));
            assert forall|fuel: nat|
                (#[trigger] chain_nodes(journal.cas_map(), self.log_head(), fuel)) is Some
                implies ({
                let s = chain_nodes(journal.cas_map(), self.log_head(), fuel).unwrap();
                s.len() == self.history().len() && (forall|i: int|
                    0 <= i < s.len() ==> (#[trigger] s[i]).1 == self.history()[s.len() - 1
                        - i].enc())
            }) by {
                let s = chain_nodes(journal.cas_map(), self.log_head(), fuel).unwrap();
                assert(full.len() == s.len());
                assert forall|i: int| 0 <= i < s.len() implies (#[trigger] s[i]).1
                    == self.history()[s.len() - 1 - i].enc() by {
                    assert(full[s.len() - 1 - i].enc() == s[s.len() - 1 - (s.len() - 1 - i)].1);
                }
            }
        }
        Ok(())
    }

    /// Applies one operation to the table and appends it to the log.
    fn do_oper(&mut self, journal: &mut SqliteJournal, oper: KeyValueStoreOperation<K, V>) -> (r:
        Result<(), JournalError>)
        requires
            old(self).wf(),
            old(self).is_init(),
        ensures
            final(self).wf(),
            final(self).is_init(),
            final(journal).entries_map() == old(journal).entries_map(),
            final(journal).heads_map() == old(journal).heads_map(),
            final(journal).settings_map() == old(journal).settings_map(),
            final(journal).same_device(*old(journal)),
            (match r {
                Ok(_) => ({
                    &&& final(self).history() == old(self).history().push(oper)
                    &&& oper.enc_ok()
                    &&& final(self).model() == apply_op(old(self).model(), oper)
                    &&& ((old(self).linked(old(journal).cas_map()) && log_wf(
                        old(journal).cas_map(),
                        old(self).log_head(),
                    ) && (old(journal).cas_map().contains_key(
                        crate::journal::cas_key_of(
                            crate::log::node_view(old(self).log_head(), oper.enc()),
                        ),
                    ) ==> old(journal).cas_map()[crate::journal::cas_key_of(
                        crate::log::node_view(old(self).log_head(), oper.enc()),
                    )] == crate::journal::cas_obj_enc(
                        crate::log::node_view(old(self).log_head(), oper.enc()),
                    ))) ==> final(self).linked(final(journal).cas_map()))
                }),
                Err(_) => *final(self) == *old(self) && final(journal).cas_map() == old(
                    journal,
                ).cas_map(),
            }),
    {
        let ghost cas1 = journal.cas_map();
        let ghost node = crate::log::node_view(self.log@, oper.enc());
        let ghost kk = crate::journal::cas_key_of(node);
        let new_log = match self.log.push(journal, &oper) {
            Ok(l) => l,
            Err(e) => {
                return Err(e);
            }
        };
        let ghost m = self.model();
        self.internal_do_oper(oper, Ghost(m));
        self.log = new_log;
        proof {
            self.hist@ = self.hist@.push(oper);
        }
        proof {
            assert(self.history().drop_last() =~= old(self).history());
            assert(self.model() == apply_op(m, oper));
            assert forall|i: int| 0 <= i < self.history().len() implies (
            #[trigger] self.history()[i]).enc_ok() by {
                if i < self.history().len() - 1 {
                    assert(self.history()[i] == old(self).history()[i]);
                }
            }
            if old(self).linked(cas1) && log_wf(cas1, old(self).log_head()) && (cas1.contains_key(
                kk,
            ) ==> cas1[kk] == crate::journal::cas_obj_enc(node)) {
                let cas2 = journal.cas_map();
                assert(obj_at_is(cas2, kk, node));
                assert forall|fuel: nat|
                    (#[trigger] chain_nodes(cas2, self.log_head(), fuel)) is Some implies ({
                    let s = chain_nodes(cas2, self.log_head(), fuel).unwrap();
                    s.len() == self.history().len() && (forall|i: int|
                        0 <= i < s.len() ==> (#[trigger] s[i]).1 == self.history()[s.len() - 1
                            - i].enc())
                }) by {
                    let s = chain_nodes(cas2, self.log_head(), fuel).unwrap();
                    let tail = chain_nodes(cas2, old(self).log_head(), (fuel - 1) as nat);
                    assert(tail is Some);
                    let t = tail.unwrap();
                    assert(s =~= seq![(kk, node.data)] + t);
                    let f1 = choose|f1: nat| chain_nodes(cas1, old(self).log_head(), f1) is Some;
                    crate::log::lemma_push_preserves_chain(
                        cas1,
                        cas2,
                        kk,
                        crate::journal::cas_obj_enc(node),
                        old(self).log_head(),
                        f1,
                    );
                    lemma_chain_unique(cas2, old(self).log_head(), f1, (fuel - 1) as nat);
                    assert(chain_nodes(cas1, old(self).log_head(), f1).unwrap() == t);
                    assert(t.len() == old(self).history().len());
                    assert forall|i: int| 0 <= i < s.len() implies (#[trigger] s[i]).1
                        == self.history()[s.len() - 1 - i].enc() by {
                        if i == 0 {
                            assert(s[0].1 == oper.enc());
                            assert(self.history()[s.len() - 1] == oper);
                        } else {
                            assert(s[i] == t[i - 1]);
                            assert(t[i - 1].1 == old(self).history()[t.len() - 1 - (i
                                - 1)].enc());
                            assert(self.history()[s.len() - 1 - i] == old(self).history()[t.len()
                                - i]);
                        }
                    }
                }
            }
        }
        Ok(())
    }

    /// The persisted form of the store: its operation log. Serializing a
    /// store keeps only this; a store rebuilt from it replays the same
    /// history.
    pub fn log(&self) -> (r: Log<KeyValueStoreOperation<K, V>>)
        ensures
            r@ == self.log_head(),
    {
        self.log.clone()
    }

    /// Looks one key up, replaying the persisted log first when this
    /// store has not been initialized since deserialization: reads
    /// behave as if the log were already replayed, with no observable
    /// initialization step.
    pub fn read(&mut self, journal: &SqliteJournal, key: &K) -> (r: Result<
        Option<&V>,
        JournalError,
    >)
        requires
            old(self).wf(),
        ensures
            final(self).wf(),
            final(self).log_head() == old(self).log_head(),
            old(self).is_init() ==> *final(self) == *old(self),
            (match r {
                Ok(v) => final(self).is_init() && (v is Some <==> final(self).model().contains_key(
                    key.enc(),
                )) && (v matches Some(val) ==> final(self).model()[key.enc()] == *val),
                Err(_) => *final(self) == *old(self),
            }),
            (r is Ok && !old(self).is_init()) ==> final(self).linked(journal.cas_map())
                && log_wf(journal.cas_map(), final(self).log_head()),
    {
        match self.init(journal) {
            Ok(()) => {}
            Err(e) => {
                return Err(e);
            }
        }
        let kb = key.encode();
        match self.find(&kb) {
            Some(i) => {
                let pair = vstd::slice::slice_index_get(self.inner.as_slice(), i);
                Ok(Some(&pair.1))
            }
            None => Ok(None),
        }
    }

    /// The in-memory table: exactly the bindings of the store's model.
    pub fn inner(&self) -> (r: &Vec<(K, V)>)
        requires
            self.wf(),
            self.is_init(),
        ensures
            r@ == self.table(),
            entries_match(r@, self.model()),
    {
        &self.inner
    }

    /// Binds a key to a value, replacing any previous binding. A store
    /// not yet initialized replays its log first.
    pub fn insert(&mut self, journal: &mut SqliteJournal, key: K, value: V) -> (r: Result<
        (),
        JournalError,
    >)
        requires
            old(self).wf(),
        ensures
            final(self).wf(),
            r is Ok ==> final(self).is_init(),
            r is Err ==> final(self).log_head() == old(self).log_head(),
            old(self).is_init() ==> (match r {
                Ok(_) => final(self).history() == old(self).history().push(
                    KeyValueStoreOperation::Insert { key, value },
                ) && final(self).model() == old(self).model().insert(key.enc(), value),
                Err(_) => *final(self) == *old(self),
            }),
            r is Ok ==> final(self).history().len() > 0 && final(self).history().last() == (
            KeyValueStoreOperation::Insert { key, value }) && final(self).model() == replay(
                final(self).history().drop_last(),
            ).insert(key.enc(), value),
    {
        match self.init(journal) {
            Ok(()) => {}
            Err(e) => {
                return Err(e);
            }
        }
        let ghost mid = *self;
        let r = self.do_oper(journal, KeyValueStoreOperation::Insert { key, value });
        proof {
            if r is Ok {
                assert(self.history().drop_last() =~= mid.history());
            }
        }
        r
    }

    /// Removes a key's binding, if any. A store not yet initialized
    /// replays its log first.
    pub fn remove(&mut self, journal: &mut SqliteJournal, key: K) -> (r: Result<(), JournalError>)
        requires
            old(self).wf(),
        ensures
            final(self).wf(),
            r is Ok ==> final(self).is_init(),
            r is Err ==> final(self).log_head() == old(self).log_head(),
            old(self).is_init() ==> (match r {
                Ok(_) => final(self).history() == old(self).history().push(
                    KeyValueStoreOperation::Remove { key },
                ) && final(self).model() == old(self).model().remove(key.enc()),
                Err(_) => *final(self) == *old(self),
            }),
            r is Ok ==> final(self).history().len() > 0 && final(self).history().last() == (
            KeyValueStoreOperation::<K, V>::Remove { key }) && final(self).model() == replay(
                final(self).history().drop_last(),
            ).remove(key.enc()),
    {
        match self.init(journal) {
            Ok(()) => {}
            Err(e) => {
                return Err(e);
            }
        }
        let ghost mid = *self;
        let r = self.do_oper(journal, KeyValueStoreOperation::Remove { key });
        proof {
            if r is Ok {
                assert(self.history().drop_last() =~= mid.history());
            }
        }
        r
    }

    /// Removes every binding. A store not yet initialized replays its
    /// log first.
    pub fn clear(&mut self, journal: &mut SqliteJournal) -> (r: Result<(), JournalError>)
        requires
            old(self).wf(),
        ensures
            final(self).wf(),
            r is Ok ==> final(self).is_init(),
            r is Err ==> final(self).log_head() == old(self).log_head(),
            old(self).is_init() ==> (match r {
                Ok(_) => final(self).history() == old(self).history().push(
                    KeyValueStoreOperation::Clear,
                ) && final(self).model() == (Map::<Seq<u8>, V>::empty()),
                Err(_) => *final(self) == *old(self),
            }),
            r is Ok ==> final(self).history().len() > 0 && final(self).history().last() == (
            KeyValueStoreOperation::<K, V>::Clear) && final(self).model() == (Map::<
                Seq<u8>,
                V,
            >::empty()),
    {
        match self.init(journal) {
            Ok(()) => {}
            Err(e) => {
                return Err(e);
            }
        }
        self.do_oper(journal, KeyValueStoreOperation::Clear)
    }
}

/// Whether `cas` reads back the blob `o` at key `k`.
pub open spec fn obj_at_is(
    cas: Map<Seq<u8>, Seq<u8>>,
    k: Seq<u8>,
    o: crate::CASObjView,
) -> bool {
    crate::log::obj_at(cas, k) == Some(o)
}


/// Two maps agree up to the canonical encoding of their values.
pub open spec fn models_equiv<V: Codec>(m1: Map<Seq<u8>, V>, m2: Map<Seq<u8>, V>) -> bool {
    m1.dom() == m2.dom() && (forall|k: Seq<u8>|
        #[trigger] m1.contains_key(k) ==> m1[k].enc() == m2[k].enc())
}

/// An operation's encoding determines its shape: the variant, the key's
/// encoding and the value's encoding.
pub proof fn lemma_op_enc_determines<K: Codec, V: Codec>(
    op1: KeyValueStoreOperation<K, V>,
    op2: KeyValueStoreOperation<K, V>,
)
    requires
        op1.enc_ok(),
        op2.enc_ok(),
        op1.enc() == op2.enc(),
    ensures
        op1 is Insert ==> op2 is Insert && op1->Insert_key.enc() == op2->Insert_key.enc()
            && op1->Insert_value.enc() == op2->Insert_value.enc(),
        op1 is Remove ==> op2 is Remove && op1->Remove_key.enc() == op2->Remove_key.enc(),
        op1 is Clear ==> op2 is Clear,
{
    lemma_auto_spec_u64_to_from_le_bytes();
    let e = op1.enc();
    assert(e[0] == op2.enc()[0]);
    match op1 {
        KeyValueStoreOperation::Insert { key: k1, value: v1 } => {
            assert(e[0] == 1);
            assert(op2 is Insert);
            let k2 = op2->Insert_key;
            let v2 = op2->Insert_value;
            assert(e.subrange(1, 9) =~= spec_u64_to_le_bytes(k1.enc().len() as u64));
            assert(op2.enc().subrange(1, 9) =~= spec_u64_to_le_bytes(k2.enc().len() as u64));
            assert(k1.enc().len() == k2.enc().len());
            let l = k1.enc().len() as int;
            assert(k1.enc() =~= e.subrange(9, 9 + l));
            assert(k2.enc() =~= op2.enc().subrange(9, 9 + l));
            assert(v1.enc() =~= e.subrange(9 + l, e.len() as int));
            assert(v2.enc() =~= op2.enc().subrange(9 + l, op2.enc().len() as int));
        }
        KeyValueStoreOperation::Remove { key: k1 } => {
            assert(e[0] == 2);
            assert(op2 is Remove);
            let k2 = op2->Remove_key;
            assert(k1.enc() =~= e.subrange(1, e.len() as int));
            assert(k2.enc() =~= op2.enc().subrange(1, op2.enc().len() as int));
        }
        KeyValueStoreOperation::Clear => {
            assert(e[0] == 3);
            assert(op2 is Clear);
        }
    }
}

/// Law (log replay): replaying histories whose operations agree by
/// encoding builds maps that agree by encoding.
pub proof fn lemma_replay_equiv<K: Codec, V: Codec>(
    h1: Seq<KeyValueStoreOperation<K, V>>,
    h2: Seq<KeyValueStoreOperation<K, V>>,
)
    requires
        h1.len() == h2.len(),
        forall|i: int| 0 <= i < h1.len() ==> (#[trigger] h1[i]).enc() == h2[i].enc(),
        forall|i: int| 0 <= i < h1.len() ==> (#[trigger] h1[i]).enc_ok(),
        forall|i: int| 0 <= i < h2.len() ==> (#[trigger] h2[i]).enc_ok(),
    ensures
        models_equiv(replay(h1), replay(h2)),
    decreases h1.len(),
{
    if h1.len() == 0 {
        assert(replay(h1).dom() =~= replay(h2).dom());
    } else {
        lemma_replay_equiv(h1.drop_last(), h2.drop_last());
        let m1 = replay(h1.drop_last());
        let m2 = replay(h2.drop_last());
        let o1 = h1.last();
        let o2 = h2.last();
        assert(o1.enc() == o2.enc() && o1.enc_ok() && o2.enc_ok());
        lemma_op_enc_determines(o1, o2);
        match o1 {
            KeyValueStoreOperation::Insert { key: k1, value: v1 } => {
                let k2 = o2->Insert_key;
                let v2 = o2->Insert_value;
                assert(replay(h1) == m1.insert(k1.enc(), v1));
                assert(replay(h2) == m2.insert(k2.enc(), v2));
                assert(replay(h1).dom() =~= replay(h2).dom());
                assert forall|k: Seq<u8>| #[trigger] replay(h1).contains_key(k) implies replay(
                    h1,
                )[k].enc() == replay(h2)[k].enc() by {
                    if k != k1.enc() {
                        assert(m1.contains_key(k));
                    }
                }
            }
            KeyValueStoreOperation::Remove { key: k1 } => {
                let k2 = o2->Remove_key;
                assert(replay(h1).dom() =~= replay(h2).dom());
                assert forall|k: Seq<u8>| #[trigger] replay(h1).contains_key(k) implies replay(
                    h1,
                )[k].enc() == replay(h2)[k].enc() by {
                    assert(m1.contains_key(k));
                }
            }
            KeyValueStoreOperation::Clear => {
                assert(replay(h1).dom() =~= replay(h2).dom());
            }
        }
    }
}

/// Law (log replay, end to end): two initialized stores that read the
/// same resolving log out of the same CAS agree: their models bind the
/// same keys to values with the same canonical encodings. In particular,
/// a store serialized, deserialized and re-initialized from its log head
/// rebuilds its map.
pub proof fn lemma_replay_agrees<K: Codec, V: Codec>(
    s1: KeyValueStore<K, V>,
    s2: KeyValueStore<K, V>,
    cas: Map<Seq<u8>, Seq<u8>>,
    fuel: nat,
)
    requires
        s1.wf(),
        s2.wf(),
        s1.is_init(),
        s2.is_init(),
        s1.linked(cas),
        s2.linked(cas),
        s1.log_head() == s2.log_head(),
        chain_nodes(cas, s1.log_head(), fuel) is Some,
    ensures
        models_equiv(s1.model(), s2.model()),
{
    let s = chain_nodes(cas, s1.log_head(), fuel).unwrap();
    assert(s1.history().len() == s.len());
    assert(s2.history().len() == s.len());
    assert forall|i: int| 0 <= i < s1.history().len() implies (#[trigger] s1.history()[i]).enc()
        == s2.history()[i].enc() by {
        assert(s[s.len() - 1 - i].1 == s1.history()[s.len() - 1 - (s.len() - 1 - i)].enc());
        assert(s[s.len() - 1 - i].1 == s2.history()[s.len() - 1 - (s.len() - 1 - i)].enc());
    }
    lemma_replay_equiv(s1.history(), s2.history());
}

/// Removing the table entry at a position removes exactly its binding
/// from a matching map.
proof fn lemma_entries_remove<K: Codec, V: Codec>(s: Seq<(K, V)>, m: Map<Seq<u8>, V>, i: int)
    requires
        entries_match(s, m),
        0 <= i < s.len(),
    ensures
        entries_match(s.remove(i), m.remove(s[i].0.enc())),
{
    let s2 = s.remove(i);
    let m2 = m.remove(s[i].0.enc());
    assert forall|j: int| 0 <= j < s2.len() implies m2.contains_pair(
        ((#[trigger] s2[j]).0).enc(),
        s2[j].1,
    ) by {
        let oj = if j < i {
            j
        } else {
            j + 1
        };
        assert(s2[j] == s[oj]);
        assert(m.contains_pair(s[oj].0.enc(), s[oj].1));
        assert(s[oj].0.enc() != s[i].0.enc());
    }
    assert forall|k: Seq<u8>| #[trigger] m2.contains_key(k) implies exists|j: int|
        0 <= j < s2.len() && (#[trigger] s2[j]).0.enc() == k by {
        assert(m.contains_key(k));
        let oj = choose|oj: int| 0 <= oj < s.len() && (#[trigger] s[oj]).0.enc() == k;
        assert(oj != i);
        let nj = if oj < i {
            oj
        } else {
            oj - 1
        };
        assert(s2[nj] == s[oj]);
    }
    assert forall|a: int, b: int| 0 <= a < b < s2.len() implies ((#[trigger] s2[a]).0).enc() != ((
    #[trigger] s2[b]).0).enc() by {
        let oa = if a < i {
            a
        } else {
            a + 1
        };
        let ob = if b < i {
            b
        } else {
            b + 1
        };
        assert(s2[a] == s[oa] && s2[b] == s[ob]);
    }
    assert forall|j: int| 0 <= j < s2.len() implies ((#[trigger] s2[j]).0).enc_ok() by {
        let oj = if j < i {
            j
        } else {
            j + 1
        };
        assert(s2[j] == s[oj]);
    }
}

/// Appending a pair whose key the table lacks adds exactly its binding
/// to a matching map.
proof fn lemma_entries_insert<K: Codec, V: Codec>(s: Seq<(K, V)>, m: Map<Seq<u8>, V>, key: K, value: V)
    requires
        entries_match(s, m),
        !m.contains_key(key.enc()),
        key.enc_ok(),
    ensures
        entries_match(s.push((key, value)), m.insert(key.enc(), value)),
{
    let s2 = s.push((key, value));
    let m2 = m.insert(key.enc(), value);
    assert forall|j: int| 0 <= j < s2.len() implies m2.contains_pair(
        ((#[trigger] s2[j]).0).enc(),
        s2[j].1,
    ) by {
        if j < s.len() {
            assert(s2[j] == s[j]);
            assert(m.contains_pair(s[j].0.enc(), s[j].1));
            assert(s[j].0.enc() != key.enc());
        } else {
            assert(s2[j] == (key, value));
        }
    }
    assert forall|k: Seq<u8>| #[trigger] m2.contains_key(k) implies exists|j: int|
        0 <= j < s2.len() && (#[trigger] s2[j]).0.enc() == k by {
        if k == key.enc() {
            assert(s2[s.len() as int].0.enc() == k);
        } else {
            let oj = choose|oj: int| 0 <= oj < s.len() && (#[trigger] s[oj]).0.enc() == k;
            assert(s2[oj].0.enc() == k);
        }
    }
    assert forall|a: int, b: int| 0 <= a < b < s2.len() implies ((#[trigger] s2[a]).0).enc() != ((
    #[trigger] s2[b]).0).enc() by {
        if b == s.len() {
            assert(s2[a] == s[a]);
            assert(m.contains_pair(s[a].0.enc(), s[a].1));
        } else {
            assert(s2[a] == s[a] && s2[b] == s[b]);
        }
    }
    assert forall|j: int| 0 <= j < s2.len() implies ((#[trigger] s2[j]).0).enc_ok() by {
        if j < s.len() {
            assert(s2[j] == s[j]);
        }
    }
}

} // verus!
