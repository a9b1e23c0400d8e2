//! The persistent log: a functional singly-linked list stored entirely in
//! the CAS.
//!
//! A node is one CAS blob whose payload is the encoded element and whose
//! link list holds the parent node's key (empty at the root). A log value
//! is just the head key; pushing stores one new node and returns a new
//! log, leaving the old one untouched.
//!
//! The chain model below reads such a list out of the logical cas table:
//! `chain_nodes` resolves the keys and payloads from a head back to the
//! root, with a fuel bound for the recursion. A resolving chain never
//! repeats a key, since each key determines its whole tail.

use vstd::prelude::*;
use core::marker::PhantomData;
use crate::encode::Codec;
use crate::journal::{cas_key_of, cas_obj_enc, stores_cas_obj, SqliteJournal};
use crate::{CASKey, CASObj, CASObjView, JournalError};

verus! {

/// Bytes read back as a CAS object, when they are a canonical blob
/// serialization.
pub open spec fn obj_of_bytes(bytes: Seq<u8>) -> Option<CASObjView> {
    if exists|q: CASObjView| crate::codec::all_len_32(q.links) && bytes == cas_obj_enc(q) {
        Some(choose|q: CASObjView| crate::codec::all_len_32(q.links) && bytes == cas_obj_enc(q))
    } else {
        None
    }
}

/// The blob stored at a key, read as a CAS object, when the stored bytes
/// are a canonical blob serialization.
pub open spec fn obj_at(cas: Map<Seq<u8>, Seq<u8>>, k: Seq<u8>) -> Option<CASObjView> {
    if cas.contains_key(k) {
        obj_of_bytes(cas[k])
    } else {
        None
    }
}

/// The keys and payloads of the node chain from `head` back to the root,
/// head first. Resolves only when every node is present, decodes, and
/// carries at most one link; `fuel` bounds the depth.
pub open spec fn chain_nodes(cas: Map<Seq<u8>, Seq<u8>>, head: Option<Seq<u8>>, fuel: nat)
    -> Option<Seq<(Seq<u8>, Seq<u8>)>>
    decreases fuel,
{
    match head {
        None => Some(Seq::empty()),
        Some(k) => {
            if fuel == 0 {
                None
            } else {
                match obj_at(cas, k) {
                    None => None,
                    Some(o) => {
                        if o.links.len() > 1 {
                            None
                        } else {
                            let parent = if o.links.len() == 1 {
                                Some(o.links[0])
                            } else {
                                None
                            };
                            match chain_nodes(cas, parent, (fuel - 1) as nat) {
                                None => None,
                                Some(rest) => Some(seq![(k, o.data)] + rest),
                            }
                        }
                    }
                }
            }
        }
    }
}

/// Whether the log at `head` resolves at all.
pub open spec fn log_wf(cas: Map<Seq<u8>, Seq<u8>>, head: Option<Seq<u8>>) -> bool {
    exists|fuel: nat| chain_nodes(cas, head, fuel) is Some
}

/// More fuel never changes a resolving chain.
pub proof fn lemma_chain_fuel_mono(
    cas: Map<Seq<u8>, Seq<u8>>,
    head: Option<Seq<u8>>,
    n1: nat,
    n2: nat,
)
    requires
        n1 <= n2,
        chain_nodes(cas, head, n1) is Some,
    ensures
        chain_nodes(cas, head, n2) == chain_nodes(cas, head, n1),
    decreases n1,
{
    match head {
        None => {}
        Some(k) => {
            let o = obj_at(cas, k).unwrap();
            let parent = if o.links.len() == 1 {
                Some(o.links[0])
            } else {
                None
            };
            lemma_chain_fuel_mono(cas, parent, (n1 - 1) as nat, (n2 - 1) as nat);
        }
    }
}

/// Any two resolutions of the same chain are equal.
pub proof fn lemma_chain_unique(
    cas: Map<Seq<u8>, Seq<u8>>,
    head: Option<Seq<u8>>,
    n1: nat,
    n2: nat,
)
    requires
        chain_nodes(cas, head, n1) is Some,
        chain_nodes(cas, head, n2) is Some,
    ensures
        chain_nodes(cas, head, n1) == chain_nodes(cas, head, n2),
{
    if n1 <= n2 {
        lemma_chain_fuel_mono(cas, head, n1, n2);
    } else {
        lemma_chain_fuel_mono(cas, head, n2, n1);
    }
}

/// Every position of a resolving chain starts a resolving chain of its
/// own: the corresponding suffix.
pub proof fn lemma_chain_suffix(
    cas: Map<Seq<u8>, Seq<u8>>,
    head: Option<Seq<u8>>,
    fuel: nat,
    i: int,
)
    requires
        chain_nodes(cas, head, fuel) is Some,
        0 <= i < chain_nodes(cas, head, fuel).unwrap().len(),
    ensures
        ({
            let s = chain_nodes(cas, head, fuel).unwrap();
            chain_nodes(cas, Some(s[i].0), fuel) == Some(s.subrange(i, s.len() as int))
        }),
    decreases i,
{
    let s = chain_nodes(cas, head, fuel).unwrap();
    let k = head.unwrap();
    let o = obj_at(cas, k).unwrap();
    let parent = if o.links.len() == 1 {
        Some(o.links[0])
    } else {
        None
    };
    let rest = chain_nodes(cas, parent, (fuel - 1) as nat).unwrap();
    if i == 0 {
        assert(s[0].0 == k);
        assert(s.subrange(0, s.len() as int) =~= s);
    } else {
        assert(rest.len() == s.len() - 1);
        assert(forall|j: int| 0 <= j < rest.len() ==> s[j + 1] == rest[j]);
        lemma_chain_suffix(cas, parent, (fuel - 1) as nat, i - 1);
        assert(chain_nodes(cas, Some(rest[i - 1].0), (fuel - 1) as nat) == Some(
            rest.subrange(i - 1, rest.len() as int),
        ));
        lemma_chain_fuel_mono(cas, Some(rest[i - 1].0), (fuel - 1) as nat, fuel);
        assert(rest[i - 1].0 == s[i].0);
        assert(rest.subrange(i - 1, rest.len() as int) =~= s.subrange(i, s.len() as int));
    }
}

/// A resolving chain visits stored keys and never repeats one.
pub proof fn lemma_chain_no_dup(cas: Map<Seq<u8>, Seq<u8>>, head: Option<Seq<u8>>, fuel: nat)
    requires
        chain_nodes(cas, head, fuel) is Some,
    ensures
        ({
            let s = chain_nodes(cas, head, fuel).unwrap();
            &&& forall|i: int| 0 <= i < s.len() ==> cas.contains_key((#[trigger] s[i]).0)
            &&& forall|i: int, j: int| 0 <= i < j < s.len() ==> (#[trigger] s[i]).0 != (
            #[trigger] s[j]).0
        }),
{
    let s = chain_nodes(cas, head, fuel).unwrap();
    assert forall|i: int| 0 <= i < s.len() implies cas.contains_key((#[trigger] s[i]).0) by {
        lemma_chain_suffix(cas, head, fuel, i);
        assert(obj_at(cas, s[i].0) is Some);
    }
    assert forall|i: int, j: int| 0 <= i < j < s.len() implies (#[trigger] s[i]).0 != (
    #[trigger] s[j]).0 by {
        if s[i].0 == s[j].0 {
            lemma_chain_suffix(cas, head, fuel, i);
            lemma_chain_suffix(cas, head, fuel, j);
            assert(chain_nodes(cas, Some(s[i].0), fuel).unwrap().len() == s.len() - i);
            assert(chain_nodes(cas, Some(s[j].0), fuel).unwrap().len() == s.len() - j);
        }
    }
}

/// Growing the store preserves every chain it could already resolve.
pub proof fn lemma_chain_submap(
    cas1: Map<Seq<u8>, Seq<u8>>,
    cas2: Map<Seq<u8>, Seq<u8>>,
    head: Option<Seq<u8>>,
    fuel: nat,
)
    requires
        cas1.submap_of(cas2),
        chain_nodes(cas1, head, fuel) is Some,
    ensures
        chain_nodes(cas2, head, fuel) == chain_nodes(cas1, head, fuel),
    decreases fuel,
{
    match head {
        None => {}
        Some(k) => {
            let o = obj_at(cas1, k).unwrap();
            assert(cas1.dom().contains(k));
            assert(cas2.dom().contains(k) && cas1[k] == cas2[k]);
            assert(obj_at(cas2, k) == obj_at(cas1, k));
            let parent = if o.links.len() == 1 {
                Some(o.links[0])
            } else {
                None
            };
            lemma_chain_submap(cas1, cas2, parent, (fuel - 1) as nat);
        }
    }
}

/// Law (persistent log immutability): a push stores one new blob under a
/// key the store either lacked or already bound to those very bytes, so
/// every chain the store could already resolve — every older log value —
/// reads back unchanged.
pub proof fn lemma_push_preserves_chain(
    cas1: Map<Seq<u8>, Seq<u8>>,
    cas2: Map<Seq<u8>, Seq<u8>>,
    kk: Seq<u8>,
    v: Seq<u8>,
    head: Option<Seq<u8>>,
    fuel: nat,
)
    requires
        cas2 == (if cas1.contains_key(kk) {
            cas1
        } else {
            cas1.insert(kk, v)
        }),
        chain_nodes(cas1, head, fuel) is Some,
    ensures
        chain_nodes(cas2, head, fuel) == chain_nodes(cas1, head, fuel),
{
    assert(cas1.submap_of(cas2));
    lemma_chain_submap(cas1, cas2, head, fuel);
}

/// A chain is never longer than the fuel that resolved it.
pub proof fn lemma_chain_len_le_fuel(cas: Map<Seq<u8>, Seq<u8>>, head: Option<Seq<u8>>, fuel: nat)
    requires
        chain_nodes(cas, head, fuel) is Some,
    ensures
        chain_nodes(cas, head, fuel).unwrap().len() <= fuel,
    decreases fuel,
{
    match head {
        None => {}
        Some(k) => {
            let o = obj_at(cas, k).unwrap();
            let parent = if o.links.len() == 1 {
                Some(o.links[0])
            } else {
                None
            };
            lemma_chain_len_le_fuel(cas, parent, (fuel - 1) as nat);
        }
    }
}

/// A sequence of distinct keys drawn from a finite map is no longer than
/// the map.
pub proof fn lemma_distinct_keys_bound(s: Seq<Seq<u8>>, m: Map<Seq<u8>, Seq<u8>>)
    requires
        m.dom().finite(),
        forall|i: int| 0 <= i < s.len() ==> m.contains_key(#[trigger] s[i]),
        forall|i: int, j: int| 0 <= i < j < s.len() ==> #[trigger] s[i] != #[trigger] s[j],
    ensures
        s.len() <= m.len(),
    decreases s.len(),
{
    if s.len() > 0 {
        let k = s[0];
        let m2 = m.remove(k);
        let s2 = s.subrange(1, s.len() as int);
        assert forall|i: int| 0 <= i < s2.len() implies m2.contains_key(#[trigger] s2[i]) by {
            assert(s2[i] == s[i + 1]);
            assert(s[i + 1] != s[0]);
        }
        assert forall|i: int, j: int| 0 <= i < j < s2.len() implies #[trigger] s2[i]
            != #[trigger] s2[j] by {
            assert(s2[i] == s[i + 1] && s2[j] == s[j + 1]);
        }
        lemma_distinct_keys_bound(s2, m2);
        assert(m2.dom() =~= m.dom().remove(k));
        vstd::set::axiom_set_remove_len(m.dom(), k);
        assert(m2.len() == m.len() - 1);
    }
}

/// Stitching one resolved node onto a walked prefix: if every chain from
/// `k` extends the prefix to a chain from `start`, the same holds of the
/// node's parent with the prefix grown by the node.
proof fn lemma_walk_stitch(
    cas: Map<Seq<u8>, Seq<u8>>,
    start: Option<Seq<u8>>,
    prefix: Seq<(Seq<u8>, Seq<u8>)>,
    k: Seq<u8>,
    o: CASObjView,
    nextv: Option<Seq<u8>>,
)
    requires
        obj_at(cas, k) == Some(o),
        o.links.len() <= 1,
        nextv == (if o.links.len() == 1 {
            Some(o.links[0])
        } else {
            None::<Seq<u8>>
        }),
        forall|f: nat|
            (#[trigger] chain_nodes(cas, Some(k), f)) is Some ==> chain_nodes(
                cas,
                start,
                f + prefix.len(),
            ) == Some(prefix + chain_nodes(cas, Some(k), f).unwrap()),
    ensures
        forall|f: nat|
            (#[trigger] chain_nodes(cas, nextv, f)) is Some ==> chain_nodes(
                cas,
                start,
                f + prefix.push((k, o.data)).len(),
            ) == Some(prefix.push((k, o.data)) + chain_nodes(cas, nextv, f).unwrap()),
{
    let prefix2 = prefix.push((k, o.data));
    assert forall|f: nat| (#[trigger] chain_nodes(cas, nextv, f)) is Some implies chain_nodes(
        cas,
        start,
        f + prefix2.len(),
    ) == Some(prefix2 + chain_nodes(cas, nextv, f).unwrap()) by {
        let t2 = chain_nodes(cas, nextv, f).unwrap();
        assert(chain_nodes(cas, Some(k), f + 1) == Some(seq![(k, o.data)] + t2));
        assert(chain_nodes(cas, start, (f + 1) + prefix.len()) == Some(
            prefix + (seq![(k, o.data)] + t2),
        ));
        assert(prefix + (seq![(k, o.data)] + t2) =~= prefix2 + t2);
    }
}

/// Advancing the walker over one resolved node: every resolving chain's
/// suffix at the walker's position starts with exactly that node, and
/// the position moves to the node's parent.
proof fn lemma_walk_advance(
    cas: Map<Seq<u8>, Seq<u8>>,
    start: Option<Seq<u8>>,
    p: nat,
    k: Seq<u8>,
    o: CASObjView,
    nextv: Option<Seq<u8>>,
)
    requires
        obj_at(cas, k) == Some(o),
        o.links.len() <= 1,
        nextv == (if o.links.len() == 1 {
            Some(o.links[0])
        } else {
            None::<Seq<u8>>
        }),
        forall|fuel: nat|
            (#[trigger] chain_nodes(cas, start, fuel)) is Some ==> ({
                let s = chain_nodes(cas, start, fuel).unwrap();
                &&& p <= s.len()
                &&& s.len() <= fuel
                &&& chain_nodes(cas, Some(k), (fuel - p) as nat) == Some(
                    s.subrange(p as int, s.len() as int),
                )
            }),
    ensures
        forall|fuel: nat|
            (#[trigger] chain_nodes(cas, start, fuel)) is Some ==> ({
                let s = chain_nodes(cas, start, fuel).unwrap();
                &&& p + 1 <= s.len()
                &&& s.len() <= fuel
                &&& chain_nodes(cas, nextv, (fuel - (p + 1)) as nat) == Some(
                    s.subrange(p as int + 1, s.len() as int),
                )
                &&& s[p as int] == (k, o.data)
                &&& (p + 1 < s.len() ==> nextv == Some(s[p as int + 1].0))
                &&& (p + 1 == s.len() ==> nextv is None)
            }),
{
    assert forall|fuel: nat| (#[trigger] chain_nodes(cas, start, fuel)) is Some implies ({
        let s = chain_nodes(cas, start, fuel).unwrap();
        &&& p + 1 <= s.len()
        &&& s.len() <= fuel
        &&& chain_nodes(cas, nextv, (fuel - (p + 1)) as nat) == Some(
            s.subrange(p as int + 1, s.len() as int),
        )
        &&& s[p as int] == (k, o.data)
        &&& (p + 1 < s.len() ==> nextv == Some(s[p as int + 1].0))
        &&& (p + 1 == s.len() ==> nextv is None)
    }) by {
        let s = chain_nodes(cas, start, fuel).unwrap();
        let tail = chain_nodes(cas, Some(k), (fuel - p) as nat).unwrap();
        assert(tail == s.subrange(p as int, s.len() as int));
        assert(tail.len() > 0);
        let rest = chain_nodes(cas, nextv, (fuel - p - 1) as nat).unwrap();
        assert(tail == seq![(k, o.data)] + rest);
        assert(rest.len() == tail.len() - 1);
        assert(forall|i: int| 0 <= i < rest.len() ==> rest[i] == tail[i + 1]);
        assert(forall|i: int|
            0 <= i < tail.len() ==> tail[i] == s.subrange(p as int, s.len() as int)[i]);
        assert(rest =~= s.subrange(p as int + 1, s.len() as int));
        assert(tail[0] == (k, o.data));
        assert(tail[0] == s.subrange(p as int, s.len() as int)[0]);
        assert(s.subrange(p as int, s.len() as int)[0] == s[p as int]);
        if rest.len() > 0 {
            assert(rest[0].0 == s[p as int + 1].0);
        }
    }
}

/// A walker standing at a node the store cannot resolve — absent, or
/// carrying more than one link — stands on no decodable log.
proof fn lemma_walk_blocked_node<T: Codec>(
    cas: Map<Seq<u8>, Seq<u8>>,
    start: Option<Seq<u8>>,
    p: nat,
    k: Seq<u8>,
)
    requires
        obj_at(cas, k) is None || obj_at(cas, k).unwrap().links.len() > 1,
        forall|fuel: nat|
            (#[trigger] chain_nodes(cas, start, fuel)) is Some ==> ({
                let s = chain_nodes(cas, start, fuel).unwrap();
                &&& p <= s.len()
                &&& s.len() <= fuel
                &&& chain_nodes(cas, Some(k), (fuel - p) as nat) == Some(
                    s.subrange(p as int, s.len() as int),
                )
            }),
    ensures
        !decodable_log::<T>(cas, start),
{
    if decodable_log::<T>(cas, start) {
        let fuel = choose|fuel: nat|
            (#[trigger] chain_nodes(cas, start, fuel)) matches Some(s)
                && payloads_decodable::<T>(s);
        assert(chain_nodes(cas, Some(k), (fuel - p) as nat) is Some);
    }
}

/// A walker standing at a resolved node whose payload decodes as no `T`
/// value stands on no decodable log.
proof fn lemma_walk_blocked_payload<T: Codec>(
    cas: Map<Seq<u8>, Seq<u8>>,
    start: Option<Seq<u8>>,
    p: nat,
    k: Seq<u8>,
    o: CASObjView,
)
    requires
        obj_at(cas, k) == Some(o),
        forall|v: T| !(v.enc_ok() && v.enc() == o.data),
        forall|fuel: nat|
            (#[trigger] chain_nodes(cas, start, fuel)) is Some ==> ({
                let s = chain_nodes(cas, start, fuel).unwrap();
                &&& p <= s.len()
                &&& s.len() <= fuel
                &&& chain_nodes(cas, Some(k), (fuel - p) as nat) == Some(
                    s.subrange(p as int, s.len() as int),
                )
            }),
    ensures
        !decodable_log::<T>(cas, start),
{
    if decodable_log::<T>(cas, start) {
        let fuel = choose|fuel: nat|
            (#[trigger] chain_nodes(cas, start, fuel)) matches Some(s)
                && payloads_decodable::<T>(s);
        let s = chain_nodes(cas, start, fuel).unwrap();
        let tail = chain_nodes(cas, Some(k), (fuel - p) as nat).unwrap();
        assert(tail == s.subrange(p as int, s.len() as int));
        assert(tail.len() > 0);
        assert(tail[0] == s.subrange(p as int, s.len() as int)[0]);
        assert(s.subrange(p as int, s.len() as int)[0] == s[p as int]);
        assert(s[p as int].1 == o.data);
        assert(exists|v: T| v.enc_ok() && v.enc() == s[p as int].1);
    }
}

/// A walker that has stepped as many times as the store holds rows and
/// still stands at a node is caught in a cycle: no decodable log allows
/// it, since a resolving chain never repeats a key.
proof fn lemma_walk_blocked_budget<T: Codec>(
    cas: Map<Seq<u8>, Seq<u8>>,
    start: Option<Seq<u8>>,
    p: nat,
    k: Seq<u8>,
    n: nat,
)
    requires
        cas.dom().finite(),
        n == cas.len(),
        p >= n,
        forall|fuel: nat|
            (#[trigger] chain_nodes(cas, start, fuel)) is Some ==> ({
                let s = chain_nodes(cas, start, fuel).unwrap();
                &&& p <= s.len()
                &&& s.len() <= fuel
                &&& chain_nodes(cas, Some(k), (fuel - p) as nat) == Some(
                    s.subrange(p as int, s.len() as int),
                )
            }),
    ensures
        !decodable_log::<T>(cas, start),
{
    if decodable_log::<T>(cas, start) {
        let fuel = choose|fuel: nat|
            (#[trigger] chain_nodes(cas, start, fuel)) matches Some(s)
                && payloads_decodable::<T>(s);
        let s = chain_nodes(cas, start, fuel).unwrap();
        lemma_chain_no_dup(cas, start, fuel);
        let keys = Seq::new(s.len(), |i: int| s[i].0);
        assert(forall|i: int| 0 <= i < keys.len() ==> cas.contains_key(#[trigger] keys[i]));
        assert(forall|i: int, j: int|
            0 <= i < j < keys.len() ==> #[trigger] keys[i] != #[trigger] keys[j]);
        lemma_distinct_keys_bound(keys, cas);
        assert(s.len() <= n);
        let tail = chain_nodes(cas, Some(k), (fuel - p) as nat).unwrap();
        assert(tail.len() > 0);
        assert(p < s.len());
    }
}

/// Whether every payload of a chain decodes as a `T`.
pub open spec fn payloads_decodable<T: Codec>(s: Seq<(Seq<u8>, Seq<u8>)>) -> bool {
    forall|i: int|
        0 <= i < s.len() ==> exists|v: T| v.enc_ok() && v.enc() == (#[trigger] s[i]).1
}

/// Whether the log at `head` resolves and every payload decodes as a
/// `T`.
pub open spec fn decodable_log<T: Codec>(cas: Map<Seq<u8>, Seq<u8>>, head: Option<Seq<u8>>)
    -> bool {
    exists|fuel: nat|
        (#[trigger] chain_nodes(cas, head, fuel)) matches Some(s) && payloads_decodable::<T>(s)
}

/// The blob a log node is stored as: the encoded element as payload and
/// the parent key, if any, as the single link.
pub open spec fn node_view(parent: Option<Seq<u8>>, payload: Seq<u8>) -> CASObjView {
    CASObjView {
        links: match parent {
            None => Seq::empty(),
            Some(k) => seq![k],
        },
        data: payload,
    }
}

/// The head key of an optional CAS key.
pub open spec fn key_view(c: Option<CASKey>) -> Option<Seq<u8>> {
    match c {
        None => None,
        Some(k) => Some(k@),
    }
}

/// A node of the log, read back: the element and the key of the parent
/// node, if any.
#[derive(Debug)]
pub struct Node<T> {
    pub parent: Option<CASKey>,
    pub data: T,
}

/// A persistent log of `T` values in the CAS: only the head key is held;
/// pushing writes one node and returns a new log, leaving every older
/// log value intact.
pub struct Log<T> {
    head: Option<CASKey>,
    _marker: PhantomData<T>,
}

impl<T> View for Log<T> {
    type V = Option<Seq<u8>>;

    closed spec fn view(&self) -> Option<Seq<u8>> {
        key_view(self.head)
    }
}

impl<T: Codec> Default for Log<T> {
    /// The empty log.
    fn default() -> (r: Self)
        ensures
            r@ == None::<Seq<u8>>,
    {
        Log::new()
    }
}

impl<T> Clone for Log<T> {
    fn clone(&self) -> (r: Self)
        ensures
            r@ == self@,
    {
        Log { head: self.head, _marker: PhantomData }
    }
}

impl<T: Codec> Log<T> {
    /// The empty log.
    pub fn new() -> (r: Self)
        ensures
            r@ == None::<Seq<u8>>,
    {
        Log { head: None, _marker: PhantomData }
    }

    /// The key of the head node, if any.
    pub fn head_key(&self) -> (r: Option<CASKey>)
        ensures
            key_view(r) == self@,
    {
        self.head
    }

    /// A log resuming from a stored head key.
    pub fn from_head(head: Option<CASKey>) -> (r: Self)
        ensures
            r@ == key_view(head),
    {
        Log { head, _marker: PhantomData }
    }

    /// Stores one node holding the element, linked to the previous head,
    /// and returns the log ending at the new node. The log this was
    /// called on is not touched.
    pub fn push(&self, j: &mut SqliteJournal, data: &T) -> (r: Result<Log<T>, JournalError>)
        ensures
            (match r {
                Ok(l2) => ({
                    let o = node_view(self@, data.enc());
                    let kk = cas_key_of(o);
                    &&& data.enc_ok()
                    &&& l2@ == Some(kk)
                    &&& final(j).cas_map() == (if old(j).cas_map().contains_key(kk) {
                        old(j).cas_map()
                    } else {
                        old(j).cas_map().insert(kk, cas_obj_enc(o))
                    })
                    &&& ((old(j).cas_map().contains_key(kk) ==> old(j).cas_map()[kk]
                        == cas_obj_enc(o)) ==> obj_at(final(j).cas_map(), kk) == Some(o))
                }),
                Err(_) => final(j).cas_map() == old(j).cas_map(),
            }),
            final(j).entries_map() == old(j).entries_map(),
            final(j).heads_map() == old(j).heads_map(),
            final(j).settings_map() == old(j).settings_map(),
            final(j).same_device(*old(j)),
    {
        broadcast use vstd::array::group_array_axioms;

        let ghost o = node_view(self@, data.enc());
        let payload = data.encode();
        let mut links: Vec<CASKey> = Vec::new();
        let mut links_arr: Vec<[u8; 32]> = Vec::new();
        if let Some(k) = self.head {
            links.push(k);
            links_arr.push(k.0);
        }
        proof {
            assert(links@.map_values(|k: CASKey| k@) =~~= o.links);
            assert(links_arr.deep_view() =~~= o.links);
            assert(crate::codec::all_len_32(o.links));
        }
        let enc = crate::codec::cas_cbor_encode(&links_arr, &payload);
        assert(enc@ == cas_obj_enc(o));
        // Decoding the bytes just encoded is a canonicity self-check: its
        // contract pins every reading of these bytes to this node, which
        // is what lets the store's view at the new key be stated below.
        let harvested = crate::codec::cas_cbor_decode(enc.as_slice());
        let pinned = match harvested {
            Some(v) => v,
            None => {
                // Decoding a freshly encoded blob cannot fail.
                proof {
                    assert(false);
                }
                return Err(JournalError::CorruptCasObject);
            }
        };
        let key = match j.cas_put(CASObj { links, data: payload }) {
            Ok(k) => k,
            Err(e) => {
                return Err(e);
            }
        };
        proof {
            let kk = cas_key_of(o);
            if old(j).cas_map().contains_key(kk) ==> old(j).cas_map()[kk] == cas_obj_enc(o) {
                assert(j.cas_map().contains_key(kk));
                assert(j.cas_map()[kk] == cas_obj_enc(o));
                assert(obj_at(j.cas_map(), kk) is Some);
                let q = obj_at(j.cas_map(), kk).unwrap();
                assert(crate::codec::all_len_32(q.links) && enc@ == cas_obj_enc(q));
                assert(pinned.0.deep_view() == q.links && pinned.1@ == q.data);
                assert(pinned.0.deep_view() == o.links && pinned.1@ == o.data);
                assert(q =~= o);
            }
        }
        Ok(Log { head: Some(key), _marker: PhantomData })
    }

    /// Streams the nodes from the head back to the root: each element
    /// together with its parent's key. Succeeds exactly when the stored
    /// chain resolves and every payload decodes; a missing or malformed
    /// node, a payload that does not decode, and a chain that cannot end
    /// all fail.
    pub fn walk_back(&self, j: &SqliteJournal) -> (r: Result<Vec<Node<T>>, JournalError>)
        ensures
            r matches Ok(vs) ==> (forall|i: int|
                0 <= i < vs@.len() ==> (#[trigger] vs@[i]).data.enc_ok()),
            r matches Ok(vs) ==> log_wf(j.cas_map(), self@),
            (match r {
                Ok(vs) => forall|fuel: nat|
                    (#[trigger] chain_nodes(j.cas_map(), self@, fuel)) is Some ==> ({
                        let s = chain_nodes(j.cas_map(), self@, fuel).unwrap();
                        vs@.len() == s.len() && (forall|i: int|
                            0 <= i < s.len() ==> ((#[trigger] vs@[i]).data.enc() == s[i].1
                                && vs@[i].data.enc_ok() && key_view(vs@[i].parent) == (if i + 1
                                < s.len() {
                                Some(s[i + 1].0)
                            } else {
                                None
                            })))
                    }),
                Err(er) => er == JournalError::Backend || !decodable_log::<T>(
                    j.cas_map(),
                    self@,
                ),
            }),
    {
        let ids = match j.cas_list() {
            Ok(v) => v,
            Err(_) => {
                return Err(JournalError::Backend);
            }
        };
        let n = ids.len();
        let ghost cas = j.cas_map();
        let ghost start = self@;
        let mut out: Vec<Node<T>> = Vec::new();
        let mut curr: Option<CASKey> = self.head;
        let mut budget = n;
        let ghost mut prefix: Seq<(Seq<u8>, Seq<u8>)> = Seq::empty();
        proof {
            assert forall|fuel: nat| (#[trigger] chain_nodes(cas, start, fuel)) is Some implies ({
                let s = chain_nodes(cas, start, fuel).unwrap();
                s.len() <= fuel && chain_nodes(cas, key_view(curr), fuel) == Some(
                    s.subrange(0, s.len() as int),
                )
            }) by {
                let s = chain_nodes(cas, start, fuel).unwrap();
                lemma_chain_len_le_fuel(cas, start, fuel);
                assert(key_view(curr) == start);
                assert(s.subrange(0, s.len() as int) =~= s);
            }
            assert forall|f: nat| (#[trigger] chain_nodes(cas, key_view(curr), f)) is Some
                implies chain_nodes(cas, start, f + prefix.len()) == Some(
                prefix + chain_nodes(cas, key_view(curr), f).unwrap(),
            ) by {
                assert(prefix + chain_nodes(cas, key_view(curr), f).unwrap() =~= chain_nodes(
                    cas,
                    key_view(curr),
                    f,
                ).unwrap());
            }
        }
        while curr.is_some()
            invariant
                budget + out@.len() == n,
                cas == j.cas_map(),
                start == self@,
                cas.dom().finite(),
                n == cas.len(),
                forall|i: int| 0 <= i < out@.len() ==> (#[trigger] out@[i]).data.enc_ok(),
                forall|f: nat|
                    (#[trigger] chain_nodes(cas, key_view(curr), f)) is Some ==> chain_nodes(
                        cas,
                        start,
                        f + prefix.len(),
                    ) == Some(prefix + chain_nodes(cas, key_view(curr), f).unwrap()),
                forall|fuel: nat|
                    (#[trigger] chain_nodes(cas, start, fuel)) is Some ==> ({
                        let s = chain_nodes(cas, start, fuel).unwrap();
                        &&& out@.len() <= s.len()
                        &&& s.len() <= fuel
                        &&& chain_nodes(cas, key_view(curr), (fuel - out@.len()) as nat) == Some(
                            s.subrange(out@.len() as int, s.len() as int),
                        )
                        &&& (forall|i: int|
                            0 <= i < out@.len() ==> ((#[trigger] out@[i]).data.enc() == s[i].1
                                && out@[i].data.enc_ok() && key_view(out@[i].parent) == (if i + 1
                                < s.len() {
                                Some(s[i + 1].0)
                            } else {
                                None
                            })))
                    }),
            decreases budget,
        {
            let k = curr.unwrap();
            let ghost p = out@.len() as int;
            if budget == 0 {
                proof {
                    lemma_walk_blocked_budget::<T>(cas, start, p as nat, k@, n as nat);
                }
                return Err(JournalError::CorruptCasObject);
            }
            budget = budget - 1;
            let got = match j.cas_get_canonical(k) {
                Ok(v) => v,
                Err(e) => {
                    proof {
                        if e != JournalError::Backend {
                            lemma_walk_blocked_node::<T>(cas, start, p as nat, k@);
                        }
                    }
                    return Err(e);
                }
            };
            let obj = match got {
                Some(o) => o,
                None => {
                    proof {
                        lemma_walk_blocked_node::<T>(cas, start, p as nat, k@);
                    }
                    return Err(JournalError::CorruptCasObject);
                }
            };
            if obj.links.len() > 1 {
                proof {
                    assert(obj@.links.len() == obj.links@.len());
                    lemma_walk_blocked_node::<T>(cas, start, p as nat, k@);
                }
                return Err(JournalError::CorruptCasObject);
            }
            let next: Option<CASKey> = if obj.links.len() == 1 {
                Some(obj.links[0])
            } else {
                None
            };
            let t = match T::decode(obj.data.as_slice()) {
                Some(t) => t,
                None => {
                    proof {
                        lemma_walk_blocked_payload::<T>(cas, start, p as nat, k@, obj@);
                    }
                    return Err(JournalError::CorruptPayload);
                }
            };
            out.push(Node { parent: next, data: t });
            let ghost prefix_old = prefix;
            proof {
                prefix = prefix.push((k@, obj@.data));
            }
            curr = next;
            proof {
                assert(obj@.links.len() == obj.links@.len());
                if obj.links@.len() == 1 {
                    assert(obj@.links[0] == obj.links@[0]@);
                }
                lemma_walk_stitch(cas, start, prefix_old, k@, obj@, key_view(curr));
                assert(prefix == prefix_old.push((k@, obj@.data)));
                lemma_walk_advance(cas, start, p as nat, k@, obj@, key_view(curr));
                assert forall|fuel: nat| (#[trigger] chain_nodes(cas, start, fuel)) is Some
                    implies ({
                    let s = chain_nodes(cas, start, fuel).unwrap();
                    &&& out@.len() <= s.len()
                    &&& s.len() <= fuel
                    &&& chain_nodes(cas, key_view(curr), (fuel - out@.len()) as nat) == Some(
                        s.subrange(out@.len() as int, s.len() as int),
                    )
                    &&& (forall|i: int|
                        0 <= i < out@.len() ==> ((#[trigger] out@[i]).data.enc() == s[i].1
                            && out@[i].data.enc_ok() && key_view(out@[i].parent) == (if i + 1
                            < s.len() {
                            Some(s[i + 1].0)
                        } else {
                            None
                        })))
                }) by {
                    let s = chain_nodes(cas, start, fuel).unwrap();
                    assert(s[p] == (k@, obj@.data));
                    assert(out@[p].data.enc() == obj.data@);
                    assert(key_view(out@[p].parent) == key_view(curr));
                }
            }
        }
        proof {
            assert(chain_nodes(cas, key_view(curr), 0) == Some(
                Seq::<(Seq<u8>, Seq<u8>)>::empty(),
            ));
            assert(chain_nodes(cas, start, 0 + prefix.len()) is Some);
            assert(log_wf(cas, start));
            assert forall|fuel: nat| (#[trigger] chain_nodes(cas, start, fuel)) is Some
                implies ({
                let s = chain_nodes(cas, start, fuel).unwrap();
                out@.len() == s.len() && (forall|i: int|
                    0 <= i < s.len() ==> ((#[trigger] out@[i]).data.enc() == s[i].1
                        && out@[i].data.enc_ok() && key_view(out@[i].parent) == (if i + 1
                        < s.len() {
                        Some(s[i + 1].0)
                    } else {
                        None
                    })))
            }) by {
                let s = chain_nodes(cas, start, fuel).unwrap();
                assert(chain_nodes(cas, key_view(curr), (fuel - out@.len()) as nat) == Some(
                    s.subrange(out@.len() as int, s.len() as int),
                ));
                assert(s.subrange(out@.len() as int, s.len() as int).len() == 0);
            }
        }
        Ok(out)
    }

    /// Collects the elements root first: the order in which they were
    /// pushed.
    pub fn forward_list(&self, j: &SqliteJournal) -> (r: Result<Vec<T>, JournalError>)
        ensures
            r matches Ok(vs) ==> (forall|i: int| 0 <= i < vs@.len() ==> (#[trigger] vs@[i]).enc_ok()),
            r matches Ok(vs) ==> log_wf(j.cas_map(), self@),
            (match r {
                Ok(vs) => forall|fuel: nat|
                    (#[trigger] chain_nodes(j.cas_map(), self@, fuel)) is Some ==> ({
                        let s = chain_nodes(j.cas_map(), self@, fuel).unwrap();
                        vs@.len() == s.len() && (forall|i: int|
                            0 <= i < s.len() ==> ((#[trigger] vs@[i]).enc() == s[s.len() - 1
                                - i].1 && vs@[i].enc_ok()))
                    }),
                Err(er) => er == JournalError::Backend || !decodable_log::<T>(
                    j.cas_map(),
                    self@,
                ),
            }),
    {
        let mut nodes = match self.walk_back(j) {
            Ok(v) => v,
            Err(e) => {
                return Err(e);
            }
        };
        let ghost walked = nodes@;
        let mut out: Vec<T> = Vec::new();
        proof {
            assert(nodes@ =~= walked.subrange(0, nodes@.len() as int));
        }
        while nodes.len() > 0
            invariant
                out@.len() + nodes@.len() == walked.len(),
                nodes@ == walked.subrange(0, nodes@.len() as int),
                forall|i: int|
                    0 <= i < out@.len() ==> (#[trigger] out@[i]) == walked[walked.len() - 1
                        - i].data,
            decreases nodes@.len(),
        {
            let ghost before = nodes@;
            let node = nodes.pop().unwrap();
            out.push(node.data);
            proof {
                assert(node == before[before.len() - 1]);
                assert(before[before.len() - 1] == walked[before.len() - 1]);
                assert(nodes@ =~= walked.subrange(0, nodes@.len() as int));
            }
        }
        proof {
            assert forall|fuel: nat| (#[trigger] chain_nodes(j.cas_map(), self@, fuel)) is Some
                implies ({
                let s = chain_nodes(j.cas_map(), self@, fuel).unwrap();
                out@.len() == s.len() && (forall|i: int|
                    0 <= i < s.len() ==> ((#[trigger] out@[i]).enc() == s[s.len() - 1 - i].1
                        && out@[i].enc_ok()))
            }) by {
                let s = chain_nodes(j.cas_map(), self@, fuel).unwrap();
                assert(walked.len() == s.len());
                assert forall|i: int| 0 <= i < s.len() implies ((#[trigger] out@[i]).enc()
                    == s[s.len() - 1 - i].1 && out@[i].enc_ok()) by {
                    assert(out@[i] == walked[walked.len() - 1 - i].data);
                    assert(walked[walked.len() - 1 - i].data.enc() == s[walked.len() - 1 - i].1);
                }
            }
        }
        Ok(out)
    }
}

} // verus!
