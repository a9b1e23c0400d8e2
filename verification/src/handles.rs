//! The handle table: opaque 32-bit identifiers standing in for host
//! values during one guest invocation.
//!
//! A guest never holds host pointers; it holds small integers in
//! [1, 2^31). Each live identifier maps to either a CAS key or a byte
//! buffer owned by the host. Identifiers are unique while live; a
//! released identifier may be handed out again. The value 0 is reserved
//! to mean "absent" at the interface boundary.

use vstd::prelude::*;
use crate::CASKey;

verus! {

/// What a live handle stands for.
pub enum Handle {
    /// A reference to a CAS root.
    Key(CASKey),
    /// A transient byte buffer owned by the host.
    Data(Vec<u8>),
}

impl Handle {
    /// The CAS key, when the handle is a key handle.
    pub fn as_key(&self) -> (r: Option<&CASKey>)
        ensures
            (match r {
                Some(k) => self matches Handle::Key(k2) && k == k2,
                None => self is Data,
            }),
    {
        if let Handle::Key(k) = self {
            return Some(k);
        }
        None
    }

    /// The buffer, when the handle is a data handle.
    pub fn as_data(&self) -> (r: Option<&Vec<u8>>)
        ensures
            (match r {
                Some(d) => self matches Handle::Data(d2) && d == d2,
                None => self is Key,
            }),
    {
        if let Handle::Data(d) = self {
            return Some(d);
        }
        None
    }
}

/// The bindings of an association list, later pairs shadowing earlier
/// ones.
pub open spec fn assoc_map(s: Seq<(u32, Handle)>) -> Map<u32, Handle>
    decreases s.len(),
{
    if s.len() == 0 {
        Map::empty()
    } else {
        assoc_map(s.drop_last()).insert(s.last().0, s.last().1)
    }
}

/// With distinct identifiers, the association list and its map agree
/// pairwise.
pub proof fn lemma_assoc_map(s: Seq<(u32, Handle)>)
    requires
        forall|i: int, j: int| 0 <= i < j < s.len() ==> (#[trigger] s[i]).0 != (#[trigger] s[j]).0,
    ensures
        forall|i: int|
            0 <= i < s.len() ==> assoc_map(s).contains_pair((#[trigger] s[i]).0, s[i].1),
        forall|id: u32|
            #[trigger] assoc_map(s).contains_key(id) ==> exists|i: int|
                0 <= i < s.len() && (#[trigger] s[i]).0 == id,
    decreases s.len(),
{
    if s.len() > 0 {
        lemma_assoc_map(s.drop_last());
        assert forall|i: int| 0 <= i < s.len() implies assoc_map(s).contains_pair(
            (#[trigger] s[i]).0,
            s[i].1,
        ) by {
            if i < s.len() - 1 {
                assert(s.drop_last()[i] == s[i]);
                assert(s[i].0 != s.last().0);
            }
        }
        assert forall|id: u32| #[trigger] assoc_map(s).contains_key(id) implies exists|i: int|
            0 <= i < s.len() && (#[trigger] s[i]).0 == id by {
            if id == s.last().0 {
                assert(s[s.len() - 1].0 == id);
            } else {
                assert(assoc_map(s.drop_last()).contains_key(id));
                let i = choose|i: int|
                    0 <= i < s.drop_last().len() && (#[trigger] s.drop_last()[i]).0 == id;
                assert(s[i].0 == id);
            }
        }
    }
}

/// The handle table of one invocation: the live bindings, the pool of
/// released identifiers, and the lowest never-issued identifier.
pub struct Handles {
    table: Vec<(u32, Handle)>,
    free: Vec<u32>,
    next: u32,
}

impl View for Handles {
    type V = Map<u32, Handle>;

    closed spec fn view(&self) -> Map<u32, Handle> {
        assoc_map(self.table@)
    }
}

impl Handles {
    /// Identifiers are nonzero, below 2^31, unique while live, and an
    /// identifier is never both live and pooled for reuse. Established by
    /// `new` and preserved by every operation.
    pub closed spec fn wf(self) -> bool {
        &&& 1 <= self.next <= 0x8000_0000
        &&& (forall|i: int, j: int|
            0 <= i < j < self.table@.len() ==> (#[trigger] self.table@[i]).0 != (
            #[trigger] self.table@[j]).0)
        &&& (forall|i: int|
            0 <= i < self.table@.len() ==> 1 <= (#[trigger] self.table@[i]).0 < self.next)
        &&& (forall|i: int, j: int|
            0 <= i < j < self.free@.len() ==> #[trigger] self.free@[i] != #[trigger] self.free@[j])
        &&& (forall|i: int| 0 <= i < self.free@.len() ==> 1 <= #[trigger] self.free@[i] < self.next)
        &&& (forall|i: int, j: int|
            0 <= i < self.table@.len() && 0 <= j < self.free@.len() ==> (
            #[trigger] self.table@[i]).0 != #[trigger] self.free@[j])
    }

    /// Whether no identifier is left to issue.
    pub closed spec fn full(self) -> bool {
        self.free@.len() == 0 && self.next == 0x8000_0000
    }

    /// An empty table.
    pub fn new() -> (r: Handles)
        ensures
            r@ == (Map::<u32, Handle>::empty()),
            !r.full(),
            r.wf(),
    {
        Handles { table: Vec::new(), free: Vec::new(), next: 1 }
    }

    /// How many handles are live.
    pub fn live_count(&self) -> (r: usize)
        requires
            self.wf(),
        ensures
            r == self@.dom().len(),
    {
        proof {
            lemma_assoc_map_len(self.table@);
        }
        self.table.len()
    }

    /// Issues a fresh identifier for a handle: one that is neither 0 nor
    /// live. Fails only when the identifier space is exhausted.
    pub fn insert(&mut self, h: Handle) -> (r: Option<u32>)
        requires
            old(self).wf(),
        ensures
            final(self).wf(),
            (match r {
                Some(id) => 1 <= id < 0x8000_0000 && !old(self)@.contains_key(id) && final(self)@
                    == old(self)@.insert(id, h),
                None => final(self)@ == old(self)@ && old(self).full(),
            }),
            !old(self).full() ==> r is Some,
    {
        proof {
            lemma_assoc_map(self.table@);
        }
        let id = match self.free.pop() {
            Some(id) => id,
            None => {
                if self.next == 0x8000_0000 {
                    return None;
                }
                let id = self.next;
                self.next = self.next + 1;
                id
            }
        };
        proof {
            assert forall|i: int| 0 <= i < self.table@.len() implies (#[trigger] self.table@[i]).0
                != id by {}
            if self@.contains_key(id) {
                lemma_assoc_map(self.table@);
            }
        }
        let ghost before = self.table@;
        self.table.push((id, h));
        proof {
            assert(self.table@.drop_last() =~= before);
        }
        Some(id)
    }

    /// The handle behind a live identifier.
    pub fn get(&self, id: u32) -> (r: Option<&Handle>)
        requires
            self.wf(),
        ensures
            (match r {
                Some(h) => self@.contains_key(id) && *h == self@[id],
                None => !self@.contains_key(id),
            }),
    {
        proof {
            lemma_assoc_map(self.table@);
        }
        let n = self.table.len();
        let mut i: usize = 0;
        while i < n
            invariant
                self.wf(),
                n == self.table@.len(),
                i <= n,
                forall|j: int| 0 <= j < i ==> (#[trigger] self.table@[j]).0 != id,
            decreases n - i,
        {
            if self.table[i].0 == id {
                proof {
                    lemma_assoc_map(self.table@);
                }
                return Some(&self.table[i].1);
            }
            i += 1;
        }
        proof {
            if self@.contains_key(id) {
                let j = choose|j: int|
                    0 <= j < self.table@.len() && (#[trigger] self.table@[j]).0 == id;
                assert(false);
            }
        }
        None
    }

    /// Releases a live identifier, making it stale and available for
    /// reuse; reports whether the identifier was live.
    pub fn release(&mut self, id: u32) -> (r: bool)
        requires
            old(self).wf(),
        ensures
            final(self).wf(),
            r <==> old(self)@.contains_key(id),
            r ==> final(self)@ == old(self)@.remove(id),
            !r ==> final(self)@ == old(self)@,
    {
        proof {
            lemma_assoc_map(self.table@);
        }
        let n = self.table.len();
        let mut i: usize = 0;
        while i < n
            invariant
                old(self) == self,
                self.wf(),
                n == self.table@.len(),
                i <= n,
                forall|j: int| 0 <= j < i ==> (#[trigger] self.table@[j]).0 != id,
            decreases n - i,
        {
            if self.table[i].0 == id {
                proof {
                    lemma_assoc_map(self.table@);
                }
                let ghost before = self.table@;
                let _ = self.table.remove(i);
                self.free.push(id);
                proof {
                    lemma_assoc_map_remove(before, i as int);
                    assert(self.table@ =~= before.remove(i as int));
                }
                return true;
            }
            i += 1;
        }
        proof {
            if self@.contains_key(id) {
                let j = choose|j: int|
                    0 <= j < self.table@.len() && (#[trigger] self.table@[j]).0 == id;
                assert(false);
            }
        }
        false
    }
}

/// With distinct identifiers, the map is as large as the list.
pub proof fn lemma_assoc_map_len(s: Seq<(u32, Handle)>)
    requires
        forall|i: int, j: int| 0 <= i < j < s.len() ==> (#[trigger] s[i]).0 != (#[trigger] s[j]).0,
    ensures
        assoc_map(s).dom().finite(),
        assoc_map(s).dom().len() == s.len(),
    decreases s.len(),
{
    if s.len() > 0 {
        lemma_assoc_map_len(s.drop_last());
        lemma_assoc_map(s.drop_last());
        assert(!assoc_map(s.drop_last()).contains_key(s.last().0));
    }
}

/// Removing one pair from a distinct association list removes exactly
/// its binding.
pub proof fn lemma_assoc_map_remove(s: Seq<(u32, Handle)>, i: int)
    requires
        forall|k: int, j: int| 0 <= k < j < s.len() ==> (#[trigger] s[k]).0 != (#[trigger] s[j]).0,
        0 <= i < s.len(),
    ensures
        assoc_map(s.remove(i)) == assoc_map(s).remove(s[i].0),
    decreases s.len(),
{
    lemma_assoc_map(s);
    let s2 = s.remove(i);
    assert forall|k: int, j: int| 0 <= k < j < s2.len() implies (#[trigger] s2[k]).0 != (
    #[trigger] s2[j]).0 by {
        let ok = if k < i {
            k
        } else {
            k + 1
        };
        let oj = if j < i {
            j
        } else {
            j + 1
        };
        assert(s2[k] == s[ok] && s2[j] == s[oj]);
    }
    lemma_assoc_map(s2);
    let m1 = assoc_map(s2);
    let m2 = assoc_map(s).remove(s[i].0);
    assert forall|id: u32| m1.contains_key(id) implies m2.contains_key(id) && m1[id] == m2[id] by {
        let k = choose|k: int| 0 <= k < s2.len() && (#[trigger] s2[k]).0 == id;
        let ok = if k < i {
            k
        } else {
            k + 1
        };
        assert(s2[k] == s[ok]);
        assert(m2.contains_pair(s[ok].0, s[ok].1));
        assert(m1.contains_pair(s2[k].0, s2[k].1));
    }
    assert forall|id: u32| m2.contains_key(id) implies m1.contains_key(id) by {
        let k = choose|k: int| 0 <= k < s.len() && (#[trigger] s[k]).0 == id;
        let nk = if k < i {
            k
        } else {
            k - 1
        };
        assert(s2[nk] == s[k]);
        assert(m1.contains_pair(s2[nk].0, s2[nk].1));
    }
    assert(m1 =~= m2);
}

} // verus!
