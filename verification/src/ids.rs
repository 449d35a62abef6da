//! Identifier namespaces and the build-scoped identifier allocator.
//!
//! The allocator tracks, per namespace, the reserved identifiers handed in by
//! the front end (`ClosedGroups`) and the highest identifier already seen in
//! use (seeded from a scan of the target document and from identifiers
//! reserved earlier in the same build), and hands out fresh identifiers that
//! collide with none of them.

use vstd::prelude::*;
use crate::BackendError;

verus! {

/// One of the four disjoint, fixed-capacity identifier spaces of the target
/// substrate.
#[derive(Clone, Copy, PartialEq, Eq, Structural, Debug)]
pub enum Namespace {
    Group,
    Color,
    Block,
    Item,
}

/// Highest group identifier the target substrate accepts.
pub const MAX_GROUP_ID: u64 = 9999;
/// Highest color identifier the target substrate accepts.
pub const MAX_COLOR_ID: u64 = 999;
/// Highest block identifier the target substrate accepts.
pub const MAX_BLOCK_ID: u64 = 1023;
/// Highest item identifier the target substrate accepts.
pub const MAX_ITEM_ID: u64 = 9999;

/// The capacity of one namespace: the largest identifier it can hold.
pub open spec fn namespace_cap(ns: Namespace) -> u64 {
    match ns {
        Namespace::Group => MAX_GROUP_ID,
        Namespace::Color => MAX_COLOR_ID,
        Namespace::Block => MAX_BLOCK_ID,
        Namespace::Item => MAX_ITEM_ID,
    }
}

/// Executable view of `namespace_cap`.
pub fn capacity(ns: Namespace) -> (r: u64)
    ensures
        r == namespace_cap(ns),
{
    match ns {
        Namespace::Group => MAX_GROUP_ID,
        Namespace::Color => MAX_COLOR_ID,
        Namespace::Block => MAX_BLOCK_ID,
        Namespace::Item => MAX_ITEM_ID,
    }
}

/// Identifiers, per namespace, that the front end reserved for externally
/// visible meaning.  The backend must never hand one of them out again.
pub struct ClosedGroups {
    pub groups: Vec<u64>,
    pub colors: Vec<u64>,
    pub blocks: Vec<u64>,
    pub items: Vec<u64>,
}

impl ClosedGroups {
    /// The reserved identifiers of one namespace.
    pub open spec fn ids(self, ns: Namespace) -> Seq<u64> {
        match ns {
            Namespace::Group => self.groups@,
            Namespace::Color => self.colors@,
            Namespace::Block => self.blocks@,
            Namespace::Item => self.items@,
        }
    }

    /// An empty reservation table.
    pub fn new() -> (r: ClosedGroups)
        ensures
            forall|ns: Namespace| r.ids(ns) =~= Seq::<u64>::empty(),
    {
        ClosedGroups { groups: Vec::new(), colors: Vec::new(), blocks: Vec::new(), items: Vec::new() }
    }

    /// Whether `id` is reserved in namespace `ns`.
    pub fn contains(&self, ns: Namespace, id: u64) -> (r: bool)
        ensures
            r == self.ids(ns).contains(id),
    {
        let v: &Vec<u64> = match ns {
            Namespace::Group => &self.groups,
            Namespace::Color => &self.colors,
            Namespace::Block => &self.blocks,
            Namespace::Item => &self.items,
        };
        let mut i: usize = 0;
        while i < v.len()
            invariant
                0 <= i <= v.len(),
                v@ == self.ids(ns),
                forall|j: int| 0 <= j < i ==> v@[j] != id,
            decreases v.len() - i,
        {
            if v[i] == id {
                assert(self.ids(ns)[i as int] == id);
                return true;
            }
            i = i + 1;
        }
        assert(forall|j: int| 0 <= j < self.ids(ns).len() ==> self.ids(ns)[j] != id);
        false
    }
}

/// The build-scoped allocator.  `high(ns)` is the highest identifier known to
/// be in use in `ns`; every identifier the allocator hands out is strictly
/// greater than every identifier it has ever been told about.
pub struct Allocator {
    pub closed: ClosedGroups,
    pub high_group: u64,
    pub high_color: u64,
    pub high_block: u64,
    pub high_item: u64,
}

impl Allocator {
    /// The highest identifier known to be in use in `ns`.
    pub open spec fn high(self, ns: Namespace) -> u64 {
        match ns {
            Namespace::Group => self.high_group,
            Namespace::Color => self.high_color,
            Namespace::Block => self.high_block,
            Namespace::Item => self.high_item,
        }
    }

    /// Every reserved identifier is at or below the high-water mark, so a
    /// fresh identifier (strictly above the mark) can never be reserved.
    pub open spec fn wf(self) -> bool {
        forall|ns: Namespace, i: int|
            0 <= i < self.closed.ids(ns).len() ==> #[trigger] self.closed.ids(ns)[i] <= self.high(ns)
    }

    /// Builds an allocator over the front end's reservations: the high-water
    /// mark of each namespace starts at the largest reserved identifier.
    pub fn new(closed: ClosedGroups) -> (r: Allocator)
        ensures
            r.wf(),
            r.closed == closed,
            forall|ns: Namespace| #[trigger] r.high(ns) == seq_max(closed.ids(ns)),
    {
        let hg = vec_max(&closed.groups);
        let hc = vec_max(&closed.colors);
        let hb = vec_max(&closed.blocks);
        let hi = vec_max(&closed.items);
        let r = Allocator { closed, high_group: hg, high_color: hc, high_block: hb, high_item: hi };
        proof {
            assert forall|ns: Namespace| #[trigger] r.high(ns) == seq_max(r.closed.ids(ns)) by {
                match ns {
                    Namespace::Group => {},
                    Namespace::Color => {},
                    Namespace::Block => {},
                    Namespace::Item => {},
                }
            }
            assert forall|ns: Namespace, i: int|
                0 <= i < r.closed.ids(ns).len() implies #[trigger] r.closed.ids(ns)[i] <= r.high(ns) by {
                lemma_seq_max_ge(r.closed.ids(ns), i);
            }
        }
        r
    }

    /// Records an identifier discovered in use outside this build (for
    /// example, scanned from a pre-existing level listing).
    pub fn mark_used(&mut self, ns: Namespace, id: u64)
        requires
            old(self).wf(),
        ensures
            final(self).wf(),
            final(self).closed == old(self).closed,
            final(self).high(ns) == if id > old(self).high(ns) { id } else { old(self).high(ns) },
            forall|n2: Namespace| n2 != ns ==> #[trigger] final(self).high(n2) == old(self).high(n2),
    {
        match ns {
            Namespace::Group => {
                if id > self.high_group {
                    self.high_group = id;
                }
            },
            Namespace::Color => {
                if id > self.high_color {
                    self.high_color = id;
                }
            },
            Namespace::Block => {
                if id > self.high_block {
                    self.high_block = id;
                }
            },
            Namespace::Item => {
                if id > self.high_item {
                    self.high_item = id;
                }
            },
        }
    }

    /// Hands out a fresh identifier in `ns`: strictly greater than every
    /// identifier known to be in use there, never reserved, and immediately
    /// marked in use.  Fails with `CapacityExceeded` exactly when the
    /// namespace's value space is exhausted.
    pub fn reserve(&mut self, ns: Namespace) -> (r: Result<u64, BackendError>)
        requires
            old(self).wf(),
        ensures
            final(self).wf(),
            final(self).closed == old(self).closed,
            r is Ok <==> old(self).high(ns) < namespace_cap(ns),
            match r {
                Ok(id) => {
                    &&& id == old(self).high(ns) + 1
                    &&& id > old(self).high(ns)
                    &&& id <= namespace_cap(ns)
                    &&& !final(self).closed.ids(ns).contains(id)
                    &&& final(self).high(ns) == id
                    &&& forall|n2: Namespace| n2 != ns ==> #[trigger] final(self).high(n2) == old(self).high(n2)
                },
                Err(e) => e == BackendError::CapacityExceeded && *final(self) == *old(self),
            },
    {
        let cap = capacity(ns);
        let cur = match ns {
            Namespace::Group => self.high_group,
            Namespace::Color => self.high_color,
            Namespace::Block => self.high_block,
            Namespace::Item => self.high_item,
        };
        if cur < cap {
            let id = cur + 1;
            match ns {
                Namespace::Group => { self.high_group = id; },
                Namespace::Color => { self.high_color = id; },
                Namespace::Block => { self.high_block = id; },
                Namespace::Item => { self.high_item = id; },
            }
            proof {
                if self.closed.ids(ns).contains(id) {
                    let i = choose|i: int| 0 <= i < self.closed.ids(ns).len() && self.closed.ids(ns)[i] == id;
                    assert(self.closed.ids(ns)[i] <= self.high(ns));
                }
            }
            Ok(id)
        } else {
            Err(BackendError::CapacityExceeded)
        }
    }
}

/// The largest element of a sequence of identifiers, or 0 when it is empty.
pub open spec fn seq_max(s: Seq<u64>) -> u64
    decreases s.len(),
{
    if s.len() == 0 {
        0u64
    } else if s.last() > seq_max(s.drop_last()) {
        s.last()
    } else {
        seq_max(s.drop_last())
    }
}

/// Every element of `s` is at most `seq_max(s)`.
pub proof fn lemma_seq_max_ge(s: Seq<u64>, i: int)
    requires
        0 <= i < s.len(),
    ensures
        s[i] <= seq_max(s),
    decreases s.len(),
{
    if i == s.len() - 1 {
    } else {
        lemma_seq_max_ge(s.drop_last(), i);
    }
}

/// Executable maximum of a vector of identifiers (0 when empty).
pub fn vec_max(v: &Vec<u64>) -> (r: u64)
    ensures
        r == seq_max(v@),
{
    let mut i: usize = 0;
    let mut m: u64 = 0;
    while i < v.len()
        invariant
            0 <= i <= v.len(),
            m == seq_max(v@.take(i as int)),
        decreases v.len() - i,
    {
        proof {
            assert(v@.take(i + 1).drop_last() =~= v@.take(i as int));
            assert(v@.take(i + 1).last() == v@[i as int]);
        }
        if v[i] > m {
            m = v[i];
        }
        i = i + 1;
    }
    proof {
        assert(v@.take(v@.len() as int) =~= v@);
    }
    m
}

/// Law: an identifier strictly above the high-water mark of a well-formed
/// allocator collides neither with the reserved set nor with any identifier
/// the allocator was told is in use.  Together with `reserve`'s contract
/// (its result is strictly above the mark, and marking only raises the mark)
/// this says every freshly allocated identifier is disjoint from the
/// reserved identifiers and from every identifier discovered by scanning.
pub proof fn lemma_fresh_id_no_collision(a: Allocator, ns: Namespace, scanned: Seq<u64>, id: u64)
    requires
        a.wf(),
        forall|i: int| 0 <= i < scanned.len() ==> #[trigger] scanned[i] <= a.high(ns),
        id > a.high(ns),
    ensures
        !a.closed.ids(ns).contains(id),
        forall|i: int| 0 <= i < scanned.len() ==> #[trigger] scanned[i] != id,
{
    if a.closed.ids(ns).contains(id) {
        let i = choose|i: int| 0 <= i < a.closed.ids(ns).len() && a.closed.ids(ns)[i] == id;
        assert(a.closed.ids(ns)[i] <= a.high(ns));
    }
}

} // verus!
