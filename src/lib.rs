//! Maglev consistent hashing: a fixed-size lookup table that maps keys to
//! a dynamic set of nodes with near-uniform load and minimal disruption.
use siphasher::sip::SipHasher;
use std::hash::{Hash, Hasher};
use vstd::laws_eq::obeys_concrete_eq;
use vstd::prelude::*;
use vstd::std_specs::cmp::PartialEqSpec;

pub mod permutation;
pub mod populate;

use crate::permutation::{
    check_prime, is_prime, is_slot_permutation, lemma_permutation_is_bijection, permutation,
    permutation_row,
};
use crate::populate::{lemma_table_complete, maglev_table, populate_table, row_views};

verus! {

/// A prime table size suited to modest node counts.
pub const SMALL_M: usize = 65537;

/// A prime table size suited to larger fleets.
pub const BIG_M: usize = 655373;

const SIP_OFFSET_KEY: u64 = 0xdeadbabe;

const SIP_SKIP_KEY: u64 = 0xdeadbeef;

/// Relies on siphasher's `SipHasher` (SipHash-2-4) keyed with `(key, 0)`,
/// fed by `T`'s `Hash` impl, and on `Hasher::finish` for the digest. Nothing
/// is stated of the digest: it depends on how that impl feeds the hasher.
#[verifier::external_body]
fn keyed_hash<T: Hash>(item: &T, key: u64) -> (r: u64) {
    let mut s = SipHasher::new_with_keys(key, 0);
    item.hash(&mut s);
    s.finish()
}

/// The permutation rows of nodes with the given pairs of keyed hashes
/// (offset hash, skip hash), in node-index order.
pub open spec fn node_rows(hashes: Seq<(u64, u64)>, m: nat) -> Seq<Seq<usize>> {
    Seq::new(hashes.len(), |i: int| permutation(hashes[i].0, hashes[i].1, m))
}

/// A Maglev lookup table over nodes of type `T`.
pub struct Maglev<T: Hash + PartialEq + Copy> {
    nodes: Vec<T>,
    m: usize,
    lookup: Vec<usize>,
    permutations: Vec<Vec<usize>>,
    hashes: Ghost<Seq<(u64, u64)>>,
}

impl<T: Hash + PartialEq + Copy> Maglev<T> {
    /// The nodes, in index order.
    pub closed spec fn nodes(&self) -> Seq<T> {
        self.nodes@
    }

    /// The table size.
    pub closed spec fn size(&self) -> nat {
        self.m as nat
    }

    /// For each node, the pair (offset hash, skip hash) its row was built from.
    pub closed spec fn hashes(&self) -> Seq<(u64, u64)> {
        self.hashes@
    }

    /// The permutation rows, one per node.
    pub closed spec fn rows(&self) -> Seq<Seq<usize>> {
        row_views(self.permutations@)
    }

    /// The lookup table: slot to node index.
    pub closed spec fn table(&self) -> Seq<usize> {
        self.lookup@
    }

    /// Node set, rows and table agree; the table size is prime.
    pub open spec fn wf(&self) -> bool {
        &&& is_prime(self.size() as int)
        &&& obeys_concrete_eq::<T>()
        &&& self.nodes().no_duplicates()
        &&& self.hashes().len() == self.nodes().len()
        &&& self.rows() == node_rows(self.hashes(), self.size())
        &&& self.table() == if self.nodes().len() == 0 {
            Seq::<usize>::empty()
        } else {
            maglev_table(self.rows(), self.size())
        }
    }

    /// The node that a key with offset hash `h` maps to.
    pub open spec fn node_for(&self, h: u64) -> Option<T> {
        if self.nodes().len() == 0 {
            None
        } else {
            Some(self.nodes()[self.table()[h as int % self.size() as int] as int])
        }
    }

    /// What `add(x)` leaves, from `before` to `after`.
    pub open spec fn added(before: Self, after: Self, x: T) -> bool {
        &&& after.wf()
        &&& after.size() == before.size()
        &&& before.nodes().contains(x) ==> after == before
        &&& !before.nodes().contains(x) ==> after.nodes() == before.nodes().push(x)
    }

    /// What `remove(x)` leaves, from `before` to `after`.
    pub open spec fn removed(before: Self, after: Self, x: T) -> bool {
        &&& after.wf()
        &&& after.size() == before.size()
        &&& !after.nodes().contains(x)
        &&& !before.nodes().contains(x) ==> after == before
        &&& before.nodes().contains(x) ==> exists|k: int|
            0 <= k < before.nodes().len() && before.nodes()[k] == x && after.nodes()
                == before.nodes().update(k, before.nodes().last()).drop_last()
    }

    /// An empty table of size `m`, which must be prime.
    pub fn new(m: usize) -> (r: Maglev<T>)
        requires
            is_prime(m as int),
            obeys_concrete_eq::<T>(),
        ensures
            r.wf(),
            r.size() == m,
            r.nodes().len() == 0,
            r.table().len() == 0,
    {
        let mut mh = Maglev {
            nodes: Vec::new(),
            m: m,
            lookup: Vec::new(),
            permutations: Vec::new(),
            hashes: Ghost(Seq::empty()),
        };
        mh.generate_population();
        mh.populate();
        mh
    }

    /// The index of `item` among the nodes, if it is one of them.
    fn position(&self, item: &T) -> (r: Option<usize>)
        requires
            obeys_concrete_eq::<T>(),
        ensures
            r is Some <==> self.nodes().contains(*item),
            r matches Some(k) ==> k < self.nodes().len() && self.nodes()[k as int] == *item,
    {
        proof {
            reveal(obeys_concrete_eq);
        }
        let mut k: usize = 0;
        while k < self.nodes.len()
            invariant
                obeys_concrete_eq::<T>(),
                T::obeys_eq_spec(),
                forall|x: T, y: T| x.eq_spec(&y) <==> (x == y),
                k <= self.nodes@.len(),
                forall|x: int| 0 <= x < k ==> self.nodes@[x] != *item,
            decreases self.nodes@.len() - k,
        {
            if self.nodes[k] == *item {
                return Some(k);
            }
            k = k + 1;
        }
        None
    }

    /// Adds `item` as a node and rebuilds the rows and the table; does
    /// nothing if it is already a node.
    pub fn add(&mut self, item: T)
        requires
            old(self).wf(),
        ensures
            Self::added(*old(self), *final(self), item),
            final(self).nodes().contains(item),
    {
        if self.position(&item).is_some() {
            return;
        }
        self.nodes.push(item);
        proof {
            assert(self.nodes@.last() == item);
        }
        self.generate_population();
        self.populate();
    }

    /// Removes `item` from the nodes, moving the last node into its index,
    /// and rebuilds the rows and the table; does nothing if it is not a node.
    pub fn remove(&mut self, item: &T)
        requires
            old(self).wf(),
        ensures
            Self::removed(*old(self), *final(self), *item),
    {
        match self.position(item) {
            Some(index) => {
                let ghost before = self.nodes@;
                self.nodes.swap_remove(index);
                proof {
                    let after = self.nodes@;
                    assert forall|a: int, b: int| 0 <= a < b < after.len() implies after[a] != after[b] by {
                        if a == index as int {
                            assert(before[a] != before[before.len() - 1]);
                        } else if b == index as int {
                            assert(before[a] != before[before.len() - 1]);
                        }
                    }
                    assert forall|a: int| 0 <= a < after.len() implies after[a] != *item by {
                        if a == index as int {
                            assert(before[index as int] != before[before.len() - 1]);
                        } else {
                            assert(before[index as int] != before[a]);
                        }
                    }
                }
            },
            None => {
                return ;
            },
        }
        self.generate_population();
        self.populate();
    }

    /// The node that a key with offset hash `h` maps to: `None` when there is
    /// no node.
    pub fn lookup_hash(&self, h: u64) -> (r: Option<T>)
        requires
            self.wf(),
        ensures
            r == self.node_for(h),
    {
        if self.nodes.len() == 0 {
            return None;
        }
        proof {
            lemma_full_coverage(*self);
        }
        let index = self.lookup[(h % (self.m as u64)) as usize];
        Some(self.nodes[index])
    }

    /// The node that `item` maps to: `None` when there is no node, else the
    /// node that the slot at the key's offset hash modulo the table size holds.
    pub fn get(&self, item: &T) -> (r: Option<T>)
        requires
            self.wf(),
        ensures
            exists|h: u64| r == self.node_for(h),
            r is None <==> self.nodes().len() == 0,
            r matches Some(x) ==> self.nodes().contains(x),
    {
        let h = keyed_hash(item, SIP_OFFSET_KEY);
        let r = self.lookup_hash(h);
        proof {
            if self.nodes().len() > 0 {
                lemma_full_coverage(*self);
                let k = self.table()[h as int % self.size() as int] as int;
                assert(self.nodes()[k] == r->Some_0);
            }
        }
        r
    }

    /// An empty table of size `m`, or `None` when `m` is not prime.
    pub fn try_new(m: usize) -> (r: Option<Maglev<T>>)
        requires
            obeys_concrete_eq::<T>(),
        ensures
            r is Some <==> is_prime(m as int),
            r matches Some(t) ==> t.wf() && t.size() == m && t.nodes().len() == 0,
    {
        if check_prime(m) {
            Some(Self::new(m))
        } else {
            None
        }
    }

    /// Rebuilds the permutation rows of all nodes from their keyed hashes.
    fn generate_population(&mut self)
        requires
            is_prime(old(self).m as int),
        ensures
            final(self).nodes == old(self).nodes,
            final(self).m == old(self).m,
            final(self).lookup == old(self).lookup,
            final(self).hashes@.len() == final(self).nodes@.len(),
            final(self).rows() == node_rows(final(self).hashes@, final(self).m as nat),
    {
        let mut perms: Vec<Vec<usize>> = Vec::new();
        let ghost mut hs: Seq<(u64, u64)> = Seq::empty();
        let mut k: usize = 0;
        while k < self.nodes.len()
            invariant
                is_prime(self.m as int),
                k <= self.nodes@.len(),
                hs.len() == k,
                perms@.len() == k,
                row_views(perms@) == node_rows(hs, self.m as nat),
            decreases self.nodes@.len() - k,
        {
            let offset_hash = keyed_hash(&self.nodes[k], SIP_OFFSET_KEY);
            let skip_hash = keyed_hash(&self.nodes[k], SIP_SKIP_KEY);
            let row = permutation_row(offset_hash, skip_hash, self.m);
            let ghost before = perms@;
            perms.push(row);
            proof {
                let old_rows = node_rows(hs, self.m as nat);
                hs = hs.push((offset_hash, skip_hash));
                assert forall|i: int| 0 <= i < k implies row_views(perms@)[i] == node_rows(hs, self.m as nat)[i] by {
                    assert(perms@[i] == before[i]);
                    assert(row_views(before)[i] == old_rows[i]);
                }
                assert(row_views(perms@) =~= node_rows(hs, self.m as nat));
            }
            k = k + 1;
        }
        self.permutations = perms;
        self.hashes = Ghost(hs);
    }

    /// Refills the lookup table from the rows; with no node it is left empty.
    fn populate(&mut self)
        requires
            is_prime(old(self).m as int),
            old(self).hashes@.len() == old(self).nodes@.len(),
            old(self).rows() == node_rows(old(self).hashes@, old(self).m as nat),
        ensures
            final(self).nodes == old(self).nodes,
            final(self).m == old(self).m,
            final(self).permutations == old(self).permutations,
            final(self).hashes == old(self).hashes,
            final(self).lookup@ == if final(self).nodes@.len() == 0 {
                Seq::<usize>::empty()
            } else {
                maglev_table(final(self).rows(), final(self).m as nat)
            },
    {
        if self.nodes.len() == 0 {
            self.lookup = Vec::new();
            return;
        }
        proof {
            let rows = self.rows();
            assert(rows.len() == self.permutations@.len());
            assert forall|i: int| 0 <= i < rows.len() implies is_slot_permutation(
                #[trigger] rows[i],
                self.m as nat,
            ) by {
                lemma_permutation_is_bijection(self.hashes@[i].0, self.hashes@[i].1, self.m as nat);
            }
        }
        self.lookup = populate_table(&self.permutations, self.m);
    }
}

/// Once populated, every slot of the table holds a valid node index.
pub proof fn lemma_full_coverage<T: Hash + PartialEq + Copy>(t: Maglev<T>)
    requires
        t.wf(),
        t.nodes().len() >= 1,
    ensures
        t.table().len() == t.size(),
        forall|c: int| 0 <= c < t.size() ==> (#[trigger] t.table()[c]) < t.nodes().len(),
{
    let rows = t.rows();
    assert forall|i: int| 0 <= i < rows.len() implies is_slot_permutation(#[trigger] rows[i], t.size()) by {
        lemma_permutation_is_bijection(t.hashes()[i].0, t.hashes()[i].1, t.size());
    }
    lemma_table_complete(rows, t.size());
}

/// Adding a node twice in a row leaves the table as adding it once did.
pub proof fn lemma_add_idempotent<T: Hash + PartialEq + Copy>(
    t0: Maglev<T>,
    t1: Maglev<T>,
    t2: Maglev<T>,
    x: T,
)
    requires
        t0.wf(),
        Maglev::added(t0, t1, x),
        Maglev::added(t1, t2, x),
    ensures
        t2 == t1,
{
    if !t0.nodes().contains(x) {
        assert(t1.nodes().last() == x);
        assert(t1.nodes().contains(x));
    }
}

/// Tables with the same size, nodes and keyed hashes are identical, and
/// map every key hash to the same node.
pub proof fn lemma_table_determined<T: Hash + PartialEq + Copy>(a: Maglev<T>, b: Maglev<T>)
    requires
        a.wf(),
        b.wf(),
        a.size() == b.size(),
        a.nodes() == b.nodes(),
        a.hashes() == b.hashes(),
    ensures
        a.rows() == b.rows(),
        a.table() == b.table(),
        forall|h: u64| #[trigger] a.node_for(h) == b.node_for(h),
{
}

} // verus!
