//! The pivotal-node sensitivity tracker.
//!
//! For each image and each final-layer output bit, the tracker finds the
//! upstream nodes whose solitary function-table flip would change that bit.
//! It propagates sensitizing sets layer by layer on top of the evaluation
//! pass: an input is pivotal when toggling its bit alone flips the node's
//! output; when one upstream node feeds a node through several inputs, the
//! joint toggle of all its occurrence positions decides (interference
//! correction).

use vstd::prelude::*;

use crate::bitbuf::BitBuf;
use crate::iterators::lemma_cfg_edge_succ;
use crate::iterators::lemma_edges_mono;
use crate::iterators::lemma_layer_step_at;
use crate::iterators::lemma_read_off_facts;
use crate::iterators::spec_read_off;
use crate::netcore::Node;
use crate::netcore::spec_eval_upto;
use crate::netcore::spec_gate_index;
use crate::netcore::spec_gate_out;
use crate::netcore::spec_node_out;
use crate::settings::Configuration;
use crate::settings::cfg_wf;

verus! {

/// A set of node indices, stored as a duplicate-free vector.
pub struct NodeSet {
    items: Vec<usize>,
}

impl View for NodeSet {
    type V = Set<usize>;

    closed spec fn view(&self) -> Set<usize> {
        self.items@.to_set()
    }
}

impl NodeSet {
    /// The stored vector holds no index twice.
    pub closed spec fn inv(self) -> bool {
        self.items@.no_duplicates()
    }

    pub fn new() -> (r: NodeSet)
        ensures
            r@ == Set::<usize>::empty(),
            r.inv(),
    {
        let r = NodeSet { items: Vec::new() };
        proof {
            assert(r@ =~= Set::<usize>::empty());
        }
        r
    }

    pub fn contains(&self, x: usize) -> (r: bool)
        ensures
            r == self@.contains(x),
    {
        let mut k: usize = 0;
        let mut r: bool = false;
        while k < self.items.len()
            invariant
                k <= self.items@.len(),
                r <==> exists|k0: int| 0 <= k0 < k && self.items@[k0] == x,
            decreases self.items@.len() - k,
        {
            if self.items[k] == x {
                r = true;
            }
            k = k + 1;
        }
        proof {
            assert(self@.contains(x) == self.items@.contains(x));
        }
        r
    }

    pub fn insert(&mut self, x: usize)
        requires
            old(self).inv(),
        ensures
            final(self).inv(),
            final(self)@ == old(self)@.insert(x),
    {
        if !self.contains(x) {
            self.items.push(x);
        }
        proof {
            let bef = old(self).items@;
            let aft = self.items@;
            assert forall|y: usize| aft.contains(y) implies old(self)@.insert(x).contains(y) by {
                let k0 = choose|k0: int| 0 <= k0 < aft.len() && #[trigger] aft[k0] == y;
                if k0 < bef.len() {
                    assert(bef[k0] == y);
                }
            }
            assert forall|y: usize| old(self)@.insert(x).contains(y) implies aft.contains(y) by {
                if bef.contains(y) {
                    let k0 = choose|k0: int| 0 <= k0 < bef.len() && #[trigger] bef[k0] == y;
                    assert(aft[k0] == y);
                } else {
                    assert(aft.last() == x);
                }
            }
            assert(final(self)@ =~= old(self)@.insert(x));
        }
    }

    pub fn remove(&mut self, x: usize)
        requires
            old(self).inv(),
        ensures
            final(self).inv(),
            final(self)@ == old(self)@.remove(x),
    {
        let mut k: usize = 0;
        while k < self.items.len()
            invariant
                self == old(self),
                old(self).inv(),
                k <= self.items@.len(),
                forall|k0: int| 0 <= k0 < k ==> self.items@[k0] != x,
            decreases self.items@.len() - k,
        {
            if self.items[k] == x {
                let ghost before = self.items@;
                self.items.remove(k);
                proof {
                    let aft = self.items@;
                    before.remove_ensures(k as int);
                    assert(before[k as int] == x);
                    assert(aft == before.remove(k as int));
                    assert forall|i: int, j: int| 0 <= i < j < aft.len() implies aft[i] != aft[j]
                        by {
                        let i0 = if i < k {
                            i
                        } else {
                            i + 1
                        };
                        let j0 = if j < k {
                            j
                        } else {
                            j + 1
                        };
                        assert(0 <= i0 < before.len() && 0 <= j0 < before.len() && i0 != j0);
                        assert(before.remove(k as int)[i] == before[i0]);
                        assert(before.remove(k as int)[j] == before[j0]);
                        assert(before[i0] != before[j0]);
                    }
                    assert(aft.no_duplicates());
                    assert forall|y: usize| old(self)@.remove(x).contains(y) implies
                        aft.contains(y) by {
                        let k0 = choose|k0: int|
                            0 <= k0 < before.len() && #[trigger] before[k0] == y;
                        if k0 < k {
                            assert(aft[k0] == y);
                        } else {
                            assert(k0 != k);
                            assert(aft[k0 - 1] == y);
                        }
                    }
                    assert forall|y: usize| aft.contains(y) implies old(self)@.remove(x).contains(
                        y,
                    ) by {
                        let k0 = choose|k0: int| 0 <= k0 < aft.len() && #[trigger] aft[k0] == y;
                        if k0 < k {
                            assert(before.remove(k as int)[k0] == before[k0]);
                            assert(before[k0] == y);
                            assert(y != x);
                        } else {
                            assert(before.remove(k as int)[k0] == before[k0 + 1]);
                            assert(before[k0 + 1] == y);
                            assert(y != x);
                        }
                    }
                    assert(final(self)@ =~= old(self)@.remove(x));
                }
                return ;
            }
            k = k + 1;
        }
        proof {
            assert(!old(self)@.contains(x));
            assert(final(self)@ =~= old(self)@.remove(x));
        }
    }

    /// Unions `other` into this set.
    pub fn union_with(&mut self, other: &NodeSet)
        requires
            old(self).inv(),
        ensures
            final(self).inv(),
            final(self)@ == old(self)@ + other@,
    {
        let mut t: usize = 0;
        while t < other.items.len()
            invariant
                t <= other.items@.len(),
                self.inv(),
                self@ == old(self)@ + other.items@.take(t as int).to_set(),
            decreases other.items@.len() - t,
        {
            let x: usize = other.items[t];
            self.insert(x);
            proof {
                assert(other.items@.take(t + 1).drop_last() =~= other.items@.take(t as int));
                assert(other.items@.take(t + 1)[t as int] == x);
                assert(other.items@.take(t + 1).contains(x));
                assert(other.items@.take(t + 1).to_set() =~= other.items@.take(
                    t as int,
                ).to_set().insert(x)) by {
                    assert forall|y: usize| other.items@.take(t + 1).contains(y) && y != x implies
                        other.items@.take(t as int).contains(y) by {
                        let k0 = choose|k0: int|
                            0 <= k0 < t + 1 && #[trigger] other.items@.take(t + 1)[k0] == y;
                        assert(other.items@.take(t as int)[k0] == y);
                    }
                }
                assert(self@ =~= old(self)@ + other.items@.take(t + 1).to_set());
            }
            t = t + 1;
        }
        proof {
            assert(other.items@.take(other.items@.len() as int) =~= other.items@);
            assert(final(self)@ =~= old(self)@ + other@);
        }
    }

    /// How many indices the set holds.
    pub fn len(&self) -> (r: usize)
        requires
            self.inv(),
        ensures
            r == self@.len(),
    {
        proof {
            self.items@.unique_seq_to_set();
        }
        self.items.len()
    }

    /// The number of stored items, for iteration.
    pub fn item_count(&self) -> (r: usize)
        ensures
            r == self.spec_items().len(),
    {
        self.items.len()
    }

    /// The stored item at `t`; every item is a member of the set.
    pub fn item_at(&self, t: usize) -> (r: usize)
        requires
            t < self.spec_items().len(),
        ensures
            r == self.spec_items()[t as int],
            self@.contains(r),
    {
        self.items[t]
    }

    /// The stored order of the items.
    pub closed spec fn spec_items(self) -> Seq<usize> {
        self.items@
    }

    /// The set is exactly its stored items.
    pub proof fn lemma_items_are_view(self)
        ensures
            forall|y: usize| self@.contains(y) <==> self.spec_items().contains(y),
    {
    }
}

/// The sensitizing sets of a row of `NodeSet`s.
pub open spec fn row_view(rows: Seq<NodeSet>) -> Seq<Set<usize>> {
    rows.map_values(|s: NodeSet| s@)
}

/// The toggle mask of input `j` alone.
pub open spec fn bitmask6(j: int) -> u8 {
    if j == 0 {
        1
    } else if j == 1 {
        2
    } else if j == 2 {
        4
    } else if j == 3 {
        8
    } else if j == 4 {
        16
    } else {
        32
    }
}

/// The sensitizing set already propagated for the source of input `j`:
/// sources address the previous layer, whose logical region starts at
/// `base`.
pub open spec fn pset_of(prev: Seq<Set<usize>>, indices: Seq<usize>, base: int, j: int) -> Set<
    usize,
> {
    prev[indices[j] - base]
}

/// The mask of input positions through whose sensitizing sets upstream node
/// `p` reaches this node.
pub open spec fn spec_occ_mask(
    prev: Seq<Set<usize>>,
    indices: Seq<usize>,
    base: int,
    p: usize,
) -> u8 {
    (if pset_of(prev, indices, base, 0).contains(p) {
        1u8
    } else {
        0u8
    }) | (if pset_of(prev, indices, base, 1).contains(p) {
        2u8
    } else {
        0u8
    }) | (if pset_of(prev, indices, base, 2).contains(p) {
        4u8
    } else {
        0u8
    }) | (if pset_of(prev, indices, base, 3).contains(p) {
        8u8
    } else {
        0u8
    }) | (if pset_of(prev, indices, base, 4).contains(p) {
        16u8
    } else {
        0u8
    }) | (if pset_of(prev, indices, base, 5).contains(p) {
        32u8
    } else {
        0u8
    })
}

/// How many of the 6 mask bits are set.
pub open spec fn popcount6(mask: u8) -> int {
    (mask & 1) as int + ((mask >> 1) & 1) as int + ((mask >> 2) & 1) as int + ((mask >> 3)
        & 1) as int + ((mask >> 4) & 1) as int + ((mask >> 5) & 1) as int
}

/// Whether toggling input `j` alone flips the output bit.
pub open spec fn spec_ind_pivotal(lut: u64, idx: u8, j: int) -> bool {
    spec_gate_out(lut, idx ^ bitmask6(j)) != spec_gate_out(lut, idx)
}

/// Membership before interference correction: `p` is the source of some
/// individually pivotal input, or sits in such an input's sensitizing set.
pub open spec fn spec_base_contains(
    lut: u64,
    idx: u8,
    prev: Seq<Set<usize>>,
    indices: Seq<usize>,
    base: int,
    imgb: int,
    p: usize,
) -> bool {
    exists|j: int|
        0 <= j < 6 && #[trigger] spec_ind_pivotal(lut, idx, j) && (p == indices[j] - imgb
            || pset_of(prev, indices, base, j).contains(p))
}

/// The corrected sensitizing set of one node: an upstream node reaching
/// through two or more inputs stays exactly when the joint toggle of all
/// its occurrence positions flips the output; every other candidate stays
/// by the single-input test.
///
/// The occurrence positions of a candidate are the inputs whose sensitizing
/// sets contain it. A node wired directly to several inputs of the same
/// gate is not folded into a joint toggle: it is kept by the single-input
/// test alone, so against a brute-force flip of that node the incremental
/// rule can overcount when the table cancels the simultaneous toggles.
pub open spec fn spec_corrected_set(
    lut: u64,
    idx: u8,
    prev: Seq<Set<usize>>,
    indices: Seq<usize>,
    base: int,
    imgb: int,
) -> Set<usize> {
    Set::new(
        |p: usize|
            {
                let mask = spec_occ_mask(prev, indices, base, p);
                if popcount6(mask) >= 2 {
                    spec_gate_out(lut, idx ^ mask) != spec_gate_out(lut, idx)
                } else {
                    spec_base_contains(lut, idx, prev, indices, base, imgb, p)
                }
            },
    )
}

/// Which upstream nodes the correction pass has already seen: everything in
/// the sensitizing sets of inputs `0 .. j2`, plus the first `t` stored
/// items of input `j2`'s set.
pub open spec fn touched_upto(
    prev: Seq<Set<usize>>,
    indices: Seq<usize>,
    base: int,
    rows: Seq<NodeSet>,
    j2: int,
    t: int,
    q: usize,
) -> bool {
    (exists|j0: int| 0 <= j0 < j2 && #[trigger] pset_of(prev, indices, base, j0).contains(q)) || (
    0 <= j2 < 6 && rows[indices[j2] - base].spec_items().take(t).contains(q))
}

/// Mid-correction membership rule: seen multi-occurrence candidates follow
/// the joint-toggle test, everything else still follows the base rule.
pub open spec fn partial_rule(
    lut: u64,
    idx: u8,
    prev: Seq<Set<usize>>,
    indices: Seq<usize>,
    base: int,
    imgb: int,
    rows: Seq<NodeSet>,
    j2: int,
    t: int,
    q: usize,
) -> bool {
    let mask = spec_occ_mask(prev, indices, base, q);
    if touched_upto(prev, indices, base, rows, j2, t, q) && popcount6(mask) >= 2 {
        spec_gate_out(lut, idx ^ mask) != spec_gate_out(lut, idx)
    } else {
        spec_base_contains(lut, idx, prev, indices, base, imgb, q)
    }
}

/// Computes one node's corrected sensitizing set from its function table,
/// its current lookup index, and the previous layer's propagated sets.
#[verifier::loop_isolation(false)]
#[verifier::rlimit(60)]
fn corrected_set(
    lut: u64,
    lut_input: u8,
    node: &Node,
    prev_row: &Vec<NodeSet>,
    base_addr: usize,
    imgb: usize,
) -> (r: NodeSet)
    requires
        lut_input < 64,
        imgb <= base_addr,
        forall|j: int|
            0 <= j < 6 ==> base_addr <= (#[trigger] node.indices@[j]) && node.indices@[j]
                - base_addr < prev_row@.len(),
        forall|t: int| 0 <= t < prev_row@.len() ==> (#[trigger] prev_row@[t]).inv(),
    ensures
        r.inv(),
        r@ == spec_corrected_set(
            lut,
            lut_input,
            row_view(prev_row@),
            node.indices@,
            base_addr as int,
            imgb as int,
        ),
{
    let ghost prevv = row_view(prev_row@);
    let ghost inds = node.indices@;
    let ghost base = base_addr as int;
    let ghost gimgb = imgb as int;
    let ghost rows = prev_row@;
    proof {
        assert(forall|i: int| 0 <= i < prev_row@.len() ==> prevv[i] == (#[trigger] prev_row@[i])@);
        assert((lut_input ^ 1) < 64 && (lut_input ^ 2) < 64 && (lut_input ^ 4) < 64 && (lut_input
            ^ 8) < 64 && (lut_input ^ 16) < 64 && (lut_input ^ 32) < 64) by (bit_vector)
            requires
                lut_input < 64,
        ;
    }
    let out: bool = ((lut >> lut_input) & 1) != 0;

    let r0: usize = node.indices[0] - base_addr;
    let r1: usize = node.indices[1] - base_addr;
    let r2: usize = node.indices[2] - base_addr;
    let r3: usize = node.indices[3] - base_addr;
    let r4: usize = node.indices[4] - base_addr;
    let r5: usize = node.indices[5] - base_addr;

    let mut deps = NodeSet::new();
    let ghost s0 = deps@;
    let c0: bool = ((((lut >> (lut_input ^ 1)) & 1) != 0) != out);
    if c0 {
        deps.insert(node.indices[0] - imgb);
        deps.union_with(&prev_row[r0]);
    }
    let ghost s1 = deps@;
    let c1: bool = ((((lut >> (lut_input ^ 2)) & 1) != 0) != out);
    if c1 {
        deps.insert(node.indices[1] - imgb);
        deps.union_with(&prev_row[r1]);
    }
    let ghost s2 = deps@;
    let c2: bool = ((((lut >> (lut_input ^ 4)) & 1) != 0) != out);
    if c2 {
        deps.insert(node.indices[2] - imgb);
        deps.union_with(&prev_row[r2]);
    }
    let ghost s3 = deps@;
    let c3: bool = ((((lut >> (lut_input ^ 8)) & 1) != 0) != out);
    if c3 {
        deps.insert(node.indices[3] - imgb);
        deps.union_with(&prev_row[r3]);
    }
    let ghost s4 = deps@;
    let c4: bool = ((((lut >> (lut_input ^ 16)) & 1) != 0) != out);
    if c4 {
        deps.insert(node.indices[4] - imgb);
        deps.union_with(&prev_row[r4]);
    }
    let ghost s5 = deps@;
    let c5: bool = ((((lut >> (lut_input ^ 32)) & 1) != 0) != out);
    if c5 {
        deps.insert(node.indices[5] - imgb);
        deps.union_with(&prev_row[r5]);
    }
    let ghost s6 = deps@;

    proof {
        assert(c0 == spec_ind_pivotal(lut, lut_input, 0));
        assert(c1 == spec_ind_pivotal(lut, lut_input, 1));
        assert(c2 == spec_ind_pivotal(lut, lut_input, 2));
        assert(c3 == spec_ind_pivotal(lut, lut_input, 3));
        assert(c4 == spec_ind_pivotal(lut, lut_input, 4));
        assert(c5 == spec_ind_pivotal(lut, lut_input, 5));
        assert forall|p: usize| s6.contains(p) implies spec_base_contains(
            lut,
            lut_input,
            prevv,
            inds,
            base,
            gimgb,
            p,
        ) by {
            if s1.contains(p) {
                assert(c0 && (p == inds[0] - gimgb || pset_of(prevv, inds, base, 0).contains(p)));
                assert(spec_ind_pivotal(lut, lut_input, 0));
            } else if s2.contains(p) {
                assert(c1 && (p == inds[1] - gimgb || pset_of(prevv, inds, base, 1).contains(p)));
                assert(spec_ind_pivotal(lut, lut_input, 1));
            } else if s3.contains(p) {
                assert(c2 && (p == inds[2] - gimgb || pset_of(prevv, inds, base, 2).contains(p)));
                assert(spec_ind_pivotal(lut, lut_input, 2));
            } else if s4.contains(p) {
                assert(c3 && (p == inds[3] - gimgb || pset_of(prevv, inds, base, 3).contains(p)));
                assert(spec_ind_pivotal(lut, lut_input, 3));
            } else if s5.contains(p) {
                assert(c4 && (p == inds[4] - gimgb || pset_of(prevv, inds, base, 4).contains(p)));
                assert(spec_ind_pivotal(lut, lut_input, 4));
            } else {
                assert(c5 && (p == inds[5] - gimgb || pset_of(prevv, inds, base, 5).contains(p)));
                assert(spec_ind_pivotal(lut, lut_input, 5));
            }
        }
        assert forall|p: usize|
            spec_base_contains(lut, lut_input, prevv, inds, base, gimgb, p) implies s6.contains(
            p,
        ) by {
            let j0 = choose|j0: int|
                0 <= j0 < 6 && #[trigger] spec_ind_pivotal(lut, lut_input, j0) && (p == inds[j0]
                    - gimgb || pset_of(prevv, inds, base, j0).contains(p));
            if j0 == 0 {
                assert(s1.contains(p));
            } else if j0 == 1 {
                assert(s2.contains(p));
            } else if j0 == 2 {
                assert(s3.contains(p));
            } else if j0 == 3 {
                assert(s4.contains(p));
            } else if j0 == 4 {
                assert(s5.contains(p));
            } else {
                assert(s6.contains(p));
            }
        }
        assert forall|q: usize| deps@.contains(q) <==> partial_rule(
            lut,
            lut_input,
            prevv,
            inds,
            base,
            gimgb,
            rows,
            0,
            0,
            q,
        ) by {
            assert(!touched_upto(prevv, inds, base, rows, 0, 0, q));
        }
    }

    let mut j2: usize = 0;
    while j2 < 6
        invariant
            j2 <= 6,
            deps.inv(),
            forall|q: usize|
                deps@.contains(q) <==> partial_rule(
                    lut,
                    lut_input,
                    prevv,
                    inds,
                    base,
                    gimgb,
                    rows,
                    j2 as int,
                    0,
                    q,
                ),
        decreases 6 - j2,
    {
        let relj: usize = node.indices[j2] - base_addr;
        let cnt: usize = prev_row[relj].item_count();
        let mut t: usize = 0;
        while t < cnt
            invariant
                j2 < 6,
                t <= cnt,
                relj == inds[j2 as int] - base,
                cnt == rows[inds[j2 as int] - base].spec_items().len(),
                deps.inv(),
                forall|q: usize|
                    deps@.contains(q) <==> partial_rule(
                        lut,
                        lut_input,
                        prevv,
                        inds,
                        base,
                        gimgb,
                        rows,
                        j2 as int,
                        t as int,
                        q,
                    ),
            decreases cnt - t,
        {
            let p: usize = prev_row[relj].item_at(t);
            let m0: u8 = if prev_row[r0].contains(p) {
                1
            } else {
                0
            };
            let m1: u8 = if prev_row[r1].contains(p) {
                2
            } else {
                0
            };
            let m2: u8 = if prev_row[r2].contains(p) {
                4
            } else {
                0
            };
            let m3: u8 = if prev_row[r3].contains(p) {
                8
            } else {
                0
            };
            let m4: u8 = if prev_row[r4].contains(p) {
                16
            } else {
                0
            };
            let m5: u8 = if prev_row[r5].contains(p) {
                32
            } else {
                0
            };
            let m: u8 = m0 | m1 | m2 | m3 | m4 | m5;
            proof {
                assert(m == spec_occ_mask(prevv, inds, base, p));
                assert(m < 64 && (lut_input ^ m) < 64) by (bit_vector)
                    requires
                        m == m0 | m1 | m2 | m3 | m4 | m5,
                        m0 <= 1 && m1 <= 2 && m2 <= 4 && m3 <= 8 && m4 <= 16 && m5 <= 32,
                        lut_input < 64,
                ;
            }
            let cnt_bits: usize = ((m & 1) as usize) + (((m >> 1) & 1) as usize) + (((m >> 2)
                & 1) as usize) + (((m >> 3) & 1) as usize) + (((m >> 4) & 1) as usize) + (((m >> 5)
                & 1) as usize);
            proof {
                assert(cnt_bits == popcount6(m));
            }
            if cnt_bits >= 2 {
                let jout: bool = ((lut >> (lut_input ^ m)) & 1) != 0;
                if jout != out {
                    deps.insert(p);
                } else {
                    deps.remove(p);
                }
            }
            proof {
                let itemsj = rows[inds[j2 as int] - base].spec_items();
                assert(itemsj.take(t + 1).drop_last() =~= itemsj.take(t as int));
                assert(itemsj.take(t + 1)[t as int] == p);
                assert forall|q: usize| deps@.contains(q) <==> partial_rule(
                    lut,
                    lut_input,
                    prevv,
                    inds,
                    base,
                    gimgb,
                    rows,
                    j2 as int,
                    t + 1,
                    q,
                ) by {
                    if q == p {
                        assert(touched_upto(prevv, inds, base, rows, j2 as int, t + 1, p));
                    } else {
                        assert(itemsj.take(t + 1).contains(q) == itemsj.take(t as int).contains(q))
                            by {
                            if itemsj.take(t + 1).contains(q) {
                                let k0 = choose|k0: int|
                                    0 <= k0 < t + 1 && #[trigger] itemsj.take(t + 1)[k0] == q;
                                assert(k0 < t);
                                assert(itemsj.take(t as int)[k0] == q);
                            } else {
                                if itemsj.take(t as int).contains(q) {
                                    let k0 = choose|k0: int|
                                        0 <= k0 < t && #[trigger] itemsj.take(t as int)[k0] == q;
                                    assert(itemsj.take(t + 1)[k0] == q);
                                }
                            }
                        }
                        assert(touched_upto(prevv, inds, base, rows, j2 as int, t + 1, q)
                            == touched_upto(prevv, inds, base, rows, j2 as int, t as int, q));
                    }
                }
            }
            t = t + 1;
        }
        proof {
            let itemsj = rows[inds[j2 as int] - base].spec_items();
            assert(itemsj.take(cnt as int) =~= itemsj);
            prev_row@[inds[j2 as int] - base].lemma_items_are_view();
            assert forall|q: usize| deps@.contains(q) <==> partial_rule(
                lut,
                lut_input,
                prevv,
                inds,
                base,
                gimgb,
                rows,
                j2 as int + 1,
                0,
                q,
            ) by {
                assert(pset_of(prevv, inds, base, j2 as int) == rows[inds[j2 as int] - base]@);
                assert(touched_upto(prevv, inds, base, rows, j2 as int + 1, 0, q) == touched_upto(
                    prevv,
                    inds,
                    base,
                    rows,
                    j2 as int,
                    cnt as int,
                    q,
                )) by {
                    if touched_upto(prevv, inds, base, rows, j2 as int + 1, 0, q) {
                        let j0 = choose|j0: int|
                            0 <= j0 < j2 as int + 1 && #[trigger] pset_of(
                                prevv,
                                inds,
                                base,
                                j0,
                            ).contains(q);
                        if j0 == j2 as int {
                            assert(itemsj.contains(q));
                        }
                    }
                }
            }
        }
        j2 = j2 + 1;
    }
    proof {
        assert forall|q: usize| deps@.contains(q) <==> spec_corrected_set(
            lut,
            lut_input,
            prevv,
            inds,
            base,
            gimgb,
        ).contains(q) by {
            let mask = spec_occ_mask(prevv, inds, base, q);
            if popcount6(mask) >= 2 {
                assert(touched_upto(prevv, inds, base, rows, 6, 0, q)) by {
                    if pset_of(prevv, inds, base, 0).contains(q) {
                    } else if pset_of(prevv, inds, base, 1).contains(q) {
                    } else if pset_of(prevv, inds, base, 2).contains(q) {
                    } else if pset_of(prevv, inds, base, 3).contains(q) {
                    } else if pset_of(prevv, inds, base, 4).contains(q) {
                    } else if pset_of(prevv, inds, base, 5).contains(q) {
                    } else {
                        assert(mask == 0u8 | 0u8 | 0u8 | 0u8 | 0u8 | 0u8);
                        assert(((0u8 | 0u8 | 0u8 | 0u8 | 0u8 | 0u8) & 1) as int + (((0u8 | 0u8
                            | 0u8 | 0u8 | 0u8 | 0u8) >> 1) & 1) as int + (((0u8 | 0u8 | 0u8 | 0u8
                            | 0u8 | 0u8) >> 2) & 1) as int + (((0u8 | 0u8 | 0u8 | 0u8 | 0u8 | 0u8)
                            >> 3) & 1) as int + (((0u8 | 0u8 | 0u8 | 0u8 | 0u8 | 0u8) >> 4)
                            & 1) as int + (((0u8 | 0u8 | 0u8 | 0u8 | 0u8 | 0u8) >> 5) & 1) as int
                            == 0) by (bit_vector);
                        assert(popcount6(mask) == 0);
                        assert(false);
                    }
                }
            }
        }
        assert(deps@ =~= spec_corrected_set(lut, lut_input, prevv, inds, base, gimgb));
    }
    deps
}

/// The corrected sensitizing sets of layer `layer`'s nodes, for image `m`:
/// layer 0 seeds empty sets (raw inputs are untracked), every later layer
/// applies the per-node rule against the previous layer's sets and the
/// buffer state the layer was evaluated against.
pub open spec fn spec_piv_sets(
    cfg: Configuration,
    nodes: Seq<Node>,
    init: Seq<bool>,
    m: int,
    layer: int,
) -> Seq<Set<usize>>
    decreases layer,
{
    if layer <= 0 {
        Seq::new(cfg.network.layer_sizes@[0] as nat, |n: int| Set::<usize>::empty())
    } else {
        let prev = spec_piv_sets(cfg, nodes, init, m, layer - 1);
        let pre = spec_eval_upto(cfg, nodes, init, layer);
        Seq::new(
            cfg.network.layer_sizes@[layer] as nat,
            |n: int|
                {
                    let node = nodes[cfg.derived.layer_edges@[layer] + n];
                    spec_corrected_set(
                        node.lut,
                        spec_gate_index(pre, node, spec_read_off(cfg, layer, m)),
                        prev,
                        node.indices@,
                        cfg.derived.img_bitcount + cfg.derived.layer_edges@[layer - 1],
                        cfg.derived.img_bitcount as int,
                    )
                },
        )
    }
}

impl crate::netcore::LUTNet {
    /// Evaluates every stripe exactly as `apply_gates_fast` does, and
    /// additionally propagates, per image, each node's corrected
    /// sensitizing set layer by layer. Returns one row per image holding
    /// the final layer's sets, indexed by position within that layer.
    ///
    /// The sets follow the incremental single-input rule with interference
    /// correction (`spec_corrected_set`). That rule matches a brute-force
    /// flip of each upstream node except in one corner: an upstream node
    /// wired directly to more than one input of the same gate is judged by
    /// its single toggles alone, and tables exist where those flip the
    /// output while the joint toggle cancels.
    #[verifier::loop_isolation(false)]
    #[verifier::rlimit(60)]
    pub fn apply_gates_while_tracking_pivotal_nodes(&self, cfg: &Configuration, bv: &mut BitBuf)
        -> (r: Vec<Vec<NodeSet>>)
        requires
            cfg_wf(*cfg),
            crate::netcore::net_matches_cfg(*self, *cfg),
            crate::perimage::nodes_sources_local(self.nodes@, *cfg),
            old(bv)@.len() == cfg.derived.bitvec_size,
        ensures
            final(bv)@ == crate::netcore::spec_eval(*cfg, self.nodes@, old(bv)@),
            r@.len() == cfg.data.batch_size,
            forall|m: int|
                0 <= m < r@.len() ==> (#[trigger] r@[m])@.len() == cfg.network.layer_sizes@[
                cfg.derived.num_layers - 1],
            forall|m: int, n: int|
                0 <= m < r@.len() && 0 <= n < r@[m]@.len() ==> (#[trigger] r@[m]@[n])@
                    == spec_piv_sets(
                    *cfg,
                    self.nodes@,
                    old(bv)@,
                    m,
                    cfg.derived.num_layers - 1,
                )[n],
            forall|m: int, n: int|
                0 <= m < r@.len() && 0 <= n < r@[m]@.len() ==> (#[trigger] r@[m]@[n]).inv(),
    {
        let ghost init = old(bv)@;
        let ghost nodes = self.nodes@;
        proof {
            crate::perimage::lemma_local_implies_feed_forward(nodes, *cfg);
            crate::netcore::lemma_feed_forward_reads_ok(nodes, *cfg);
        }
        let num_layers: usize = cfg.derived.num_layers;
        let batch: usize = cfg.data.batch_size;
        let imgb: usize = cfg.derived.img_bitcount;

        let size0: usize = cfg.network.layer_sizes[0];
        let mut prev: Vec<Vec<NodeSet>> = Vec::new();
        let mut m0: usize = 0;
        while m0 < batch
            invariant
                m0 <= batch,
                prev@.len() == m0,
                forall|m2: int| 0 <= m2 < m0 ==> (#[trigger] prev@[m2])@.len() == size0,
                forall|m2: int, n: int|
                    0 <= m2 < m0 && 0 <= n < size0 ==> (#[trigger] prev@[m2]@[n])@ == Set::<
                        usize,
                    >::empty() && prev@[m2]@[n].inv(),
            decreases batch - m0,
        {
            let mut row: Vec<NodeSet> = Vec::new();
            let mut n0: usize = 0;
            while n0 < size0
                invariant
                    n0 <= size0,
                    row@.len() == n0,
                    forall|n: int|
                        0 <= n < n0 ==> (#[trigger] row@[n])@ == Set::<usize>::empty()
                            && row@[n].inv(),
                decreases size0 - n0,
            {
                row.push(NodeSet::new());
                n0 = n0 + 1;
            }
            prev.push(row);
            m0 = m0 + 1;
        }

        let mut layer: usize = 0;
        while layer < num_layers
            invariant
                layer <= num_layers,
                bv@.len() == cfg.derived.bitvec_size,
                bv@ == spec_eval_upto(*cfg, nodes, init, layer as int),
                prev@.len() == batch,
                forall|m2: int|
                    0 <= m2 < batch ==> (#[trigger] prev@[m2])@.len() == cfg.network.layer_sizes@[
                    if layer == 0 {
                        0
                    } else {
                        layer - 1
                    }],
                forall|m2: int, n: int|
                    0 <= m2 < batch && 0 <= n < prev@[m2]@.len() ==> (#[trigger] prev@[m2]@[n])@
                        == spec_piv_sets(*cfg, nodes, init, m2, if layer == 0 {
                        0
                    } else {
                        layer - 1
                    })[n],
                forall|m2: int, n: int|
                    0 <= m2 < batch && 0 <= n < prev@[m2]@.len() ==> (
                    #[trigger] prev@[m2]@[n]).inv(),
            decreases num_layers - layer,
        {
            let ghost pre = bv@;
            let size: usize = cfg.network.layer_sizes[layer];
            let node_base: usize = cfg.derived.layer_edges[layer];
            proof {
                lemma_layer_step_at(*cfg, layer as int, 0, 0);
                lemma_cfg_edge_succ(*cfg, layer as int);
            }
            let start: usize = cfg.derived.batch_bitcount + batch * node_base;
            let ghost lsize = size as int;
            proof {
                if layer > 0 {
                    crate::iterators::lemma_cfg_edge_ends(*cfg);
                    lemma_edges_mono(*cfg, layer - 1, cfg.derived.num_layers as int);
                    let bt = cfg.data.batch_size as int;
                    let gimgb = cfg.derived.img_bitcount as int;
                    let e = cfg.derived.layer_edges@[layer - 1] as int;
                    let net = cfg.derived.network_size as int;
                    assert(gimgb + e <= bt * (gimgb + net)) by (nonlinear_arith)
                        requires
                            bt >= 1,
                            0 <= e <= net,
                            gimgb >= 0,
                    ;
                }
            }
            let base_addr: usize = if layer == 0 {
                imgb
            } else {
                imgb + cfg.derived.layer_edges[layer - 1]
            };

            let mut results: Vec<bool> = Vec::new();
            let mut next: Vec<Vec<NodeSet>> = Vec::new();
            let mut m: usize = 0;
            while m < batch
                invariant
                    m <= batch,
                    bv@ == pre,
                    results@.len() == m * lsize,
                    forall|t: int|
                        0 <= t < results@.len() ==> results@[t] == spec_node_out(
                            pre,
                            nodes[node_base + t % lsize],
                            spec_read_off(*cfg, layer as int, t / lsize),
                        ),
                    layer > 0 ==> next@.len() == m,
                    layer == 0 ==> next@.len() == 0,
                    forall|m2: int| 0 <= m2 < next@.len() ==> (#[trigger] next@[m2])@.len() == size,
                    forall|m2: int, n: int|
                        0 <= m2 < next@.len() && 0 <= n < size ==> (#[trigger] next@[m2]@[n])@
                            == spec_piv_sets(*cfg, nodes, init, m2, layer as int)[n],
                    forall|m2: int, n: int|
                        0 <= m2 < next@.len() && 0 <= n < size ==> (
                        #[trigger] next@[m2]@[n]).inv(),
                decreases batch - m,
            {
                proof {
                    lemma_read_off_facts(*cfg, layer as int, m as int);
                    if layer > 0 {
                        crate::iterators::lemma_cfg_edge_ends(*cfg);
                        lemma_edges_mono(*cfg, layer - 1, cfg.derived.num_layers as int);
                        lemma_cfg_edge_succ(*cfg, layer - 1);
                        let bt = cfg.data.batch_size as int;
                        let gimgb = cfg.derived.img_bitcount as int;
                        let e = cfg.derived.layer_edges@[layer - 1] as int;
                        let net = cfg.derived.network_size as int;
                        let stride = cfg.network.layer_sizes@[layer - 1] as int;
                        assert(gimgb + e <= bt * (gimgb + net) && (bt - 1) * (gimgb + e) <= bt * (
                        gimgb + net) && (bt - 1) * (gimgb + e) >= 0 && m * stride >= 0)
                            by (nonlinear_arith)
                            requires
                                bt >= 1,
                                0 <= e <= net,
                                gimgb >= 0,
                                0 <= m,
                                stride >= 0,
                        ;
                    } else {
                        assert(m * cfg.derived.img_bitcount >= 0) by (nonlinear_arith)
                            requires
                                m >= 0 && cfg.derived.img_bitcount >= 0,
                        ;
                    }
                }
                let off: usize = if layer == 0 {
                    m * imgb
                } else {
                    (batch - 1) * (imgb + cfg.derived.layer_edges[layer - 1]) + m
                        * cfg.network.layer_sizes[layer - 1]
                };
                proof {
                    assert(off == spec_read_off(*cfg, layer as int, m as int));
                    crate::netcore::lemma_read_off_mono(
                        *cfg,
                        layer as int,
                        m as int,
                        batch as int - 1,
                    );
                }
                let mut next_row: Vec<NodeSet> = Vec::new();
                let mut n: usize = 0;
                while n < size
                    invariant
                        m < batch,
                        n <= size,
                        bv@ == pre,
                        off == spec_read_off(*cfg, layer as int, m as int),
                        spec_read_off(*cfg, layer as int, m as int) <= spec_read_off(
                            *cfg,
                            layer as int,
                            batch as int - 1,
                        ),
                        results@.len() == m * lsize + n,
                        forall|t: int|
                            0 <= t < results@.len() ==> results@[t] == spec_node_out(
                                pre,
                                nodes[node_base + t % lsize],
                                spec_read_off(*cfg, layer as int, t / lsize),
                            ),
                        layer > 0 ==> next_row@.len() == n,
                        layer == 0 ==> next_row@.len() == 0,
                        forall|n0: int|
                            0 <= n0 < next_row@.len() ==> (#[trigger] next_row@[n0])@
                                == spec_piv_sets(*cfg, nodes, init, m as int, layer as int)[n0],
                        forall|n0: int|
                            0 <= n0 < next_row@.len() ==> (#[trigger] next_row@[n0]).inv(),
                    decreases size - n,
                {
                    let node_idx: usize = node_base + n;
                    proof {
                        lemma_edges_mono(*cfg, layer as int + 1, cfg.derived.num_layers as int);
                        crate::iterators::lemma_cfg_edge_ends(*cfg);
                        crate::netcore::lemma_layer_of_locate(*cfg, layer as int, node_idx as int);
                        assert(crate::netcore::node_reads_ok(
                            nodes[node_idx as int],
                            *cfg,
                            layer as int,
                        ));
                    }
                    let node: Node = self.nodes[node_idx];
                    let b0: bool = bv.get(node.indices[0] + off);
                    let b1: bool = bv.get(node.indices[1] + off);
                    let b2: bool = bv.get(node.indices[2] + off);
                    let b3: bool = bv.get(node.indices[3] + off);
                    let b4: bool = bv.get(node.indices[4] + off);
                    let b5: bool = bv.get(node.indices[5] + off);
                    let i0: u8 = if b0 {
                        1
                    } else {
                        0
                    };
                    let i1: u8 = if b1 {
                        1
                    } else {
                        0
                    };
                    let i2: u8 = if b2 {
                        1
                    } else {
                        0
                    };
                    let i3: u8 = if b3 {
                        1
                    } else {
                        0
                    };
                    let i4: u8 = if b4 {
                        1
                    } else {
                        0
                    };
                    let i5: u8 = if b5 {
                        1
                    } else {
                        0
                    };
                    let lut_input: u8 = i0 | (i1 << 1) | (i2 << 2) | (i3 << 3) | (i4 << 4) | (i5
                        << 5);
                    proof {
                        assert(lut_input < 64) by (bit_vector)
                            requires
                                i0 <= 1 && i1 <= 1 && i2 <= 1 && i3 <= 1 && i4 <= 1 && i5 <= 1,
                                lut_input == i0 | (i1 << 1) | (i2 << 2) | (i3 << 3) | (i4 << 4) | (
                                i5 << 5),
                        ;
                        assert(lut_input == spec_gate_index(pre, node, off as int));
                    }
                    let output_bit: bool = ((node.lut >> lut_input) & 1) != 0;
                    results.push(output_bit);
                    proof {
                        let t = m * lsize + n;
                        vstd::arithmetic::div_mod::lemma_fundamental_div_mod_converse(
                            t,
                            lsize,
                            m as int,
                            n as int,
                        );
                        assert(results@[t] == spec_node_out(
                            pre,
                            nodes[node_base + t % lsize],
                            spec_read_off(*cfg, layer as int, t / lsize),
                        ));
                    }
                    if layer > 0 {
                        proof {
                            assert forall|j: int| 0 <= j < 6 implies base_addr <= (
                            #[trigger] node.indices@[j]) && node.indices@[j] - base_addr < prev@[
                                m as int]@.len() by {
                                assert(nodes[node_idx as int].indices@[j] == node.indices@[j]);
                            }
                        }
                        let piv = corrected_set(
                            node.lut,
                            lut_input,
                            &node,
                            &prev[m],
                            base_addr,
                            imgb,
                        );
                        proof {
                            assert(row_view(prev@[m as int]@) =~= spec_piv_sets(
                                *cfg,
                                nodes,
                                init,
                                m as int,
                                layer - 1,
                            ));
                            assert(piv@ == spec_piv_sets(*cfg, nodes, init, m as int, layer as int)[
                            n as int]);
                        }
                        next_row.push(piv);
                    }
                    n = n + 1;
                }
                proof {
                    assert(m * lsize + lsize == (m + 1) * lsize) by (nonlinear_arith);
                }
                if layer > 0 {
                    next.push(next_row);
                }
                m = m + 1;
            }

            let total: usize = results.len();
            let mut t: usize = 0;
            while t < total
                invariant
                    t <= total,
                    total == batch * lsize,
                    results@.len() == total,
                    bv@.len() == cfg.derived.bitvec_size,
                    forall|t0: int|
                        0 <= t0 < results@.len() ==> results@[t0] == spec_node_out(
                            pre,
                            nodes[node_base + t0 % lsize],
                            spec_read_off(*cfg, layer as int, t0 / lsize),
                        ),
                    forall|i: int|
                        0 <= i < bv@.len() ==> bv@[i] == (if start <= i < start + t {
                            results@[i - start]
                        } else {
                            pre[i]
                        }),
                decreases total - t,
            {
                bv.set(start + t, results[t]);
                t = t + 1;
            }
            proof {
                assert(bv@ =~= crate::netcore::spec_layer_commit(*cfg, nodes, pre, layer as int));
            }
            if layer > 0 {
                prev = next;
            }
            layer = layer + 1;
        }
        prev
    }
}

} // verus!
