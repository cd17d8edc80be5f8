//! Selection heuristics over tracked sensitizing sets: which upstream node
//! to flip, scored by how many output bits it influences and whether those
//! bits are currently wrong.
//!
//! All of them consume one row of sets per image, indexed by position
//! within the final layer, as `apply_gates_while_tracking_pivotal_nodes`
//! returns them, together with the loss vector whose chunk of
//! `output_bitsize` bits per image flags the wrong output bits.

use vstd::prelude::*;

use crate::bitbuf::BitBuf;
use crate::pivotal::NodeSet;
use crate::settings::Configuration;
use crate::settings::cfg_wf;

verus! {

/// How many of the first `k` sets contain `p`.
pub open spec fn spec_count_keys(row: Seq<NodeSet>, p: usize, k: int) -> int
    decreases k,
{
    if k <= 0 {
        0
    } else {
        spec_count_keys(row, p, k - 1) + (if row[k - 1]@.contains(p) {
            1int
        } else {
            0int
        })
    }
}

/// The score of `p` over the first `k` sets: +1 for every flagged output
/// bit whose set contains `p`, -1 for every unflagged one.
pub open spec fn spec_score(row: Seq<NodeSet>, fl: Seq<bool>, flstart: int, p: usize, k: int) -> int
    decreases k,
{
    if k <= 0 {
        0
    } else {
        spec_score(row, fl, flstart, p, k - 1) + (if row[k - 1]@.contains(p) {
            if fl[flstart + k - 1] {
                1int
            } else {
                -1int
            }
        } else {
            0int
        })
    }
}

/// Which candidates a row scan has already seen: members of the first `k`
/// sets, plus the first `t` stored items of set `k`.
pub open spec fn piv_touched(row: Seq<NodeSet>, k: int, t: int, q: usize) -> bool {
    (exists|k0: int| 0 <= k0 < k && (#[trigger] row[k0])@.contains(q)) || (0 <= k < row.len()
        && row[k].spec_items().take(t).contains(q))
}

/// A candidate someone's set contains.
pub open spec fn piv_candidate(row: Seq<NodeSet>, q: usize) -> bool {
    exists|k0: int| 0 <= k0 < row.len() && (#[trigger] row[k0])@.contains(q)
}

/// Scores are bounded by the number of sets.
pub proof fn lemma_score_bounds(row: Seq<NodeSet>, fl: Seq<bool>, flstart: int, p: usize, k: int)
    requires
        k >= 0,
    ensures
        -k <= spec_score(row, fl, flstart, p, k) <= k,
        0 <= spec_count_keys(row, p, k) <= k,
    decreases k,
{
    if k > 0 {
        lemma_score_bounds(row, fl, flstart, p, k - 1);
    }
}

/// The score of `p` over one image's sets against that image's loss chunk.
#[verifier::loop_isolation(false)]
fn score_of(row: &Vec<NodeSet>, flags: &BitBuf, flstart: usize, p: usize) -> (r: i64)
    requires
        flstart + row@.len() <= flags@.len(),
        flstart + row@.len() <= usize::MAX,
        row@.len() <= 0x7fff_ffff,
    ensures
        r == spec_score(row@, flags@, flstart as int, p, row@.len() as int),
{
    let mut s: i64 = 0;
    let mut k: usize = 0;
    while k < row.len()
        invariant
            k <= row@.len(),
            s == spec_score(row@, flags@, flstart as int, p, k as int),
            -(k as int) <= s <= k as int,
        decreases row@.len() - k,
    {
        if row[k].contains(p) {
            if flags.get(flstart + k) {
                s = s + 1;
            } else {
                s = s - 1;
            }
        }
        k = k + 1;
    }
    s
}

/// How many sets of one image contain `p`.
#[verifier::loop_isolation(false)]
fn count_keys_of(row: &Vec<NodeSet>, p: usize) -> (r: usize)
    ensures
        r == spec_count_keys(row@, p, row@.len() as int),
{
    let mut c: usize = 0;
    let mut k: usize = 0;
    while k < row.len()
        invariant
            k <= row@.len(),
            c == spec_count_keys(row@, p, k as int),
            c <= k,
        decreases row@.len() - k,
    {
        if row[k].contains(p) {
            c = c + 1;
        }
        k = k + 1;
    }
    c
}

/// Per image, the upstream node contained in the most sensitizing sets,
/// with the set of output keys it influences (`start_key` plus the output
/// bit's position). `None` exactly when every set of that image is empty.
#[verifier::loop_isolation(false)]
pub fn find_most_frequent_pivotal_node(
    pivotal_nodes: &Vec<Vec<NodeSet>>,
    start_key: usize,
) -> (r: Vec<Option<(usize, NodeSet)>>)
    requires
        forall|mi: int|
            0 <= mi < pivotal_nodes@.len() ==> start_key + (#[trigger] pivotal_nodes@[mi])@.len()
                <= usize::MAX,
    ensures
        r@.len() == pivotal_nodes@.len(),
        forall|mi: int|
            0 <= mi < r@.len() ==> match r@[mi] {
                Option::None => forall|q: usize| !piv_candidate((#[trigger] pivotal_nodes@[mi])@, q),
                Option::Some((w, ks)) => {
                    let row = (#[trigger] pivotal_nodes@[mi])@;
                    &&& piv_candidate(row, w)
                    &&& (forall|q: usize|
                        piv_candidate(row, q) ==> spec_count_keys(row, q, row.len() as int)
                            <= spec_count_keys(row, w, row.len() as int))
                    &&& (forall|k: int|
                        0 <= k < row.len() ==> (ks@.contains((start_key + k) as usize) <==> (
                        #[trigger] row[k])@.contains(w)))
                    &&& (forall|q: usize| ks@.contains(q) ==> start_key <= q < start_key + row.len())
                },
            },
{
    let mut out: Vec<Option<(usize, NodeSet)>> = Vec::new();
    let mut mi: usize = 0;
    while mi < pivotal_nodes.len()
        invariant
            mi <= pivotal_nodes@.len(),
            out@.len() == mi,
            forall|m0: int|
                0 <= m0 < mi ==> match out@[m0] {
                    Option::None => forall|q: usize|
                        !piv_candidate((#[trigger] pivotal_nodes@[m0])@, q),
                    Option::Some((w, ks)) => {
                        let row = (#[trigger] pivotal_nodes@[m0])@;
                        &&& piv_candidate(row, w)
                        &&& (forall|q: usize|
                            piv_candidate(row, q) ==> spec_count_keys(row, q, row.len() as int)
                                <= spec_count_keys(row, w, row.len() as int))
                        &&& (forall|k: int|
                            0 <= k < row.len() ==> (ks@.contains((start_key + k) as usize) <==> (
                            #[trigger] row[k])@.contains(w)))
                        &&& (forall|q: usize|
                            ks@.contains(q) ==> start_key <= q < start_key + row.len())
                    },
                },
        decreases pivotal_nodes@.len() - mi,
    {
        let row: &Vec<NodeSet> = &pivotal_nodes[mi];
        let ghost rowv = row@;
        let mut best: Option<usize> = None;
        let mut best_count: usize = 0;
        let mut k: usize = 0;
        while k < row.len()
            invariant
                k <= rowv.len(),
                rowv == row@,
                best is None ==> (forall|q: usize| !piv_touched(rowv, k as int, 0, q))
                    && best_count == 0,
                best is Some ==> piv_candidate(rowv, best->0) && best_count == spec_count_keys(
                    rowv,
                    best->0,
                    rowv.len() as int,
                ) && best_count >= 1 && (forall|q: usize|
                    piv_touched(rowv, k as int, 0, q) ==> spec_count_keys(
                        rowv,
                        q,
                        rowv.len() as int,
                    ) <= best_count),
            decreases rowv.len() - k,
        {
            let cnt: usize = row[k].item_count();
            let mut t: usize = 0;
            while t < cnt
                invariant
                    k < rowv.len(),
                    t <= cnt,
                    rowv == row@,
                    cnt == rowv[k as int].spec_items().len(),
                    best is None ==> (forall|q: usize| !piv_touched(rowv, k as int, t as int, q))
                        && best_count == 0,
                    best is Some ==> piv_candidate(rowv, best->0) && best_count
                        == spec_count_keys(rowv, best->0, rowv.len() as int) && best_count >= 1 && (
                    forall|q: usize|
                        piv_touched(rowv, k as int, t as int, q) ==> spec_count_keys(
                            rowv,
                            q,
                            rowv.len() as int,
                        ) <= best_count),
                decreases cnt - t,
            {
                let p: usize = row[k].item_at(t);
                let c: usize = count_keys_of(row, p);
                proof {
                    assert(rowv[k as int].spec_items().take(t + 1)[t as int] == p);
                    assert(rowv[k as int].spec_items().take(t + 1).drop_last() =~= rowv[
                        k as int].spec_items().take(t as int));
                    rowv[k as int].lemma_items_are_view();
                    assert(rowv[k as int]@.contains(p));
                    assert(c >= 1) by {
                        lemma_count_positive(rowv, p, k as int);
                    }
                }
                if c > best_count {
                    best = Some(p);
                    best_count = c;
                }
                proof {
                    assert forall|q: usize|
                        piv_touched(rowv, k as int, t + 1, q) && q != p implies piv_touched(
                        rowv,
                        k as int,
                        t as int,
                        q,
                    ) by {
                        let items = rowv[k as int].spec_items();
                        if items.take(t + 1).contains(q) {
                            let k0 = choose|k0: int|
                                0 <= k0 < t + 1 && #[trigger] items.take(t + 1)[k0] == q;
                            assert(items.take(t as int)[k0] == q);
                        }
                    }
                    if best is Some {
                        let w = best->0;
                        assert(piv_candidate(rowv, w));
                        assert(best_count == spec_count_keys(rowv, w, rowv.len() as int));
                        assert(best_count >= 1);
                        assert forall|q: usize| piv_touched(rowv, k as int, t + 1, q) implies
                            spec_count_keys(rowv, q, rowv.len() as int) <= best_count by {
                            if q != p {
                                assert(piv_touched(rowv, k as int, t as int, q));
                            }
                        }
                    }
                }
                t = t + 1;
            }
            proof {
                rowv[k as int].lemma_items_are_view();
                assert(rowv[k as int].spec_items().take(cnt as int) =~= rowv[
                    k as int].spec_items());
                assert forall|q: usize|
                    piv_touched(rowv, k as int + 1, 0, q) implies piv_touched(
                    rowv,
                    k as int,
                    cnt as int,
                    q,
                ) by {
                    let k0 = choose|k0: int|
                        0 <= k0 < k as int + 1 && (#[trigger] rowv[k0])@.contains(q);
                    if k0 == k as int {
                        assert(rowv[k as int].spec_items().contains(q));
                        assert(rowv[k as int].spec_items().take(cnt as int).contains(q));
                    } else {
                        assert(0 <= k0 < k as int && rowv[k0]@.contains(q));
                    }
                }
                if best is None {
                    assert forall|q: usize| !(#[trigger] piv_touched(rowv, k as int + 1, 0, q)) by {
                        assert(!piv_touched(rowv, k as int, cnt as int, q));
                    }
                } else {
                    let w = best->0;
                    assert forall|q: usize| piv_touched(rowv, k as int + 1, 0, q) implies
                        spec_count_keys(rowv, q, rowv.len() as int) <= best_count by {
                        assert(piv_touched(rowv, k as int, cnt as int, q));
                    }
                    assert(piv_candidate(rowv, w));
                    assert(best_count == spec_count_keys(rowv, w, rowv.len() as int));
                    assert(best_count >= 1);
                }
            }
            k = k + 1;
        }
        match best {
            None => {
                proof {
                    assert forall|q: usize| !piv_candidate(rowv, q) by {
                        if piv_candidate(rowv, q) {
                            let k0 = choose|k0: int|
                                0 <= k0 < rowv.len() && (#[trigger] rowv[k0])@.contains(q);
                            assert(piv_touched(rowv, rowv.len() as int, 0, q));
                        }
                    }
                }
                out.push(None);
            },
            Some(w) => {
                let mut ks = NodeSet::new();
                let mut k2: usize = 0;
                while k2 < row.len()
                    invariant
                        k2 <= rowv.len(),
                        rowv == row@,
                        start_key + rowv.len() <= usize::MAX,
                        ks.inv(),
                        forall|k0: int|
                            0 <= k0 < rowv.len() ==> (ks@.contains((start_key + k0) as usize) <==> (
                            k0 < k2 && (#[trigger] rowv[k0])@.contains(w))),
                        forall|q: usize|
                            ks@.contains(q) ==> start_key <= q < start_key + k2,
                    decreases rowv.len() - k2,
                {
                    if row[k2].contains(w) {
                        ks.insert(start_key + k2);
                    }
                    k2 = k2 + 1;
                }
                proof {
                    assert forall|q: usize|
                        piv_candidate(rowv, q) implies spec_count_keys(rowv, q, rowv.len() as int)
                        <= best_count by {
                        let k0 = choose|k0: int|
                            0 <= k0 < rowv.len() && (#[trigger] rowv[k0])@.contains(q);
                        assert(piv_touched(rowv, rowv.len() as int, 0, q));
                    }
                }
                out.push(Some((w, ks)));
            },
        }
        mi = mi + 1;
    }
    out
}

/// A set that contains `p` contributes to `p`'s key count.
proof fn lemma_count_positive(row: Seq<NodeSet>, p: usize, k: int)
    requires
        0 <= k < row.len(),
        row[k]@.contains(p),
    ensures
        spec_count_keys(row, p, row.len() as int) >= 1,
{
    lemma_count_step(row, p, k + 1, row.len() as int);
    lemma_score_bounds(row, Seq::empty(), 0, p, k);
}

/// Key counts grow along the scan.
proof fn lemma_count_step(row: Seq<NodeSet>, p: usize, k1: int, k2: int)
    requires
        0 <= k1 <= k2,
    ensures
        spec_count_keys(row, p, k1) <= spec_count_keys(row, p, k2),
    decreases k2 - k1,
{
    if k1 < k2 {
        lemma_count_step(row, p, k1, k2 - 1);
    }
}

/// Per image, an upstream node of maximal score; 0 when the image has no
/// candidate at all.
#[verifier::loop_isolation(false)]
pub fn find_pivotal_node_with_scoring(
    cfg: &Configuration,
    pivotal_nodes: &Vec<Vec<NodeSet>>,
    flags: &BitBuf,
) -> (r: Vec<usize>)
    requires
        cfg_wf(*cfg),
        pivotal_nodes@.len() <= cfg.data.batch_size,
        forall|mi: int|
            0 <= mi < pivotal_nodes@.len() ==> (#[trigger] pivotal_nodes@[mi])@.len()
                == cfg.derived.output_bitsize,
        flags@.len() == cfg.data.batch_size * cfg.derived.output_bitsize,
        cfg.data.batch_size * cfg.derived.output_bitsize <= usize::MAX,
        cfg.derived.output_bitsize <= 0x7fff_ffff,
    ensures
        r@.len() == pivotal_nodes@.len(),
        forall|mi: int|
            0 <= mi < r@.len() ==> {
                let row = (#[trigger] pivotal_nodes@[mi])@;
                let flstart = mi * cfg.derived.output_bitsize;
                if exists|q: usize| piv_candidate(row, q) {
                    piv_candidate(row, r@[mi]) && (forall|q: usize|
                        piv_candidate(row, q) ==> spec_score(
                            row,
                            flags@,
                            flstart,
                            q,
                            row.len() as int,
                        ) <= spec_score(row, flags@, flstart, r@[mi], row.len() as int))
                } else {
                    r@[mi] == 0
                }
            },
{
    let out_bits: usize = cfg.derived.output_bitsize;
    let mut out: Vec<usize> = Vec::new();
    let mut mi: usize = 0;
    while mi < pivotal_nodes.len()
        invariant
            mi <= pivotal_nodes@.len(),
            out@.len() == mi,
            forall|m0: int|
                0 <= m0 < mi ==> {
                    let row = (#[trigger] pivotal_nodes@[m0])@;
                    let flstart = m0 * cfg.derived.output_bitsize;
                    if exists|q: usize| piv_candidate(row, q) {
                        piv_candidate(row, out@[m0]) && (forall|q: usize|
                            piv_candidate(row, q) ==> spec_score(
                                row,
                                flags@,
                                flstart,
                                q,
                                row.len() as int,
                            ) <= spec_score(row, flags@, flstart, out@[m0], row.len() as int))
                    } else {
                        out@[m0] == 0
                    }
                },
        decreases pivotal_nodes@.len() - mi,
    {
        proof {
            let bt = cfg.data.batch_size as int;
            let o = cfg.derived.output_bitsize as int;
            assert(mi * o + o <= bt * o && 0 <= mi * o) by (nonlinear_arith)
                requires
                    0 <= mi < bt,
                    o >= 0,
            ;
        }
        let flstart: usize = mi * out_bits;
        let row: &Vec<NodeSet> = &pivotal_nodes[mi];
        let ghost rowv = row@;
        let ghost gfl = flstart as int;
        let mut best: Option<usize> = None;
        let mut best_score: i64 = 0;
        let mut k: usize = 0;
        while k < row.len()
            invariant
                k <= rowv.len(),
                rowv == row@,
                flstart + rowv.len() <= flags@.len(),
                flstart + rowv.len() <= usize::MAX,
                rowv.len() <= 0x7fff_ffff,
                gfl == flstart as int,
                best is None ==> (forall|q: usize| !piv_touched(rowv, k as int, 0, q)),
                best is Some ==> piv_candidate(rowv, best->0) && best_score == spec_score(
                    rowv,
                    flags@,
                    gfl,
                    best->0,
                    rowv.len() as int,
                ) && (forall|q: usize|
                    piv_touched(rowv, k as int, 0, q) ==> spec_score(
                        rowv,
                        flags@,
                        gfl,
                        q,
                        rowv.len() as int,
                    ) <= best_score),
            decreases rowv.len() - k,
        {
            let cnt: usize = row[k].item_count();
            let mut t: usize = 0;
            while t < cnt
                invariant
                    k < rowv.len(),
                    t <= cnt,
                    rowv == row@,
                    flstart + rowv.len() <= flags@.len(),
                    flstart + rowv.len() <= usize::MAX,
                    rowv.len() <= 0x7fff_ffff,
                    gfl == flstart as int,
                    cnt == rowv[k as int].spec_items().len(),
                    best is None ==> (forall|q: usize| !piv_touched(rowv, k as int, t as int, q)),
                    best is Some ==> piv_candidate(rowv, best->0) && best_score == spec_score(
                        rowv,
                        flags@,
                        gfl,
                        best->0,
                        rowv.len() as int,
                    ) && (forall|q: usize|
                        piv_touched(rowv, k as int, t as int, q) ==> spec_score(
                            rowv,
                            flags@,
                            gfl,
                            q,
                            rowv.len() as int,
                        ) <= best_score),
                decreases cnt - t,
            {
                let p: usize = row[k].item_at(t);
                let s: i64 = score_of(row, flags, flstart, p);
                proof {
                    assert(rowv[k as int].spec_items().take(t + 1)[t as int] == p);
                    assert(rowv[k as int].spec_items().take(t + 1).drop_last() =~= rowv[
                        k as int].spec_items().take(t as int));
                    rowv[k as int].lemma_items_are_view();
                    assert(rowv[k as int]@.contains(p));
                }
                match best {
                    None => {
                        best = Some(p);
                        best_score = s;
                    },
                    Some(_) => {
                        if s > best_score {
                            best = Some(p);
                            best_score = s;
                        }
                    },
                }
                proof {
                    assert forall|q: usize|
                        piv_touched(rowv, k as int, t + 1, q) && q != p implies piv_touched(
                        rowv,
                        k as int,
                        t as int,
                        q,
                    ) by {
                        let items = rowv[k as int].spec_items();
                        if items.take(t + 1).contains(q) {
                            let k0 = choose|k0: int|
                                0 <= k0 < t + 1 && #[trigger] items.take(t + 1)[k0] == q;
                            assert(items.take(t as int)[k0] == q);
                        }
                    }
                    if best is Some {
                        let w = best->0;
                        assert(piv_candidate(rowv, w));
                        assert(best_score == spec_score(rowv, flags@, gfl, w, rowv.len() as int));
                        assert forall|q: usize| piv_touched(rowv, k as int, t + 1, q) implies
                            spec_score(rowv, flags@, gfl, q, rowv.len() as int) <= best_score by {
                            if q != p {
                                assert(piv_touched(rowv, k as int, t as int, q));
                            }
                        }
                    }
                }
                t = t + 1;
            }
            proof {
                rowv[k as int].lemma_items_are_view();
                assert(rowv[k as int].spec_items().take(cnt as int) =~= rowv[
                    k as int].spec_items());
                assert forall|q: usize|
                    piv_touched(rowv, k as int + 1, 0, q) implies piv_touched(
                    rowv,
                    k as int,
                    cnt as int,
                    q,
                ) by {
                    let k0 = choose|k0: int|
                        0 <= k0 < k as int + 1 && (#[trigger] rowv[k0])@.contains(q);
                    if k0 == k as int {
                        assert(rowv[k as int].spec_items().contains(q));
                        assert(rowv[k as int].spec_items().take(cnt as int).contains(q));
                    } else {
                        assert(0 <= k0 < k as int && rowv[k0]@.contains(q));
                    }
                }
                if best is None {
                    assert forall|q: usize| !(#[trigger] piv_touched(rowv, k as int + 1, 0, q)) by {
                        assert(!piv_touched(rowv, k as int, cnt as int, q));
                    }
                } else {
                    let w = best->0;
                    assert forall|q: usize| piv_touched(rowv, k as int + 1, 0, q) implies
                        spec_score(rowv, flags@, gfl, q, rowv.len() as int) <= best_score by {
                        assert(piv_touched(rowv, k as int, cnt as int, q));
                    }
                    assert(piv_candidate(rowv, w));
                    assert(best_score == spec_score(rowv, flags@, gfl, w, rowv.len() as int));
                }
            }
            k = k + 1;
        }
        proof {
            assert forall|q: usize| piv_candidate(rowv, q) implies piv_touched(
                rowv,
                rowv.len() as int,
                0,
                q,
            ) by {
                let k0 = choose|k0: int| 0 <= k0 < rowv.len() && (#[trigger] rowv[k0])@.contains(q);
            }
            if best is None {
                assert forall|q: usize| !piv_candidate(rowv, q) by {
                    if piv_candidate(rowv, q) {
                        assert(piv_touched(rowv, rowv.len() as int, 0, q));
                    }
                }
            }
        }
        match best {
            None => out.push(0),
            Some(w) => out.push(w),
        }
        mi = mi + 1;
    }
    out
}

/// The score of `p` for one fixed output key over the first `m` images:
/// +1 per image whose key-`k` set contains `p` and whose key bit is
/// flagged, -1 when it is not.
pub open spec fn spec_key_score(
    rows: Seq<Vec<NodeSet>>,
    fl: Seq<bool>,
    out: int,
    k: int,
    p: usize,
    m: int,
) -> int
    decreases m,
{
    if m <= 0 {
        0
    } else {
        spec_key_score(rows, fl, out, k, p, m - 1) + (if rows[m - 1]@[k]@.contains(p) {
            if fl[(m - 1) * out + k] {
                1int
            } else {
                -1int
            }
        } else {
            0int
        })
    }
}

/// A node some image's key-`k` set contains.
pub open spec fn key_candidate(rows: Seq<Vec<NodeSet>>, k: int, q: usize) -> bool {
    exists|mi: int| 0 <= mi < rows.len() && (#[trigger] rows[mi])@[k]@.contains(q)
}

/// Which candidates a per-key scan has seen: members of key `k`'s set in
/// the first `mi` images, plus the first `t` stored items of image `mi`'s.
pub open spec fn key_touched(rows: Seq<Vec<NodeSet>>, k: int, mi: int, t: int, q: usize) -> bool {
    (exists|m0: int| 0 <= m0 < mi && (#[trigger] rows[m0])@[k]@.contains(q)) || (0 <= mi
        < rows.len() && rows[mi]@[k].spec_items().take(t).contains(q))
}

/// The key score of `p` over all images.
#[verifier::loop_isolation(false)]
fn key_score_of(
    rows: &Vec<Vec<NodeSet>>,
    flags: &BitBuf,
    out_bits: usize,
    k: usize,
    p: usize,
) -> (r: i64)
    requires
        forall|mi: int| 0 <= mi < rows@.len() ==> k < (#[trigger] rows@[mi])@.len(),
        forall|mi: int| 0 <= mi < rows@.len() ==> #[trigger] ((mi + 1) * out_bits) <= flags@.len(),
        rows@.len() <= 0x7fff_ffff,
        k < out_bits,
        rows@.len() * out_bits <= usize::MAX,
    ensures
        r == spec_key_score(rows@, flags@, out_bits as int, k as int, p, rows@.len() as int),
{
    let mut s: i64 = 0;
    let mut mi: usize = 0;
    while mi < rows.len()
        invariant
            mi <= rows@.len(),
            s == spec_key_score(rows@, flags@, out_bits as int, k as int, p, mi as int),
            -(mi as int) <= s <= mi as int,
        decreases rows@.len() - mi,
    {
        proof {
            assert(mi * out_bits + k < (mi + 1) * out_bits && 0 <= mi * out_bits && (mi + 1)
                * out_bits <= rows@.len() * out_bits) by (nonlinear_arith)
                requires
                    0 <= mi < rows@.len(),
                    0 <= k < out_bits,
            ;
        }
        if rows[mi][k].contains(p) {
            if flags.get(mi * out_bits + k) {
                s = s + 1;
            } else {
                s = s - 1;
            }
        }
        mi = mi + 1;
    }
    s
}

/// Per output key, the upstream node of maximal key score, or `None` when
/// no image's set for that key holds a candidate.
#[verifier::loop_isolation(false)]
pub fn find_pivotal_nodes_by_key(
    cfg: &Configuration,
    pivotal_nodes: &Vec<Vec<NodeSet>>,
    flags: &BitBuf,
) -> (r: Vec<Option<usize>>)
    requires
        cfg_wf(*cfg),
        pivotal_nodes@.len() <= cfg.data.batch_size,
        forall|mi: int|
            0 <= mi < pivotal_nodes@.len() ==> (#[trigger] pivotal_nodes@[mi])@.len()
                == cfg.derived.output_bitsize,
        flags@.len() == cfg.data.batch_size * cfg.derived.output_bitsize,
        cfg.data.batch_size * cfg.derived.output_bitsize <= usize::MAX,
        cfg.data.batch_size <= 0x7fff_ffff,
    ensures
        r@.len() == cfg.derived.output_bitsize,
        forall|k: int|
            #![trigger r@[k]]
            0 <= k < r@.len() ==> match r@[k] {
                Option::None => forall|q: usize| !key_candidate(pivotal_nodes@, k, q),
                Option::Some(w) => key_candidate(pivotal_nodes@, k, w) && (forall|q: usize|
                    key_candidate(pivotal_nodes@, k, q) ==> spec_key_score(
                        pivotal_nodes@,
                        flags@,
                        cfg.derived.output_bitsize as int,
                        k,
                        q,
                        pivotal_nodes@.len() as int,
                    ) <= spec_key_score(
                        pivotal_nodes@,
                        flags@,
                        cfg.derived.output_bitsize as int,
                        k,
                        w,
                        pivotal_nodes@.len() as int,
                    )),
            },
{
    let out_bits: usize = cfg.derived.output_bitsize;
    let ghost rows = pivotal_nodes@;
    let ghost gout = out_bits as int;
    proof {
        let bt = cfg.data.batch_size as int;
        assert(rows.len() * gout <= bt * gout) by (nonlinear_arith)
            requires
                0 <= rows.len() <= bt,
                gout >= 0,
        ;
        assert forall|mi: int| 0 <= mi < rows.len() implies #[trigger] ((mi + 1) * out_bits)
            <= flags@.len() by {
            assert((mi + 1) * gout <= bt * gout) by (nonlinear_arith)
                requires
                    0 <= mi < rows.len() <= bt,
                    gout >= 0,
            ;
        }
    }
    let mut out: Vec<Option<usize>> = Vec::new();
    let mut k: usize = 0;
    while k < out_bits
        invariant
            k <= out_bits,
            out@.len() == k,
            forall|k0: int|
                #![trigger out@[k0]]
                0 <= k0 < k ==> match out@[k0] {
                    Option::None => forall|q: usize| !key_candidate(rows, k0, q),
                    Option::Some(w) => key_candidate(rows, k0, w) && (forall|q: usize|
                        key_candidate(rows, k0, q) ==> spec_key_score(
                            rows,
                            flags@,
                            gout,
                            k0,
                            q,
                            rows.len() as int,
                        ) <= spec_key_score(rows, flags@, gout, k0, w, rows.len() as int)),
                },
        decreases out_bits - k,
    {
        let mut best: Option<usize> = None;
        let mut best_score: i64 = 0;
        let mut mi: usize = 0;
        while mi < pivotal_nodes.len()
            invariant
                mi <= rows.len(),
                k < out_bits,
                best is None ==> (forall|q: usize| !key_touched(rows, k as int, mi as int, 0, q)),
                best is Some ==> key_candidate(rows, k as int, best->0) && best_score
                    == spec_key_score(rows, flags@, gout, k as int, best->0, rows.len() as int)
                    && (forall|q: usize|
                    key_touched(rows, k as int, mi as int, 0, q) ==> spec_key_score(
                        rows,
                        flags@,
                        gout,
                        k as int,
                        q,
                        rows.len() as int,
                    ) <= best_score),
            decreases rows.len() - mi,
        {
            let cnt: usize = pivotal_nodes[mi][k].item_count();
            let mut t: usize = 0;
            while t < cnt
                invariant
                    mi < rows.len(),
                    t <= cnt,
                    k < out_bits,
                    cnt == rows[mi as int]@[k as int].spec_items().len(),
                    best is None ==> (forall|q: usize|
                        !key_touched(rows, k as int, mi as int, t as int, q)),
                    best is Some ==> key_candidate(rows, k as int, best->0) && best_score
                        == spec_key_score(rows, flags@, gout, k as int, best->0, rows.len() as int)
                        && (forall|q: usize|
                        key_touched(rows, k as int, mi as int, t as int, q) ==> spec_key_score(
                            rows,
                            flags@,
                            gout,
                            k as int,
                            q,
                            rows.len() as int,
                        ) <= best_score),
                decreases cnt - t,
            {
                let p: usize = pivotal_nodes[mi][k].item_at(t);
                let s: i64 = key_score_of(pivotal_nodes, flags, out_bits, k, p);
                proof {
                    let items = rows[mi as int]@[k as int].spec_items();
                    assert(items.take(t + 1)[t as int] == p);
                    assert(items.take(t + 1).drop_last() =~= items.take(t as int));
                    rows[mi as int]@[k as int].lemma_items_are_view();
                    assert(rows[mi as int]@[k as int]@.contains(p));
                }
                match best {
                    None => {
                        best = Some(p);
                        best_score = s;
                    },
                    Some(_) => {
                        if s > best_score {
                            best = Some(p);
                            best_score = s;
                        }
                    },
                }
                proof {
                    let items = rows[mi as int]@[k as int].spec_items();
                    assert forall|q: usize|
                        key_touched(rows, k as int, mi as int, t + 1, q) && q != p implies
                        key_touched(rows, k as int, mi as int, t as int, q) by {
                        if items.take(t + 1).contains(q) {
                            let k0 = choose|k0: int|
                                0 <= k0 < t + 1 && #[trigger] items.take(t + 1)[k0] == q;
                            assert(items.take(t as int)[k0] == q);
                        }
                    }
                    if best is Some {
                        let w = best->0;
                        assert(key_candidate(rows, k as int, w));
                        assert(best_score == spec_key_score(
                            rows,
                            flags@,
                            gout,
                            k as int,
                            w,
                            rows.len() as int,
                        ));
                        assert forall|q: usize|
                            key_touched(rows, k as int, mi as int, t + 1, q) implies spec_key_score(
                            rows,
                            flags@,
                            gout,
                            k as int,
                            q,
                            rows.len() as int,
                        ) <= best_score by {
                            if q != p {
                                assert(key_touched(rows, k as int, mi as int, t as int, q));
                            }
                        }
                    }
                }
                t = t + 1;
            }
            proof {
                let items = rows[mi as int]@[k as int].spec_items();
                rows[mi as int]@[k as int].lemma_items_are_view();
                assert(items.take(cnt as int) =~= items);
                assert forall|q: usize|
                    key_touched(rows, k as int, mi as int + 1, 0, q) implies key_touched(
                    rows,
                    k as int,
                    mi as int,
                    cnt as int,
                    q,
                ) by {
                    let m0 = choose|m0: int|
                        0 <= m0 < mi as int + 1 && (#[trigger] rows[m0])@[k as int]@.contains(q);
                    if m0 == mi as int {
                        assert(items.contains(q));
                        assert(items.take(cnt as int).contains(q));
                    } else {
                        assert(0 <= m0 < mi as int && rows[m0]@[k as int]@.contains(q));
                    }
                }
                if best is None {
                    assert forall|q: usize|
                        !(#[trigger] key_touched(rows, k as int, mi as int + 1, 0, q)) by {
                        assert(!key_touched(rows, k as int, mi as int, cnt as int, q));
                    }
                } else {
                    let w = best->0;
                    assert forall|q: usize|
                        key_touched(rows, k as int, mi as int + 1, 0, q) implies spec_key_score(
                        rows,
                        flags@,
                        gout,
                        k as int,
                        q,
                        rows.len() as int,
                    ) <= best_score by {
                        assert(key_touched(rows, k as int, mi as int, cnt as int, q));
                    }
                    assert(key_candidate(rows, k as int, w));
                    assert(best_score == spec_key_score(
                        rows,
                        flags@,
                        gout,
                        k as int,
                        w,
                        rows.len() as int,
                    ));
                }
            }
            mi = mi + 1;
        }
        proof {
            assert forall|q: usize| key_candidate(rows, k as int, q) implies key_touched(
                rows,
                k as int,
                rows.len() as int,
                0,
                q,
            ) by {
                let m0 = choose|m0: int|
                    0 <= m0 < rows.len() && (#[trigger] rows[m0])@[k as int]@.contains(q);
            }
            if best is None {
                assert forall|q: usize| !(#[trigger] key_candidate(rows, k as int, q)) by {
                    if key_candidate(rows, k as int, q) {
                        assert(key_touched(rows, k as int, rows.len() as int, 0, q));
                    }
                }
            }
        }
        out.push(best);
        k = k + 1;
    }
    out
}

/// The smallest not-yet-disqualified member of a set, if any.
pub open spec fn is_min_choice(s: Set<usize>, dq: Set<usize>, v: usize) -> bool {
    s.contains(v) && !dq.contains(v) && (forall|u: usize|
        s.contains(u) && !dq.contains(u) ==> v <= u)
}

/// One greedy assignment pass over one image's sets, walking the output
/// keys in order: an unassigned key picks the smallest not-yet-disqualified
/// node of its set; that node is assigned to every key whose set holds it,
/// and every member of those keys' sets is disqualified.
pub open spec fn spec_greedy(row: Seq<NodeSet>, k: int) -> (Seq<Option<usize>>, Set<usize>)
    decreases k,
{
    if k <= 0 {
        (Seq::new(row.len(), |i: int| Option::<usize>::None), Set::empty())
    } else {
        let prev = spec_greedy(row, k - 1);
        let asg = prev.0;
        let dq = prev.1;
        if asg[k - 1] is Some {
            prev
        } else if exists|v: usize| #[trigger] is_min_choice(row[k - 1]@, dq, v) {
            let c = choose|v: usize| #[trigger] is_min_choice(row[k - 1]@, dq, v);
            (
                Seq::new(
                    row.len(),
                    |i: int|
                        if row[i]@.contains(c) {
                            Option::Some(c)
                        } else {
                            asg[i]
                        },
                ),
                Set::new(
                    |x: usize|
                        dq.contains(x) || exists|i: int|
                            0 <= i < row.len() && (#[trigger] row[i])@.contains(c)
                                && row[i]@.contains(x),
                ),
            )
        } else {
            prev
        }
    }
}

/// Per image, a greedy cover of the output keys: each key gets one node of
/// its sensitizing set, keys sharing that node are settled together, and a
/// settled key's whole set is withdrawn from later picks, driving later
/// keys toward different upstream nodes.
#[verifier::loop_isolation(false)]
#[verifier::rlimit(60)]
pub fn find_randomized_selections(pivotal_nodes: &Vec<Vec<NodeSet>>) -> (r: Vec<Vec<Option<usize>>>)
    ensures
        r@.len() == pivotal_nodes@.len(),
        forall|mi: int|
            0 <= mi < r@.len() ==> (#[trigger] r@[mi])@ == spec_greedy(
                pivotal_nodes@[mi]@,
                pivotal_nodes@[mi]@.len() as int,
            ).0,
{
    let mut out: Vec<Vec<Option<usize>>> = Vec::new();
    let mut mi: usize = 0;
    while mi < pivotal_nodes.len()
        invariant
            mi <= pivotal_nodes@.len(),
            out@.len() == mi,
            forall|m0: int|
                0 <= m0 < mi ==> (#[trigger] out@[m0])@ == spec_greedy(
                    pivotal_nodes@[m0]@,
                    pivotal_nodes@[m0]@.len() as int,
                ).0,
        decreases pivotal_nodes@.len() - mi,
    {
        let row: &Vec<NodeSet> = &pivotal_nodes[mi];
        let ghost rowv = row@;
        let n_keys: usize = row.len();
        let mut assigned: Vec<Option<usize>> = Vec::new();
        let mut i0: usize = 0;
        while i0 < n_keys
            invariant
                i0 <= n_keys,
                assigned@.len() == i0,
                forall|i: int| 0 <= i < i0 ==> (#[trigger] assigned@[i]) is None,
            decreases n_keys - i0,
        {
            assigned.push(None);
            i0 = i0 + 1;
        }
        let mut disq = NodeSet::new();
        proof {
            assert(assigned@ =~= spec_greedy(rowv, 0).0);
            assert(disq@ =~= spec_greedy(rowv, 0).1);
        }
        let mut k: usize = 0;
        while k < n_keys
            invariant
                k <= n_keys,
                n_keys == rowv.len(),
                rowv == row@,
                assigned@.len() == n_keys,
                disq.inv(),
                assigned@ == spec_greedy(rowv, k as int).0,
                disq@ == spec_greedy(rowv, k as int).1,
            decreases n_keys - k,
        {
            if assigned[k].is_none() {
                // The smallest set member that is still allowed.
                let cnt: usize = row[k].item_count();
                let mut choice: Option<usize> = None;
                let mut t: usize = 0;
                while t < cnt
                    invariant
                        t <= cnt,
                        k < rowv.len(),
                        rowv == row@,
                        cnt == rowv[k as int].spec_items().len(),
                        disq.inv(),
                        choice is None ==> (forall|t0: int|
                            0 <= t0 < t ==> disq@.contains(
                                #[trigger] rowv[k as int].spec_items()[t0],
                            )),
                        choice matches Some(c) ==> rowv[k as int]@.contains(c) && !disq@.contains(
                            c,
                        ) && (forall|t0: int|
                            0 <= t0 < t ==> (disq@.contains(
                                #[trigger] rowv[k as int].spec_items()[t0],
                            ) || c <= rowv[k as int].spec_items()[t0])),
                    decreases cnt - t,
                {
                    let p: usize = row[k].item_at(t);
                    if !disq.contains(p) {
                        match choice {
                            None => {
                                choice = Some(p);
                            },
                            Some(c) => {
                                if p < c {
                                    choice = Some(p);
                                }
                            },
                        }
                    }
                    t = t + 1;
                }
                proof {
                    rowv[k as int].lemma_items_are_view();
                    if choice is Some {
                        let c = choice->0;
                        assert forall|u: usize|
                            rowv[k as int]@.contains(u) && !disq@.contains(u) implies c <= u by {
                            let t0 = choose|t0: int|
                                0 <= t0 < cnt && #[trigger] rowv[k as int].spec_items()[t0] == u;
                        }
                        assert(is_min_choice(rowv[k as int]@, disq@, c));
                    } else {
                        assert forall|v: usize|
                            !(#[trigger] is_min_choice(rowv[k as int]@, disq@, v)) by {
                            if rowv[k as int]@.contains(v) && !disq@.contains(v) {
                                let t0 = choose|t0: int|
                                    0 <= t0 < cnt && #[trigger] rowv[k as int].spec_items()[t0]
                                        == v;
                            }
                        }
                    }
                }
                if let Some(chosen) = choice {
                    let ghost asg_before = assigned@;
                    let ghost dq_before = disq@;
                    proof {
                        let cspec = choose|v: usize| is_min_choice(rowv[k as int]@, dq_before, v);
                        assert(is_min_choice(rowv[k as int]@, dq_before, chosen));
                        assert(cspec == chosen) by {
                            assert(cspec <= chosen && chosen <= cspec);
                        }
                    }
                    let mut i: usize = 0;
                    while i < n_keys
                        invariant
                            i <= n_keys,
                            n_keys == rowv.len(),
                            rowv == row@,
                            assigned@.len() == n_keys,
                            disq.inv(),
                            is_min_choice(rowv[k as int]@, dq_before, chosen),
                            forall|i1: int|
                                0 <= i1 < n_keys ==> (#[trigger] assigned@[i1]) == (if i1 < i
                                    && rowv[i1]@.contains(chosen) {
                                    Option::Some(chosen)
                                } else {
                                    asg_before[i1]
                                }),
                            forall|x: usize|
                                disq@.contains(x) <==> (dq_before.contains(x) || exists|i1: int|
                                    0 <= i1 < i && (#[trigger] rowv[i1])@.contains(chosen)
                                        && rowv[i1]@.contains(x)),
                        decreases n_keys - i,
                    {
                        let ghost dq_iter = disq@;
                        let has: bool = row[i].contains(chosen);
                        if has {
                            assigned.set(i, Some(chosen));
                            disq.union_with(&row[i]);
                        }
                        proof {
                            assert forall|x: usize| disq@.contains(x) implies (dq_before.contains(
                                x,
                            ) || exists|i1: int|
                                0 <= i1 < i + 1 && (#[trigger] rowv[i1])@.contains(chosen)
                                    && rowv[i1]@.contains(x)) by {
                                if has && rowv[i as int]@.contains(x) {
                                    assert(rowv[i as int]@.contains(chosen));
                                } else {
                                    assert(dq_iter.contains(x));
                                    if !dq_before.contains(x) {
                                        let i1 = choose|i1: int|
                                            0 <= i1 < i && (#[trigger] rowv[i1])@.contains(chosen)
                                                && rowv[i1]@.contains(x);
                                    }
                                }
                            }
                            assert forall|x: usize|
                                (dq_before.contains(x) || exists|i1: int|
                                    0 <= i1 < i + 1 && (#[trigger] rowv[i1])@.contains(chosen)
                                        && rowv[i1]@.contains(x)) implies disq@.contains(x) by {
                                if dq_before.contains(x) {
                                    assert(dq_iter.contains(x));
                                } else {
                                    let i1 = choose|i1: int|
                                        0 <= i1 < i + 1 && (#[trigger] rowv[i1])@.contains(chosen)
                                            && rowv[i1]@.contains(x);
                                    if i1 < i {
                                        assert(dq_iter.contains(x));
                                    } else {
                                        assert(i1 == i as int);
                                        assert(rowv[i as int]@.contains(chosen));
                                        assert(has);
                                    }
                                }
                            }
                        }
                        i = i + 1;
                    }
                    proof {
                        assert(assigned@ =~= spec_greedy(rowv, k as int + 1).0);
                        assert(disq@ =~= spec_greedy(rowv, k as int + 1).1);
                    }
                } else {
                    proof {
                        assert(assigned@ == spec_greedy(rowv, k as int + 1).0);
                        assert(disq@ == spec_greedy(rowv, k as int + 1).1);
                    }
                }
            } else {
                proof {
                    assert(assigned@ == spec_greedy(rowv, k as int + 1).0);
                    assert(disq@ == spec_greedy(rowv, k as int + 1).1);
                }
            }
            k = k + 1;
        }
        out.push(assigned);
        mi = mi + 1;
    }
    out
}

/// The score of `p` summed over the first `m` images.
pub open spec fn spec_gscore(
    rows: Seq<Vec<NodeSet>>,
    fl: Seq<bool>,
    out: int,
    p: usize,
    m: int,
) -> int
    decreases m,
{
    if m <= 0 {
        0
    } else {
        spec_gscore(rows, fl, out, p, m - 1) + spec_score(
            rows[m - 1]@,
            fl,
            (m - 1) * out,
            p,
            rows[m - 1]@.len() as int,
        )
    }
}

/// A node some image's sets contain.
pub open spec fn gcandidate(rows: Seq<Vec<NodeSet>>, q: usize) -> bool {
    exists|mi: int| 0 <= mi < rows.len() && piv_candidate((#[trigger] rows[mi])@, q)
}

/// Which candidates a whole-batch scan has seen.
pub open spec fn gtouched(rows: Seq<Vec<NodeSet>>, mi: int, k: int, t: int, q: usize) -> bool {
    (exists|m0: int| 0 <= m0 < mi && piv_candidate((#[trigger] rows[m0])@, q)) || (0 <= mi
        < rows.len() && piv_touched(rows[mi]@, k, t, q))
}

/// The score of `p` over every image of the batch.
#[verifier::loop_isolation(false)]
fn global_score_of(rows: &Vec<Vec<NodeSet>>, flags: &BitBuf, out_bits: usize, p: usize) -> (r: i64)
    requires
        forall|mi: int| 0 <= mi < rows@.len() ==> (#[trigger] rows@[mi])@.len() == out_bits,
        forall|mi: int| 0 <= mi < rows@.len() ==> #[trigger] ((mi + 1) * out_bits) <= flags@.len(),
        rows@.len() <= 0x7fff_ffff,
        out_bits <= 0x7fff_ffff,
        rows@.len() * out_bits <= usize::MAX,
    ensures
        r == spec_gscore(rows@, flags@, out_bits as int, p, rows@.len() as int),
{
    let ghost gout = out_bits as int;
    let mut s: i64 = 0;
    let mut mi: usize = 0;
    while mi < rows.len()
        invariant
            mi <= rows@.len(),
            s == spec_gscore(rows@, flags@, gout, p, mi as int),
            -((mi as int) * (gout + 1)) <= s <= (mi as int) * (gout + 1),
        decreases rows@.len() - mi,
    {
        proof {
            assert(mi * out_bits + out_bits == (mi + 1) * out_bits && 0 <= mi * out_bits && (mi
                + 1) * out_bits <= rows@.len() * out_bits && (mi
                as int) * (gout + 1) + gout + 1 == (mi as int + 1) * (gout + 1) && (mi as int) * (
            gout + 1) <= (mi as int + 1) * (gout + 1) && 0 <= (mi as int) * (gout + 1) && (
            mi as int + 1) * (gout + 1) <= 0x7000_0000_0000_0000) by (nonlinear_arith)
                requires
                    0 <= mi < rows@.len() <= 0x7fff_ffff + 1,
                    gout == out_bits,
                    0 <= gout <= 0x7fff_ffff + 1,
            ;
            lemma_score_bounds(
                rows@[mi as int]@,
                flags@,
                mi as int * gout,
                p,
                rows@[mi as int]@.len() as int,
            );
        }
        let d: i64 = score_of(&rows[mi], flags, mi * out_bits, p);
        s = s + d;
        mi = mi + 1;
    }
    s
}

/// The upstream node of maximal score over the whole batch, or `None` when
/// no image holds a candidate.
#[verifier::loop_isolation(false)]
pub fn find_global_pivotal_node(
    cfg: &Configuration,
    pivotal_nodes: &Vec<Vec<NodeSet>>,
    flags: &BitBuf,
) -> (r: Option<usize>)
    requires
        cfg_wf(*cfg),
        pivotal_nodes@.len() <= cfg.data.batch_size,
        forall|mi: int|
            0 <= mi < pivotal_nodes@.len() ==> (#[trigger] pivotal_nodes@[mi])@.len()
                == cfg.derived.output_bitsize,
        flags@.len() == cfg.data.batch_size * cfg.derived.output_bitsize,
        cfg.data.batch_size * cfg.derived.output_bitsize <= usize::MAX,
        cfg.data.batch_size <= 0x7fff_ffff,
        cfg.derived.output_bitsize <= 0x7fff_ffff,
    ensures
        r is None ==> forall|q: usize| !gcandidate(pivotal_nodes@, q),
        r matches Some(w) ==> gcandidate(pivotal_nodes@, w) && (forall|q: usize|
            gcandidate(pivotal_nodes@, q) ==> spec_gscore(
                pivotal_nodes@,
                flags@,
                cfg.derived.output_bitsize as int,
                q,
                pivotal_nodes@.len() as int,
            ) <= spec_gscore(
                pivotal_nodes@,
                flags@,
                cfg.derived.output_bitsize as int,
                w,
                pivotal_nodes@.len() as int,
            )),
{
    let out_bits: usize = cfg.derived.output_bitsize;
    let ghost rows = pivotal_nodes@;
    let ghost gout = out_bits as int;
    proof {
        let bt = cfg.data.batch_size as int;
        assert(rows.len() * gout <= bt * gout) by (nonlinear_arith)
            requires
                0 <= rows.len() <= bt,
                gout >= 0,
        ;
        assert forall|mi: int| 0 <= mi < rows.len() implies #[trigger] ((mi + 1) * out_bits)
            <= flags@.len() by {
            assert((mi + 1) * gout <= bt * gout) by (nonlinear_arith)
                requires
                    0 <= mi < rows.len() <= bt,
                    gout >= 0,
            ;
        }
    }
    let mut best: Option<usize> = None;
    let mut best_score: i64 = 0;
    let mut mi: usize = 0;
    while mi < pivotal_nodes.len()
        invariant
            mi <= rows.len(),
            best is None ==> (forall|q: usize| !gtouched(rows, mi as int, 0, 0, q)),
            best is Some ==> gcandidate(rows, best->0) && best_score == spec_gscore(
                rows,
                flags@,
                gout,
                best->0,
                rows.len() as int,
            ) && (forall|q: usize|
                gtouched(rows, mi as int, 0, 0, q) ==> spec_gscore(
                    rows,
                    flags@,
                    gout,
                    q,
                    rows.len() as int,
                ) <= best_score),
        decreases rows.len() - mi,
    {
        let ghost rowv = rows[mi as int]@;
        let mut k: usize = 0;
        while k < pivotal_nodes[mi].len()
            invariant
                mi < rows.len(),
                k <= rowv.len(),
                rowv == rows[mi as int]@,
                best is None ==> (forall|q: usize| !gtouched(rows, mi as int, k as int, 0, q)),
                best is Some ==> gcandidate(rows, best->0) && best_score == spec_gscore(
                    rows,
                    flags@,
                    gout,
                    best->0,
                    rows.len() as int,
                ) && (forall|q: usize|
                    gtouched(rows, mi as int, k as int, 0, q) ==> spec_gscore(
                        rows,
                        flags@,
                        gout,
                        q,
                        rows.len() as int,
                    ) <= best_score),
            decreases rowv.len() - k,
        {
            let cnt: usize = pivotal_nodes[mi][k].item_count();
            let mut t: usize = 0;
            while t < cnt
                invariant
                    mi < rows.len(),
                    k < rowv.len(),
                    t <= cnt,
                    rowv == rows[mi as int]@,
                    cnt == rowv[k as int].spec_items().len(),
                    best is None ==> (forall|q: usize|
                        !gtouched(rows, mi as int, k as int, t as int, q)),
                    best is Some ==> gcandidate(rows, best->0) && best_score == spec_gscore(
                        rows,
                        flags@,
                        gout,
                        best->0,
                        rows.len() as int,
                    ) && (forall|q: usize|
                        gtouched(rows, mi as int, k as int, t as int, q) ==> spec_gscore(
                            rows,
                            flags@,
                            gout,
                            q,
                            rows.len() as int,
                        ) <= best_score),
                decreases cnt - t,
            {
                let p: usize = pivotal_nodes[mi][k].item_at(t);
                let s: i64 = global_score_of(pivotal_nodes, flags, out_bits, p);
                proof {
                    let items = rowv[k as int].spec_items();
                    assert(items.take(t + 1)[t as int] == p);
                    assert(items.take(t + 1).drop_last() =~= items.take(t as int));
                    rowv[k as int].lemma_items_are_view();
                    assert(rowv[k as int]@.contains(p));
                    assert(piv_candidate(rowv, p));
                    assert(gcandidate(rows, p));
                }
                match best {
                    None => {
                        best = Some(p);
                        best_score = s;
                    },
                    Some(_) => {
                        if s > best_score {
                            best = Some(p);
                            best_score = s;
                        }
                    },
                }
                proof {
                    let items = rowv[k as int].spec_items();
                    assert forall|q: usize|
                        gtouched(rows, mi as int, k as int, t + 1, q) && q != p implies gtouched(
                        rows,
                        mi as int,
                        k as int,
                        t as int,
                        q,
                    ) by {
                        if piv_touched(rowv, k as int, t + 1, q) && items.take(t + 1).contains(q) {
                            let k0 = choose|k0: int|
                                0 <= k0 < t + 1 && #[trigger] items.take(t + 1)[k0] == q;
                            assert(items.take(t as int)[k0] == q);
                        }
                    }
                    if best is Some {
                        let w = best->0;
                        assert(gcandidate(rows, w));
                        assert(best_score == spec_gscore(rows, flags@, gout, w, rows.len() as int));
                        assert forall|q: usize|
                            gtouched(rows, mi as int, k as int, t + 1, q) implies spec_gscore(
                            rows,
                            flags@,
                            gout,
                            q,
                            rows.len() as int,
                        ) <= best_score by {
                            if q != p {
                                assert(gtouched(rows, mi as int, k as int, t as int, q));
                            }
                        }
                    }
                }
                t = t + 1;
            }
            proof {
                let items = rowv[k as int].spec_items();
                rowv[k as int].lemma_items_are_view();
                assert(items.take(cnt as int) =~= items);
                assert forall|q: usize|
                    gtouched(rows, mi as int, k as int + 1, 0, q) implies gtouched(
                    rows,
                    mi as int,
                    k as int,
                    cnt as int,
                    q,
                ) by {
                    if piv_touched(rowv, k as int + 1, 0, q) {
                        let k0 = choose|k0: int|
                            0 <= k0 < k as int + 1 && (#[trigger] rowv[k0])@.contains(q);
                        if k0 == k as int {
                            assert(items.contains(q));
                            assert(items.take(cnt as int).contains(q));
                        }
                    }
                }
                if best is None {
                    assert forall|q: usize|
                        !(#[trigger] gtouched(rows, mi as int, k as int + 1, 0, q)) by {
                        assert(!gtouched(rows, mi as int, k as int, cnt as int, q));
                    }
                } else {
                    assert forall|q: usize|
                        gtouched(rows, mi as int, k as int + 1, 0, q) implies spec_gscore(
                        rows,
                        flags@,
                        gout,
                        q,
                        rows.len() as int,
                    ) <= best_score by {
                        assert(gtouched(rows, mi as int, k as int, cnt as int, q));
                    }
                    assert(gcandidate(rows, best->0));
                    assert(best_score == spec_gscore(
                        rows,
                        flags@,
                        gout,
                        best->0,
                        rows.len() as int,
                    ));
                }
            }
            k = k + 1;
        }
        proof {
            assert forall|q: usize|
                gtouched(rows, mi as int + 1, 0, 0, q) implies gtouched(
                rows,
                mi as int,
                rowv.len() as int,
                0,
                q,
            ) by {
                let m0 = choose|m0: int|
                    0 <= m0 < mi as int + 1 && piv_candidate((#[trigger] rows[m0])@, q);
                if m0 == mi as int {
                    let k0 = choose|k0: int|
                        0 <= k0 < rowv.len() && (#[trigger] rowv[k0])@.contains(q);
                    assert(piv_touched(rowv, rowv.len() as int, 0, q));
                }
            }
            if best is None {
                assert forall|q: usize|
                    !(#[trigger] gtouched(rows, mi as int + 1, 0, 0, q)) by {
                    assert(!gtouched(rows, mi as int, rowv.len() as int, 0, q));
                }
            } else {
                assert forall|q: usize|
                    gtouched(rows, mi as int + 1, 0, 0, q) implies spec_gscore(
                    rows,
                    flags@,
                    gout,
                    q,
                    rows.len() as int,
                ) <= best_score by {
                    assert(gtouched(rows, mi as int, rowv.len() as int, 0, q));
                }
                assert(gcandidate(rows, best->0));
                assert(best_score == spec_gscore(rows, flags@, gout, best->0, rows.len() as int));
            }
        }
        mi = mi + 1;
    }
    proof {
        assert forall|q: usize| gcandidate(rows, q) implies gtouched(
            rows,
            rows.len() as int,
            0,
            0,
            q,
        ) by {
            let m0 = choose|m0: int| 0 <= m0 < rows.len() && piv_candidate((#[trigger] rows[m0])@, q);
        }
        if best is None {
            assert forall|q: usize| !(#[trigger] gcandidate(rows, q)) by {
                if gcandidate(rows, q) {
                    assert(gtouched(rows, rows.len() as int, 0, 0, q));
                }
            }
        }
    }
    best
}

/// The per-lookup-index scores of one node: for each 6-bit value, the sum
/// of the node's per-image scores over the images whose lookup index for
/// that node equals the value.
pub open spec fn spec_lut_score(
    rows: Seq<Vec<NodeSet>>,
    fl: Seq<bool>,
    out: int,
    inputs: Seq<u8>,
    p: usize,
    v: int,
    m: int,
) -> int
    decreases m,
{
    if m <= 0 {
        0
    } else {
        spec_lut_score(rows, fl, out, inputs, p, v, m - 1) + (if inputs[m - 1] == v {
            spec_score(rows[m - 1]@, fl, (m - 1) * out, p, rows[m - 1]@.len() as int)
        } else {
            0int
        })
    }
}

/// Scores each lookup index of `node_idx`'s table by the node's influence
/// on wrong and right output bits, over the images that read that index.
#[verifier::loop_isolation(false)]
pub fn score_lut_by_node_presence(
    cfg: &Configuration,
    pivotal_nodes: &Vec<Vec<NodeSet>>,
    flags: &BitBuf,
    lut_inputs: &Vec<u8>,
    node_idx: usize,
) -> (r: Vec<i64>)
    requires
        cfg_wf(*cfg),
        pivotal_nodes@.len() <= cfg.data.batch_size,
        forall|mi: int|
            0 <= mi < pivotal_nodes@.len() ==> (#[trigger] pivotal_nodes@[mi])@.len()
                == cfg.derived.output_bitsize,
        flags@.len() == cfg.data.batch_size * cfg.derived.output_bitsize,
        cfg.data.batch_size * cfg.derived.output_bitsize <= usize::MAX,
        cfg.data.batch_size <= 0x7fff_ffff,
        cfg.derived.output_bitsize <= 0x7fff_ffff,
        lut_inputs@.len() >= pivotal_nodes@.len(),
        forall|mi: int| 0 <= mi < lut_inputs@.len() ==> (#[trigger] lut_inputs@[mi]) < 64,
    ensures
        r@.len() == 64,
        forall|v: int|
            0 <= v < 64 ==> (#[trigger] r@[v]) == spec_lut_score(
                pivotal_nodes@,
                flags@,
                cfg.derived.output_bitsize as int,
                lut_inputs@,
                node_idx,
                v,
                pivotal_nodes@.len() as int,
            ),
{
    let out_bits: usize = cfg.derived.output_bitsize;
    let ghost rows = pivotal_nodes@;
    let ghost gout = out_bits as int;
    let mut scores: Vec<i64> = Vec::new();
    let mut v0: usize = 0;
    while v0 < 64
        invariant
            v0 <= 64,
            scores@.len() == v0,
            forall|v: int| 0 <= v < v0 ==> (#[trigger] scores@[v]) == 0,
        decreases 64 - v0,
    {
        scores.push(0);
        v0 = v0 + 1;
    }
    proof {
        assert forall|v: int| 0 <= v < 64 implies (#[trigger] scores@[v]) == spec_lut_score(
            rows,
            flags@,
            gout,
            lut_inputs@,
            node_idx,
            v,
            0,
        ) by {}
    }
    let mut mi: usize = 0;
    while mi < pivotal_nodes.len()
        invariant
            mi <= rows.len(),
            scores@.len() == 64,
            forall|v: int|
                0 <= v < 64 ==> (#[trigger] scores@[v]) == spec_lut_score(
                    rows,
                    flags@,
                    gout,
                    lut_inputs@,
                    node_idx,
                    v,
                    mi as int,
                ),
            forall|v: int|
                0 <= v < 64 ==> -((mi as int) * (gout + 1)) <= (#[trigger] scores@[v]) <= (
                mi as int) * (gout + 1),
        decreases rows.len() - mi,
    {
        proof {
            let bt = cfg.data.batch_size as int;
            assert(mi * out_bits + out_bits <= bt * gout && 0 <= mi * out_bits)
                by (nonlinear_arith)
                requires
                    0 <= mi < rows.len() <= bt,
                    gout == out_bits,
                    gout >= 0,
            ;
        }
        let s: i64 = score_of(&pivotal_nodes[mi], flags, mi * out_bits, node_idx);
        let v: usize = lut_inputs[mi] as usize;
        let ghost before = scores@;
        proof {
            lemma_score_bounds(
                rows[mi as int]@,
                flags@,
                mi as int * gout,
                node_idx,
                rows[mi as int]@.len() as int,
            );
            assert((mi as int) * (gout + 1) + gout + 1 == (mi as int + 1) * (gout + 1)
                && (mi as int) * (gout + 1) <= (mi as int + 1) * (gout + 1) && 0 <= (mi as int) * (
            gout + 1) && (mi as int + 1) * (gout + 1) <= 0x7000_0000_0000_0000)
                by (nonlinear_arith)
                requires
                    0 <= mi <= 0x7fff_ffff + 1,
                    0 <= gout <= 0x7fff_ffff + 1,
            ;
        }
        let updated: i64 = scores[v] + s;
        scores.set(v, updated);
        proof {
            assert forall|v2: int| 0 <= v2 < 64 implies (#[trigger] scores@[v2]) == spec_lut_score(
                rows,
                flags@,
                gout,
                lut_inputs@,
                node_idx,
                v2,
                mi as int + 1,
            ) by {
                if v2 == v as int {
                    assert(lut_inputs@[mi as int] == v as u8);
                } else {
                    assert(scores@[v2] == before[v2]);
                }
            }
        }
        mi = mi + 1;
    }
    scores
}

} // verus!
