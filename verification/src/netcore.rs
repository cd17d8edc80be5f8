//! The LUT network type and its four evaluation entry points.
//!
//! A node is a 64-bit function table plus 6 ordered source addresses in the
//! logical per-image space; source `j` feeds bit `j` of the lookup index. A
//! network is an ordered node list cut into layers by boundary indices, with
//! an optional bank of permitted table values and an optional class
//! embedding table.
//!
//! Evaluation computes every downstream stripe of a packed buffer whose
//! input stripe already holds the raw pixels: for each layer all
//! `(node, image)` outputs are gathered against the prior layers' committed
//! state, then committed at once.

use vstd::prelude::*;

use vstd::pervasive::VecAdditionalExecFns;

use crate::bitbuf::BitBuf;
use crate::iterators::lemma_cfg_edge_succ;
use crate::iterators::lemma_edges_mono;
use crate::iterators::lemma_layer_step_at;
use crate::iterators::lemma_read_off_facts;
use crate::iterators::spec_read_off;
use crate::iterators::spec_stripe_start;
use crate::settings::Configuration;
use crate::settings::cfg_wf;

verus! {

/// One gate: a 64-bit lookup table and its 6 logical source addresses.
#[derive(Clone, Copy, Debug)]
pub struct Node {
    pub lut: u64,
    pub indices: [usize; 6],
}

/// A feed-forward network of LUT gates.
#[derive(Clone, Debug)]
pub struct LUTNet {
    pub nodes: Vec<Node>,
    pub input_size_in_bits: usize,
    pub layer_edges: Vec<usize>,
    pub lut_bank: Option<Vec<u64>>,
    pub output_embedding: Vec<usize>,
}

/// Evaluation failure: a node whose source addresses reach outside the
/// buffer. This marks a topology-construction defect, named by node.
#[derive(Clone, Copy, Debug, PartialEq, Eq, Structural)]
pub struct AddressFault {
    pub node_index: usize,
}

/// A bit as the value it contributes to a lookup index.
pub open spec fn bit_to_u8(b: bool) -> u8 {
    if b {
        1
    } else {
        0
    }
}

/// The 6-bit lookup index a node reads for an image whose bits sit `off`
/// past the node's logical addresses: source `j` lands in bit `j`.
pub open spec fn spec_gate_index(bits: Seq<bool>, node: Node, off: int) -> u8 {
    bit_to_u8(bits[node.indices@[0] + off]) | (bit_to_u8(bits[node.indices@[1] + off]) << 1) | (
    bit_to_u8(bits[node.indices@[2] + off]) << 2) | (bit_to_u8(bits[node.indices@[3] + off]) << 3)
        | (bit_to_u8(bits[node.indices@[4] + off]) << 4) | (bit_to_u8(
        bits[node.indices@[5] + off],
    ) << 5)
}

/// Bit `idx` of the function table.
pub open spec fn spec_gate_out(lut: u64, idx: u8) -> bool {
    ((lut >> idx) & 1) != 0
}

/// The output bit a node produces from the given buffer state.
pub open spec fn spec_node_out(bits: Seq<bool>, node: Node, off: int) -> bool {
    spec_gate_out(node.lut, spec_gate_index(bits, node, off))
}

/// The buffer after layer `layer` is computed against `pre` and committed:
/// the layer's stripe is overwritten, everything else keeps its bits.
pub open spec fn spec_layer_commit(
    cfg: Configuration,
    nodes: Seq<Node>,
    pre: Seq<bool>,
    layer: int,
) -> Seq<bool> {
    let start = spec_stripe_start(cfg, layer);
    let size = cfg.network.layer_sizes@[layer] as int;
    let batch = cfg.data.batch_size as int;
    Seq::new(
        pre.len(),
        |i: int|
            if start <= i < start + batch * size {
                spec_node_out(
                    pre,
                    nodes[cfg.derived.layer_edges@[layer] + (i - start) % size],
                    spec_read_off(cfg, layer, (i - start) / size),
                )
            } else {
                pre[i]
            },
    )
}

/// The buffer after layers `0 .. layer` are committed in order.
pub open spec fn spec_eval_upto(
    cfg: Configuration,
    nodes: Seq<Node>,
    init: Seq<bool>,
    layer: int,
) -> Seq<bool>
    decreases layer,
{
    if layer <= 0 {
        init
    } else {
        spec_layer_commit(cfg, nodes, spec_eval_upto(cfg, nodes, init, layer - 1), layer - 1)
    }
}

/// The buffer after the whole network is evaluated.
pub open spec fn spec_eval(cfg: Configuration, nodes: Seq<Node>, init: Seq<bool>) -> Seq<bool> {
    spec_eval_upto(cfg, nodes, init, cfg.derived.num_layers as int)
}

/// The layer that owns node `n`, scanning boundaries from `l` up.
pub open spec fn layer_find(cfg: Configuration, n: int, l: int) -> int
    decreases cfg.derived.num_layers - l,
{
    if l + 1 >= cfg.derived.num_layers {
        l
    } else if n < cfg.derived.layer_edges@[l + 1] {
        l
    } else {
        layer_find(cfg, n, l + 1)
    }
}

/// The layer that owns node `n`.
pub open spec fn spec_layer_of(cfg: Configuration, n: int) -> int {
    layer_find(cfg, n, 0)
}

/// A node index inside a layer's boundaries is owned by that layer.
pub proof fn lemma_layer_of_locate(cfg: Configuration, layer: int, n: int)
    requires
        cfg_wf(cfg),
        0 <= layer < cfg.derived.num_layers,
        cfg.derived.layer_edges@[layer] <= n < cfg.derived.layer_edges@[layer + 1],
    ensures
        spec_layer_of(cfg, n) == layer,
{
    lemma_layer_find_locate(cfg, layer, n, 0);
}

proof fn lemma_layer_find_locate(cfg: Configuration, layer: int, n: int, l: int)
    requires
        cfg_wf(cfg),
        0 <= l <= layer < cfg.derived.num_layers,
        cfg.derived.layer_edges@[layer] <= n < cfg.derived.layer_edges@[layer + 1],
    ensures
        layer_find(cfg, n, l) == layer,
    decreases layer - l,
{
    if l < layer {
        lemma_edges_mono(cfg, l + 1, layer);
        lemma_layer_find_locate(cfg, layer, n, l + 1);
    } else {
        lemma_edges_mono(cfg, layer + 1, layer + 1);
    }
}

/// Every node of `n`'s layer keeps its sources strictly below that layer's
/// logical start: the topology is a layered DAG with no intra-layer or
/// forward edge.
pub open spec fn nodes_feed_forward(nodes: Seq<Node>, cfg: Configuration) -> bool {
    forall|n: int, j: int|
        0 <= n < nodes.len() && 0 <= j < 6 ==> (#[trigger] nodes[n].indices@[j])
            < cfg.derived.img_bitcount + cfg.derived.layer_edges@[spec_layer_of(cfg, n)]
}

/// Node `n`'s sources, offset for the farthest image, stay inside a buffer
/// of the configured size.
pub open spec fn node_reads_ok(node: Node, cfg: Configuration, layer: int) -> bool {
    forall|j: int|
        0 <= j < 6 ==> (#[trigger] node.indices@[j]) + spec_read_off(
            cfg,
            layer,
            cfg.data.batch_size - 1,
        ) < cfg.derived.bitvec_size
}

/// Every node's reads stay inside the buffer for every image of the batch.
pub open spec fn nodes_reads_ok(nodes: Seq<Node>, cfg: Configuration) -> bool {
    forall|n: int|
        0 <= n < nodes.len() ==> node_reads_ok(#[trigger] nodes[n], cfg, spec_layer_of(cfg, n))
}

/// The network's own shape values agree with the configuration.
pub open spec fn net_matches_cfg(net: LUTNet, cfg: Configuration) -> bool {
    &&& net.layer_edges@ == cfg.derived.layer_edges@
    &&& net.input_size_in_bits == cfg.derived.img_bitcount
    &&& net.nodes@.len() == cfg.derived.network_size
}

/// If a bank is declared, every node's function table is one of its values.
pub open spec fn spec_bank_ok(nodes: Seq<Node>, lut_bank: Option<Vec<u64>>) -> bool {
    lut_bank is Some ==> forall|n: int|
        0 <= n < nodes.len() ==> (lut_bank->0)@.contains(#[trigger] nodes[n].lut)
}

/// The read offset grows with the image index.
pub proof fn lemma_read_off_mono(cfg: Configuration, layer: int, m1: int, m2: int)
    requires
        cfg_wf(cfg),
        0 <= layer < cfg.derived.num_layers,
        0 <= m1 <= m2,
    ensures
        spec_read_off(cfg, layer, m1) <= spec_read_off(cfg, layer, m2),
{
    if layer == 0 {
        assert(m1 * cfg.derived.img_bitcount <= m2 * cfg.derived.img_bitcount)
            by (nonlinear_arith)
            requires
                0 <= m1 <= m2,
                cfg.derived.img_bitcount >= 0,
        ;
    } else {
        assert(m1 * cfg.network.layer_sizes@[layer - 1] <= m2 * cfg.network.layer_sizes@[layer
            - 1]) by (nonlinear_arith)
            requires
                0 <= m1 <= m2,
                cfg.network.layer_sizes@[layer - 1] >= 0,
        ;
    }
}

/// On a feed-forward topology that matches the configuration, every read of
/// every image lands inside the buffer: validation is owed to succeed.
pub proof fn lemma_feed_forward_reads_ok(nodes: Seq<Node>, cfg: Configuration)
    requires
        cfg_wf(cfg),
        nodes.len() == cfg.derived.network_size,
        nodes_feed_forward(nodes, cfg),
    ensures
        nodes_reads_ok(nodes, cfg),
{
    let batch = cfg.data.batch_size as int;
    let imgb = cfg.derived.img_bitcount as int;
    let edges = cfg.derived.layer_edges@;
    let sizes = cfg.network.layer_sizes@;
    let nl = cfg.derived.num_layers as int;
    assert forall|n: int| 0 <= n < nodes.len() implies node_reads_ok(
        #[trigger] nodes[n],
        cfg,
        spec_layer_of(cfg, n),
    ) by {
        let layer = spec_layer_of(cfg, n);
        lemma_layer_of_range(cfg, n);
        assert forall|j: int| 0 <= j < 6 implies (#[trigger] nodes[n].indices@[j])
            + spec_read_off(cfg, layer, batch - 1) < cfg.derived.bitvec_size by {
            crate::iterators::lemma_cfg_edge_ends(cfg);
            lemma_edges_mono(cfg, layer + 1, nl);
            lemma_cfg_edge_succ(cfg, layer);
            if layer > 0 {
                lemma_cfg_edge_succ(cfg, layer - 1);
            }
            if layer == 0 {
                assert(nodes[n].indices@[j] + (batch - 1) * imgb < imgb + edges[0] + (batch - 1)
                    * imgb) by (nonlinear_arith)
                    requires
                        nodes[n].indices@[j] < imgb + edges[0],
                ;
                assert(imgb + edges[0] + (batch - 1) * imgb <= batch * (imgb
                    + cfg.derived.network_size)) by (nonlinear_arith)
                    requires
                        batch >= 1,
                        imgb >= 0,
                        edges[0] == 0,
                        cfg.derived.network_size >= 0,
                ;
            } else {
                assert(nodes[n].indices@[j] + spec_read_off(cfg, layer, batch - 1) < imgb
                    + edges[layer] + (batch - 1) * (imgb + edges[layer - 1]) + (batch - 1)
                    * sizes[layer - 1]) by (nonlinear_arith)
                    requires
                        nodes[n].indices@[j] < imgb + edges[layer],
                        spec_read_off(cfg, layer, batch - 1) == (batch - 1) * (imgb + edges[layer
                            - 1]) + (batch - 1) * sizes[layer - 1],
                ;
                assert(imgb + edges[layer] + (batch - 1) * (imgb + edges[layer - 1]) + (batch - 1)
                    * sizes[layer - 1] <= batch * (imgb + cfg.derived.network_size))
                    by (nonlinear_arith)
                    requires
                        batch >= 1,
                        imgb >= 0,
                        0 <= edges[layer - 1],
                        edges[layer - 1] + sizes[layer - 1] == edges[layer],
                        edges[layer] <= cfg.derived.network_size,
                ;
            }
        }
    }
}

/// A node index below the network size sits inside its layer's boundaries.
pub proof fn lemma_layer_of_range(cfg: Configuration, n: int)
    requires
        cfg_wf(cfg),
        0 <= n < cfg.derived.network_size,
    ensures
        0 <= spec_layer_of(cfg, n) < cfg.derived.num_layers,
        cfg.derived.layer_edges@[spec_layer_of(cfg, n)] <= n < cfg.derived.layer_edges@[
            spec_layer_of(cfg, n) + 1],
{
    crate::iterators::lemma_cfg_edge_ends(cfg);
    lemma_layer_find_range(cfg, n, 0);
}

proof fn lemma_layer_find_range(cfg: Configuration, n: int, l: int)
    requires
        cfg_wf(cfg),
        0 <= l < cfg.derived.num_layers,
        cfg.derived.layer_edges@[l] <= n < cfg.derived.layer_edges@[cfg.derived.num_layers as int],
    ensures
        l <= layer_find(cfg, n, l) < cfg.derived.num_layers,
        cfg.derived.layer_edges@[layer_find(cfg, n, l)] <= n < cfg.derived.layer_edges@[layer_find(
            cfg,
            n,
            l,
        ) + 1],
    decreases cfg.derived.num_layers - l,
{
    if l + 1 >= cfg.derived.num_layers {
    } else if n < cfg.derived.layer_edges@[l + 1] {
    } else {
        lemma_layer_find_range(cfg, n, l + 1);
    }
}

/// Computes every stripe past the inputs, against `nodes`, in layer order:
/// per layer, all `(node, image)` outputs are gathered first and committed
/// to the buffer afterwards.
#[verifier::loop_isolation(false)]
fn eval_nodes_in_place(nodes: &Vec<Node>, cfg: &Configuration, bv: &mut BitBuf)
    requires
        cfg_wf(*cfg),
        nodes@.len() == cfg.derived.network_size,
        nodes_reads_ok(nodes@, *cfg),
        old(bv)@.len() == cfg.derived.bitvec_size,
    ensures
        final(bv)@ == spec_eval(*cfg, nodes@, old(bv)@),
        final(bv)@.len() == old(bv)@.len(),
{
    let ghost init = old(bv)@;
    let num_layers: usize = cfg.derived.num_layers;
    let batch: usize = cfg.data.batch_size;
    let mut layer: usize = 0;
    while layer < num_layers
        invariant
            layer <= num_layers,
            bv@.len() == cfg.derived.bitvec_size,
            bv@ == spec_eval_upto(*cfg, nodes@, init, layer as int),
        decreases num_layers - layer,
    {
        let ghost pre = bv@;
        let size: usize = cfg.network.layer_sizes[layer];
        let node_base: usize = cfg.derived.layer_edges[layer];
        proof {
            lemma_layer_step_at(*cfg, layer as int, 0, 0);
            lemma_cfg_edge_succ(*cfg, layer as int);
        }
        let start: usize = cfg.derived.batch_bitcount + batch * node_base;
        let ghost lsize = size as int;

        let mut results: Vec<bool> = Vec::new();
        let mut m: usize = 0;
        while m < batch
            invariant
                m <= batch,
                bv@ == pre,
                results@.len() == m * lsize,
                forall|t: int|
                    0 <= t < results@.len() ==> results@[t] == spec_node_out(
                        pre,
                        nodes@[node_base + t % lsize],
                        spec_read_off(*cfg, layer as int, t / lsize),
                    ),
            decreases batch - m,
        {
            proof {
                lemma_read_off_facts(*cfg, layer as int, m as int);
                if layer > 0 {
                    crate::iterators::lemma_cfg_edge_ends(*cfg);
                    lemma_edges_mono(*cfg, layer - 1, cfg.derived.num_layers as int);
                    lemma_cfg_edge_succ(*cfg, layer - 1);
                    let bt = cfg.data.batch_size as int;
                    let imgb = cfg.derived.img_bitcount as int;
                    let e = cfg.derived.layer_edges@[layer - 1] as int;
                    let net = cfg.derived.network_size as int;
                    let stride = cfg.network.layer_sizes@[layer - 1] as int;
                    assert(imgb + e <= bt * (imgb + net) && (bt - 1) * (imgb + e) <= bt * (imgb
                        + net) && (bt - 1) * (imgb + e) >= 0 && m * stride >= 0)
                        by (nonlinear_arith)
                        requires
                            bt >= 1,
                            0 <= e <= net,
                            imgb >= 0,
                            0 <= m,
                            stride >= 0,
                    ;
                } else {
                    assert(m * cfg.derived.img_bitcount >= 0) by (nonlinear_arith)
                        requires
                            m >= 0 && cfg.derived.img_bitcount >= 0,
                    ;
                }
            }
            let off: usize = if layer == 0 {
                m * cfg.derived.img_bitcount
            } else {
                (batch - 1) * (cfg.derived.img_bitcount + cfg.derived.layer_edges[layer - 1]) + m
                    * cfg.network.layer_sizes[layer - 1]
            };
            proof {
                assert(off == spec_read_off(*cfg, layer as int, m as int));
                lemma_read_off_mono(*cfg, layer as int, m as int, batch as int - 1);
            }
            let mut n: usize = 0;
            while n < size
                invariant
                    m < batch,
                    n <= size,
                    bv@ == pre,
                    off == spec_read_off(*cfg, layer as int, m as int),
                    spec_read_off(*cfg, layer as int, m as int) <= spec_read_off(
                        *cfg,
                        layer as int,
                        batch as int - 1,
                    ),
                    results@.len() == m * lsize + n,
                    forall|t: int|
                        0 <= t < results@.len() ==> results@[t] == spec_node_out(
                            pre,
                            nodes@[node_base + t % lsize],
                            spec_read_off(*cfg, layer as int, t / lsize),
                        ),
                decreases size - n,
            {
                let node_idx: usize = node_base + n;
                proof {
                    lemma_edges_mono(*cfg, layer as int + 1, cfg.derived.num_layers as int);
                    crate::iterators::lemma_cfg_edge_ends(*cfg);
                    lemma_layer_of_locate(*cfg, layer as int, node_idx as int);
                    assert(node_reads_ok(nodes@[node_idx as int], *cfg, layer as int));
                }
                let node: Node = nodes[node_idx];
                let b0: bool = bv.get(node.indices[0] + off);
                let b1: bool = bv.get(node.indices[1] + off);
                let b2: bool = bv.get(node.indices[2] + off);
                let b3: bool = bv.get(node.indices[3] + off);
                let b4: bool = bv.get(node.indices[4] + off);
                let b5: bool = bv.get(node.indices[5] + off);
                let i0: u8 = if b0 {
                    1
                } else {
                    0
                };
                let i1: u8 = if b1 {
                    1
                } else {
                    0
                };
                let i2: u8 = if b2 {
                    1
                } else {
                    0
                };
                let i3: u8 = if b3 {
                    1
                } else {
                    0
                };
                let i4: u8 = if b4 {
                    1
                } else {
                    0
                };
                let i5: u8 = if b5 {
                    1
                } else {
                    0
                };
                let lut_input: u8 = i0 | (i1 << 1) | (i2 << 2) | (i3 << 3) | (i4 << 4) | (i5 << 5);
                proof {
                    assert(lut_input < 64) by (bit_vector)
                        requires
                            i0 <= 1 && i1 <= 1 && i2 <= 1 && i3 <= 1 && i4 <= 1 && i5 <= 1,
                            lut_input == i0 | (i1 << 1) | (i2 << 2) | (i3 << 3) | (i4 << 4) | (i5
                                << 5),
                    ;
                }
                let output_bit: bool = ((node.lut >> lut_input) & 1) != 0;
                results.push(output_bit);
                proof {
                    assert(lut_input == spec_gate_index(pre, node, off as int));
                    let t = m * lsize + n;
                    vstd::arithmetic::div_mod::lemma_fundamental_div_mod_converse(
                        t,
                        lsize,
                        m as int,
                        n as int,
                    );
                    assert(results@[t] == spec_node_out(
                        pre,
                        nodes@[node_base + t % lsize],
                        spec_read_off(*cfg, layer as int, t / lsize),
                    ));
                }
                n = n + 1;
            }
            proof {
                assert(m * lsize + lsize == (m + 1) * lsize) by (nonlinear_arith);
            }
            m = m + 1;
        }

        let total: usize = results.len();
        let mut t: usize = 0;
        while t < total
            invariant
                t <= total,
                total == batch * lsize,
                results@.len() == total,
                bv@.len() == cfg.derived.bitvec_size,
                forall|t0: int|
                    0 <= t0 < results@.len() ==> results@[t0] == spec_node_out(
                        pre,
                        nodes@[node_base + t0 % lsize],
                        spec_read_off(*cfg, layer as int, t0 / lsize),
                    ),
                forall|i: int|
                    0 <= i < bv@.len() ==> bv@[i] == (if start <= i < start + t {
                        results@[i - start]
                    } else {
                        pre[i]
                    }),
            decreases total - t,
        {
            bv.set(start + t, results[t]);
            t = t + 1;
        }
        proof {
            assert(bv@ =~= spec_layer_commit(*cfg, nodes@, pre, layer as int));
        }
        layer = layer + 1;
    }
}

/// The node list with the function tables at `idxs[0 .. k]` replaced by the
/// matching `luts` entries, later pairs winning; source addresses are kept.
pub open spec fn spec_override(nodes: Seq<Node>, idxs: Seq<usize>, luts: Seq<u64>, k: int) -> Seq<
    Node,
>
    decreases k,
{
    if k <= 0 {
        nodes
    } else {
        let prev = spec_override(nodes, idxs, luts, k - 1);
        prev.update(
            idxs[k - 1] as int,
            Node { lut: luts[k - 1], indices: prev[idxs[k - 1] as int].indices },
        )
    }
}

/// The node list with bit `flips[i]` of node `idxs[i]`'s function table
/// flipped, for `i < k`; source addresses are kept.
pub open spec fn spec_corrupt(nodes: Seq<Node>, idxs: Seq<usize>, flips: Seq<u8>, k: int) -> Seq<
    Node,
>
    decreases k,
{
    if k <= 0 {
        nodes
    } else {
        let prev = spec_corrupt(nodes, idxs, flips, k - 1);
        prev.update(
            idxs[k - 1] as int,
            Node {
                lut: prev[idxs[k - 1] as int].lut ^ (1u64 << flips[k - 1]),
                indices: prev[idxs[k - 1] as int].indices,
            },
        )
    }
}

/// Overriding tables moves no node and touches no source address; every
/// table in the result is either the node's old one or one of the given
/// replacements.
pub proof fn lemma_override_shape(nodes: Seq<Node>, idxs: Seq<usize>, luts: Seq<u64>, k: int)
    requires
        0 <= k <= idxs.len(),
        k <= luts.len(),
        forall|i: int| 0 <= i < k ==> (#[trigger] idxs[i]) < nodes.len(),
    ensures
        spec_override(nodes, idxs, luts, k).len() == nodes.len(),
        forall|n: int|
            0 <= n < nodes.len() ==> (#[trigger] spec_override(nodes, idxs, luts, k)[n]).indices
                == nodes[n].indices,
        forall|n: int|
            0 <= n < nodes.len() ==> ((#[trigger] spec_override(nodes, idxs, luts, k)[n]).lut
                == nodes[n].lut || exists|i: int|
                0 <= i < k && (#[trigger] luts[i]) == spec_override(nodes, idxs, luts, k)[n].lut),
    decreases k,
{
    if k > 0 {
        lemma_override_shape(nodes, idxs, luts, k - 1);
    }
}

/// Corrupting tables moves no node and touches no source address.
pub proof fn lemma_corrupt_shape(nodes: Seq<Node>, idxs: Seq<usize>, flips: Seq<u8>, k: int)
    requires
        0 <= k <= idxs.len(),
        k <= flips.len(),
        forall|i: int| 0 <= i < k ==> (#[trigger] idxs[i]) < nodes.len(),
    ensures
        spec_corrupt(nodes, idxs, flips, k).len() == nodes.len(),
        forall|n: int|
            0 <= n < nodes.len() ==> (#[trigger] spec_corrupt(nodes, idxs, flips, k)[n]).indices
                == nodes[n].indices,
    decreases k,
{
    if k > 0 {
        lemma_corrupt_shape(nodes, idxs, flips, k - 1);
    }
}

/// Whether reads stay in bounds depends on the source addresses alone, so
/// any list with the same addresses validates the same way.
pub proof fn lemma_same_indices_reads_ok(nodes1: Seq<Node>, nodes2: Seq<Node>, cfg: Configuration)
    requires
        nodes_reads_ok(nodes1, cfg),
        nodes1.len() == nodes2.len(),
        forall|n: int| 0 <= n < nodes2.len() ==> (#[trigger] nodes2[n]).indices == nodes1[n].indices,
    ensures
        nodes_reads_ok(nodes2, cfg),
{
    assert forall|n: int| 0 <= n < nodes2.len() implies node_reads_ok(
        #[trigger] nodes2[n],
        cfg,
        spec_layer_of(cfg, n),
    ) by {
        assert(node_reads_ok(nodes1[n], cfg, spec_layer_of(cfg, n)));
        assert(forall|j: int|
            0 <= j < 6 ==> (#[trigger] nodes2[n].indices@[j]) == nodes1[n].indices@[j]);
    }
}

impl LUTNet {
    /// A network from its parts; the shape invariants are the caller's to
    /// check, with `is_well_formed`.
    pub fn new(
        nodes: Vec<Node>,
        input_size_in_bits: usize,
        layer_edges: Vec<usize>,
        lut_bank: Option<Vec<u64>>,
        output_embedding: Vec<usize>,
    ) -> (r: LUTNet)
        ensures
            r.nodes@ == nodes@,
            r.input_size_in_bits == input_size_in_bits,
            r.layer_edges@ == layer_edges@,
            r.lut_bank == lut_bank,
            r.output_embedding@ == output_embedding@,
    {
        LUTNet { nodes, input_size_in_bits, layer_edges, lut_bank, output_embedding }
    }

    /// Checks every node's reads against the buffer bounds, for the
    /// farthest image of the batch; the first offending node is named.
    /// On a feed-forward topology this is owed to succeed
    /// (`lemma_feed_forward_reads_ok`).
    #[verifier::loop_isolation(false)]
    pub fn validate_addresses(&self, cfg: &Configuration) -> (r: Result<(), AddressFault>)
        requires
            cfg_wf(*cfg),
            net_matches_cfg(*self, *cfg),
        ensures
            r is Ok <==> nodes_reads_ok(self.nodes@, *cfg),
            r matches Err(f) ==> f.node_index < self.nodes@.len() && !node_reads_ok(
                self.nodes@[f.node_index as int],
                *cfg,
                spec_layer_of(*cfg, f.node_index as int),
            ) && (forall|n: int|
                0 <= n < f.node_index ==> node_reads_ok(
                    #[trigger] self.nodes@[n],
                    *cfg,
                    spec_layer_of(*cfg, n),
                )),
    {
        let num_layers: usize = cfg.derived.num_layers;
        let batch: usize = cfg.data.batch_size;
        let bitvec_size: usize = cfg.derived.bitvec_size;
        proof {
            crate::iterators::lemma_cfg_edge_ends(*cfg);
        }
        let mut layer: usize = 0;
        while layer < num_layers
            invariant
                layer <= num_layers,
                forall|n: int|
                    0 <= n < cfg.derived.layer_edges@[layer as int] ==> node_reads_ok(
                        #[trigger] self.nodes@[n],
                        *cfg,
                        spec_layer_of(*cfg, n),
                    ),
            decreases num_layers - layer,
        {
            proof {
                lemma_read_off_facts(*cfg, layer as int, batch as int - 1);
                lemma_read_off_mono(*cfg, layer as int, batch as int - 1, batch as int);
                lemma_cfg_edge_succ(*cfg, layer as int);
                lemma_edges_mono(*cfg, layer as int + 1, cfg.derived.num_layers as int);
                crate::iterators::lemma_cfg_edge_ends(*cfg);
                if layer > 0 {
                    lemma_cfg_edge_succ(*cfg, layer - 1);
                    lemma_edges_mono(*cfg, layer as int - 1, cfg.derived.num_layers as int);
                    let bt = batch as int;
                    let imgb = cfg.derived.img_bitcount as int;
                    let e = cfg.derived.layer_edges@[layer - 1] as int;
                    let net = cfg.derived.network_size as int;
                    let stride = cfg.network.layer_sizes@[layer - 1] as int;
                    assert(imgb + e <= bt * (imgb + net) && (bt - 1) * (imgb + e) <= bt * (imgb
                        + net) && (bt - 1) * (imgb + e) >= 0 && (bt - 1) * stride >= 0)
                        by (nonlinear_arith)
                        requires
                            bt >= 1,
                            0 <= e <= net,
                            imgb >= 0,
                            stride >= 0,
                    ;
                } else {
                    assert((batch - 1) * cfg.derived.img_bitcount >= 0) by (nonlinear_arith)
                        requires
                            batch >= 1 && cfg.derived.img_bitcount >= 0,
                    ;
                }
            }
            let max_off: usize = if layer == 0 {
                (batch - 1) * cfg.derived.img_bitcount
            } else {
                (batch - 1) * (cfg.derived.img_bitcount + cfg.derived.layer_edges[layer - 1]) + (
                batch - 1) * cfg.network.layer_sizes[layer - 1]
            };
            proof {
                assert(max_off == spec_read_off(*cfg, layer as int, batch as int - 1));
                assert(max_off <= bitvec_size);
            }
            let node_end: usize = cfg.derived.layer_edges[layer + 1];
            let mut node_idx: usize = cfg.derived.layer_edges[layer];
            while node_idx < node_end
                invariant
                    cfg.derived.layer_edges@[layer as int] <= node_idx <= node_end,
                    max_off == spec_read_off(*cfg, layer as int, batch as int - 1),
                    max_off <= bitvec_size,
                    node_end == cfg.derived.layer_edges@[layer as int + 1],
                    forall|n: int|
                        0 <= n < node_idx ==> node_reads_ok(
                            #[trigger] self.nodes@[n],
                            *cfg,
                            spec_layer_of(*cfg, n),
                        ),
                decreases node_end - node_idx,
            {
                proof {
                    lemma_layer_of_locate(*cfg, layer as int, node_idx as int);
                }
                let node: Node = self.nodes[node_idx];
                let mut j: usize = 0;
                while j < 6
                    invariant
                        j <= 6,
                        node == self.nodes@[node_idx as int],
                        node_idx < self.nodes@.len(),
                        max_off == spec_read_off(*cfg, layer as int, batch as int - 1),
                        max_off <= bitvec_size,
                        spec_layer_of(*cfg, node_idx as int) == layer as int,
                        forall|j0: int|
                            0 <= j0 < j ==> (#[trigger] node.indices@[j0]) + spec_read_off(
                                *cfg,
                                layer as int,
                                batch as int - 1,
                            ) < cfg.derived.bitvec_size,
                    decreases 6 - j,
                {
                    if node.indices[j] >= bitvec_size - max_off {
                        return Err(AddressFault { node_index: node_idx });
                    }
                    j = j + 1;
                }
                node_idx = node_idx + 1;
            }
            layer = layer + 1;
        }
        proof {
            crate::iterators::lemma_cfg_edge_ends(*cfg);
        }
        Ok(())
    }

    /// Validated evaluation: checks every read address for this topology
    /// and buffer size, then computes every stripe. Succeeds exactly when
    /// every read is in bounds, which a feed-forward topology guarantees;
    /// on failure the buffer is left untouched and the offending node is
    /// named.
    pub fn apply_gates(&self, cfg: &Configuration, bv: &mut BitBuf) -> (r: Result<(), AddressFault>)
        requires
            cfg_wf(*cfg),
            net_matches_cfg(*self, *cfg),
            old(bv)@.len() == cfg.derived.bitvec_size,
        ensures
            r is Ok <==> nodes_reads_ok(self.nodes@, *cfg),
            r is Ok ==> final(bv)@ == spec_eval(*cfg, self.nodes@, old(bv)@),
            r matches Err(f) ==> final(bv)@ == old(bv)@ && f.node_index < self.nodes@.len()
                && !node_reads_ok(
                self.nodes@[f.node_index as int],
                *cfg,
                spec_layer_of(*cfg, f.node_index as int),
            ),
            nodes_feed_forward(self.nodes@, *cfg) ==> r is Ok,
            final(bv)@.len() == old(bv)@.len(),
    {
        proof {
            if nodes_feed_forward(self.nodes@, *cfg) {
                lemma_feed_forward_reads_ok(self.nodes@, *cfg);
            }
        }
        match self.validate_addresses(cfg) {
            Err(f) => Err(f),
            Ok(()) => {
                eval_nodes_in_place(&self.nodes, cfg, bv);
                Ok(())
            },
        }
    }

    /// Fast evaluation: the same computation with no address checks. The
    /// caller must have validated this topology against this buffer size
    /// once, e.g. through `validate_addresses` or a successful
    /// `apply_gates`.
    pub fn apply_gates_fast(&self, cfg: &Configuration, bv: &mut BitBuf)
        requires
            cfg_wf(*cfg),
            net_matches_cfg(*self, *cfg),
            nodes_reads_ok(self.nodes@, *cfg),
            old(bv)@.len() == cfg.derived.bitvec_size,
        ensures
            final(bv)@ == spec_eval(*cfg, self.nodes@, old(bv)@),
            final(bv)@.len() == old(bv)@.len(),
    {
        eval_nodes_in_place(&self.nodes, cfg, bv);
    }

    /// Speculative mutation: evaluates against a private copy of the node
    /// list whose function tables at `node_idxs_to_mutate` are replaced by
    /// `new_luts` (pairs past the shorter list are ignored, as a zip), and
    /// returns that copy for the caller to adopt or discard. The topology
    /// itself is untouched.
    #[verifier::loop_isolation(false)]
    pub fn apply_gates_with_new_luts(
        &self,
        cfg: &Configuration,
        bv: &mut BitBuf,
        node_idxs_to_mutate: &Vec<usize>,
        new_luts: &Vec<u64>,
    ) -> (r: Vec<Node>)
        requires
            cfg_wf(*cfg),
            net_matches_cfg(*self, *cfg),
            nodes_reads_ok(self.nodes@, *cfg),
            old(bv)@.len() == cfg.derived.bitvec_size,
            forall|i: int|
                0 <= i < node_idxs_to_mutate@.len() && i < new_luts@.len() ==> (
                #[trigger] node_idxs_to_mutate@[i]) < self.nodes@.len(),
        ensures
            ({
                let kmax = if node_idxs_to_mutate@.len() <= new_luts@.len() {
                    node_idxs_to_mutate@.len() as int
                } else {
                    new_luts@.len() as int
                };
                &&& r@ == spec_override(self.nodes@, node_idxs_to_mutate@, new_luts@, kmax)
                &&& final(bv)@ == spec_eval(*cfg, r@, old(bv)@)
                &&& final(bv)@.len() == old(bv)@.len()
            }),
    {
        let ghost kmax = if node_idxs_to_mutate@.len() <= new_luts@.len() {
            node_idxs_to_mutate@.len() as int
        } else {
            new_luts@.len() as int
        };
        let mut nodes_to_iterate: Vec<Node> = clone_nodes(&self.nodes);
        let end: usize = if node_idxs_to_mutate.len() <= new_luts.len() {
            node_idxs_to_mutate.len()
        } else {
            new_luts.len()
        };
        let mut k: usize = 0;
        while k < end
            invariant
                k <= end,
                nodes_to_iterate@ == spec_override(
                    self.nodes@,
                    node_idxs_to_mutate@,
                    new_luts@,
                    k as int,
                ),
                nodes_to_iterate@.len() == self.nodes@.len(),
            decreases end - k,
        {
            proof {
                lemma_override_shape(self.nodes@, node_idxs_to_mutate@, new_luts@, k as int);
            }
            let idx: usize = node_idxs_to_mutate[k];
            let mut nd: Node = nodes_to_iterate[idx];
            nd.lut = new_luts[k];
            nodes_to_iterate.set(idx, nd);
            k = k + 1;
        }
        proof {
            lemma_override_shape(self.nodes@, node_idxs_to_mutate@, new_luts@, kmax);
            lemma_same_indices_reads_ok(self.nodes@, nodes_to_iterate@, *cfg);
        }
        eval_nodes_in_place(&nodes_to_iterate, cfg, bv);
        nodes_to_iterate
    }

    /// Speculative corruption: evaluates against a private copy of the node
    /// list in which bit `flip_bits[i]` (a position `0 .. 64`) of node
    /// `node_idxs_to_corrupt[i]`'s function table is flipped, and returns
    /// that copy. The topology itself is untouched.
    #[verifier::loop_isolation(false)]
    pub fn apply_gates_with_bitflips(
        &self,
        cfg: &Configuration,
        bv: &mut BitBuf,
        node_idxs_to_corrupt: &Vec<usize>,
        flip_bits: &Vec<u8>,
    ) -> (r: Vec<Node>)
        requires
            cfg_wf(*cfg),
            net_matches_cfg(*self, *cfg),
            nodes_reads_ok(self.nodes@, *cfg),
            old(bv)@.len() == cfg.derived.bitvec_size,
            flip_bits@.len() >= node_idxs_to_corrupt@.len(),
            forall|i: int|
                0 <= i < node_idxs_to_corrupt@.len() ==> (#[trigger] node_idxs_to_corrupt@[i])
                    < self.nodes@.len(),
            forall|i: int| 0 <= i < node_idxs_to_corrupt@.len() ==> (#[trigger] flip_bits@[i]) < 64,
        ensures
            r@ == spec_corrupt(
                self.nodes@,
                node_idxs_to_corrupt@,
                flip_bits@,
                node_idxs_to_corrupt@.len() as int,
            ),
            final(bv)@ == spec_eval(*cfg, r@, old(bv)@),
            final(bv)@.len() == old(bv)@.len(),
    {
        let mut nodes_to_iterate: Vec<Node> = clone_nodes(&self.nodes);
        let end: usize = node_idxs_to_corrupt.len();
        let mut k: usize = 0;
        while k < end
            invariant
                k <= end,
                nodes_to_iterate@ == spec_corrupt(
                    self.nodes@,
                    node_idxs_to_corrupt@,
                    flip_bits@,
                    k as int,
                ),
                nodes_to_iterate@.len() == self.nodes@.len(),
            decreases end - k,
        {
            proof {
                lemma_corrupt_shape(self.nodes@, node_idxs_to_corrupt@, flip_bits@, k as int);
            }
            let idx: usize = node_idxs_to_corrupt[k];
            let mut nd: Node = nodes_to_iterate[idx];
            nd.lut = nd.lut ^ (1u64 << flip_bits[k]);
            nodes_to_iterate.set(idx, nd);
            k = k + 1;
        }
        proof {
            lemma_corrupt_shape(
                self.nodes@,
                node_idxs_to_corrupt@,
                flip_bits@,
                node_idxs_to_corrupt@.len() as int,
            );
            lemma_same_indices_reads_ok(self.nodes@, nodes_to_iterate@, *cfg);
        }
        eval_nodes_in_place(&nodes_to_iterate, cfg, bv);
        nodes_to_iterate
    }

    /// Whether every node's function table is a member of the declared
    /// bank. A network without a bank passes.
    #[verifier::loop_isolation(false)]
    pub fn verify_lut_bank_integrity(&self) -> (r: bool)
        ensures
            r <==> spec_bank_ok(self.nodes@, self.lut_bank),
    {
        match &self.lut_bank {
            Option::None => true,
            Option::Some(bank) => {
                proof {
                    assert(self.lut_bank == Option::Some(*bank));
                }
                let mut n: usize = 0;
                while n < self.nodes.len()
                    invariant
                        n <= self.nodes@.len(),
                        forall|n0: int|
                            0 <= n0 < n ==> bank@.contains(#[trigger] self.nodes@[n0].lut),
                    decreases self.nodes@.len() - n,
                {
                    let lut: u64 = self.nodes[n].lut;
                    let mut k: usize = 0;
                    let mut found: bool = false;
                    while k < bank.len()
                        invariant
                            k <= bank@.len(),
                            found <==> exists|k0: int|
                                0 <= k0 < k && (#[trigger] bank@[k0]) == lut,
                        decreases bank@.len() - k,
                    {
                        if bank[k] == lut {
                            found = true;
                        }
                        k = k + 1;
                    }
                    if !found {
                        proof {
                            assert(!bank@.contains(lut));
                            assert((self.lut_bank->0)@ == bank@);
                            assert(!spec_bank_ok(self.nodes@, self.lut_bank));
                        }
                        return false;
                    }
                    proof {
                        let k0 = choose|k0: int| 0 <= k0 < bank@.len() && bank@[k0] == lut;
                        assert(bank@.contains(lut));
                    }
                    n = n + 1;
                }
                proof {
                    assert((self.lut_bank->0)@ == bank@);
                    assert(spec_bank_ok(self.nodes@, self.lut_bank));
                }
                true
            },
        }
    }
}

impl LUTNet {
    /// Whether this network is a valid topology for `cfg`: its shape values
    /// agree with the configuration, every node's sources sit strictly
    /// below its layer's logical start, and every function table is in the
    /// declared bank.
    #[verifier::loop_isolation(false)]
    pub fn is_well_formed(&self, cfg: &Configuration) -> (r: bool)
        requires
            cfg_wf(*cfg),
        ensures
            r <==> (net_matches_cfg(*self, *cfg) && nodes_feed_forward(self.nodes@, *cfg)
                && spec_bank_ok(self.nodes@, self.lut_bank)),
    {
        if self.input_size_in_bits != cfg.derived.img_bitcount {
            return false;
        }
        if self.nodes.len() != cfg.derived.network_size {
            return false;
        }
        if self.layer_edges.len() != cfg.derived.layer_edges.len() {
            proof {
                assert(self.layer_edges@ !~= cfg.derived.layer_edges@);
            }
            return false;
        }
        let mut i: usize = 0;
        while i < self.layer_edges.len()
            invariant
                i <= self.layer_edges@.len(),
                forall|i0: int| 0 <= i0 < i ==> self.layer_edges@[i0] == cfg.derived.layer_edges@[i0],
            decreases self.layer_edges@.len() - i,
        {
            if self.layer_edges[i] != cfg.derived.layer_edges[i] {
                proof {
                    assert(self.layer_edges@ !~= cfg.derived.layer_edges@);
                }
                return false;
            }
            i = i + 1;
        }
        proof {
            assert(self.layer_edges@ =~= cfg.derived.layer_edges@);
        }
        let num_layers: usize = cfg.derived.num_layers;
        proof {
            crate::iterators::lemma_cfg_edge_ends(*cfg);
        }
        let mut layer: usize = 0;
        while layer < num_layers
            invariant
                layer <= num_layers,
                forall|n: int, j: int|
                    0 <= n < cfg.derived.layer_edges@[layer as int] && 0 <= j < 6 ==> (
                    #[trigger] self.nodes@[n].indices@[j]) < cfg.derived.img_bitcount
                        + cfg.derived.layer_edges@[spec_layer_of(*cfg, n)],
            decreases num_layers - layer,
        {
            proof {
                crate::iterators::lemma_cfg_edge_ends(*cfg);
                lemma_cfg_edge_succ(*cfg, layer as int);
                lemma_edges_mono(*cfg, layer as int + 1, cfg.derived.num_layers as int);
                let bt = cfg.data.batch_size as int;
                let imgb = cfg.derived.img_bitcount as int;
                let net = cfg.derived.network_size as int;
                assert(imgb + net <= bt * (imgb + net)) by (nonlinear_arith)
                    requires
                        bt >= 1,
                        imgb >= 0,
                        net >= 0,
                ;
            }
            let limit: usize = cfg.derived.img_bitcount + cfg.derived.layer_edges[layer];
            let node_end: usize = cfg.derived.layer_edges[layer + 1];
            let mut node_idx: usize = cfg.derived.layer_edges[layer];
            while node_idx < node_end
                invariant
                    cfg.derived.layer_edges@[layer as int] <= node_idx <= node_end,
                    node_end == cfg.derived.layer_edges@[layer as int + 1],
                    limit == cfg.derived.img_bitcount + cfg.derived.layer_edges@[layer as int],
                    forall|n: int, j: int|
                        0 <= n < node_idx && 0 <= j < 6 ==> (
                        #[trigger] self.nodes@[n].indices@[j]) < cfg.derived.img_bitcount
                            + cfg.derived.layer_edges@[spec_layer_of(*cfg, n)],
                decreases node_end - node_idx,
            {
                proof {
                    lemma_layer_of_locate(*cfg, layer as int, node_idx as int);
                }
                let mut j: usize = 0;
                while j < 6
                    invariant
                        j <= 6,
                        node_idx < self.nodes@.len(),
                        limit == cfg.derived.img_bitcount + cfg.derived.layer_edges@[layer as int],
                        spec_layer_of(*cfg, node_idx as int) == layer as int,
                        forall|j0: int|
                            0 <= j0 < j ==> (#[trigger] self.nodes@[node_idx as int].indices@[j0])
                                < limit,
                    decreases 6 - j,
                {
                    if self.nodes[node_idx].indices[j] >= limit {
                        proof {
                            assert(!nodes_feed_forward(self.nodes@, *cfg));
                        }
                        return false;
                    }
                    j = j + 1;
                }
                node_idx = node_idx + 1;
            }
            layer = layer + 1;
        }
        proof {
            crate::iterators::lemma_cfg_edge_ends(*cfg);
            assert forall|n: int, j: int|
                0 <= n < self.nodes@.len() && 0 <= j < 6 implies (
            #[trigger] self.nodes@[n].indices@[j]) < cfg.derived.img_bitcount
                + cfg.derived.layer_edges@[spec_layer_of(*cfg, n)] by {}
        }
        self.verify_lut_bank_integrity()
    }
}

/// Feed-forward invariant, by layer: in a valid topology every node of
/// layer `layer` keeps all 6 source addresses strictly below that layer's
/// logical start, so the topology is a layered DAG.
pub proof fn lemma_feed_forward_bounds(net: LUTNet, cfg: Configuration)
    requires
        cfg_wf(cfg),
        net_matches_cfg(net, cfg),
        nodes_feed_forward(net.nodes@, cfg),
    ensures
        forall|layer: int, n: int, j: int|
            0 <= layer < cfg.derived.num_layers && (#[trigger] cfg.derived.layer_edges@[layer])
                <= n < cfg.derived.layer_edges@[layer + 1] && 0 <= j < 6 ==> (
            #[trigger] net.nodes@[n].indices@[j]) < cfg.derived.img_bitcount
                + cfg.derived.layer_edges@[layer],
{
    assert forall|layer: int, n: int, j: int|
        0 <= layer < cfg.derived.num_layers && (#[trigger] cfg.derived.layer_edges@[layer]) <= n
            < cfg.derived.layer_edges@[layer + 1] && 0 <= j < 6 implies (
    #[trigger] net.nodes@[n].indices@[j]) < cfg.derived.img_bitcount
        + cfg.derived.layer_edges@[layer] by {
        lemma_edges_mono(cfg, layer + 1, cfg.derived.num_layers as int);
        crate::iterators::lemma_cfg_edge_ends(cfg);
        lemma_layer_of_locate(cfg, layer, n);
    }
}

/// Bank closure: a mutation trial whose replacement tables are all bank
/// members keeps every node's table a bank member, so a topology that
/// adopts the returned node list still satisfies the bank invariant.
/// Corruption trials that are discarded leave the topology untouched, since
/// evaluation never writes the node list it was called on.
pub proof fn lemma_bank_closure_mutation(
    nodes: Seq<Node>,
    idxs: Seq<usize>,
    luts: Seq<u64>,
    k: int,
    lut_bank: Option<Vec<u64>>,
)
    requires
        spec_bank_ok(nodes, lut_bank),
        0 <= k <= idxs.len(),
        k <= luts.len(),
        forall|i: int| 0 <= i < k ==> (#[trigger] idxs[i]) < nodes.len(),
        lut_bank is Some ==> forall|i: int|
            0 <= i < k ==> (lut_bank->0)@.contains(#[trigger] luts[i]),
    ensures
        spec_bank_ok(spec_override(nodes, idxs, luts, k), lut_bank),
{
    if lut_bank is Some {
        lemma_override_shape(nodes, idxs, luts, k);
        let result = spec_override(nodes, idxs, luts, k);
        assert forall|n: int| 0 <= n < result.len() implies (lut_bank->0)@.contains(
            #[trigger] result[n].lut,
        ) by {
            if result[n].lut != nodes[n].lut {
                let i = choose|i: int| 0 <= i < k && #[trigger] luts[i] == result[n].lut;
                assert((lut_bank->0)@.contains(luts[i]));
            }
        }
    }
}

/// An element-for-element copy of a node list.
fn clone_nodes(nodes: &Vec<Node>) -> (r: Vec<Node>)
    ensures
        r@ == nodes@,
{
    let mut out: Vec<Node> = Vec::new();
    let mut i: usize = 0;
    while i < nodes.len()
        invariant
            i <= nodes@.len(),
            out@ == nodes@.take(i as int),
        decreases nodes@.len() - i,
    {
        out.push(nodes[i]);
        proof {
            assert(out@ =~= nodes@.take(i + 1));
        }
        i = i + 1;
    }
    proof {
        assert(nodes@.take(nodes@.len() as int) =~= nodes@);
    }
    out
}

} // verus!
