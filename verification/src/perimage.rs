//! Per-image semantics of evaluation.
//!
//! The physical layout packs a whole batch, but each image's outputs depend
//! on that image's pixels alone. This module defines what a single image's
//! logical address space holds after evaluation, proves that batch
//! evaluation computes exactly that for every image, and concludes that
//! evaluating one batch of size `B` equals `B` evaluations of size 1.
//!
//! These results hold of topologies whose nodes read the immediately
//! previous layer (layer 0 reads pixels): that is what the stripe-relative
//! read offsets of the layout translate correctly.

use vstd::prelude::*;

use crate::iterators::lemma_cfg_edge_succ;
use crate::iterators::lemma_edges_mono;
use crate::iterators::lemma_layer_step_at;
use crate::iterators::spec_read_off;
use crate::iterators::spec_stripe_start;
use crate::iterators::spec_write_addr;
use crate::netcore::Node;
use crate::netcore::spec_eval;
use crate::netcore::spec_eval_upto;
use crate::netcore::spec_layer_commit;
use crate::netcore::spec_gate_index;
use crate::netcore::spec_node_out;
use crate::netcore::spec_layer_of;
use crate::netcore::lemma_layer_of_locate;
use crate::settings::Configuration;
use crate::settings::cfg_wf;

verus! {

/// Every node's sources lie in the immediately previous layer's logical
/// region; layer-0 nodes read raw pixels. This is the connectivity the
/// stripe layout translates correctly, and it implies the feed-forward
/// invariant.
pub open spec fn nodes_sources_local(nodes: Seq<Node>, cfg: Configuration) -> bool {
    forall|n: int, j: int|
        0 <= n < nodes.len() && 0 <= j < 6 ==> {
            let layer = spec_layer_of(cfg, n);
            let a = (#[trigger] nodes[n].indices@[j]) as int;
            if layer == 0 {
                a < cfg.derived.img_bitcount
            } else {
                cfg.derived.img_bitcount + cfg.derived.layer_edges@[layer - 1] <= a
                    < cfg.derived.img_bitcount + cfg.derived.layer_edges@[layer]
            }
        }
}

/// Locality pins every source below its layer's start: the feed-forward
/// invariant follows.
pub proof fn lemma_local_implies_feed_forward(nodes: Seq<Node>, cfg: Configuration)
    requires
        cfg_wf(cfg),
        nodes.len() == cfg.derived.network_size,
        nodes_sources_local(nodes, cfg),
    ensures
        crate::netcore::nodes_feed_forward(nodes, cfg),
{
    assert forall|n: int, j: int| 0 <= n < nodes.len() && 0 <= j < 6 implies (
    #[trigger] nodes[n].indices@[j]) < cfg.derived.img_bitcount + cfg.derived.layer_edges@[
        spec_layer_of(cfg, n)] by {
        crate::netcore::lemma_layer_of_range(cfg, n);
        crate::iterators::lemma_cfg_edge_ends(cfg);
        let layer = spec_layer_of(cfg, n);
        if layer == 0 {
            crate::iterators::lemma_edges_link(cfg, 0);
        }
    }
}

/// One image's logical address space after layers `0 .. layer` are
/// computed: the `img_bitcount` raw pixels of `x`, then each computed
/// layer's outputs in order.
pub open spec fn img_logical(
    cfg: Configuration,
    nodes: Seq<Node>,
    x: Seq<bool>,
    layer: int,
) -> Seq<bool>
    decreases layer,
{
    if layer <= 0 {
        x
    } else {
        let prev = img_logical(cfg, nodes, x, layer - 1);
        prev + Seq::new(
            cfg.network.layer_sizes@[layer - 1] as nat,
            |n: int|
                spec_node_out(prev, nodes[cfg.derived.layer_edges@[layer - 1] + n], 0),
        )
    }
}

/// The logical space covers the pixels and every computed layer.
pub proof fn lemma_img_logical_len(cfg: Configuration, nodes: Seq<Node>, x: Seq<bool>, layer: int)
    requires
        cfg_wf(cfg),
        x.len() == cfg.derived.img_bitcount,
        0 <= layer <= cfg.derived.num_layers,
    ensures
        img_logical(cfg, nodes, x, layer).len() == cfg.derived.img_bitcount
            + cfg.derived.layer_edges@[layer],
    decreases layer,
{
    crate::iterators::lemma_cfg_edge_ends(cfg);
    if layer > 0 {
        lemma_img_logical_len(cfg, nodes, x, layer - 1);
        lemma_cfg_edge_succ(cfg, layer - 1);
    }
}

/// Committing a layer leaves every address outside that layer's stripe
/// unchanged, and stripes only grow with the layer: once written, a stripe
/// is stable.
pub proof fn lemma_stripe_starts_mono(cfg: Configuration, l1: int, l2: int)
    requires
        cfg_wf(cfg),
        0 <= l1 <= l2 <= cfg.derived.num_layers,
    ensures
        spec_stripe_start(cfg, l1) <= spec_stripe_start(cfg, l2),
        spec_stripe_start(cfg, l1) >= cfg.derived.batch_bitcount,
    decreases l2 - l1,
{
    lemma_edges_mono(cfg, l1, l2);
    crate::iterators::lemma_edges_link(cfg, l1);
    let batch = cfg.data.batch_size as int;
    let imgb = cfg.derived.img_bitcount as int;
    let e1 = cfg.derived.layer_edges@[l1] as int;
    let e2 = cfg.derived.layer_edges@[l2] as int;
    assert(batch * (imgb + e1) <= batch * (imgb + e2) && batch * imgb <= batch * (imgb + e1))
        by (nonlinear_arith)
        requires
            batch >= 0,
            0 <= e1 <= e2,
            imgb >= 0,
    ;
}

/// After evaluating layers `0 .. upper`, any address below the write region
/// of layer `low` still holds what `spec_eval_upto(.., low)` put there.
pub proof fn lemma_eval_stable_below(
    cfg: Configuration,
    nodes: Seq<Node>,
    init: Seq<bool>,
    low: int,
    upper: int,
    i: int,
)
    requires
        cfg_wf(cfg),
        init.len() == cfg.derived.bitvec_size,
        0 <= low <= upper <= cfg.derived.num_layers,
        0 <= i < init.len(),
        i < spec_stripe_start(cfg, low),
    ensures
        spec_eval_upto(cfg, nodes, init, upper)[i] == spec_eval_upto(cfg, nodes, init, low)[i],
        spec_eval_upto(cfg, nodes, init, upper).len() == init.len(),
    decreases upper,
{
    lemma_eval_len(cfg, nodes, init, upper);
    lemma_eval_len(cfg, nodes, init, low);
    if upper > low {
        lemma_eval_stable_below(cfg, nodes, init, low, upper - 1, i);
        lemma_stripe_starts_mono(cfg, low, upper - 1);
    }
}

/// Evaluation keeps the buffer's length.
pub proof fn lemma_eval_len(cfg: Configuration, nodes: Seq<Node>, init: Seq<bool>, upper: int)
    ensures
        spec_eval_upto(cfg, nodes, init, upper).len() == init.len(),
    decreases upper,
{
    if upper > 0 {
        lemma_eval_len(cfg, nodes, init, upper - 1);
    }
}

/// The pixels of image `m` inside stripe 0 of a packed buffer.
pub open spec fn image_of(cfg: Configuration, init: Seq<bool>, m: int) -> Seq<bool> {
    init.subrange(m * cfg.derived.img_bitcount, m * cfg.derived.img_bitcount
        + cfg.derived.img_bitcount)
}

/// An image slot sits inside stripe 0.
pub proof fn lemma_image_of_len(cfg: Configuration, init: Seq<bool>, m: int)
    requires
        cfg_wf(cfg),
        init.len() == cfg.derived.bitvec_size,
        0 <= m < cfg.data.batch_size,
    ensures
        image_of(cfg, init, m).len() == cfg.derived.img_bitcount,
        0 <= m * cfg.derived.img_bitcount,
        m * cfg.derived.img_bitcount + cfg.derived.img_bitcount <= cfg.derived.batch_bitcount,
        cfg.derived.batch_bitcount <= init.len(),
{
    let batch = cfg.data.batch_size as int;
    let imgb = cfg.derived.img_bitcount as int;
    let net = cfg.derived.network_size as int;
    assert(0 <= m * imgb && m * imgb + imgb <= batch * imgb && batch * imgb <= batch * (imgb
        + net)) by (nonlinear_arith)
        requires
            0 <= m < batch,
            imgb >= 0,
            net >= 0,
    ;
}

/// Batch evaluation computes, for every image and every layer, exactly the
/// per-image logical outputs of that image's own pixels.
pub proof fn lemma_eval_per_image(
    cfg: Configuration,
    nodes: Seq<Node>,
    init: Seq<bool>,
    m: int,
    upper: int,
)
    requires
        cfg_wf(cfg),
        nodes.len() == cfg.derived.network_size,
        nodes_sources_local(nodes, cfg),
        init.len() == cfg.derived.bitvec_size,
        0 <= m < cfg.data.batch_size,
        0 <= upper <= cfg.derived.num_layers,
    ensures
        forall|layer: int, n: int|
            0 <= layer < upper && 0 <= n < cfg.network.layer_sizes@[layer] ==> spec_eval_upto(
                cfg,
                nodes,
                init,
                upper,
            )[#[trigger] spec_write_addr(cfg, layer, m, n)] == img_logical(
                cfg,
                nodes,
                image_of(cfg, init, m),
                layer + 1,
            )[cfg.derived.img_bitcount + cfg.derived.layer_edges@[layer] + n],
    decreases upper,
{
    if upper <= 0 {
        return ;
    }
    let layer = upper - 1;
    let x = image_of(cfg, init, m);
    let batch = cfg.data.batch_size as int;
    let imgb = cfg.derived.img_bitcount as int;
    let edges = cfg.derived.layer_edges@;
    let sizes = cfg.network.layer_sizes@;
    let pre = spec_eval_upto(cfg, nodes, init, layer);
    let cur = spec_eval_upto(cfg, nodes, init, upper);
    lemma_image_of_len(cfg, init, m);
    lemma_eval_per_image(cfg, nodes, init, m, layer);
    lemma_eval_len(cfg, nodes, init, layer);
    lemma_eval_len(cfg, nodes, init, upper);
    lemma_img_logical_len(cfg, nodes, x, layer);
    lemma_img_logical_len(cfg, nodes, x, layer + 1);
    crate::iterators::lemma_cfg_edge_ends(cfg);
    lemma_cfg_edge_succ(cfg, layer);

    // Older stripes are untouched by this layer's commit.
    assert forall|l0: int, n: int|
        0 <= l0 < layer && 0 <= n < sizes[l0] implies cur[#[trigger] spec_write_addr(
        cfg,
        l0,
        m,
        n,
    )] == img_logical(cfg, nodes, x, l0 + 1)[imgb + edges[l0] + n] by {
        lemma_layer_step_at(cfg, l0, m, n);
        lemma_stripe_starts_mono(cfg, l0 + 1, layer);
        lemma_cfg_edge_succ(cfg, l0);
        assert(batch * edges[l0 + 1] == batch * edges[l0] + batch * sizes[l0]
            && spec_write_addr(cfg, l0, m, n) < batch * (imgb + edges[l0 + 1]) && batch * (imgb
            + edges[l0 + 1]) == batch * imgb + batch * edges[l0 + 1] && batch * (imgb + edges[l0])
            == batch * imgb + batch * edges[l0] && m * sizes[l0] + n < batch * sizes[l0])
            by (nonlinear_arith)
            requires
                edges[l0 + 1] == edges[l0] + sizes[l0],
                0 <= m < batch,
                0 <= n < sizes[l0],
                spec_write_addr(cfg, l0, m, n) == batch * (imgb + edges[l0]) + m * sizes[l0] + n,
                edges[l0] >= 0,
                imgb >= 0,
        ;
        assert(spec_write_addr(cfg, l0, m, n) < spec_stripe_start(cfg, l0 + 1));
    }

    // This layer's stripe holds the per-image block.
    let log = img_logical(cfg, nodes, x, layer);
    assert forall|n: int| 0 <= n < sizes[layer] implies cur[#[trigger] spec_write_addr(
        cfg,
        layer,
        m,
        n,
    )] == img_logical(cfg, nodes, x, layer + 1)[imgb + edges[layer] + n] by {
        lemma_layer_step_at(cfg, layer, m, n);
        let w = spec_write_addr(cfg, layer, m, n);
        let start = spec_stripe_start(cfg, layer);
        assert(batch * edges[layer + 1] == batch * edges[layer] + batch * sizes[layer] && m
            * sizes[layer] + n < batch * sizes[layer] && batch * (imgb + edges[layer]) == batch
            * imgb + batch * edges[layer] && 0 <= m * sizes[layer] + n) by (nonlinear_arith)
            requires
                edges[layer + 1] == edges[layer] + sizes[layer],
                0 <= m < batch,
                0 <= n < sizes[layer],
                edges[layer] >= 0,
                imgb >= 0,
        ;
        vstd::arithmetic::div_mod::lemma_fundamental_div_mod_converse(
            m * sizes[layer] + n,
            sizes[layer] as int,
            m,
            n,
        );
        let node_idx = edges[layer] + n;
        lemma_layer_of_locate(cfg, layer, node_idx);
        lemma_edges_mono(cfg, layer + 1, cfg.derived.num_layers as int);
        assert(cur[w] == spec_node_out(pre, nodes[node_idx], spec_read_off(cfg, layer, m)));
        lemma_gate_reads_match(cfg, nodes, init, x, m, layer, node_idx);
        assert(img_logical(cfg, nodes, x, layer + 1)[imgb + edges[layer] + n] == spec_node_out(
            log,
            nodes[node_idx],
            0,
        ));
    }
}

/// For a node of `layer` with local sources, each of its 6 reads out of the
/// batch buffer (offset for image `m`) sees the same bit as the per-image
/// logical space, so the whole gate output matches.
proof fn lemma_gate_reads_match(
    cfg: Configuration,
    nodes: Seq<Node>,
    init: Seq<bool>,
    x: Seq<bool>,
    m: int,
    layer: int,
    node_idx: int,
)
    requires
        cfg_wf(cfg),
        nodes.len() == cfg.derived.network_size,
        nodes_sources_local(nodes, cfg),
        init.len() == cfg.derived.bitvec_size,
        x == image_of(cfg, init, m),
        0 <= m < cfg.data.batch_size,
        0 <= layer < cfg.derived.num_layers,
        cfg.derived.layer_edges@[layer] <= node_idx < cfg.derived.layer_edges@[layer + 1],
        forall|l0: int, n: int|
            0 <= l0 < layer && 0 <= n < cfg.network.layer_sizes@[l0] ==> spec_eval_upto(
                cfg,
                nodes,
                init,
                layer,
            )[#[trigger] spec_write_addr(cfg, l0, m, n)] == img_logical(cfg, nodes, x, l0 + 1)[
                cfg.derived.img_bitcount + cfg.derived.layer_edges@[l0] + n],
    ensures
        spec_node_out(
            spec_eval_upto(cfg, nodes, init, layer),
            nodes[node_idx],
            spec_read_off(cfg, layer, m),
        ) == spec_node_out(img_logical(cfg, nodes, x, layer), nodes[node_idx], 0),
{
    let pre = spec_eval_upto(cfg, nodes, init, layer);
    let log = img_logical(cfg, nodes, x, layer);
    let off = spec_read_off(cfg, layer, m);
    let node = nodes[node_idx];
    let imgb = cfg.derived.img_bitcount as int;
    let batch = cfg.data.batch_size as int;
    let edges = cfg.derived.layer_edges@;
    let sizes = cfg.network.layer_sizes@;
    lemma_layer_of_locate(cfg, layer, node_idx);
    lemma_eval_len(cfg, nodes, init, layer);
    lemma_image_of_len(cfg, init, m);
    lemma_img_logical_len(cfg, nodes, x, layer);
    lemma_edges_mono(cfg, layer + 1, cfg.derived.num_layers as int);
    crate::iterators::lemma_cfg_edge_ends(cfg);
    assert forall|j: int| 0 <= j < 6 implies pre[(#[trigger] node.indices@[j]) + off] == log[
        node.indices@[j] as int] by {
        let a = node.indices@[j] as int;
        assert(nodes[node_idx].indices@[j] == a);
        if layer == 0 {
            assert(a < imgb);
            assert(off == m * imgb);
            lemma_stripe_starts_mono(cfg, 0, 0);
            assert(a + m * imgb < batch * imgb && 0 <= m * imgb && m * imgb + imgb <= batch * imgb)
                by (nonlinear_arith)
                requires
                    0 <= a < imgb,
                    0 <= m < batch,
            ;
            assert(batch * (imgb + edges[0]) == batch * imgb + batch * edges[0])
                by (nonlinear_arith);
            crate::iterators::lemma_cfg_edge_ends(cfg);
            lemma_eval_stable_below(cfg, nodes, init, 0, layer, a + off);
            assert(pre[a + off] == init[m * imgb + a]);
            assert(log[a] == x[a]);
            assert(x[a] == init[m * imgb + a]);
        } else {
            let prev_start = imgb + edges[layer - 1];
            let rel = a - prev_start;
            let s = sizes[layer - 1] as int;
            assert(prev_start <= a < imgb + edges[layer]);
            lemma_cfg_edge_succ(cfg, layer - 1);
            assert(0 <= rel < s);
            // The physical read address is image m's slot of stripe layer-1.
            assert(a + off == spec_write_addr(cfg, layer - 1, m, rel)) by (nonlinear_arith)
                requires
                    off == (batch - 1) * (imgb + edges[layer - 1]) + m * s,
                    a == prev_start + rel,
                    prev_start == imgb + edges[layer - 1],
                    spec_write_addr(cfg, layer - 1, m, rel) == batch * (imgb + edges[layer - 1])
                        + m * s + rel,
            ;
            assert(pre[a + off] == img_logical(cfg, nodes, x, layer)[imgb + edges[layer - 1]
                + rel]);
            assert(log[a] == img_logical(cfg, nodes, x, layer)[a]);
        }
    }
    assert(spec_gate_index(pre, node, off) == spec_gate_index(log, node, 0));
}

/// Batch-size independence: evaluating image `m` inside a batch of any size
/// gives the same per-image outputs, for every layer, as evaluating that
/// image alone in a batch of size 1, provided both configurations share the
/// network shape and the image's pixels agree.
pub proof fn lemma_batch_size_independence(
    cfg_b: Configuration,
    cfg_1: Configuration,
    nodes: Seq<Node>,
    init_b: Seq<bool>,
    init_1: Seq<bool>,
    m: int,
)
    requires
        cfg_wf(cfg_b),
        cfg_wf(cfg_1),
        cfg_1.data.batch_size == 1,
        cfg_1.network.layer_sizes@ == cfg_b.network.layer_sizes@,
        cfg_1.derived.layer_edges@ == cfg_b.derived.layer_edges@,
        cfg_1.derived.img_bitcount == cfg_b.derived.img_bitcount,
        cfg_1.derived.num_layers == cfg_b.derived.num_layers,
        cfg_1.derived.network_size == cfg_b.derived.network_size,
        nodes.len() == cfg_b.derived.network_size,
        nodes_sources_local(nodes, cfg_b),
        init_b.len() == cfg_b.derived.bitvec_size,
        init_1.len() == cfg_1.derived.bitvec_size,
        0 <= m < cfg_b.data.batch_size,
        image_of(cfg_1, init_1, 0) == image_of(cfg_b, init_b, m),
    ensures
        forall|layer: int, n: int|
            0 <= layer < cfg_b.derived.num_layers && 0 <= n
                < cfg_b.network.layer_sizes@[layer] ==> spec_eval(cfg_b, nodes, init_b)[
            #[trigger] spec_write_addr(cfg_b, layer, m, n)] == spec_eval(cfg_1, nodes, init_1)[
            spec_write_addr(cfg_1, layer, 0, n)],
{
    let nl = cfg_b.derived.num_layers as int;
    lemma_sources_local_same(nodes, cfg_b, cfg_1);
    lemma_eval_per_image(cfg_b, nodes, init_b, m, nl);
    lemma_eval_per_image(cfg_1, nodes, init_1, 0, nl);
    let x = image_of(cfg_b, init_b, m);
    assert forall|layer: int, n: int|
        0 <= layer < nl && 0 <= n < cfg_b.network.layer_sizes@[layer] implies spec_eval(
        cfg_b,
        nodes,
        init_b,
    )[#[trigger] spec_write_addr(cfg_b, layer, m, n)] == spec_eval(cfg_1, nodes, init_1)[
    spec_write_addr(cfg_1, layer, 0, n)] by {
        lemma_img_logical_same(cfg_b, cfg_1, nodes, x, layer + 1);
    }
}

/// Source locality reads only the boundary vector and the pixel count, so
/// two configurations that share those agree on it.
proof fn lemma_sources_local_same(nodes: Seq<Node>, cfg_a: Configuration, cfg_c: Configuration)
    requires
        cfg_a.derived.layer_edges@ == cfg_c.derived.layer_edges@,
        cfg_a.derived.img_bitcount == cfg_c.derived.img_bitcount,
        cfg_a.derived.num_layers == cfg_c.derived.num_layers,
        nodes_sources_local(nodes, cfg_a),
    ensures
        nodes_sources_local(nodes, cfg_c),
{
    assert forall|n: int| true implies #[trigger] spec_layer_of(cfg_c, n) == spec_layer_of(
        cfg_a,
        n,
    ) by {
        lemma_layer_find_same(cfg_a, cfg_c, n, 0);
    }
}

proof fn lemma_layer_find_same(cfg_a: Configuration, cfg_c: Configuration, n: int, l: int)
    requires
        cfg_a.derived.layer_edges@ == cfg_c.derived.layer_edges@,
        cfg_a.derived.num_layers == cfg_c.derived.num_layers,
    ensures
        crate::netcore::layer_find(cfg_c, n, l) == crate::netcore::layer_find(cfg_a, n, l),
    decreases cfg_a.derived.num_layers - l,
{
    if l + 1 < cfg_a.derived.num_layers {
        lemma_layer_find_same(cfg_a, cfg_c, n, l + 1);
    }
}

/// The per-image logical space reads only the network shape, never the
/// batch size, so two configurations that share the shape agree on it.
proof fn lemma_img_logical_same(
    cfg_a: Configuration,
    cfg_c: Configuration,
    nodes: Seq<Node>,
    x: Seq<bool>,
    layer: int,
)
    requires
        cfg_a.network.layer_sizes@ == cfg_c.network.layer_sizes@,
        cfg_a.derived.layer_edges@ == cfg_c.derived.layer_edges@,
    ensures
        img_logical(cfg_a, nodes, x, layer) == img_logical(cfg_c, nodes, x, layer),
    decreases layer,
{
    if layer > 0 {
        lemma_img_logical_same(cfg_a, cfg_c, nodes, x, layer - 1);
        let prev = img_logical(cfg_a, nodes, x, layer - 1);
        assert(img_logical(cfg_a, nodes, x, layer) =~= img_logical(cfg_c, nodes, x, layer));
    }
}

} // verus!
