//! Addressing and layout: the two address spaces, the translation between
//! them, and the traversal generators that emit
//! `(node, image, layer, write address, read offset)` steps in dependency
//! order.
//!
//! The logical space is per image: addresses `[0, img_bitcount)` are one
//! image's raw pixels, later addresses are the concatenated layer outputs.
//! The physical buffer packs a whole batch: stripe 0 holds every image's
//! pixels image-major, stripe `L` holds every image's layer-`L` output block.

use vstd::prelude::*;

use crate::settings::Configuration;
use crate::settings::cfg_wf;
use crate::settings::edge_at;
use crate::settings::lemma_edge_succ;

verus! {

/// Offset added to a node's logical source addresses to reach the physical
/// bits of image `m` when evaluating layer `layer`.
pub open spec fn spec_read_off(cfg: Configuration, layer: int, m: int) -> int {
    if layer == 0 {
        m * cfg.derived.img_bitcount
    } else {
        (cfg.data.batch_size - 1) * (cfg.derived.img_bitcount + cfg.derived.layer_edges@[layer - 1])
            + m * cfg.network.layer_sizes@[layer - 1]
    }
}

/// First physical address of layer `layer`'s stripe.
pub open spec fn spec_stripe_start(cfg: Configuration, layer: int) -> int {
    cfg.data.batch_size * (cfg.derived.img_bitcount + cfg.derived.layer_edges@[layer])
}

/// Physical address written by node `n` of layer `layer` for image `m`
/// (`n` counts within the layer).
pub open spec fn spec_write_addr(cfg: Configuration, layer: int, m: int, n: int) -> int {
    spec_stripe_start(cfg, layer) + m * cfg.network.layer_sizes@[layer] + n
}

/// One traversal step: node index, image index, layer, physical write
/// address, physical read offset.
pub open spec fn spec_gate_step(cfg: Configuration, layer: int, m: int, n: int) -> (
    int,
    int,
    int,
    int,
    int,
) {
    (
        cfg.derived.layer_edges@[layer] + n,
        m,
        layer,
        spec_write_addr(cfg, layer, m, n),
        spec_read_off(cfg, layer, m),
    )
}

/// The steps of one layer, image-major, node-minor.
pub open spec fn spec_layer_traversal(cfg: Configuration, layer: int) -> Seq<
    (int, int, int, int, int),
> {
    let size = cfg.network.layer_sizes@[layer] as int;
    Seq::new(
        (cfg.data.batch_size * size) as nat,
        |i: int| spec_gate_step(cfg, layer, i / size, i % size),
    )
}

/// The steps of layers `0 .. layer`, in layer order.
pub open spec fn spec_traversal_upto(cfg: Configuration, layer: int) -> Seq<
    (int, int, int, int, int),
>
    decreases layer,
{
    if layer <= 0 {
        Seq::empty()
    } else {
        spec_traversal_upto(cfg, layer - 1) + spec_layer_traversal(cfg, layer - 1)
    }
}

/// The steps of the whole network.
pub open spec fn spec_full_traversal(cfg: Configuration) -> Seq<(int, int, int, int, int)> {
    spec_traversal_upto(cfg, cfg.derived.num_layers as int)
}

/// Total number of steps over the whole network.
pub open spec fn spec_total_steps(cfg: Configuration) -> int {
    cfg.data.batch_size * cfg.derived.network_size
}

/// Length of a traversal prefix: `batch_size` steps for every node of the
/// covered layers.
pub proof fn lemma_traversal_upto_len(cfg: Configuration, layer: int)
    requires
        cfg_wf(cfg),
        0 <= layer <= cfg.derived.num_layers,
    ensures
        spec_traversal_upto(cfg, layer).len() == cfg.data.batch_size
            * cfg.derived.layer_edges@[layer],
    decreases layer,
{
    let sizes = cfg.network.layer_sizes@;
    if layer == 0 {
        lemma_cfg_edge_ends(cfg);
    } else {
        lemma_traversal_upto_len(cfg, layer - 1);
        lemma_cfg_edge_succ(cfg, layer - 1);
        assert(cfg.data.batch_size * cfg.derived.layer_edges@[layer - 1] + cfg.data.batch_size
            * sizes[layer - 1] == cfg.data.batch_size * (cfg.derived.layer_edges@[layer - 1]
            + sizes[layer - 1])) by (nonlinear_arith);
    }
}

/// Indexing into the whole-network traversal lands in the traversal of the
/// layer that owns that position.
pub proof fn lemma_full_traversal_index(cfg: Configuration, layer: int, k: int)
    requires
        cfg_wf(cfg),
        0 <= layer < cfg.derived.num_layers,
        cfg.data.batch_size * cfg.derived.layer_edges@[layer] <= k < cfg.data.batch_size
            * cfg.derived.layer_edges@[layer + 1],
    ensures
        0 <= k < spec_full_traversal(cfg).len(),
        spec_full_traversal(cfg)[k] == spec_layer_traversal(cfg, layer)[k - cfg.data.batch_size
            * cfg.derived.layer_edges@[layer]],
{
    lemma_traversal_upto_index(cfg, layer, cfg.derived.num_layers as int, k);
    lemma_traversal_upto_len(cfg, cfg.derived.num_layers as int);
    lemma_edges_mono(cfg, layer + 1, cfg.derived.num_layers as int);
    assert(cfg.data.batch_size * cfg.derived.layer_edges@[layer + 1] <= cfg.data.batch_size
        * cfg.derived.layer_edges@[cfg.derived.num_layers as int]) by (nonlinear_arith)
        requires
            cfg.data.batch_size >= 0,
            cfg.derived.layer_edges@[layer + 1] <= cfg.derived.layer_edges@[cfg.derived.num_layers
                as int],
    ;
}

proof fn lemma_traversal_upto_index(cfg: Configuration, layer: int, upper: int, k: int)
    requires
        cfg_wf(cfg),
        0 <= layer < upper <= cfg.derived.num_layers,
        cfg.data.batch_size * cfg.derived.layer_edges@[layer] <= k < cfg.data.batch_size
            * cfg.derived.layer_edges@[layer + 1],
    ensures
        spec_traversal_upto(cfg, upper)[k] == spec_layer_traversal(cfg, layer)[k
            - cfg.data.batch_size * cfg.derived.layer_edges@[layer]],
    decreases upper,
{
    let sizes = cfg.network.layer_sizes@;
    lemma_traversal_upto_len(cfg, layer);
    lemma_traversal_upto_len(cfg, layer + 1);
    lemma_cfg_edge_succ(cfg, layer);
    assert(cfg.data.batch_size * (cfg.derived.layer_edges@[layer] + sizes[layer])
        == cfg.data.batch_size * cfg.derived.layer_edges@[layer] + cfg.data.batch_size
        * sizes[layer]) by (nonlinear_arith);
    if upper == layer + 1 {
    } else {
        lemma_traversal_upto_index(cfg, layer, upper - 1, k);
        lemma_traversal_upto_len(cfg, upper - 1);
        lemma_edges_mono(cfg, layer + 1, upper - 1);
        assert(cfg.data.batch_size * cfg.derived.layer_edges@[layer + 1] <= cfg.data.batch_size
            * cfg.derived.layer_edges@[upper - 1]) by (nonlinear_arith)
            requires
                cfg.data.batch_size >= 0,
                cfg.derived.layer_edges@[layer + 1] <= cfg.derived.layer_edges@[upper - 1],
        ;
    }
}

/// The stored boundary vector agrees with the boundary spec.
pub proof fn lemma_edges_link(cfg: Configuration, i: int)
    requires
        cfg_wf(cfg),
        0 <= i <= cfg.network.layer_sizes@.len(),
    ensures
        cfg.derived.layer_edges@[i] == edge_at(cfg.network.layer_sizes@, i),
        cfg.derived.layer_edges@[i] >= 0,
{
    crate::settings::lemma_sum_nonneg(cfg.network.layer_sizes@.take(i));
}

/// Boundary recurrence, phrased over the stored vector.
pub proof fn lemma_cfg_edge_succ(cfg: Configuration, i: int)
    requires
        cfg_wf(cfg),
        0 <= i < cfg.network.layer_sizes@.len(),
    ensures
        cfg.derived.layer_edges@[i + 1] == cfg.derived.layer_edges@[i]
            + cfg.network.layer_sizes@[i],
        cfg.derived.layer_edges@[i] >= 0,
{
    lemma_edges_link(cfg, i);
    lemma_edges_link(cfg, i + 1);
    lemma_edge_succ(cfg.network.layer_sizes@, i);
}

/// The last boundary is the whole network's node count; the zeroth is zero.
pub proof fn lemma_cfg_edge_ends(cfg: Configuration)
    requires
        cfg_wf(cfg),
    ensures
        cfg.derived.layer_edges@[cfg.derived.num_layers as int] == cfg.derived.network_size,
        cfg.derived.layer_edges@[0] == 0,
{
    let sizes = cfg.network.layer_sizes@;
    let nl = cfg.derived.num_layers as int;
    lemma_edges_link(cfg, nl);
    lemma_edges_link(cfg, 0);
    crate::settings::lemma_edge_zero(sizes);
    assert(sizes.take(nl) =~= sizes);
}

/// Layer boundaries never decrease.
pub proof fn lemma_edges_mono(cfg: Configuration, i: int, j: int)
    requires
        cfg_wf(cfg),
        0 <= i <= j <= cfg.derived.num_layers,
    ensures
        cfg.derived.layer_edges@[i] <= cfg.derived.layer_edges@[j],
    decreases j - i,
{
    if i < j {
        lemma_edges_mono(cfg, i + 1, j);
        lemma_cfg_edge_succ(cfg, i);
    }
}

/// The whole-network traversal is exactly the concatenation of the per-layer
/// traversals, in layer order.
pub proof fn lemma_traversal_is_layer_concat(cfg: Configuration, layer: int)
    requires
        cfg_wf(cfg),
        0 <= layer < cfg.derived.num_layers,
    ensures
        spec_traversal_upto(cfg, layer + 1) == spec_traversal_upto(cfg, layer)
            + spec_layer_traversal(cfg, layer),
{
}

/// The whole-network traversal has one step per (node, image) pair, and its
/// length plus the input stripe fills the physical buffer.
pub proof fn lemma_total_steps(cfg: Configuration)
    requires
        cfg_wf(cfg),
    ensures
        spec_full_traversal(cfg).len() == spec_total_steps(cfg),
        spec_total_steps(cfg) + cfg.derived.batch_bitcount == cfg.derived.bitvec_size,
        spec_total_steps(cfg) >= 0,
{
    let nl = cfg.derived.num_layers as int;
    lemma_traversal_upto_len(cfg, nl);
    lemma_cfg_edge_ends(cfg);
    assert(cfg.data.batch_size * (cfg.derived.img_bitcount + cfg.derived.network_size)
        == cfg.data.batch_size * cfg.derived.img_bitcount + cfg.data.batch_size
        * cfg.derived.network_size) by (nonlinear_arith);
    assert(cfg.data.batch_size * cfg.derived.network_size >= 0) by (nonlinear_arith)
        requires
            cfg.data.batch_size >= 0 && cfg.derived.network_size >= 0,
    ;
}

/// Where step `(layer, m, n)` sits in the whole-network traversal, and what
/// it emits.
pub proof fn lemma_step_at(cfg: Configuration, layer: int, m: int, n: int)
    requires
        cfg_wf(cfg),
        0 <= layer < cfg.derived.num_layers,
        0 <= m < cfg.data.batch_size,
        0 <= n < cfg.network.layer_sizes@[layer],
    ensures
        ({
            let k = cfg.data.batch_size * cfg.derived.layer_edges@[layer] + m
                * cfg.network.layer_sizes@[layer] + n;
            &&& 0 <= k < spec_total_steps(cfg)
            &&& k < cfg.data.batch_size * cfg.derived.layer_edges@[layer + 1]
            &&& spec_full_traversal(cfg)[k] == spec_gate_step(cfg, layer, m, n)
            &&& k + cfg.derived.batch_bitcount == spec_write_addr(cfg, layer, m, n)
        }),
{
    let batch = cfg.data.batch_size as int;
    let sizes = cfg.network.layer_sizes@;
    let edges = cfg.derived.layer_edges@;
    let size = sizes[layer] as int;
    let j = m * size + n;
    let k = batch * edges[layer] + j;
    lemma_cfg_edge_succ(cfg, layer);
    assert(0 <= j && j < batch * size && batch * edges[layer + 1] == batch * edges[layer] + batch
        * size && batch * edges[layer] >= 0) by (nonlinear_arith)
        requires
            j == m * size + n,
            0 <= m < batch,
            0 <= n < size,
            edges[layer + 1] == edges[layer] + size,
            edges[layer] >= 0,
            batch >= 1,
    ;
    lemma_full_traversal_index(cfg, layer, k);
    lemma_total_steps(cfg);
    vstd::arithmetic::div_mod::lemma_fundamental_div_mod_converse(j, size, m, n);
    assert(spec_layer_traversal(cfg, layer)[j] == spec_gate_step(cfg, layer, m, n));
    assert(batch * (cfg.derived.img_bitcount + edges[layer]) == batch * cfg.derived.img_bitcount
        + batch * edges[layer]) by (nonlinear_arith);
}

/// How the read offset moves from one image to the next, stays inside the
/// buffer, and carries over from the last image of one layer to the first
/// image of the next.
pub proof fn lemma_read_off_facts(cfg: Configuration, layer: int, m: int)
    requires
        cfg_wf(cfg),
        0 <= layer < cfg.derived.num_layers,
        0 <= m,
    ensures
        spec_read_off(cfg, layer, m) >= 0,
        spec_read_off(cfg, layer, m) + (if layer == 0 {
            cfg.derived.img_bitcount as int
        } else {
            cfg.network.layer_sizes@[layer - 1] as int
        }) == spec_read_off(cfg, layer, m + 1),
        m + 1 <= cfg.data.batch_size ==> spec_read_off(cfg, layer, m + 1)
            <= cfg.derived.bitvec_size,
        layer + 1 < cfg.derived.num_layers ==> spec_read_off(cfg, layer, cfg.data.batch_size - 1)
            == spec_read_off(cfg, layer + 1, 0),
{
    let batch = cfg.data.batch_size as int;
    let imgb = cfg.derived.img_bitcount as int;
    let sizes = cfg.network.layer_sizes@;
    let edges = cfg.derived.layer_edges@;
    let net = cfg.derived.network_size as int;
    lemma_cfg_edge_ends(cfg);
    lemma_edges_mono(cfg, layer, cfg.derived.num_layers as int);
    if layer == 0 {
        assert(m * imgb >= 0 && m * imgb + imgb == (m + 1) * imgb) by (nonlinear_arith)
            requires
                m >= 0 && imgb >= 0,
        ;
        assert(m + 1 <= batch ==> (m + 1) * imgb <= batch * (imgb + net)) by (nonlinear_arith)
            requires
                m >= 0 && imgb >= 0 && net >= 0 && batch >= 1,
        ;
    } else {
        let stride = sizes[layer - 1] as int;
        let base = (batch - 1) * (imgb + edges[layer - 1]);
        assert(base >= 0 && m * stride >= 0 && base + m * stride + stride == base + (m + 1)
            * stride) by (nonlinear_arith)
            requires
                base == (batch - 1) * (imgb + edges[layer - 1]),
                m >= 0 && stride >= 0 && batch >= 1 && imgb >= 0 && edges[layer - 1] >= 0,
        ;
        lemma_cfg_edge_succ(cfg, layer - 1);
        assert(edges[layer] == edges[layer - 1] + stride);
        assert(m + 1 <= batch ==> base + (m + 1) * stride <= batch * (imgb + net))
            by (nonlinear_arith)
            requires
                m >= 0,
                stride >= 0,
                batch >= 1,
                imgb >= 0,
                0 <= edges[layer - 1],
                edges[layer - 1] + stride == edges[layer] <= net,
                base == (batch - 1) * (imgb + edges[layer - 1]),
        ;
    }
    if layer + 1 < cfg.derived.num_layers {
        lemma_cfg_edge_succ(cfg, layer);
        if layer == 0 {
            assert((batch - 1) * imgb == (batch - 1) * (imgb + edges[0])) by (nonlinear_arith)
                requires
                    edges[0] == 0,
            ;
        } else {
            assert((batch - 1) * (imgb + edges[layer - 1]) + (batch - 1) * sizes[layer - 1] == (
            batch - 1) * (imgb + edges[layer - 1] + sizes[layer - 1])) by (nonlinear_arith);
            assert(edges[layer] == edges[layer - 1] + sizes[layer - 1]);
        }
    }
}

/// Where step `(m, n)` sits in one layer's traversal, and what it emits.
pub proof fn lemma_layer_step_at(cfg: Configuration, layer: int, m: int, n: int)
    requires
        cfg_wf(cfg),
        0 <= layer < cfg.derived.num_layers,
        0 <= m < cfg.data.batch_size,
        0 <= n < cfg.network.layer_sizes@[layer],
    ensures
        ({
            let size = cfg.network.layer_sizes@[layer] as int;
            let j = m * size + n;
            let start = spec_stripe_start(cfg, layer);
            &&& 0 <= j < spec_layer_traversal(cfg, layer).len()
            &&& spec_layer_traversal(cfg, layer).len() == cfg.data.batch_size * size
            &&& spec_layer_traversal(cfg, layer)[j] == spec_gate_step(cfg, layer, m, n)
            &&& start == cfg.derived.batch_bitcount + cfg.data.batch_size
                * cfg.derived.layer_edges@[layer]
            &&& start + j == spec_write_addr(cfg, layer, m, n)
            &&& start + cfg.data.batch_size * size == cfg.derived.batch_bitcount
                + cfg.data.batch_size * cfg.derived.layer_edges@[layer + 1]
            &&& cfg.derived.batch_bitcount + cfg.data.batch_size * cfg.derived.layer_edges@[layer
                + 1] <= cfg.derived.bitvec_size
        }),
{
    let batch = cfg.data.batch_size as int;
    let sizes = cfg.network.layer_sizes@;
    let edges = cfg.derived.layer_edges@;
    let size = sizes[layer] as int;
    let j = m * size + n;
    lemma_cfg_edge_succ(cfg, layer);
    assert(0 <= j && j < batch * size && batch * edges[layer + 1] == batch * edges[layer] + batch
        * size && batch * edges[layer] >= 0) by (nonlinear_arith)
        requires
            j == m * size + n,
            0 <= m < batch,
            0 <= n < size,
            edges[layer + 1] == edges[layer] + size,
            edges[layer] >= 0,
            batch >= 1,
    ;
    vstd::arithmetic::div_mod::lemma_fundamental_div_mod_converse(j, size, m, n);
    assert(spec_layer_traversal(cfg, layer)[j] == spec_gate_step(cfg, layer, m, n));
    assert(batch * (cfg.derived.img_bitcount + edges[layer]) == batch * cfg.derived.img_bitcount
        + batch * edges[layer]) by (nonlinear_arith);
    lemma_total_steps(cfg);
    lemma_cfg_edge_ends(cfg);
    lemma_edges_mono(cfg, layer + 1, cfg.derived.num_layers as int);
    assert(batch * edges[layer + 1] <= batch * edges[cfg.derived.num_layers as int])
        by (nonlinear_arith)
        requires
            batch >= 0,
            edges[layer + 1] <= edges[cfg.derived.num_layers as int],
    ;
}

/// Generator over every gate application of the whole network: all layers in
/// order, within a layer all images, within an image that layer's nodes.
///
/// Each emitted step is `(node index, image, layer, write address, read
/// offset)`. The generator is an explicit counter machine; `remaining` gives
/// the exact number of steps left in closed form.
pub struct GateIterator<'a> {
    node_index: usize,
    img_num_in_batch: usize,
    current_layer: usize,
    bitvec_index: usize,
    max_bitvec_index: usize,
    offset_increment_size: usize,
    readbit_offset: usize,
    cfg: &'a Configuration,
}

impl<'a> GateIterator<'a> {
    /// The configuration this generator walks.
    pub closed spec fn spec_cfg(self) -> Configuration {
        *self.cfg
    }

    /// How many steps have been emitted.
    pub closed spec fn pos(self) -> int {
        self.bitvec_index - self.cfg.derived.batch_bitcount
    }

    /// The counters are mutually consistent and inside their grid.
    pub closed spec fn wf(self) -> bool {
        let cfg = *self.cfg;
        let nl = cfg.derived.num_layers as int;
        let edges = cfg.derived.layer_edges@;
        let sizes = cfg.network.layer_sizes@;
        let batch = cfg.data.batch_size as int;
        &&& cfg_wf(cfg)
        &&& self.max_bitvec_index == cfg.derived.bitvec_size
        &&& self.current_layer <= nl
        &&& if self.current_layer == nl {
            self.bitvec_index == self.max_bitvec_index
        } else {
            let layer = self.current_layer as int;
            &&& edges[layer] <= self.node_index < edges[layer + 1]
            &&& self.img_num_in_batch < batch
            &&& self.bitvec_index == cfg.derived.batch_bitcount + batch * edges[layer]
                + self.img_num_in_batch * sizes[layer] + (self.node_index - edges[layer])
            &&& self.bitvec_index < self.max_bitvec_index
            &&& self.readbit_offset == spec_read_off(cfg, layer, self.img_num_in_batch as int)
            &&& self.offset_increment_size == if layer == 0 {
                cfg.derived.img_bitcount as int
            } else {
                sizes[layer - 1] as int
            }
        }
    }

    pub fn new(cfg: &'a Configuration) -> (r: Self)
        requires
            cfg_wf(*cfg),
        ensures
            r.wf(),
            r.spec_cfg() == *cfg,
            r.pos() == 0,
    {
        let num_layers: usize = cfg.derived.num_layers;
        proof {
            lemma_total_steps(*cfg);
            lemma_cfg_edge_ends(*cfg);
            assert(cfg.derived.network_size * cfg.data.batch_size == cfg.data.batch_size
                * cfg.derived.network_size) by (nonlinear_arith);
            lemma_step_at(*cfg, 0, 0, 0);
            lemma_cfg_edge_succ(*cfg, 0);
        }
        let total_len: usize = cfg.derived.layer_edges[num_layers] * cfg.data.batch_size;
        GateIterator {
            node_index: 0,
            img_num_in_batch: 0,
            current_layer: 0,
            bitvec_index: cfg.derived.batch_bitcount,
            max_bitvec_index: total_len + cfg.derived.batch_bitcount,
            offset_increment_size: cfg.derived.img_bitcount,
            readbit_offset: 0,
            cfg,
        }
    }

    /// Exactly how many steps are left.
    pub fn remaining(&self) -> (r: usize)
        requires
            self.wf(),
        ensures
            r == spec_total_steps(self.spec_cfg()) - self.pos(),
    {
        proof {
            lemma_total_steps(*self.cfg);
        }
        self.max_bitvec_index - self.bitvec_index
    }

    /// Emits the next traversal step, or `None` once every step is out.
    pub fn next(&mut self) -> (r: Option<(usize, usize, usize, usize, usize)>)
        requires
            old(self).wf(),
        ensures
            final(self).wf(),
            final(self).spec_cfg() == old(self).spec_cfg(),
            old(self).pos() >= spec_total_steps(old(self).spec_cfg()) ==> r is None && *final(self)
                == *old(self),
            old(self).pos() < spec_total_steps(old(self).spec_cfg()) ==> ({
                let t = spec_full_traversal(old(self).spec_cfg())[old(self).pos()];
                &&& r matches Some(v) && v.0 == t.0 && v.1 == t.1 && v.2 == t.2 && v.3 == t.3
                    && v.4 == t.4
                &&& final(self).pos() == old(self).pos() + 1
            }),
    {
        proof {
            lemma_total_steps(*self.cfg);
        }
        if self.bitvec_index >= self.max_bitvec_index {
            return None;
        }
        let ghost cfg = *self.cfg;
        let ghost layer = self.current_layer as int;
        let ghost img = self.img_num_in_batch as int;
        let ghost edges = cfg.derived.layer_edges@;
        let ghost sizes = cfg.network.layer_sizes@;
        let ghost batch = cfg.data.batch_size as int;
        let ghost n = self.node_index - edges[layer];

        let current_tuple = (
            self.node_index,
            self.img_num_in_batch,
            self.current_layer,
            self.bitvec_index,
            self.readbit_offset,
        );
        proof {
            lemma_cfg_edge_succ(cfg, layer);
            lemma_step_at(cfg, layer, img, n);
        }

        self.node_index = self.node_index + 1;
        self.bitvec_index = self.bitvec_index + 1;
        if self.node_index >= self.cfg.derived.layer_edges[self.current_layer + 1] {
            self.node_index = self.cfg.derived.layer_edges[self.current_layer];
            self.img_num_in_batch = self.img_num_in_batch + 1;
            proof {
                lemma_read_off_facts(cfg, layer, img);
            }
            self.readbit_offset = self.readbit_offset + self.offset_increment_size;
            if self.img_num_in_batch >= self.cfg.data.batch_size {
                self.readbit_offset = self.readbit_offset - self.offset_increment_size;
                self.node_index = self.cfg.derived.layer_edges[self.current_layer + 1];
                self.img_num_in_batch = 0;
                self.current_layer = self.current_layer + 1;
                self.offset_increment_size = self.cfg.network.layer_sizes[self.current_layer - 1];
                proof {
                    lemma_cfg_edge_succ(cfg, layer);
                    assert(batch * edges[layer + 1] == batch * edges[layer] + batch * sizes[layer])
                        by (nonlinear_arith)
                        requires
                            edges[layer + 1] == edges[layer] + sizes[layer],
                    ;
                    assert(img * sizes[layer] + sizes[layer] == (img + 1) * sizes[layer])
                        by (nonlinear_arith);
                    if self.current_layer < cfg.derived.num_layers {
                        lemma_read_off_facts(cfg, layer, batch - 1);
                        lemma_step_at(cfg, layer + 1, 0, 0);
                        lemma_cfg_edge_succ(cfg, layer + 1);
                    } else {
                        lemma_total_steps(cfg);
                        lemma_cfg_edge_ends(cfg);
                    }
                }
            } else {
                proof {
                    assert(img * sizes[layer] + sizes[layer] == (img + 1) * sizes[layer])
                        by (nonlinear_arith);
                    lemma_step_at(cfg, layer, img + 1, 0);
                }
            }
        } else {
            proof {
                lemma_step_at(cfg, layer, img, n + 1);
            }
        }
        Some(current_tuple)
    }
}

/// Generator over every gate application of one layer, image-major,
/// node-minor: the restriction of `GateIterator` to a single layer.
pub struct LayerGateIterator<'a> {
    node_index: usize,
    img_num_in_batch: usize,
    layer: usize,
    bitvec_index: usize,
    max_bitvec_index: usize,
    offset_increment_size: usize,
    readbit_offset: usize,
    cfg: &'a Configuration,
}

impl<'a> LayerGateIterator<'a> {
    /// The configuration this generator walks.
    pub closed spec fn spec_cfg(self) -> Configuration {
        *self.cfg
    }

    /// The layer this generator walks.
    pub closed spec fn spec_layer(self) -> int {
        self.layer as int
    }

    /// How many steps have been emitted.
    pub closed spec fn pos(self) -> int {
        self.bitvec_index - spec_stripe_start(*self.cfg, self.layer as int)
    }

    /// Number of steps of this layer.
    pub open spec fn spec_layer_steps(cfg: Configuration, layer: int) -> int {
        cfg.data.batch_size * cfg.network.layer_sizes@[layer]
    }

    /// The counters are mutually consistent and inside their grid.
    pub closed spec fn wf(self) -> bool {
        let cfg = *self.cfg;
        let edges = cfg.derived.layer_edges@;
        let sizes = cfg.network.layer_sizes@;
        let batch = cfg.data.batch_size as int;
        let layer = self.layer as int;
        &&& cfg_wf(cfg)
        &&& layer < cfg.derived.num_layers
        &&& self.max_bitvec_index == cfg.derived.batch_bitcount + batch * edges[layer + 1]
        &&& self.bitvec_index <= self.max_bitvec_index
        &&& if self.bitvec_index == self.max_bitvec_index {
            true
        } else {
            &&& edges[layer] <= self.node_index < edges[layer + 1]
            &&& self.img_num_in_batch < batch
            &&& self.bitvec_index == cfg.derived.batch_bitcount + batch * edges[layer]
                + self.img_num_in_batch * sizes[layer] + (self.node_index - edges[layer])
            &&& self.readbit_offset == spec_read_off(cfg, layer, self.img_num_in_batch as int)
            &&& self.offset_increment_size == if layer == 0 {
                cfg.derived.img_bitcount as int
            } else {
                sizes[layer - 1] as int
            }
        }
    }

    pub fn new(cfg: &'a Configuration, layer: usize) -> (r: Self)
        requires
            cfg_wf(*cfg),
            layer < cfg.derived.num_layers,
        ensures
            r.wf(),
            r.spec_cfg() == *cfg,
            r.spec_layer() == layer,
            r.pos() == 0,
    {
        proof {
            lemma_layer_step_at(*cfg, layer as int, 0, 0);
            lemma_cfg_edge_succ(*cfg, layer as int);
            if layer > 0 {
                lemma_read_off_facts(*cfg, layer as int, 0);
                lemma_cfg_edge_ends(*cfg);
                lemma_edges_mono(*cfg, layer - 1, cfg.derived.num_layers as int);
                let batch = cfg.data.batch_size as int;
                let imgb = cfg.derived.img_bitcount as int;
                let e = cfg.derived.layer_edges@[layer - 1] as int;
                let net = cfg.derived.network_size as int;
                assert(imgb + e <= batch * (imgb + net) && (batch - 1) * (imgb + e) <= batch * (
                imgb + net)) by (nonlinear_arith)
                    requires
                        batch >= 1,
                        0 <= e <= net,
                        imgb >= 0,
                ;
            }
        }
        let batch_bitcount: usize = cfg.derived.batch_bitcount;
        LayerGateIterator {
            node_index: cfg.derived.layer_edges[layer],
            img_num_in_batch: 0,
            layer,
            bitvec_index: batch_bitcount + cfg.data.batch_size * cfg.derived.layer_edges[layer],
            max_bitvec_index: batch_bitcount + cfg.data.batch_size
                * cfg.derived.layer_edges[layer + 1],
            offset_increment_size: if layer == 0 {
                cfg.derived.img_bitcount
            } else {
                cfg.network.layer_sizes[layer - 1]
            },
            readbit_offset: if layer == 0 {
                0
            } else {
                (cfg.data.batch_size - 1) * (cfg.derived.img_bitcount
                    + cfg.derived.layer_edges[layer - 1])
            },
            cfg,
        }
    }

    /// Exactly how many steps are left.
    pub fn remaining(&self) -> (r: usize)
        requires
            self.wf(),
        ensures
            r == Self::spec_layer_steps(self.spec_cfg(), self.spec_layer()) - self.pos(),
    {
        proof {
            lemma_layer_step_at(*self.cfg, self.layer as int, 0, 0);
        }
        self.max_bitvec_index - self.bitvec_index
    }

    /// Emits the next step of this layer, or `None` once the layer is out.
    pub fn next(&mut self) -> (r: Option<(usize, usize, usize, usize, usize)>)
        requires
            old(self).wf(),
        ensures
            final(self).wf(),
            final(self).spec_cfg() == old(self).spec_cfg(),
            final(self).spec_layer() == old(self).spec_layer(),
            old(self).pos() >= Self::spec_layer_steps(old(self).spec_cfg(), old(self).spec_layer())
                ==> r is None && *final(self) == *old(self),
            old(self).pos() < Self::spec_layer_steps(old(self).spec_cfg(), old(self).spec_layer())
                ==> ({
                let t = spec_layer_traversal(old(self).spec_cfg(), old(self).spec_layer())[old(
                    self,
                ).pos()];
                &&& r matches Some(v) && v.0 == t.0 && v.1 == t.1 && v.2 == t.2 && v.3 == t.3
                    && v.4 == t.4
                &&& final(self).pos() == old(self).pos() + 1
            }),
    {
        let ghost cfg = *self.cfg;
        let ghost layer = self.layer as int;
        let ghost img = self.img_num_in_batch as int;
        let ghost edges = cfg.derived.layer_edges@;
        let ghost sizes = cfg.network.layer_sizes@;
        let ghost batch = cfg.data.batch_size as int;
        let ghost n = self.node_index - edges[layer];
        proof {
            lemma_layer_step_at(cfg, layer, 0, 0);
        }
        if self.bitvec_index >= self.max_bitvec_index {
            return None;
        }

        let current_tuple = (
            self.node_index,
            self.img_num_in_batch,
            self.layer,
            self.bitvec_index,
            self.readbit_offset,
        );
        proof {
            lemma_cfg_edge_succ(cfg, layer);
            lemma_layer_step_at(cfg, layer, img, n);
        }

        self.node_index = self.node_index + 1;
        self.bitvec_index = self.bitvec_index + 1;
        if self.node_index >= self.cfg.derived.layer_edges[self.layer + 1] {
            self.node_index = self.cfg.derived.layer_edges[self.layer];
            self.img_num_in_batch = self.img_num_in_batch + 1;
            proof {
                lemma_read_off_facts(cfg, layer, img);
                assert(img * sizes[layer] + sizes[layer] == (img + 1) * sizes[layer])
                    by (nonlinear_arith);
                if img + 1 < batch {
                    lemma_layer_step_at(cfg, layer, img + 1, 0);
                }
            }
            self.readbit_offset = self.readbit_offset + self.offset_increment_size;
        } else {
            proof {
                lemma_layer_step_at(cfg, layer, img, n + 1);
            }
        }
        Some(current_tuple)
    }
}

/// Generator of sliding 6-address windows over a `dim1 x dim2 x dim3`
/// volume, used to wire convolution-style connectivity: each emitted window
/// is the fixed relative offset pattern shifted to the current position,
/// and the position advances by the hop amounts, fastest along the first
/// dimension.
pub struct SpanGenerator {
    pub curr: usize,
    pub x: usize,
    pub y: usize,
    pub z: usize,
    pub dim1: usize,
    pub dim2: usize,
    pub dim3: usize,
    pub len1: usize,
    pub len2: usize,
    pub len3: usize,
    pub hop1: usize,
    pub hop2: usize,
    pub hop3: usize,
    pub rpoa: [usize; 6],
    pub finished: bool,
}

/// Remaining windows along one dimension, from position `p`.
pub open spec fn spec_span_axis_remaining(dim: int, len: int, hop: int, p: int) -> int {
    (dim - len - p + 2 * hop - 1) / hop
}

impl SpanGenerator {
    /// The position is inside the volume, consistent with `curr`, and the
    /// remaining-count formula fits the machine word.
    pub open spec fn wf(self) -> bool {
        &&& self.hop1 >= 1 && self.hop2 >= 1 && self.hop3 >= 1
        &&& self.len1 >= 1 && self.len2 >= 1 && self.len3 >= 1
        &&& self.len1 <= self.dim1 && self.len2 <= self.dim2 && self.len3 <= self.dim3
        &&& self.x <= self.dim1 - self.len1
        &&& self.y <= self.dim2 - self.len2
        &&& self.z <= self.dim3 - self.len3
        &&& self.curr == self.dim1 * self.dim2 * self.z + self.dim1 * self.y + self.x
        &&& (forall|j: int|
            0 <= j < 6 ==> (#[trigger] self.rpoa@[j]) + self.dim1 * self.dim2 * self.dim3
                <= usize::MAX)
        &&& self.dim1 * self.dim2 * self.dim3 <= usize::MAX
        &&& self.dim1 + 2 * self.hop1 <= usize::MAX
        &&& self.dim2 + 2 * self.hop2 <= usize::MAX
        &&& self.dim3 + 2 * self.hop3 <= usize::MAX
        &&& spec_span_axis_remaining(self.dim1 as int, self.len1 as int, self.hop1 as int, 0)
            * spec_span_axis_remaining(self.dim2 as int, self.len2 as int, self.hop2 as int, 0)
            * spec_span_axis_remaining(self.dim3 as int, self.len3 as int, self.hop3 as int, 0)
            <= usize::MAX
    }

    /// The state after one advance: hop along the first dimension while a
    /// full hop or a clamp to the edge fits, else reset it and move the
    /// second, else the third; past the last position the generator
    /// finishes.
    pub open spec fn spec_advance(self) -> SpanGenerator {
        let stepped = if self.x + self.len1 < self.dim1 {
            if self.x + self.hop1 + self.len1 <= self.dim1 {
                SpanGenerator { x: (self.x + self.hop1) as usize, ..self }
            } else {
                SpanGenerator { x: (self.dim1 - self.len1) as usize, ..self }
            }
        } else if self.y + self.len2 < self.dim2 {
            if self.y + self.hop2 + self.len2 <= self.dim2 {
                SpanGenerator { y: (self.y + self.hop2) as usize, x: 0, ..self }
            } else {
                SpanGenerator { y: (self.dim2 - self.len2) as usize, x: 0, ..self }
            }
        } else if self.z + self.len3 < self.dim3 {
            if self.z + self.hop3 + self.len3 <= self.dim3 {
                SpanGenerator { z: (self.z + self.hop3) as usize, y: 0, x: 0, ..self }
            } else {
                SpanGenerator { z: (self.dim3 - self.len3) as usize, y: 0, x: 0, ..self }
            }
        } else {
            SpanGenerator { finished: true, ..self }
        };
        SpanGenerator {
            curr: (stepped.dim1 * stepped.dim2 * stepped.z + stepped.dim1 * stepped.y
                + stepped.x) as usize,
            ..stepped
        }
    }

    pub fn new(
        offset: usize,
        dim1: usize,
        dim2: usize,
        dim3: usize,
        len1: usize,
        len2: usize,
        len3: usize,
        hop1: usize,
        hop2: usize,
        hop3: usize,
    ) -> (r: SpanGenerator)
        requires
            len1 * len2 * len3 == 6,
            hop1 >= 1 && hop2 >= 1 && hop3 >= 1,
            len1 <= dim1 && len2 <= dim2 && len3 <= dim3,
            offset + dim1 * dim2 * dim3 + dim1 * dim2 * dim3 <= usize::MAX,
            dim1 + 2 * hop1 <= usize::MAX,
            dim2 + 2 * hop2 <= usize::MAX,
            dim3 + 2 * hop3 <= usize::MAX,
            spec_span_axis_remaining(dim1 as int, len1 as int, hop1 as int, 0)
                * spec_span_axis_remaining(dim2 as int, len2 as int, hop2 as int, 0)
                * spec_span_axis_remaining(dim3 as int, len3 as int, hop3 as int, 0) <= usize::MAX,
        ensures
            r.wf(),
            !r.finished,
            r.x == 0 && r.y == 0 && r.z == 0 && r.curr == 0,
            r.dim1 == dim1 && r.dim2 == dim2 && r.dim3 == dim3,
            r.len1 == len1 && r.len2 == len2 && r.len3 == len3,
            r.hop1 == hop1 && r.hop2 == hop2 && r.hop3 == hop3,
            forall|idx: int|
                0 <= idx < 6 ==> (#[trigger] r.rpoa@[idx]) == offset + dim1 * dim2 * (idx / (
                len1 * len2) as int) + dim1 * ((idx / len1 as int) % len2 as int) + (idx
                    % len1 as int),
    {
        proof {
            assert(len1 >= 1 && len2 >= 1 && len3 >= 1 && len1 <= 6 && len2 <= 6 && len3 <= 6)
                by (nonlinear_arith)
                requires
                    len1 * len2 * len3 == 6,
                    len1 >= 0 && len2 >= 0 && len3 >= 0,
            ;
        }
        let mut relative_position_offset_array: [usize; 6] = [0, 0, 0, 0, 0, 0];
        let mut index: usize = 0;
        let mut k: usize = 0;
        while k < len3
            invariant
                k <= len3,
                index == k * (len2 * len1),
                index <= 6,
                len1 * len2 * len3 == 6,
                len1 >= 1 && len2 >= 1 && len3 >= 1,
                len1 <= dim1 && len2 <= dim2 && len3 <= dim3,
                offset + dim1 * dim2 * dim3 <= usize::MAX,
                forall|idx: int|
                    0 <= idx < index ==> (#[trigger] relative_position_offset_array@[idx])
                        == offset + dim1 * dim2 * (idx / (len1 * len2) as int) + dim1 * ((idx
                        / len1 as int) % len2 as int) + (idx % len1 as int),
            decreases len3 - k,
        {
            let mut j: usize = 0;
            while j < len2
                invariant
                    k < len3,
                    j <= len2,
                    index == k * (len2 * len1) + j * len1,
                    index <= 6,
                    len1 * len2 * len3 == 6,
                    len1 >= 1 && len2 >= 1 && len3 >= 1,
                    len1 <= dim1 && len2 <= dim2 && len3 <= dim3,
                    offset + dim1 * dim2 * dim3 <= usize::MAX,
                    forall|idx: int|
                        0 <= idx < index ==> (#[trigger] relative_position_offset_array@[idx])
                            == offset + dim1 * dim2 * (idx / (len1 * len2) as int) + dim1 * ((idx
                            / len1 as int) % len2 as int) + (idx % len1 as int),
                decreases len2 - j,
            {
                let mut i: usize = 0;
                while i < len1
                    invariant
                        k < len3,
                        j < len2,
                        i <= len1,
                        index == k * (len2 * len1) + j * len1 + i,
                        index <= 6,
                        len1 * len2 * len3 == 6,
                        len1 >= 1 && len2 >= 1 && len3 >= 1,
                        len1 <= dim1 && len2 <= dim2 && len3 <= dim3,
                        offset + dim1 * dim2 * dim3 <= usize::MAX,
                        forall|idx: int|
                            0 <= idx < index ==> (#[trigger] relative_position_offset_array@[idx])
                                == offset + dim1 * dim2 * (idx / (len1 * len2) as int) + dim1 * ((idx
                                / len1 as int) % len2 as int) + (idx % len1 as int),
                    decreases len1 - i,
                {
                    proof {
                        lemma_span_flat_index(
                            len1 as int,
                            len2 as int,
                            len3 as int,
                            i as int,
                            j as int,
                            k as int,
                        );
                        assert(dim1 * dim2 <= dim1 * dim2 * dim3 && dim1 * dim2 * k <= dim1
                            * dim2 * dim3 && dim1 * dim2 * k + dim1 * j <= dim1 * dim2 * dim3
                            && dim1 * dim2 * k + dim1 * j + i <= dim1 * dim2 * dim3)
                            by (nonlinear_arith)
                            requires
                                0 <= k < len3 <= dim3,
                                0 <= j < len2 <= dim2,
                                0 <= i < len1 <= dim1,
                                dim1 >= 1 && dim2 >= 1,
                        ;
                    }
                    proof {
                        let gl1 = len1 as int;
                        let gl2 = len2 as int;
                        let gidx = index as int;
                        let gi = i as int;
                        let gj = j as int;
                        let gk = k as int;
                        assert(gj * gl1 + gi < gl1 * gl2 && gidx == gk * (gl1 * gl2) + (gj * gl1
                            + gi) && gidx == (gk * gl2 + gj) * gl1 + gi && gl1 * gl2 >= 1)
                            by (nonlinear_arith)
                            requires
                                0 <= gi < gl1,
                                0 <= gj < gl2,
                                gidx == gk * (gl2 * gl1) + gj * gl1 + gi,
                                gk >= 0,
                        ;
                        vstd::arithmetic::div_mod::lemma_fundamental_div_mod_converse(
                            gidx,
                            gl1 * gl2,
                            gk,
                            gj * gl1 + gi,
                        );
                        vstd::arithmetic::div_mod::lemma_fundamental_div_mod_converse(
                            gidx,
                            gl1,
                            gk * gl2 + gj,
                            gi,
                        );
                        vstd::arithmetic::div_mod::lemma_fundamental_div_mod_converse(
                            gk * gl2 + gj,
                            gl2,
                            gk,
                            gj,
                        );
                    }
                    let v: usize = offset + dim1 * dim2 * k + dim1 * j + i;
                    relative_position_offset_array.set(index, v);
                    index = index + 1;
                    i = i + 1;
                }
                j = j + 1;
                proof {
                    assert(k * (len2 * len1) + (j - 1) * len1 + len1 == k * (len2 * len1) + j
                        * len1) by (nonlinear_arith);
                }
            }
            k = k + 1;
            proof {
                assert((k - 1) * (len2 * len1) + len2 * len1 == k * (len2 * len1))
                    by (nonlinear_arith);
            }
        }
        proof {
            assert(len3 * (len2 * len1) == 6) by (nonlinear_arith)
                requires
                    len1 * len2 * len3 == 6,
            ;
            let d1 = dim1 as int;
            let d2 = dim2 as int;
            let d3 = dim3 as int;
            let l1 = len1 as int;
            let l2 = len2 as int;
            let l3 = len3 as int;
            assert forall|idx: int| 0 <= idx < 6 implies (
            #[trigger] relative_position_offset_array@[idx]) + d1 * d2 * d3 <= usize::MAX by {
                let q1 = idx / (l1 * l2);
                let q2 = (idx / l1) % l2;
                let q3 = idx % l1;
                assert(0 <= q1 < l3 && 0 <= q2 < l2 && 0 <= q3 < l1) by (nonlinear_arith)
                    requires
                        q1 == idx / (l1 * l2),
                        q2 == (idx / l1) % l2,
                        q3 == idx % l1,
                        1 <= l1 && 1 <= l2 && 1 <= l3,
                        l1 * l2 * l3 == 6,
                        0 <= idx < 6,
                ;
                assert(d1 * d2 * q1 + d1 * q2 + q3 <= d1 * d2 * d3) by (nonlinear_arith)
                    requires
                        0 <= q1 <= l3 - 1 && l3 <= d3,
                        0 <= q2 < l2 && l2 <= d2,
                        0 <= q3 < l1 && l1 <= d1,
                        d1 >= 1 && d2 >= 1 && d3 >= 1,
                ;
            }
        }
        SpanGenerator {
            curr: 0,
            x: 0,
            y: 0,
            z: 0,
            dim1,
            dim2,
            dim3,
            len1,
            len2,
            len3,
            hop1,
            hop2,
            hop3,
            rpoa: relative_position_offset_array,
            finished: false,
        }
    }

    /// Emits the window at the current position and advances, or `None`
    /// once the volume is covered.
    pub fn next(&mut self) -> (r: Option<[usize; 6]>)
        requires
            old(self).wf(),
        ensures
            final(self).wf(),
            old(self).finished ==> r is None && *final(self) == *old(self),
            !old(self).finished ==> (r matches Some(v) && (forall|j: int|
                0 <= j < 6 ==> (#[trigger] v@[j]) == old(self).curr + old(self).rpoa@[j]) && *final(
                self) == old(self).spec_advance()),
    {
        if self.finished {
            return None;
        }
        proof {
            assert(self.curr <= self.dim1 * self.dim2 * self.dim3) by (nonlinear_arith)
                requires
                    self.curr == self.dim1 * self.dim2 * self.z + self.dim1 * self.y + self.x,
                    0 <= self.x <= self.dim1 - self.len1,
                    0 <= self.y <= self.dim2 - self.len2,
                    0 <= self.z <= self.dim3 - self.len3,
                    self.len1 >= 1 && self.len2 >= 1 && self.len3 >= 1,
                    self.len1 <= self.dim1 && self.len2 <= self.dim2 && self.len3 <= self.dim3,
            ;
        }
        let current_tuple: [usize; 6] = [
            self.curr + self.rpoa[0],
            self.curr + self.rpoa[1],
            self.curr + self.rpoa[2],
            self.curr + self.rpoa[3],
            self.curr + self.rpoa[4],
            self.curr + self.rpoa[5],
        ];
        if self.x + self.len1 < self.dim1 {
            if self.x + self.hop1 + self.len1 <= self.dim1 {
                self.x = self.x + self.hop1;
            } else {
                self.x = self.dim1 - self.len1;
            }
        } else if self.y + self.len2 < self.dim2 {
            if self.y + self.hop2 + self.len2 <= self.dim2 {
                self.y = self.y + self.hop2;
                self.x = 0;
            } else {
                self.y = self.dim2 - self.len2;
                self.x = 0;
            }
        } else if self.z + self.len3 < self.dim3 {
            if self.z + self.hop3 + self.len3 <= self.dim3 {
                self.z = self.z + self.hop3;
                self.y = 0;
                self.x = 0;
            } else {
                self.z = self.dim3 - self.len3;
                self.x = 0;
                self.y = 0;
            }
        } else {
            self.finished = true;
        }
        proof {
            assert(self.dim1 * self.dim2 <= self.dim1 * self.dim2 * self.dim3 && self.dim1
                * self.dim2 * self.z <= self.dim1 * self.dim2 * self.dim3 && self.dim1 * self.dim2
                * self.z + self.dim1 * self.y <= self.dim1 * self.dim2 * self.dim3 && self.dim1
                * self.dim2 * self.z + self.dim1 * self.y + self.x <= self.dim1 * self.dim2
                * self.dim3) by (nonlinear_arith)
                requires
                    0 <= self.x <= self.dim1 - self.len1,
                    0 <= self.y <= self.dim2 - self.len2,
                    0 <= self.z <= self.dim3 - self.len3,
                    self.len1 >= 1 && self.len2 >= 1 && self.len3 >= 1,
                    self.len1 <= self.dim1 && self.len2 <= self.dim2 && self.len3 <= self.dim3,
            ;
        }
        self.curr = self.dim1 * self.dim2 * self.z + self.dim1 * self.y + self.x;
        Some(current_tuple)
    }

    /// Exactly the number of windows still to come, in closed form from
    /// the remaining grid dimensions.
    pub fn len(&self) -> (r: usize)
        requires
            self.wf(),
        ensures
            r == spec_span_axis_remaining(
                self.dim1 as int,
                self.len1 as int,
                self.hop1 as int,
                self.x as int,
            ) * spec_span_axis_remaining(
                self.dim2 as int,
                self.len2 as int,
                self.hop2 as int,
                self.y as int,
            ) * spec_span_axis_remaining(
                self.dim3 as int,
                self.len3 as int,
                self.hop3 as int,
                self.z as int,
            ),
    {
        proof {
            lemma_span_axis_bounds(
                self.dim1 as int,
                self.len1 as int,
                self.hop1 as int,
                self.x as int,
            );
            lemma_span_axis_bounds(
                self.dim2 as int,
                self.len2 as int,
                self.hop2 as int,
                self.y as int,
            );
            lemma_span_axis_bounds(
                self.dim3 as int,
                self.len3 as int,
                self.hop3 as int,
                self.z as int,
            );
            let a0 = spec_span_axis_remaining(
                self.dim1 as int,
                self.len1 as int,
                self.hop1 as int,
                0,
            );
            let b0 = spec_span_axis_remaining(
                self.dim2 as int,
                self.len2 as int,
                self.hop2 as int,
                0,
            );
            let c0 = spec_span_axis_remaining(
                self.dim3 as int,
                self.len3 as int,
                self.hop3 as int,
                0,
            );
            let a = spec_span_axis_remaining(
                self.dim1 as int,
                self.len1 as int,
                self.hop1 as int,
                self.x as int,
            );
            let b = spec_span_axis_remaining(
                self.dim2 as int,
                self.len2 as int,
                self.hop2 as int,
                self.y as int,
            );
            let c = spec_span_axis_remaining(
                self.dim3 as int,
                self.len3 as int,
                self.hop3 as int,
                self.z as int,
            );
            assert(a * b <= a0 * b0 && a * b * c <= a0 * b0 * c0 && a * b >= 0 && a * b * c >= 0
                && a * b <= a0 * b0 * c0) by (nonlinear_arith)
                requires
                    0 <= a <= a0,
                    0 <= b <= b0,
                    0 <= c <= c0,
                    1 <= c0,
            ;
        }
        ((self.dim1 - self.len1 - self.x + 2 * self.hop1 - 1) / self.hop1) * ((self.dim2
            - self.len2 - self.y + 2 * self.hop2 - 1) / self.hop2) * ((self.dim3 - self.len3
            - self.z + 2 * self.hop3 - 1) / self.hop3)
    }
}

/// A flattened `(i, j, k)` window position is one of the 6 pattern slots.
proof fn lemma_span_flat_index(len1: int, len2: int, len3: int, i: int, j: int, k: int)
    by (nonlinear_arith)
    requires
        len1 * len2 * len3 == 6,
        0 <= i < len1,
        0 <= j < len2,
        0 <= k < len3,
    ensures
        0 <= k * (len2 * len1) + j * len1 + i < 6,
        k * (len2 * len1) + j * len1 + i + 1 <= 6,
{
}

/// The per-axis remaining count is positive inside the volume, at most its
/// value at the axis start, and bounded below by 1.
proof fn lemma_span_axis_bounds(dim: int, len: int, hop: int, p: int)
    by (nonlinear_arith)
    requires
        hop >= 1,
        1 <= len <= dim,
        0 <= p <= dim - len,
    ensures
        1 <= spec_span_axis_remaining(dim, len, hop, p) <= spec_span_axis_remaining(
            dim,
            len,
            hop,
            0,
        ),
        dim - len - p + 2 * hop - 1 >= 0,
{
}

} // verus!
