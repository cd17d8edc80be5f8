//! Small helpers around the core: prediction accuracy counting, embedding
//! lookup, per-image source address translation, and the splitting of
//! 64-bit chunks into the small values that drive search.

use vstd::prelude::*;

use crate::netcore::LUTNet;
use crate::netcore::net_matches_cfg;
use crate::netcore::node_reads_ok;
use crate::netcore::nodes_reads_ok;
use crate::netcore::spec_layer_of;
use crate::settings::Configuration;
use crate::settings::cfg_wf;

verus! {

/// How many positions of two label sequences agree.
pub open spec fn spec_count_matches(y: Seq<u8>, predicted: Seq<u8>) -> int
    decreases y.len(),
{
    if y.len() == 0 {
        0
    } else {
        spec_count_matches(y.drop_last(), predicted.drop_last()) + (if y.last()
            == predicted.last() {
            1int
        } else {
            0int
        })
    }
}

/// Counts correct predictions; the accuracy ratio is this count over the
/// length.
#[verifier::loop_isolation(false)]
pub fn count_correct(y: &Vec<u8>, predicted_labels: &Vec<u8>) -> (r: usize)
    requires
        y@.len() == predicted_labels@.len(),
    ensures
        r == spec_count_matches(y@, predicted_labels@),
        r <= y@.len(),
{
    let mut c: usize = 0;
    let mut i: usize = 0;
    while i < y.len()
        invariant
            i <= y@.len(),
            c <= i,
            c == spec_count_matches(y@.take(i as int), predicted_labels@.take(i as int)),
        decreases y@.len() - i,
    {
        proof {
            assert(y@.take(i + 1).drop_last() =~= y@.take(i as int));
            assert(predicted_labels@.take(i + 1).drop_last() =~= predicted_labels@.take(i as int));
        }
        if y[i] == predicted_labels[i] {
            c = c + 1;
        }
        i = i + 1;
    }
    proof {
        assert(y@.take(y@.len() as int) =~= y@);
        assert(predicted_labels@.take(y@.len() as int) =~= predicted_labels@);
    }
    c
}

/// The label whose embedding row equals `target`: the first matching index
/// in table order, or `None` when no row matches.
#[verifier::loop_isolation(false)]
pub fn get_ix(cfg: &Configuration, target: u8) -> (r: Option<u8>)
    requires
        cfg.network.output_embedding@.len() <= 256,
    ensures
        r matches Some(i) ==> i < cfg.network.output_embedding@.len()
            && cfg.network.output_embedding@[i as int] == target as usize && (forall|k: int|
            0 <= k < i ==> (#[trigger] cfg.network.output_embedding@[k]) != target as usize),
        r is None ==> forall|k: int|
            0 <= k < cfg.network.output_embedding@.len() ==> (
            #[trigger] cfg.network.output_embedding@[k]) != target as usize,
{
    let n: usize = cfg.network.output_embedding.len();
    let mut k: usize = 0;
    while k < n
        invariant
            k <= n,
            forall|k0: int|
                0 <= k0 < k ==> (#[trigger] cfg.network.output_embedding@[k0])
                    != target as usize,
        decreases n - k,
    {
        if cfg.network.output_embedding[k] == target as usize {
            return Some(k as u8);
        }
        k = k + 1;
    }
    None
}

/// The physical buffer addresses of a node's 6 inputs, for one image of the
/// batch: each logical source address plus the node's layer's read offset.
#[verifier::loop_isolation(false)]
pub fn get_node_indices_in_bitvec(
    node_idx: usize,
    ltnet: &LUTNet,
    cfg: &Configuration,
    img_num_in_batch: usize,
) -> (r: [usize; 6])
    requires
        cfg_wf(*cfg),
        net_matches_cfg(*ltnet, *cfg),
        nodes_reads_ok(ltnet.nodes@, *cfg),
        node_idx < ltnet.nodes@.len(),
        img_num_in_batch < cfg.data.batch_size,
    ensures
        forall|j: int|
            0 <= j < 6 ==> (#[trigger] r@[j]) == ltnet.nodes@[node_idx as int].indices@[j]
                + crate::iterators::spec_read_off(
                *cfg,
                spec_layer_of(*cfg, node_idx as int),
                img_num_in_batch as int,
            ),
{
    proof {
        crate::netcore::lemma_layer_of_range(*cfg, node_idx as int);
        crate::iterators::lemma_cfg_edge_ends(*cfg);
    }
    let mut layer: usize = 0;
    while cfg.derived.layer_edges[layer + 1] <= node_idx
        invariant
            layer < cfg.derived.num_layers,
            cfg.derived.layer_edges@[layer as int] <= node_idx,
        decreases cfg.derived.num_layers - layer,
    {
        proof {
            if layer + 1 == cfg.derived.num_layers {
                assert(node_idx < cfg.derived.layer_edges@[cfg.derived.num_layers as int]);
                assert(false);
            }
        }
        layer = layer + 1;
    }
    proof {
        crate::netcore::lemma_layer_of_locate(*cfg, layer as int, node_idx as int);
        crate::iterators::lemma_read_off_facts(*cfg, layer as int, img_num_in_batch as int);
        crate::netcore::lemma_read_off_mono(
            *cfg,
            layer as int,
            img_num_in_batch as int,
            cfg.data.batch_size as int - 1,
        );
        assert(node_reads_ok(ltnet.nodes@[node_idx as int], *cfg, layer as int));
        if layer > 0 {
            crate::iterators::lemma_cfg_edge_succ(*cfg, layer - 1);
            lemma_offset_parts_bounded(*cfg, layer as int, img_num_in_batch as int);
        } else {
            assert(img_num_in_batch * cfg.derived.img_bitcount >= 0) by (nonlinear_arith)
                requires
                    img_num_in_batch >= 0 && cfg.derived.img_bitcount >= 0,
            ;
        }
    }
    let bv_offset: usize = if layer == 0 {
        img_num_in_batch * cfg.derived.img_bitcount
    } else {
        (cfg.data.batch_size - 1) * (cfg.derived.img_bitcount + cfg.derived.layer_edges[layer - 1])
            + img_num_in_batch * cfg.network.layer_sizes[layer - 1]
    };
    let node = ltnet.nodes[node_idx];
    [
        node.indices[0] + bv_offset,
        node.indices[1] + bv_offset,
        node.indices[2] + bv_offset,
        node.indices[3] + bv_offset,
        node.indices[4] + bv_offset,
        node.indices[5] + bv_offset,
    ]
}

/// The read-offset summands of a layer stay inside the buffer bound.
proof fn lemma_offset_parts_bounded(cfg: Configuration, layer: int, m: int)
    requires
        cfg_wf(cfg),
        0 < layer < cfg.derived.num_layers,
        0 <= m < cfg.data.batch_size,
    ensures
        cfg.derived.img_bitcount + cfg.derived.layer_edges@[layer - 1] <= cfg.derived.bitvec_size,
        0 <= (cfg.data.batch_size - 1) * (cfg.derived.img_bitcount + cfg.derived.layer_edges@[layer
            - 1]),
        0 <= m * cfg.network.layer_sizes@[layer - 1],
{
    crate::iterators::lemma_cfg_edge_ends(cfg);
    crate::iterators::lemma_edges_mono(cfg, layer - 1, cfg.derived.num_layers as int);
    let bt = cfg.data.batch_size as int;
    let imgb = cfg.derived.img_bitcount as int;
    let e = cfg.derived.layer_edges@[layer - 1] as int;
    let net = cfg.derived.network_size as int;
    let stride = cfg.network.layer_sizes@[layer - 1] as int;
    assert(imgb + e <= bt * (imgb + net) && 0 <= (bt - 1) * (imgb + e) && 0 <= m * stride)
        by (nonlinear_arith)
        requires
            bt >= 1,
            0 <= e <= net,
            imgb >= 0,
            0 <= m,
            stride >= 0,
    ;
}

/// The 16 4-bit fields of a chunk, least significant first: the stream that
/// picks from a 16-entry LUT bank.
#[verifier::loop_isolation(false)]
pub fn chunk_to_4bit(chunk: u64) -> (r: Vec<u8>)
    ensures
        r@.len() == 16,
        forall|i: int| 0 <= i < 16 ==> (#[trigger] r@[i]) == ((chunk >> (4 * i) as u64) & 0xF) as u8,
{
    let mut r: Vec<u8> = Vec::new();
    let mut i: usize = 0;
    while i < 16
        invariant
            i <= 16,
            r@.len() == i,
            forall|i0: int|
                0 <= i0 < i ==> (#[trigger] r@[i0]) == ((chunk >> (4 * i0) as u64) & 0xF) as u8,
        decreases 16 - i,
    {
        let v: u8 = ((chunk >> ((4 * i) as u64)) & 0xF) as u8;
        r.push(v);
        i = i + 1;
    }
    r
}

/// The 10 whole 6-bit fields of a chunk, least significant first: the
/// stream of corruption bit positions.
#[verifier::loop_isolation(false)]
pub fn chunk_to_6bit(chunk: u64) -> (r: Vec<u8>)
    ensures
        r@.len() == 10,
        forall|i: int|
            0 <= i < 10 ==> (#[trigger] r@[i]) == ((chunk >> (6 * i) as u64) & 0x3F) as u8,
        forall|i: int| 0 <= i < 10 ==> (#[trigger] r@[i]) < 64,
{
    let mut r: Vec<u8> = Vec::new();
    let mut i: usize = 0;
    while i < 10
        invariant
            i <= 10,
            r@.len() == i,
            forall|i0: int|
                0 <= i0 < i ==> (#[trigger] r@[i0]) == ((chunk >> (6 * i0) as u64) & 0x3F) as u8,
            forall|i0: int| 0 <= i0 < i ==> (#[trigger] r@[i0]) < 64,
        decreases 10 - i,
    {
        let sh: u64 = (6 * i) as u64;
        let v: u8 = ((chunk >> sh) & 0x3F) as u8;
        proof {
            assert(((chunk >> sh) & 0x3F) < 64) by (bit_vector);
        }
        r.push(v);
        i = i + 1;
    }
    r
}

/// The 8 bytes of a chunk, least significant first.
#[verifier::loop_isolation(false)]
pub fn chunk_to_8bit(chunk: u64) -> (r: Vec<u8>)
    ensures
        r@.len() == 8,
        forall|i: int|
            0 <= i < 8 ==> (#[trigger] r@[i]) == ((chunk >> (8 * i) as u64) & 0xFF) as u8,
{
    let mut r: Vec<u8> = Vec::new();
    let mut i: usize = 0;
    while i < 8
        invariant
            i <= 8,
            r@.len() == i,
            forall|i0: int|
                0 <= i0 < i ==> (#[trigger] r@[i0]) == ((chunk >> (8 * i0) as u64) & 0xFF) as u8,
        decreases 8 - i,
    {
        let v: u8 = ((chunk >> ((8 * i) as u64)) & 0xFF) as u8;
        r.push(v);
        i = i + 1;
    }
    r
}

/// Picks bank entries by the 4-bit fields of a chunk (for a 16-entry bank)
/// or its bytes (for a 256-entry bank): the table-selection step of the
/// pseudorandom LUT stream, taking the drawn chunk as an argument.
#[verifier::loop_isolation(false)]
pub fn luts_from_chunk(lut_bank: &Vec<u64>, chunk: u64) -> (r: Vec<u64>)
    requires
        lut_bank@.len() == 16 || lut_bank@.len() == 256,
    ensures
        lut_bank@.len() == 16 ==> r@.len() == 16 && (forall|i: int|
            0 <= i < 16 ==> (#[trigger] r@[i]) == lut_bank@[((chunk >> (4 * i) as u64)
                & 0xF) as int]),
        lut_bank@.len() == 256 ==> r@.len() == 8 && (forall|i: int|
            0 <= i < 8 ==> (#[trigger] r@[i]) == lut_bank@[((chunk >> (8 * i) as u64)
                & 0xFF) as int]),
{
    let mut r: Vec<u64> = Vec::new();
    if lut_bank.len() == 16 {
        let mut i: usize = 0;
        while i < 16
            invariant
                i <= 16,
                r@.len() == i,
                forall|i0: int|
                    0 <= i0 < i ==> (#[trigger] r@[i0]) == lut_bank@[((chunk >> (4 * i0) as u64)
                        & 0xF) as int],
            decreases 16 - i,
        {
            let sh: u64 = (4 * i) as u64;
            let idx: usize = ((chunk >> sh) & 0xF) as usize;
            proof {
                assert(((chunk >> sh) & 0xF) < 16) by (bit_vector);
            }
            r.push(lut_bank[idx]);
            i = i + 1;
        }
    } else {
        let mut i: usize = 0;
        while i < 8
            invariant
                i <= 8,
                r@.len() == i,
                forall|i0: int|
                    0 <= i0 < i ==> (#[trigger] r@[i0]) == lut_bank@[((chunk >> (8 * i0) as u64)
                        & 0xFF) as int],
            decreases 8 - i,
        {
            let sh: u64 = (8 * i) as u64;
            let idx: usize = ((chunk >> sh) & 0xFF) as usize;
            proof {
                assert(((chunk >> sh) & 0xFF) < 256) by (bit_vector);
            }
            r.push(lut_bank[idx]);
            i = i + 1;
        }
    }
    r
}

} // verus!
