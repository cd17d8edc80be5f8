//! Post-processing of the final stripe: label decoding by nearest Hamming
//! distance against the embedding table, and the loss as the bit difference
//! between observed and true embeddings.

use vstd::prelude::*;

use vstd::arithmetic::power2::lemma2_to64;
use vstd::arithmetic::power2::lemma_pow2_strictly_increases;
use vstd::arithmetic::power2::pow2;

use crate::bitbuf::BitBuf;
use crate::settings::Configuration;
use crate::settings::cfg_wf;

verus! {

/// The value of `width` buffer bits starting at `start`, most significant
/// bit first.
pub open spec fn spec_bits_value(bits: Seq<bool>, start: int, width: int) -> int
    decreases width,
{
    if width <= 0 {
        0
    } else {
        spec_bits_value(bits, start, width - 1) * 2 + (if bits[start + width - 1] {
            1int
        } else {
            0int
        })
    }
}

/// A block value fits in its width.
pub proof fn lemma_bits_value_bound(bits: Seq<bool>, start: int, width: int)
    requires
        width >= 0,
    ensures
        0 <= spec_bits_value(bits, start, width) < pow2(width as nat),
    decreases width,
{
    if width == 0 {
        lemma2_to64();
    } else {
        vstd::arithmetic::power2::lemma_pow2_unfold(width as nat);
        lemma_bits_value_bound(bits, start, width - 1);
    }
}

/// Ones in the binary expansion of a nonnegative value.
pub open spec fn spec_pop(x: int) -> int
    decreases x,
{
    if x <= 0 {
        0
    } else {
        spec_pop(x / 2) + x % 2
    }
}

/// Hamming distance between a block value and an embedding row.
pub open spec fn spec_hamming(v: u64, e: u64) -> int {
    spec_pop((v ^ e) as int)
}

/// `idx` is the embedding row at minimum Hamming distance from `v`, ties
/// broken by first occurrence in table order.
pub open spec fn spec_is_argmin(emb: Seq<usize>, v: u64, idx: int) -> bool {
    &&& 0 <= idx < emb.len()
    &&& forall|k: int|
        0 <= k < emb.len() ==> spec_hamming(v, #[trigger] emb[k] as u64) >= spec_hamming(
            v,
            emb[idx] as u64,
        )
    &&& forall|k: int|
        0 <= k < idx ==> spec_hamming(v, #[trigger] emb[k] as u64) > spec_hamming(
            v,
            emb[idx] as u64,
        )
}

/// First physical address of the final layer's output region.
pub open spec fn spec_output_region_start(cfg: Configuration) -> int {
    cfg.derived.bitvec_size - cfg.data.batch_size * cfg.derived.output_bitsize
}

/// The observed output block value of image `mi`.
pub open spec fn spec_predicted_value(cfg: Configuration, bits: Seq<bool>, mi: int) -> int {
    spec_bits_value(
        bits,
        spec_output_region_start(cfg) + mi * cfg.derived.output_bitsize,
        cfg.derived.output_bitsize as int,
    )
}

/// The output region sits at the tail of the buffer.
pub proof fn lemma_output_region(cfg: Configuration, mi: int)
    requires
        cfg_wf(cfg),
        0 <= mi < cfg.data.batch_size,
    ensures
        0 <= spec_output_region_start(cfg),
        spec_output_region_start(cfg) + mi * cfg.derived.output_bitsize
            + cfg.derived.output_bitsize <= cfg.derived.bitvec_size,
        0 <= mi * cfg.derived.output_bitsize,
{
    let batch = cfg.data.batch_size as int;
    let out = cfg.derived.output_bitsize as int;
    let imgb = cfg.derived.img_bitcount as int;
    let net = cfg.derived.network_size as int;
    crate::iterators::lemma_cfg_edge_ends(cfg);
    crate::settings::lemma_sum_nonneg(cfg.network.layer_sizes@);
    assert(out <= net) by {
        let sizes = cfg.network.layer_sizes@;
        let nl = sizes.len() as int;
        crate::settings::lemma_edge_zero(sizes);
        crate::iterators::lemma_edges_link(cfg, nl - 1);
        crate::iterators::lemma_cfg_edge_succ(cfg, nl - 1);
        assert(cfg.derived.layer_edges@[nl] == cfg.derived.layer_edges@[nl - 1] + sizes[nl - 1]);
    }
    assert(batch * out <= batch * (imgb + net) && 0 <= mi * out && mi * out + out <= batch * out)
        by (nonlinear_arith)
        requires
            batch >= 1,
            0 <= out <= net,
            imgb >= 0,
            0 <= mi < batch,
    ;
}

/// Reads the value of `width` bits at `start`, most significant first.
#[verifier::loop_isolation(false)]
fn read_block_value(bv: &BitBuf, start: usize, width: usize) -> (r: u64)
    requires
        start + width <= bv@.len(),
        start + width <= usize::MAX,
        width <= 64,
    ensures
        r == spec_bits_value(bv@, start as int, width as int),
{
    let mut v: u64 = 0;
    let mut b: usize = 0;
    proof {
        lemma2_to64();
    }
    while b < width
        invariant
            b <= width,
            v == spec_bits_value(bv@, start as int, b as int),
            v < pow2(b as nat),
        decreases width - b,
    {
        proof {
            lemma_bits_value_bound(bv@, start as int, b as int);
            lemma2_to64();
            if (b as nat) + 1 < 64 {
                lemma_pow2_strictly_increases(b as nat + 1, 64);
            }
            vstd::arithmetic::power2::lemma_pow2_unfold(b as nat + 1);
        }
        let bit: bool = bv.get(start + b);
        v = v * 2 + (if bit {
            1
        } else {
            0
        });
        b = b + 1;
    }
    v
}

/// Ones in the binary expansion of `x`.
fn popcount(x: u64) -> (r: u64)
    ensures
        r == spec_pop(x as int),
        r <= 64,
{
    let mut v: u64 = x;
    let mut c: u64 = 0;
    let mut steps: u64 = 0;
    proof {
        lemma2_to64();
    }
    while v > 0
        invariant
            c + spec_pop(v as int) == spec_pop(x as int),
            c <= steps,
            steps <= 64,
            v < pow2((64 - steps) as nat),
        decreases v,
    {
        proof {
            lemma2_to64();
            assert(pow2(1) == 2);
            if v >= 2 {
                assert(v / 2 < v);
            }
            assert(steps < 64) by {
                if steps >= 64 {
                    assert(pow2(0) == 1);
                }
            }
            vstd::arithmetic::power2::lemma_pow2_unfold((64 - steps) as nat);
        }
        c = c + v % 2;
        v = v / 2;
        steps = steps + 1;
    }
    c
}

/// Decodes each image's predicted label: the embedding-table index at
/// minimum Hamming distance to the observed output block, ties broken by
/// first occurrence in table order. The result is a pure function of the
/// buffer and table, so repeated calls agree.
#[verifier::loop_isolation(false)]
pub fn get_labels(cfg: &Configuration, dbv: &BitBuf) -> (r: Vec<usize>)
    requires
        cfg_wf(*cfg),
        dbv@.len() == cfg.derived.bitvec_size,
        cfg.network.output_embedding@.len() > 0,
        cfg.derived.output_bitsize <= 64,
    ensures
        r@.len() == cfg.data.batch_size,
        forall|mi: int|
            0 <= mi < cfg.data.batch_size ==> spec_is_argmin(
                cfg.network.output_embedding@,
                spec_predicted_value(*cfg, dbv@, mi) as u64,
                #[trigger] r@[mi] as int,
            ),
{
    let batch: usize = cfg.data.batch_size;
    let out: usize = cfg.derived.output_bitsize;
    proof {
        lemma_output_region(*cfg, 0);
    }
    let region: usize = cfg.derived.bitvec_size - batch * out;
    let mut labels: Vec<usize> = Vec::new();
    let mut mi: usize = 0;
    while mi < batch
        invariant
            mi <= batch,
            labels@.len() == mi,
            forall|m0: int|
                0 <= m0 < mi ==> spec_is_argmin(
                    cfg.network.output_embedding@,
                    spec_predicted_value(*cfg, dbv@, m0) as u64,
                    #[trigger] labels@[m0] as int,
                ),
        decreases batch - mi,
    {
        proof {
            lemma_output_region(*cfg, mi as int);
            lemma_bits_value_bound(
                dbv@,
                spec_output_region_start(*cfg) + mi as int * out,
                out as int,
            );
        }
        let v: u64 = read_block_value(dbv, region + mi * out, out);
        let emb_len: usize = cfg.network.output_embedding.len();
        let e0: usize = cfg.network.output_embedding[0];
        let mut best_idx: usize = 0;
        let mut best_dist: u64 = popcount(v ^ (e0 as u64));
        let mut k: usize = 1;
        while k < emb_len
            invariant
                1 <= k <= emb_len,
                emb_len == cfg.network.output_embedding@.len(),
                best_idx < k,
                best_dist == spec_hamming(v, cfg.network.output_embedding@[best_idx as int] as u64),
                forall|k0: int|
                    0 <= k0 < k ==> spec_hamming(
                        v,
                        #[trigger] cfg.network.output_embedding@[k0] as u64,
                    ) >= best_dist,
                forall|k0: int|
                    0 <= k0 < best_idx ==> spec_hamming(
                        v,
                        #[trigger] cfg.network.output_embedding@[k0] as u64,
                    ) > best_dist,
            decreases emb_len - k,
        {
            let ek: usize = cfg.network.output_embedding[k];
            let d: u64 = popcount(v ^ (ek as u64));
            if d < best_dist {
                best_dist = d;
                best_idx = k;
            }
            k = k + 1;
        }
        labels.push(best_idx);
        mi = mi + 1;
    }
    labels
}

/// The loss vector: for each image, the observed output block XOR the true
/// label's embedding row, most significant bit first.
#[verifier::loop_isolation(false)]
pub fn get_loss_vec(cfg: &Configuration, dbv: &BitBuf, labels: &Vec<usize>) -> (r: BitBuf)
    requires
        cfg_wf(*cfg),
        dbv@.len() == cfg.derived.bitvec_size,
        cfg.derived.output_bitsize <= 64,
        labels@.len() >= cfg.data.batch_size,
        forall|mi: int|
            0 <= mi < cfg.data.batch_size ==> (#[trigger] labels@[mi])
                < cfg.network.output_embedding@.len(),
    ensures
        r@.len() == cfg.data.batch_size * cfg.derived.output_bitsize,
        forall|mi: int, b: int|
            0 <= mi < cfg.data.batch_size && 0 <= b < cfg.derived.output_bitsize ==> r@[#[trigger] (
            mi * cfg.derived.output_bitsize + b)] == (dbv@[spec_output_region_start(*cfg) + mi
                * cfg.derived.output_bitsize + b] != (((cfg.network.output_embedding@[labels@[mi] as int] as u64
                >> ((cfg.derived.output_bitsize - 1 - b) as u64)) & 1) != 0)),
{
    let batch: usize = cfg.data.batch_size;
    let out: usize = cfg.derived.output_bitsize;
    proof {
        lemma_output_region(*cfg, batch as int - 1);
        let bt = batch as int;
        let o = out as int;
        assert((bt - 1) * o + o == bt * o && bt * o >= 0) by (nonlinear_arith)
            requires
                bt >= 1,
                o >= 0,
        ;
    }
    let region: usize = cfg.derived.bitvec_size - batch * out;
    let total: usize = batch * out;
    let mut loss = BitBuf::repeat(false, total);
    let mut mi: usize = 0;
    while mi < batch
        invariant
            mi <= batch,
            loss@.len() == total,
            total == batch * out,
            forall|m0: int, b: int|
                0 <= m0 < mi && 0 <= b < out ==> loss@[#[trigger] (m0 * out as int + b)] == (dbv@[
                spec_output_region_start(*cfg) + m0 * out as int + b] != (((
                cfg.network.output_embedding@[labels@[m0] as int] as u64 >> ((out - 1
                    - b) as u64)) & 1) != 0)),
        decreases batch - mi,
    {
        proof {
            lemma_output_region(*cfg, mi as int);
            let bt = batch as int;
            let o = out as int;
            let gmi = mi as int;
            assert(gmi * o + o <= bt * o && gmi * o >= 0) by (nonlinear_arith)
                requires
                    0 <= gmi < bt,
                    o >= 0,
            ;
        }
        let e: usize = cfg.network.output_embedding[labels[mi]];
        let mut b: usize = 0;
        while b < out
            invariant
                mi < batch,
                b <= out,
                loss@.len() == total,
                e == cfg.network.output_embedding@[labels@[mi as int] as int],
                mi as int * out as int + out <= total,
                0 <= mi as int * out as int,
                spec_output_region_start(*cfg) + mi as int * out as int + out
                    <= cfg.derived.bitvec_size,
                0 <= spec_output_region_start(*cfg),
                region == spec_output_region_start(*cfg),
                forall|m0: int, b0: int|
                    0 <= m0 < mi && 0 <= b0 < out ==> loss@[#[trigger] (m0 * out as int + b0)] == (
                    dbv@[spec_output_region_start(*cfg) + m0 * out as int + b0] != (((
                    cfg.network.output_embedding@[labels@[m0] as int] as u64 >> ((out - 1
                        - b0) as u64)) & 1) != 0)),
                forall|b0: int|
                    0 <= b0 < b ==> loss@[#[trigger] (mi as int * out as int + b0)] == (dbv@[
                    spec_output_region_start(*cfg) + mi as int * out as int + b0] != (((
                    e as u64 >> ((out - 1 - b0) as u64)) & 1) != 0)),
            decreases out - b,
        {
            let tb: bool = (((e as u64) >> ((out - 1 - b) as u64)) & 1) != 0;
            let pb: bool = dbv.get(region + mi * out + b);
            loss.set(mi * out + b, pb != tb);
            proof {
                let o = out as int;
                let gmi = mi as int;
                assert forall|m0: int, b0: int| 0 <= m0 < gmi && 0 <= b0 < o implies #[trigger] (m0
                    * o + b0) < gmi * o + b as int by {
                    assert(m0 * o + b0 < (m0 + 1) * o && (m0 + 1) * o <= gmi * o)
                        by (nonlinear_arith)
                        requires
                            0 <= m0 < gmi,
                            0 <= b0 < o,
                    ;
                }
            }
            b = b + 1;
        }
        mi = mi + 1;
    }
    loss
}

/// Trues in a buffer.
pub open spec fn spec_count_trues(bits: Seq<bool>) -> int
    decreases bits.len(),
{
    if bits.len() == 0 {
        0
    } else {
        spec_count_trues(bits.drop_last()) + (if bits.last() {
            1int
        } else {
            0int
        })
    }
}

/// The loss: how many bits differ between observed and true embeddings,
/// i.e. the population count of the loss vector.
#[verifier::loop_isolation(false)]
pub fn count_ones(bits: &BitBuf) -> (r: usize)
    ensures
        r == spec_count_trues(bits@),
{
    let n: usize = bits.len();
    let mut c: usize = 0;
    let mut i: usize = 0;
    while i < n
        invariant
            i <= n,
            c == spec_count_trues(bits@.take(i as int)),
            c <= i,
        decreases n - i,
    {
        proof {
            assert(bits@.take(i + 1).drop_last() =~= bits@.take(i as int));
        }
        if bits.get(i) {
            c = c + 1;
        }
        i = i + 1;
    }
    proof {
        assert(bits@.take(n as int) =~= bits@);
    }
    c
}

/// The total loss over a batch: the differing bits between predicted and
/// true embeddings.
pub fn get_loss(cfg: &Configuration, dbv: &BitBuf, labels: &Vec<usize>) -> (r: usize)
    requires
        cfg_wf(*cfg),
        dbv@.len() == cfg.derived.bitvec_size,
        cfg.derived.output_bitsize <= 64,
        labels@.len() >= cfg.data.batch_size,
        forall|mi: int|
            0 <= mi < cfg.data.batch_size ==> (#[trigger] labels@[mi])
                < cfg.network.output_embedding@.len(),
    ensures
        ({
            let lv = spec_loss_vec(*cfg, dbv@, labels@);
            r == spec_count_trues(lv)
        }),
{
    let lv = get_loss_vec(cfg, dbv, labels);
    proof {
        let o = cfg.derived.output_bitsize as int;
        let bt = cfg.data.batch_size as int;
        assert forall|i: int| 0 <= i < bt * o implies lv@[i] == spec_loss_vec(
            *cfg,
            dbv@,
            labels@,
        )[i] by {
            vstd::arithmetic::div_mod::lemma_fundamental_div_mod(i, o);
            let m0 = i / o;
            let b0 = i % o;
            assert(0 <= m0 < bt) by (nonlinear_arith)
                requires
                    0 <= i < bt * o,
                    o >= 1,
                    m0 == i / o,
            ;
            assert(lv@[m0 * o + b0] == (dbv@[spec_output_region_start(*cfg) + m0 * o + b0] != (((
            cfg.network.output_embedding@[labels@[m0] as int] as u64 >> ((o - 1
                - b0) as u64)) & 1) != 0)));
            assert(i == m0 * o + b0);
        }
        assert(lv@ =~= spec_loss_vec(*cfg, dbv@, labels@));
    }
    count_ones(&lv)
}

/// The loss vector as a sequence: one XOR block per image.
pub open spec fn spec_loss_vec(cfg: Configuration, bits: Seq<bool>, labels: Seq<usize>) -> Seq<
    bool,
> {
    let out = cfg.derived.output_bitsize as int;
    Seq::new(
        (cfg.data.batch_size * cfg.derived.output_bitsize) as nat,
        |i: int|
            (bits[spec_output_region_start(cfg) + i] != (((cfg.network.output_embedding@[labels[i
                / out] as int] as u64 >> ((out - 1 - (i % out)) as u64)) & 1) != 0)),
    )
}

/// The observed output block of each image, read as bytes (8-bit chunks of
/// the output region).
#[verifier::loop_isolation(false)]
pub fn get_predicted_embedding(cfg: &Configuration, dbv: &BitBuf) -> (r: Vec<u8>)
    requires
        cfg_wf(*cfg),
        dbv@.len() == cfg.derived.bitvec_size,
        cfg.derived.output_bitsize >= 8,
    ensures
        r@.len() == cfg.data.batch_size,
        forall|k: int|
            0 <= k < cfg.data.batch_size ==> (#[trigger] r@[k]) as int == spec_bits_value(
                dbv@,
                spec_output_region_start(*cfg) + 8 * k,
                8,
            ),
{
    let batch: usize = cfg.data.batch_size;
    let out: usize = cfg.derived.output_bitsize;
    proof {
        lemma_output_region(*cfg, batch as int - 1);
        let bt = batch as int;
        let o = out as int;
        assert(bt * 8 <= bt * o && (bt - 1) * o + o == bt * o) by (nonlinear_arith)
            requires
                bt >= 1,
                o >= 8,
        ;
    }
    let region: usize = cfg.derived.bitvec_size - batch * out;
    let mut r: Vec<u8> = Vec::new();
    let mut k: usize = 0;
    while k < batch
        invariant
            k <= batch,
            r@.len() == k,
            forall|k0: int|
                0 <= k0 < k ==> (#[trigger] r@[k0]) as int == spec_bits_value(
                    dbv@,
                    spec_output_region_start(*cfg) + 8 * k0,
                    8,
                ),
        decreases batch - k,
    {
        proof {
            lemma_bits_value_bound(dbv@, spec_output_region_start(*cfg) + 8 * k as int, 8);
            lemma2_to64();
        }
        let v: u64 = read_block_value(dbv, region + 8 * k, 8);
        r.push(v as u8);
        k = k + 1;
    }
    r
}


/// The batch loss of one speculative-corruption trial: flip the listed
/// table bits on a private copy, evaluate, and count the differing output
/// bits against the true labels.
pub open spec fn spec_trial_loss(
    cfg: Configuration,
    nodes: Seq<crate::netcore::Node>,
    init: Seq<bool>,
    idxs: Seq<usize>,
    flips: Seq<u8>,
    labels: Seq<usize>,
) -> int {
    spec_count_trues(
        spec_loss_vec(
            cfg,
            crate::netcore::spec_eval(
                cfg,
                crate::netcore::spec_corrupt(nodes, idxs, flips, idxs.len() as int),
                init,
            ),
            labels,
        ),
    )
}

/// Runs one corruption trial per pre-drawn flip vector, each over a private
/// copy of the buffer and node list, and returns the lowest loss with its
/// node list, first trial winning ties; `None` exactly when no trial was
/// given. The topology and the buffer are untouched.
#[verifier::loop_isolation(false)]
pub fn run_corruption_trials(
    net: &crate::netcore::LUTNet,
    cfg: &Configuration,
    dbv: &BitBuf,
    node_idxs_to_corrupt: &Vec<usize>,
    flip_vectors: &Vec<Vec<u8>>,
    labels: &Vec<usize>,
) -> (r: Option<(usize, Vec<crate::netcore::Node>)>)
    requires
        cfg_wf(*cfg),
        crate::netcore::net_matches_cfg(*net, *cfg),
        crate::netcore::nodes_reads_ok(net.nodes@, *cfg),
        dbv@.len() == cfg.derived.bitvec_size,
        forall|i: int|
            0 <= i < node_idxs_to_corrupt@.len() ==> (#[trigger] node_idxs_to_corrupt@[i])
                < net.nodes@.len(),
        forall|k: int|
            0 <= k < flip_vectors@.len() ==> (#[trigger] flip_vectors@[k])@.len()
                >= node_idxs_to_corrupt@.len(),
        forall|k: int, i: int|
            0 <= k < flip_vectors@.len() && 0 <= i < flip_vectors@[k]@.len() ==> (
            #[trigger] flip_vectors@[k]@[i]) < 64,
        cfg.derived.output_bitsize <= 64,
        labels@.len() >= cfg.data.batch_size,
        forall|mi: int|
            0 <= mi < cfg.data.batch_size ==> (#[trigger] labels@[mi])
                < cfg.network.output_embedding@.len(),
    ensures
        r is None <==> flip_vectors@.len() == 0,
        r matches Some((l, nds)) ==> exists|k: int|
            0 <= k < flip_vectors@.len() && l == spec_trial_loss(
                *cfg,
                net.nodes@,
                dbv@,
                node_idxs_to_corrupt@,
                (#[trigger] flip_vectors@[k])@,
                labels@,
            ) && nds@ == crate::netcore::spec_corrupt(
                net.nodes@,
                node_idxs_to_corrupt@,
                flip_vectors@[k]@,
                node_idxs_to_corrupt@.len() as int,
            ) && (forall|k2: int|
                0 <= k2 < flip_vectors@.len() ==> spec_trial_loss(
                    *cfg,
                    net.nodes@,
                    dbv@,
                    node_idxs_to_corrupt@,
                    (#[trigger] flip_vectors@[k2])@,
                    labels@,
                ) >= l) && (forall|k2: int|
                0 <= k2 < k ==> spec_trial_loss(
                    *cfg,
                    net.nodes@,
                    dbv@,
                    node_idxs_to_corrupt@,
                    (#[trigger] flip_vectors@[k2])@,
                    labels@,
                ) > l),
{
    let mut best: Option<(usize, Vec<crate::netcore::Node>)> = None;
    let ghost mut bk: int = 0;
    let mut k: usize = 0;
    while k < flip_vectors.len()
        invariant
            k <= flip_vectors@.len(),
            best is None <==> k == 0,
            best matches Some((l, nds)) ==> 0 <= bk < k && l == spec_trial_loss(
                *cfg,
                net.nodes@,
                dbv@,
                node_idxs_to_corrupt@,
                flip_vectors@[bk]@,
                labels@,
            ) && nds@ == crate::netcore::spec_corrupt(
                net.nodes@,
                node_idxs_to_corrupt@,
                flip_vectors@[bk]@,
                node_idxs_to_corrupt@.len() as int,
            ) && (forall|k2: int|
                0 <= k2 < k ==> spec_trial_loss(
                    *cfg,
                    net.nodes@,
                    dbv@,
                    node_idxs_to_corrupt@,
                    (#[trigger] flip_vectors@[k2])@,
                    labels@,
                ) >= l) && (forall|k2: int|
                0 <= k2 < bk ==> spec_trial_loss(
                    *cfg,
                    net.nodes@,
                    dbv@,
                    node_idxs_to_corrupt@,
                    (#[trigger] flip_vectors@[k2])@,
                    labels@,
                ) > l),
        decreases flip_vectors@.len() - k,
    {
        let mut local = crate::bitbuf::copy_bits(dbv);
        let mutated = net.apply_gates_with_bitflips(
            cfg,
            &mut local,
            node_idxs_to_corrupt,
            &flip_vectors[k],
        );
        let loss = get_loss(cfg, &local, labels);
        proof {
            assert(loss == spec_trial_loss(
                *cfg,
                net.nodes@,
                dbv@,
                node_idxs_to_corrupt@,
                flip_vectors@[k as int]@,
                labels@,
            ));
        }
        match &best {
            None => {
                best = Some((loss, mutated));
                proof {
                    bk = k as int;
                }
            },
            Some((l, _)) => {
                if loss < *l {
                    best = Some((loss, mutated));
                    proof {
                        bk = k as int;
                    }
                }
            },
        }
        k = k + 1;
    }
    best
}

} // verus!
