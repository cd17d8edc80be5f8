use lutnet::bitbuf::BitBuf;
use lutnet::netcore::LUTNet;
use lutnet::processing::get_loss;
use lutnet::processing::run_corruption_trials;
use lutnet::netcore::Node;
use lutnet::settings::Configuration;
use lutnet::settings::Data;
use lutnet::settings::DataSplit;
use lutnet::settings::Network;
use lutnet::settings::Settings;
use lutnet::settings::initialize_app_config_with_network;

fn small_cfg(dim2: usize, batch_size: usize, layer_sizes: Vec<usize>) -> Configuration {
    let data = Data {
        dim1: 1,
        dim2,
        dim3: 1,
        train_filepath: String::from("train.csv"),
        test_filepath: String::from("test.csv"),
        datasplit: DataSplit::Train(16),
        batch_size,
    };
    let network = Network {
        output_embedding: vec![0, 1, 2, 3],
        layer_sizes,
        lut_bank_size: 0,
    };
    initialize_app_config_with_network(Settings { data, network }, None)
}

/// A small deterministic pseudorandom stream for building test topologies.
fn next_word(state: &mut u64) -> u64 {
    let mut x = *state;
    x ^= x << 13;
    x ^= x >> 7;
    x ^= x << 17;
    *state = x;
    x
}

#[test]
fn random_lutnet_created_correctly() {
    // Wire every node to the previous layer (layer 0 to the pixels) with
    // generated sources and bank-drawn tables; the feed-forward invariant
    // and bank closure must hold for the whole generated topology.
    let cfg = small_cfg(16, 2, vec![5, 4, 3]);
    let lut_bank: Vec<u64> = (0..16u64).map(|k| 0x9e37_79b9_7f4a_7c15u64.wrapping_mul(k + 1)).collect();
    let mut state = 0x1234_5678_9abc_def0u64;
    let img_bits = cfg.derived.img_bitcount;
    let edges = cfg.derived.layer_edges.clone();
    let mut nodes = Vec::new();
    for layer in 0..cfg.derived.num_layers {
        let (lo, hi) = if layer == 0 {
            (0, img_bits)
        } else {
            (img_bits + edges[layer - 1], img_bits + edges[layer])
        };
        for _ in edges[layer]..edges[layer + 1] {
            let mut indices = [0usize; 6];
            for j in 0..6 {
                indices[j] = lo + (next_word(&mut state) as usize) % (hi - lo);
            }
            let lut = lut_bank[(next_word(&mut state) as usize) % lut_bank.len()];
            nodes.push(Node { lut, indices });
        }
    }
    let ltnet = LUTNet::new(nodes, img_bits, edges, Some(lut_bank.clone()), vec![]);
    assert!(ltnet.is_well_formed(&cfg));

    for layer in 0..cfg.derived.num_layers {
        let layer_nodes =
            &ltnet.nodes[cfg.derived.layer_edges[layer]..cfg.derived.layer_edges[layer + 1]];
        let min_index = layer_nodes.iter().flat_map(|node| node.indices).min();
        let max_index = layer_nodes.iter().flat_map(|node| node.indices).max();
        assert!(
            min_index.unwrap()
                >= (cfg.derived.layer_edges[layer.saturating_sub(1)] + cfg.derived.img_bitcount)
                    * std::cmp::min(layer, 1)
        );
        assert!(max_index.unwrap() < cfg.derived.layer_edges[layer] + cfg.derived.img_bitcount);
    }
    for node in &ltnet.nodes {
        assert!(lut_bank.contains(&node.lut));
    }
}

#[test]
fn single_node_lookup_matches_table_bit() {
    // One layer-0 node with table 0b00000011 whose sources read the input
    // pattern 0,1,1,0,1,0: lookup index 0b010110 = 22 in source-order bit
    // weighting, so the output bit is (table >> 22) & 1 = 0.
    let cfg = small_cfg(6, 1, vec![1]);
    let table: u64 = 0b00000011;
    let net = LUTNet::new(
        vec![Node { lut: table, indices: [0, 1, 2, 3, 4, 5] }],
        cfg.derived.img_bitcount,
        vec![0, 1],
        None,
        vec![],
    );
    let mut buf = BitBuf::repeat(false, cfg.derived.bitvec_size);
    let pattern = [false, true, true, false, true, false];
    for (i, &b) in pattern.iter().enumerate() {
        buf.set(i, b);
    }
    assert!(net.apply_gates(&cfg, &mut buf).is_ok());
    let out_bit = buf.get(6);
    assert_eq!(out_bit, ((table >> 22) & 1) != 0);
    assert!(!out_bit);
}

#[test]
fn gate_application_works_correctly() {
    // After a full evaluation, spot-check one (layer, node, image) triple:
    // the committed bit must equal the table bit selected by the six input
    // bits at the translated read addresses.
    let cfg = small_cfg(16, 2, vec![5, 4, 3]);
    let img_bits = cfg.derived.img_bitcount;
    let edges = cfg.derived.layer_edges.clone();
    let mut state = 0xfeed_beef_0123_4567u64;
    let mut nodes = Vec::new();
    for layer in 0..cfg.derived.num_layers {
        let (lo, hi) = if layer == 0 {
            (0, img_bits)
        } else {
            (img_bits + edges[layer - 1], img_bits + edges[layer])
        };
        for _ in edges[layer]..edges[layer + 1] {
            let mut indices = [0usize; 6];
            for j in 0..6 {
                indices[j] = lo + (next_word(&mut state) as usize) % (hi - lo);
            }
            nodes.push(Node { lut: next_word(&mut state), indices });
        }
    }
    let ltnet = LUTNet::new(nodes, img_bits, edges, None, vec![]);
    let mut dbv = BitBuf::repeat(false, cfg.derived.bitvec_size);
    for i in 0..cfg.derived.batch_bitcount {
        dbv.set(i, next_word(&mut state) & 1 == 1);
    }
    assert!(ltnet.apply_gates(&cfg, &mut dbv).is_ok());

    for (layer, node, img_num) in [(0usize, 2usize, 0usize), (1, 7, 1), (2, 10, 1)] {
        let test_node = ltnet.nodes[node];
        let bv_offset = if layer == 0 {
            img_num * cfg.derived.img_bitcount
        } else {
            (cfg.data.batch_size - 1)
                * (cfg.derived.img_bitcount + cfg.derived.layer_edges[layer - 1])
                + img_num * cfg.network.layer_sizes[layer - 1]
        };
        let bv_index = cfg.data.batch_size
            * (cfg.derived.img_bitcount + cfg.derived.layer_edges[layer])
            + img_num * cfg.network.layer_sizes[layer]
            + (node - cfg.derived.layer_edges[layer]);
        let mut idx_in_lut: u8 = 0;
        for (j, &src) in test_node.indices.iter().enumerate() {
            if dbv.get(src + bv_offset) {
                idx_in_lut |= 1 << j;
            }
        }
        assert_eq!(dbv.get(bv_index), ((test_node.lut >> idx_in_lut) & 1) != 0);
    }
}

#[test]
fn validated_path_names_offending_node() {
    let cfg = small_cfg(6, 1, vec![2]);
    // Node 1 reads far outside the buffer.
    let net = LUTNet::new(
        vec![
            Node { lut: 7, indices: [0, 1, 2, 3, 4, 5] },
            Node { lut: 9, indices: [0, 1, 2, 3, 4, 100_000] },
        ],
        cfg.derived.img_bitcount,
        vec![0, 2],
        None,
        vec![],
    );
    let mut buf = BitBuf::repeat(false, cfg.derived.bitvec_size);
    let before: Vec<bool> = (0..cfg.derived.bitvec_size).map(|i| buf.get(i)).collect();
    let r = net.apply_gates(&cfg, &mut buf);
    assert!(r.is_err());
    assert_eq!(r.unwrap_err().node_index, 1);
    // The buffer is untouched on failure.
    for i in 0..cfg.derived.bitvec_size {
        assert_eq!(buf.get(i), before[i]);
    }
}

#[test]
fn well_formedness_checks_feed_forward_and_bank() {
    let cfg = small_cfg(6, 1, vec![2, 1]);
    let bank = vec![3u64, 9u64];
    let good = LUTNet::new(
        vec![
            Node { lut: 3, indices: [0, 1, 2, 3, 4, 5] },
            Node { lut: 9, indices: [5, 4, 3, 2, 1, 0] },
            Node { lut: 3, indices: [6, 7, 6, 7, 6, 7] },
        ],
        cfg.derived.img_bitcount,
        vec![0, 2, 3],
        Some(bank.clone()),
        vec![],
    );
    assert!(good.is_well_formed(&cfg));
    assert!(good.verify_lut_bank_integrity());

    // A forward edge breaks the feed-forward invariant.
    let mut bad = good.clone();
    bad.nodes[0].indices[3] = 7;
    assert!(!bad.is_well_formed(&cfg));

    // A table outside the bank breaks bank integrity.
    let mut off_bank = good.clone();
    off_bank.nodes[1].lut = 4;
    assert!(!off_bank.verify_lut_bank_integrity());
    assert!(!off_bank.is_well_formed(&cfg));
}

#[test]
fn speculative_mutation_overrides_tables_and_keeps_topology() {
    let cfg = small_cfg(6, 1, vec![2]);
    let net = LUTNet::new(
        vec![
            Node { lut: 3, indices: [0, 1, 2, 3, 4, 5] },
            Node { lut: 9, indices: [5, 4, 3, 2, 1, 0] },
        ],
        cfg.derived.img_bitcount,
        vec![0, 2],
        None,
        vec![],
    );
    let mut buf = BitBuf::repeat(false, cfg.derived.bitvec_size);
    let mutated = net.apply_gates_with_new_luts(&cfg, &mut buf, &vec![1], &vec![0xFFu64]);
    assert_eq!(mutated.len(), 2);
    assert_eq!(mutated[0].lut, 3);
    assert_eq!(mutated[1].lut, 0xFF);
    assert_eq!(mutated[1].indices, net.nodes[1].indices);
    // The topology itself is untouched.
    assert_eq!(net.nodes[1].lut, 9);
}

#[test]
fn speculative_corruption_flips_one_table_bit() {
    let cfg = small_cfg(6, 1, vec![2]);
    let net = LUTNet::new(
        vec![
            Node { lut: 3, indices: [0, 1, 2, 3, 4, 5] },
            Node { lut: 9, indices: [5, 4, 3, 2, 1, 0] },
        ],
        cfg.derived.img_bitcount,
        vec![0, 2],
        None,
        vec![],
    );
    let mut buf = BitBuf::repeat(false, cfg.derived.bitvec_size);
    let corrupted = net.apply_gates_with_bitflips(&cfg, &mut buf, &vec![0, 1], &vec![0u8, 5u8]);
    assert_eq!(corrupted[0].lut, 3 ^ 1);
    assert_eq!(corrupted[1].lut, 9 ^ (1 << 5));
    assert_eq!(net.nodes[0].lut, 3);
}

#[test]
fn batch_evaluation_equals_single_image_runs() {
    // Evaluating one batch of size 2 and two batches of size 1 over the
    // same per-image inputs yields identical per-image output bits.
    let layer_sizes = vec![2, 1];
    let cfg2 = small_cfg(4, 2, layer_sizes.clone());
    let cfg1 = small_cfg(4, 1, layer_sizes.clone());
    let nodes = vec![
        Node { lut: 0x8778_1331_0aa0_55c3, indices: [0, 1, 2, 3, 0, 2] },
        Node { lut: 0x1234_5678_9abc_def0, indices: [3, 2, 1, 0, 1, 3] },
        Node { lut: 0xfedc_ba98_7654_3210, indices: [4, 5, 4, 5, 4, 5] },
    ];
    let net = LUTNet::new(nodes, 4, vec![0, 2, 3], None, vec![]);
    let images = [
        [true, false, true, true],
        [false, true, false, true],
    ];

    let mut big = BitBuf::repeat(false, cfg2.derived.bitvec_size);
    for m in 0..2 {
        for b in 0..4 {
            big.set(m * 4 + b, images[m][b]);
        }
    }
    net.apply_gates_fast(&cfg2, &mut big);

    for m in 0..2 {
        let mut small = BitBuf::repeat(false, cfg1.derived.bitvec_size);
        for b in 0..4 {
            small.set(b, images[m][b]);
        }
        net.apply_gates_fast(&cfg1, &mut small);
        for layer in 0..2 {
            let size = layer_sizes[layer];
            let start2 = cfg2.data.batch_size
                * (cfg2.derived.img_bitcount + cfg2.derived.layer_edges[layer])
                + m * size;
            let start1 = cfg1.derived.img_bitcount + cfg1.derived.layer_edges[layer];
            for n in 0..size {
                assert_eq!(big.get(start2 + n), small.get(start1 + n));
            }
        }
    }
}

#[test]
fn validated_and_fast_paths_agree() {
    let cfg = small_cfg(6, 2, vec![3, 2]);
    let nodes = vec![
        Node { lut: 0xa5a5_5a5a_c3c3_3c3c, indices: [0, 1, 2, 3, 4, 5] },
        Node { lut: 0x0f0f_f0f0_ff00_00ff, indices: [5, 0, 4, 1, 3, 2] },
        Node { lut: 0x9999_6666_3333_cccc, indices: [2, 2, 3, 3, 1, 1] },
        Node { lut: 0x1111_2222_4444_8888, indices: [6, 7, 8, 6, 7, 8] },
        Node { lut: 0xdead_beef_0bad_f00d, indices: [8, 7, 6, 8, 7, 6] },
    ];
    let net = LUTNet::new(nodes, 6, vec![0, 3, 5], None, vec![]);
    let mut a = BitBuf::repeat(false, cfg.derived.bitvec_size);
    let mut b = BitBuf::repeat(false, cfg.derived.bitvec_size);
    for i in 0..cfg.derived.batch_bitcount {
        let bit = (i * 7 + 3) % 5 < 2;
        a.set(i, bit);
        b.set(i, bit);
    }
    assert!(net.apply_gates(&cfg, &mut a).is_ok());
    net.apply_gates_fast(&cfg, &mut b);
    for i in 0..cfg.derived.bitvec_size {
        assert_eq!(a.get(i), b.get(i));
    }
}

#[test]
fn corruption_trials_pick_the_lowest_loss() {
    // Three trials with pre-drawn flip vectors: the returned loss is the
    // minimum over the trials, the node list matches a trial's corruption,
    // and the topology and buffer are untouched.
    let cfg = small_cfg(6, 1, vec![2, 2]);
    let net = LUTNet::new(
        vec![
            Node { lut: 0xa5a5_5a5a_c3c3_3c3c, indices: [0, 1, 2, 3, 4, 5] },
            Node { lut: 0x0f0f_f0f0_ff00_00ff, indices: [5, 4, 3, 2, 1, 0] },
            Node { lut: 0x9999_6666_3333_cccc, indices: [6, 7, 6, 7, 6, 7] },
            Node { lut: 0x1111_2222_4444_8888, indices: [7, 6, 7, 6, 7, 6] },
        ],
        6,
        vec![0, 2, 4],
        None,
        vec![],
    );
    let mut dbv = BitBuf::repeat(false, cfg.derived.bitvec_size);
    for b in 0..6 {
        dbv.set(b, b % 2 == 0);
    }
    let labels: Vec<usize> = vec![1];
    let idxs: Vec<usize> = vec![0, 3];
    let flips: Vec<Vec<u8>> = vec![vec![0, 5], vec![63, 17], vec![9, 9]];

    assert!(run_corruption_trials(&net, &cfg, &dbv, &idxs, &vec![], &labels).is_none());
    let (best_loss, best_nodes) =
        run_corruption_trials(&net, &cfg, &dbv, &idxs, &flips, &labels).expect("three trials ran");

    // Recompute each trial by hand and compare.
    let mut losses = Vec::new();
    for fv in &flips {
        let mut local = BitBuf::repeat(false, cfg.derived.bitvec_size);
        for b in 0..6 {
            local.set(b, b % 2 == 0);
        }
        let mutated = net.apply_gates_with_bitflips(&cfg, &mut local, &idxs, fv);
        losses.push((get_loss(&cfg, &local, &labels), mutated));
    }
    let min_loss = losses.iter().map(|(l, _)| *l).min().unwrap();
    assert_eq!(best_loss, min_loss);
    let k = losses.iter().position(|(l, _)| *l == min_loss).unwrap();
    for (a, b) in best_nodes.iter().zip(losses[k].1.iter()) {
        assert_eq!(a.lut, b.lut);
        assert_eq!(a.indices, b.indices);
    }
    // The original topology kept its tables.
    assert_eq!(net.nodes[0].lut, 0xa5a5_5a5a_c3c3_3c3c);
    assert_eq!(net.nodes[3].lut, 0x1111_2222_4444_8888);
}
