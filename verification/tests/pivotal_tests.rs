use lutnet::bitbuf::BitBuf;
use lutnet::netcore::LUTNet;
use lutnet::netcore::Node;
use lutnet::piv_select::find_global_pivotal_node;
use lutnet::piv_select::find_most_frequent_pivotal_node;
use lutnet::piv_select::find_pivotal_node_with_scoring;
use lutnet::piv_select::find_pivotal_nodes_by_key;
use lutnet::piv_select::find_randomized_selections;
use lutnet::piv_select::score_lut_by_node_presence;
use lutnet::processing::get_loss_vec;
use lutnet::settings::Configuration;
use lutnet::settings::Data;
use lutnet::settings::DataSplit;
use lutnet::settings::Network;
use lutnet::settings::Settings;
use lutnet::settings::initialize_app_config_with_network;
use lutnet::utils::get_node_indices_in_bitvec;

fn lut_index_for(net: &LUTNet, dbv: &BitBuf, cfg: &Configuration, node: usize, m: usize) -> u8 {
    let addrs = get_node_indices_in_bitvec(node, net, cfg, m);
    let mut idx: u8 = 0;
    for (j, &a) in addrs.iter().enumerate() {
        if dbv.get(a) {
            idx |= 1 << j;
        }
    }
    idx
}

fn fixed_cfg() -> Configuration {
    // 8-bit input, layer sizes [4, 2], 2 images per batch.
    let data = Data {
        dim1: 1,
        dim2: 8,
        dim3: 1,
        train_filepath: String::from("train.csv"),
        test_filepath: String::from("test.csv"),
        datasplit: DataSplit::Train(8),
        batch_size: 2,
    };
    let network = Network {
        output_embedding: vec![0b01, 0b10],
        layer_sizes: vec![4, 2],
        lut_bank_size: 0,
    };
    initialize_app_config_with_network(Settings { data, network }, None)
}

fn fixed_net() -> LUTNet {
    // Layer 0 reads pixels; layer 1 reads layer 0's logical region [8, 12).
    // The layer-1 tables make each output equal its source at position 0,
    // so joint and single toggles of any one upstream node agree.
    LUTNet::new(
        vec![
            Node { lut: 0x6996_9669_9669_6996, indices: [0, 1, 2, 3, 4, 5] },
            Node { lut: 0x0000_ffff_ffff_0000, indices: [2, 3, 4, 5, 6, 7] },
            Node { lut: 0xaaaa_aaaa_5555_5555, indices: [7, 6, 5, 4, 3, 2] },
            Node { lut: 0x00ff_00ff_ff00_ff00, indices: [1, 3, 5, 7, 0, 2] },
            Node { lut: 0xaaaa_aaaa_aaaa_aaaa, indices: [8, 9, 10, 11, 8, 9] },
            Node { lut: 0xaaaa_aaaa_aaaa_aaaa, indices: [10, 11, 8, 9, 10, 11] },
        ],
        8,
        vec![0, 4, 6],
        None,
        vec![],
    )
}

fn load_inputs(cfg: &Configuration, images: &[[bool; 8]]) -> BitBuf {
    let mut buf = BitBuf::repeat(false, cfg.derived.bitvec_size);
    for (m, img) in images.iter().enumerate() {
        for b in 0..8 {
            buf.set(m * 8 + b, img[b]);
        }
    }
    buf
}

const IMAGES: [[bool; 8]; 2] = [
    [true, false, true, true, false, false, true, false],
    [false, true, true, false, true, true, false, true],
];

#[test]
fn pivotal_nodes_tracking_works_correctly() {
    let cfg = fixed_cfg();
    let net = fixed_net();
    let mut dbv = load_inputs(&cfg, &IMAGES);
    let pivotal = net.apply_gates_while_tracking_pivotal_nodes(&cfg, &mut dbv);
    assert_eq!(pivotal.len(), 2);

    let final_start =
        cfg.data.batch_size * (cfg.derived.img_bitcount + cfg.derived.layer_edges[1]);
    for m in 0..2 {
        for upstream in 0..4usize {
            // Flip the upstream node's output for image m: toggle its table
            // at the lookup index it reads for that image.
            let idx = lut_index_for(&net, &dbv, &cfg, upstream, m);
            let mut flipped = net.clone();
            flipped.nodes[upstream].lut ^= 1u64 << idx;
            let mut dbv2 = load_inputs(&cfg, &IMAGES);
            assert!(flipped.apply_gates(&cfg, &mut dbv2).is_ok());

            // The set of changed final-layer bits for image m must equal the
            // tracked sensitizing sets that contain this node, and no others.
            for f in 0..2usize {
                let w = final_start + m * 2 + f;
                let changed = dbv.get(w) != dbv2.get(w);
                assert_eq!(
                    changed,
                    pivotal[m][f].contains(upstream),
                    "ground truth disagrees with tracked set"
                );
            }
        }
    }
}

#[test]
fn selection_heuristics_follow_tracked_sets() {
    let cfg = fixed_cfg();
    let net = fixed_net();
    let mut dbv = load_inputs(&cfg, &IMAGES);
    let pivotal = net.apply_gates_while_tracking_pivotal_nodes(&cfg, &mut dbv);

    // With the fixed layer-1 tables each output bit's set is exactly its
    // position-0 source, so the most frequent node influences one key.
    let start_key = cfg.derived.layer_edges[1];
    let frequent = find_most_frequent_pivotal_node(&pivotal, start_key);
    assert_eq!(frequent.len(), 2);
    for m in 0..2 {
        let (w, ks) = frequent[m].as_ref().expect("each image has candidates");
        assert!(pivotal[m][0].contains(*w) || pivotal[m][1].contains(*w));
        assert_eq!(ks.len(), 1);
    }

    let labels: Vec<usize> = vec![0, 1];
    let loss = get_loss_vec(&cfg, &dbv, &labels);
    let picks = find_pivotal_node_with_scoring(&cfg, &pivotal, &loss);
    assert_eq!(picks.len(), 2);
    for m in 0..2 {
        assert!(pivotal[m][0].contains(picks[m]) || pivotal[m][1].contains(picks[m]));
    }

    let global = find_global_pivotal_node(&cfg, &pivotal, &loss);
    let g = global.expect("the batch has candidates");
    assert!(
        pivotal.iter().any(|row| row[0].contains(g) || row[1].contains(g)),
        "the global pick must be some image's candidate"
    );

    let by_key = find_pivotal_nodes_by_key(&cfg, &pivotal, &loss);
    assert_eq!(by_key.len(), 2);
    for k in 0..2 {
        let w = by_key[k].expect("every key has a candidate here");
        assert!(pivotal.iter().any(|row| row[k].contains(w)));
    }

    // With these tables each output bit's set holds its position-0 source,
    // so the greedy cover assigns exactly that node to each key.
    let selections = find_randomized_selections(&pivotal);
    assert_eq!(selections.len(), 2);
    for m in 0..2 {
        for k in 0..2 {
            let chosen = selections[m][k].expect("nonempty sets get an assignment");
            assert!(pivotal[m][k].contains(chosen));
        }
    }

    // Scoring one node's lookup indices touches only the observed indices.
    let lut_inputs: Vec<u8> = vec![5, 9];
    let scores = score_lut_by_node_presence(&cfg, &pivotal, &loss, &lut_inputs, g);
    assert_eq!(scores.len(), 64);
    for (v, &s) in scores.iter().enumerate() {
        if v != 5 && v != 9 {
            assert_eq!(s, 0);
        }
    }
}

#[test]
fn flipping_pivotal_reduces_loss() {
    // With one image per batch, flipping the best-scored pivotal node's
    // table bit never increases the loss.
    let data = Data {
        dim1: 1,
        dim2: 8,
        dim3: 1,
        train_filepath: String::from("train.csv"),
        test_filepath: String::from("test.csv"),
        datasplit: DataSplit::Train(8),
        batch_size: 1,
    };
    let network = Network {
        output_embedding: vec![0b01, 0b10],
        layer_sizes: vec![4, 2],
        lut_bank_size: 0,
    };
    let cfg = initialize_app_config_with_network(Settings { data, network }, None);
    let mut net = fixed_net();
    let images = [IMAGES[0]];
    let mut dbv = BitBuf::repeat(false, cfg.derived.bitvec_size);
    for b in 0..8 {
        dbv.set(b, images[0][b]);
    }
    assert!(net.apply_gates(&cfg, &mut dbv).is_ok());
    let mut dbv2 = BitBuf::repeat(false, cfg.derived.bitvec_size);
    for b in 0..8 {
        dbv2.set(b, images[0][b]);
    }
    let pivotal = net.apply_gates_while_tracking_pivotal_nodes(&cfg, &mut dbv2);
    let y: Vec<usize> = vec![0];
    let loss_vec = get_loss_vec(&cfg, &dbv2, &y);
    let loss = lutnet::processing::count_ones(&loss_vec);
    let picks = find_pivotal_node_with_scoring(&cfg, &pivotal, &loss_vec);
    for (m, &node_to_flip) in picks.iter().enumerate() {
        let idx = lut_index_for(&net, &dbv2, &cfg, node_to_flip, m);
        net.nodes[node_to_flip].lut ^= 1u64 << idx;
    }
    let mut dbv3 = BitBuf::repeat(false, cfg.derived.bitvec_size);
    for b in 0..8 {
        dbv3.set(b, images[0][b]);
    }
    assert!(net.apply_gates(&cfg, &mut dbv3).is_ok());
    let new_loss = lutnet::processing::get_loss(&cfg, &dbv3, &y);
    if loss > 0 {
        assert!(loss >= new_loss);
    }
}
