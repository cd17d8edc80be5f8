use lutnet::settings::Configuration;
use lutnet::settings::Data;
use lutnet::settings::DataSplit;
use lutnet::settings::DerivedValues;
use lutnet::settings::Network;
use lutnet::settings::Settings;
use lutnet::settings::initialize_app_config_with_network;
use lutnet::utils::chunk_to_4bit;
use lutnet::utils::chunk_to_6bit;
use lutnet::utils::chunk_to_8bit;
use lutnet::utils::count_correct;
use lutnet::utils::get_ix;
use lutnet::utils::luts_from_chunk;

fn cfg_with_embedding(embedding: Vec<usize>) -> Configuration {
    let data = Data {
        dim1: 1,
        dim2: 8,
        dim3: 1,
        train_filepath: String::from("train.csv"),
        test_filepath: String::from("test.csv"),
        datasplit: DataSplit::Train(4),
        batch_size: 1,
    };
    let network = Network { output_embedding: embedding, layer_sizes: vec![8], lut_bank_size: 0 };
    initialize_app_config_with_network(Settings { data, network }, None)
}

#[test]
fn accuracy_calculation_works_correctly() {
    let test_cases: Vec<(Vec<u8>, Vec<u8>, f32, &str)> = vec![
        (
            vec![1, 2, 3, 4, 5],
            vec![1, 2, 3, 4, 5],
            1.0,
            "all predictions correct",
        ),
        (
            vec![1, 2, 3, 4, 5],
            vec![0, 0, 0, 0, 0],
            0.0,
            "no predictions correct",
        ),
        (
            vec![1, 2, 3, 4],
            vec![1, 0, 3, 0],
            0.5,
            "half predictions correct",
        ),
        (
            vec![1, 0, 1, 1, 0, 1],
            vec![1, 1, 0, 1, 0, 0],
            0.5,
            "some predictions correct",
        ),
        (vec![], vec![], 0.0, "empty input"),
    ];

    for (y, predicted, expected, description) in test_cases {
        let accuracy = if y.is_empty() {
            0.0
        } else {
            count_correct(&y, &predicted) as f32 / y.len() as f32
        };
        assert_eq!(accuracy, expected, "Failed on test case: '{}'", description);
    }
}

#[test]
fn get_ix_finds_first_matching_row() {
    let cfg = cfg_with_embedding(vec![51, 15, 77, 51]);
    assert_eq!(get_ix(&cfg, 51), Some(0));
    assert_eq!(get_ix(&cfg, 77), Some(2));
    assert_eq!(get_ix(&cfg, 9), None);
}

#[test]
fn chunk_splitters_cut_exact_fields() {
    let chunk: u64 = 0xfedc_ba98_7654_3210;
    let quads = chunk_to_4bit(chunk);
    assert_eq!(quads.len(), 16);
    for i in 0..16 {
        assert_eq!(quads[i], i as u8);
    }
    let bytes = chunk_to_8bit(chunk);
    assert_eq!(bytes, vec![0x10, 0x32, 0x54, 0x76, 0x98, 0xba, 0xdc, 0xfe]);
    let sixes = chunk_to_6bit(chunk);
    assert_eq!(sixes.len(), 10);
    assert_eq!(sixes[0], 0x10);
    for &v in sixes.iter() {
        assert!(v < 64);
    }
}

#[test]
fn lut_selection_follows_chunk_fields() {
    let bank16: Vec<u64> = (0..16u64).map(|k| 1000 + k).collect();
    let picks = luts_from_chunk(&bank16, 0xfedc_ba98_7654_3210);
    assert_eq!(picks.len(), 16);
    for i in 0..16 {
        assert_eq!(picks[i], 1000 + i as u64);
    }
    let bank256: Vec<u64> = (0..256u64).map(|k| 2000 + k).collect();
    let picks8 = luts_from_chunk(&bank256, 0x0102_0304_0506_0708);
    assert_eq!(
        picks8,
        vec![2008, 2007, 2006, 2005, 2004, 2003, 2002, 2001]
    );
}

#[test]
fn derived_values_match_closed_forms() {
    let data = Data {
        dim1: 2,
        dim2: 3,
        dim3: 4,
        train_filepath: String::from("train.csv"),
        test_filepath: String::from("test.csv"),
        datasplit: DataSplit::Val(10),
        batch_size: 5,
    };
    let network = Network {
        output_embedding: vec![1, 2],
        layer_sizes: vec![7, 3, 2],
        lut_bank_size: 0,
    };
    let d = DerivedValues::new(&data, &network);
    assert_eq!(d.rows, 10);
    assert_eq!(d.cols, 12);
    assert_eq!(d.img_bitcount, 24);
    assert_eq!(d.data_bitcount, 240);
    assert_eq!(d.num_layers, 3);
    assert_eq!(d.num_edges, 4);
    assert_eq!(d.layer_edges, vec![0, 7, 10, 12]);
    assert_eq!(d.network_size, 12);
    assert_eq!(d.bitvec_size, 5 * 36);
    assert_eq!(d.bitvec_edges, vec![0, 35, 50, 60]);
    assert_eq!(d.batch_bitcount, 120);
    assert_eq!(d.num_batches, 2);
    assert_eq!(d.output_bitsize, 2);
}
