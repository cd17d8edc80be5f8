use lutnet::bitbuf::BitBuf;
use lutnet::processing::count_ones;
use lutnet::processing::get_labels;
use lutnet::processing::get_loss;
use lutnet::processing::get_loss_vec;
use lutnet::processing::get_predicted_embedding;
use lutnet::settings::Configuration;
use lutnet::settings::Data;
use lutnet::settings::DataSplit;
use lutnet::settings::Network;
use lutnet::settings::Settings;
use lutnet::settings::initialize_app_config_with_network;

fn label_cfg() -> Configuration {
    let data = Data {
        dim1: 8,
        dim2: 28,
        dim3: 28,
        train_filepath: String::from("mnist_train.csv"),
        test_filepath: String::from("mnist_test.csv"),
        datasplit: DataSplit::Train(1000),
        batch_size: 3,
    };
    let network = Network {
        output_embedding: vec![51, 15, 77, 85, 240, 170, 153, 204, 102, 210],
        layer_sizes: vec![64, 8],
        lut_bank_size: 0,
    };
    initialize_app_config_with_network(Settings { data, network }, None)
}

fn write_byte_bits(buf: &mut BitBuf, start: usize, value: u8) {
    for b in 0..8 {
        buf.set(start + b, ((value >> (7 - b)) & 1) != 0);
    }
}

#[test]
fn labels_fetched_correctly() {
    let cfg = label_cfg();
    let mut dbv = BitBuf::repeat(false, cfg.derived.bitvec_size);

    // The network's predicted raw output bytes for our batch of 3.
    // Item 1: `50` -> Closest to `51` (label 0). Hamming distance is 1.
    // Item 2: `77` -> Perfect match for label 2.
    // Item 3: `102`-> Perfect match for label 8.
    let predicted_outputs: [u8; 3] = [50, 77, 102];
    let output_start_index = cfg.derived.bitvec_size - cfg.data.batch_size * 8;
    for (k, &v) in predicted_outputs.iter().enumerate() {
        write_byte_bits(&mut dbv, output_start_index + 8 * k, v);
    }
    let expected_labels = vec![0, 2, 8];
    let actual_labels = get_labels(&cfg, &dbv);
    assert_eq!(
        expected_labels, actual_labels,
        "The decoded labels did not match the expected labels."
    );
}

#[test]
fn loss_calculation_test() {
    let cfg = label_cfg();
    let mut dbv = BitBuf::repeat(false, cfg.derived.bitvec_size);

    let predicted_outputs: [u8; 3] = [50, 77, 105];
    let true_labels: Vec<usize> = vec![0, 2, 8];
    let output_start_index = cfg.derived.bitvec_size - cfg.data.batch_size * 8;
    for (k, &v) in predicted_outputs.iter().enumerate() {
        write_byte_bits(&mut dbv, output_start_index + 8 * k, v);
    }

    let loss_byte_1: u8 = 51 ^ 50; // 0b00000001 (1)
    let loss_byte_2: u8 = 77 ^ 77; // 0b00000000 (0)
    let loss_byte_3: u8 = 102 ^ 105; // 0b00001111 (15)

    let actual_loss_vec = get_loss_vec(&cfg, &dbv, &true_labels);
    assert_eq!(count_ones(&actual_loss_vec), 5);
    let expected = [loss_byte_1, loss_byte_2, loss_byte_3];
    for (k, &v) in expected.iter().enumerate() {
        for b in 0..8 {
            assert_eq!(
                actual_loss_vec.get(8 * k + b),
                ((v >> (7 - b)) & 1) != 0,
                "The calculated loss vector did not match the expected XOR result."
            );
        }
    }
    assert_eq!(get_loss(&cfg, &dbv, &true_labels), 5);
}

#[test]
fn predicted_embedding_reads_output_bytes() {
    let cfg = label_cfg();
    let mut dbv = BitBuf::repeat(false, cfg.derived.bitvec_size);
    let bytes: [u8; 3] = [0b1010_0001, 0, 255];
    let output_start_index = cfg.derived.bitvec_size - cfg.data.batch_size * 8;
    for (k, &v) in bytes.iter().enumerate() {
        write_byte_bits(&mut dbv, output_start_index + 8 * k, v);
    }
    assert_eq!(get_predicted_embedding(&cfg, &dbv), vec![0b1010_0001, 0, 255]);
}

#[test]
fn label_decode_breaks_ties_by_first_occurrence() {
    // Two rows at equal distance: the earlier one wins, and repeated calls
    // agree.
    let data = Data {
        dim1: 1,
        dim2: 8,
        dim3: 1,
        train_filepath: String::from("train.csv"),
        test_filepath: String::from("test.csv"),
        datasplit: DataSplit::Train(4),
        batch_size: 1,
    };
    let network = Network {
        output_embedding: vec![0b0000_0001, 0b0000_0010],
        layer_sizes: vec![8],
        lut_bank_size: 0,
    };
    let cfg = initialize_app_config_with_network(Settings { data, network }, None);
    let mut dbv = BitBuf::repeat(false, cfg.derived.bitvec_size);
    // Observed 0: distance 1 to both rows.
    let first = get_labels(&cfg, &dbv);
    let second = get_labels(&cfg, &dbv);
    assert_eq!(first, vec![0]);
    assert_eq!(first, second);
}
