use lutnet::iterators::GateIterator;
use lutnet::iterators::LayerGateIterator;
use lutnet::iterators::SpanGenerator;
use lutnet::settings::Configuration;
use lutnet::settings::Data;
use lutnet::settings::DataSplit;
use lutnet::settings::Network;
use lutnet::settings::Settings;
use lutnet::settings::initialize_app_config_with_network;

fn test_cfg() -> Configuration {
    let data = Data {
        dim1: 8,
        dim2: 28,
        dim3: 28,
        train_filepath: String::from("mnist_train.csv"),
        test_filepath: String::from("mnist_test.csv"),
        datasplit: DataSplit::Train(1000),
        batch_size: 4,
    };
    let network = Network {
        output_embedding: vec![51, 15, 77, 85, 240, 170, 153, 204, 102, 210],
        layer_sizes: vec![100, 50, 10],
        lut_bank_size: 0,
    };
    initialize_app_config_with_network(Settings { data, network }, None)
}

#[test]
fn gate_iterator_test() {
    let cfg = test_cfg();

    let mut iterator = GateIterator::new(&cfg);
    let mut i: usize = 0;
    let mut val = iterator.next();
    assert_eq!(
        val,
        Some((0, 0, 0, cfg.derived.img_bitcount * cfg.data.batch_size, 0))
    );
    while val.is_some() {
        if i == cfg.derived.layer_edges[1] {
            assert_eq!(val.unwrap().2 + val.unwrap().1, 1);
            assert_eq!(val.unwrap().3, i + cfg.derived.batch_bitcount);
            assert_eq!(
                val.unwrap().4,
                cfg.derived.img_bitcount * std::cmp::min(1, cfg.data.batch_size - 1)
            );
        }
        if i == cfg.derived.layer_edges[2] * cfg.data.batch_size {
            assert_eq!(val.unwrap().3, i + cfg.derived.batch_bitcount);
            assert_eq!(
                val.unwrap().4,
                (cfg.derived.img_bitcount + cfg.network.layer_sizes[0])
                    * (cfg.data.batch_size - 1)
            );
        }
        if i == cfg.derived.layer_edges[3] * cfg.data.batch_size - 1 {
            assert_eq!(val.unwrap().3, i + cfg.derived.batch_bitcount);
            assert_eq!(
                val.unwrap().4,
                (cfg.derived.img_bitcount
                    + cfg.network.layer_sizes[0]
                    + cfg.network.layer_sizes[1])
                    * (cfg.data.batch_size - 1)
            );
        }
        i += 1;
        val = iterator.next();
    }
    assert_eq!(
        i,
        cfg.network.layer_sizes.iter().sum::<usize>() * cfg.data.batch_size
    );
}

#[test]
fn layer_gate_iterator_test() {
    let cfg = test_cfg();
    let mut iterator = LayerGateIterator::new(&cfg, 0);
    let mut i: usize = 0;
    let mut val = iterator.next();
    assert_eq!(
        val,
        Some((0, 0, 0, cfg.derived.img_bitcount * cfg.data.batch_size, 0))
    );
    while val.is_some() {
        if i == cfg.derived.layer_edges[1] {
            assert_eq!(val.unwrap().2 + val.unwrap().1, 1);
            assert_eq!(
                val.unwrap().4,
                cfg.derived.img_bitcount * std::cmp::min(1, cfg.data.batch_size - 1)
            );
        }
        i += 1;
        val = iterator.next();
    }
    assert_eq!(i, cfg.network.layer_sizes[0] * cfg.data.batch_size);

    let mut iterator = LayerGateIterator::new(&cfg, 2);
    let mut i: usize = 0;
    let mut val = iterator.next();
    assert_eq!(
        val,
        Some((
            cfg.network.layer_sizes[0] + cfg.network.layer_sizes[1],
            0,
            2,
            cfg.data.batch_size
                * (cfg.derived.img_bitcount
                    + cfg.network.layer_sizes[0]
                    + cfg.network.layer_sizes[1]),
            (cfg.data.batch_size - 1) * (cfg.derived.img_bitcount + cfg.network.layer_sizes[0])
        ))
    );
    while val.is_some() {
        if i == cfg.data.batch_size * cfg.network.layer_sizes[2] - 1 {
            assert_eq!(val.unwrap().2 + val.unwrap().1, 1 + cfg.data.batch_size);
            assert_eq!(
                val.unwrap().4,
                (cfg.derived.img_bitcount
                    + cfg.network.layer_sizes[0]
                    + cfg.network.layer_sizes[1])
                    * (cfg.data.batch_size - 1)
            );
        }
        i += 1;
        val = iterator.next();
    }
    assert_eq!(i, cfg.network.layer_sizes[2] * cfg.data.batch_size);
}

#[test]
fn gate_and_layergate_iterators_are_the_same() {
    let cfg = test_cfg();
    let mut layer: usize = 0;
    let mut iterator1 = GateIterator::new(&cfg);
    let mut iterator2 = LayerGateIterator::new(&cfg, layer);
    let mut val1 = iterator1.next();
    let mut val2 = iterator2.next();
    let mut count: usize = 0;
    while val1.is_some() {
        if layer != val1.unwrap().2 {
            layer = val1.unwrap().2;
            iterator2 = LayerGateIterator::new(&cfg, layer);
            val2 = iterator2.next();
        }
        while val2.is_some() {
            assert_eq!(val1, val2);
            val1 = iterator1.next();
            val2 = iterator2.next();
            count += 1;
        }
    }
    assert_eq!(
        count,
        cfg.network.layer_sizes.iter().sum::<usize>() * cfg.data.batch_size
    );
}

#[test]
fn span_generator_emits_shifted_windows() {
    // A 4 x 3 x 1 volume with a 3 x 2 x 1 window and hops of 1: the window
    // pattern is [0, 1, 2, 4, 5, 6] and it slides right then down.
    let mut sp = SpanGenerator::new(0, 4, 3, 1, 3, 2, 1, 1, 1, 1);
    assert_eq!(sp.len(), 4);
    assert_eq!(sp.next(), Some([0, 1, 2, 4, 5, 6]));
    assert_eq!(sp.next(), Some([1, 2, 3, 5, 6, 7]));
    assert_eq!(sp.next(), Some([4, 5, 6, 8, 9, 10]));
    assert_eq!(sp.next(), Some([5, 6, 7, 9, 10, 11]));
    assert_eq!(sp.next(), None);

    // An offset shifts every emitted address.
    let mut sp2 = SpanGenerator::new(100, 6, 1, 1, 6, 1, 1, 3, 1, 1);
    assert_eq!(sp2.next(), Some([100, 101, 102, 103, 104, 105]));
    assert_eq!(sp2.next(), None);
}
