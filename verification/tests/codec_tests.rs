use lutnet::codec::SnapshotError;
use lutnet::codec::decode_topology;
use lutnet::codec::encode_topology;
use lutnet::netcore::LUTNet;
use lutnet::netcore::Node;

fn sample_net(bank: Option<Vec<u64>>) -> LUTNet {
    LUTNet::new(
        vec![
            Node { lut: 0x0123_4567_89ab_cdef, indices: [0, 1, 2, 3, 4, 5] },
            Node { lut: u64::MAX, indices: [5, 4, 3, 2, 1, 0] },
            Node { lut: 0, indices: [8, 9, 8, 9, 8, 9] },
        ],
        8,
        vec![0, 2, 3],
        bank,
        vec![51, 204],
    )
}

#[test]
fn snapshot_round_trips_bit_for_bit() {
    for bank in [None, Some(vec![7u64, 9u64, 0xffff_0000_ffff_0000])] {
        let net = sample_net(bank);
        let bytes = encode_topology(&net);
        let back = decode_topology(&bytes).expect("own snapshot decodes");
        assert_eq!(back.input_size_in_bits, net.input_size_in_bits);
        assert_eq!(back.layer_edges, net.layer_edges);
        assert_eq!(back.lut_bank, net.lut_bank);
        assert_eq!(back.output_embedding, net.output_embedding);
        assert_eq!(back.nodes.len(), net.nodes.len());
        for (a, b) in back.nodes.iter().zip(net.nodes.iter()) {
            assert_eq!(a.lut, b.lut);
            assert_eq!(a.indices, b.indices);
        }
        // Re-encoding reproduces the snapshot bit for bit.
        assert_eq!(encode_topology(&back), bytes);
    }
}

#[test]
fn malformed_snapshots_fail_fast() {
    let net = sample_net(None);
    let bytes = encode_topology(&net);

    let mut truncated = bytes.clone();
    truncated.pop();
    assert!(decode_topology(&truncated).is_err());

    let mut trailing = bytes.clone();
    trailing.push(0);
    assert!(matches!(decode_topology(&trailing), Err(SnapshotError::TrailingBytes)));

    assert!(matches!(decode_topology(&vec![1, 2, 3]), Err(SnapshotError::Truncated)));

    // A bank flag other than 0 or 1 is rejected.
    let with_bank = encode_topology(&sample_net(Some(vec![3])));
    let flag_pos = 16 + 3 * 56 + 8 + 3 * 8;
    let mut bad_flag = with_bank.clone();
    bad_flag[flag_pos] = 2;
    assert!(matches!(decode_topology(&bad_flag), Err(SnapshotError::BadBankFlag)));
}
