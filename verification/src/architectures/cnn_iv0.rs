//! Parameter record of one convolution-inspired architecture: the network
//! shape plus the per-layer span details its wiring is generated from.

use vstd::prelude::*;

use crate::settings::Configuration;
use crate::settings::Data;
use crate::settings::Network;
use crate::settings::Settings;
use crate::settings::derived_ok;
use crate::settings::initialize_app_config_with_network;
use crate::settings::sum_of;

verus! {

/// Shape and span parameters of this architecture.
pub struct Ci0Settings {
    pub output_embedding: Vec<usize>,
    pub layer_sizes: Vec<usize>,
    pub lut_bank_size: usize,
    pub layer_span_details: Vec<((usize, usize, usize), (usize, usize, usize))>,
}

/// The run configuration aligned to this architecture's network shape, for
/// already-loaded data settings.
pub fn get_aligned_cfg(ci_cfg: &Ci0Settings, data: Data) -> (r: Configuration)
    requires
        ci_cfg.layer_sizes@.len() > 0,
        ci_cfg.layer_sizes@.len() < usize::MAX,
        data.batch_size > 0,
        data.dim1 >= 1 && data.dim2 >= 1 && data.dim3 >= 1,
        data.dim1 * data.dim2 * data.dim3 <= usize::MAX,
        data.datasplit.spec_rows() * (data.dim1 * data.dim2 * data.dim3) <= usize::MAX,
        data.batch_size * (data.dim1 * data.dim2 * data.dim3 + sum_of(ci_cfg.layer_sizes@))
            <= usize::MAX,
    ensures
        r.data == data,
        r.network.output_embedding@ == ci_cfg.output_embedding@,
        r.network.layer_sizes@ == ci_cfg.layer_sizes@,
        r.network.lut_bank_size == ci_cfg.lut_bank_size,
        derived_ok(r.data, r.network, r.derived),
{
    let network = Network {
        output_embedding: crate::architectures::copy_usizes(&ci_cfg.output_embedding),
        layer_sizes: crate::architectures::copy_usizes(&ci_cfg.layer_sizes),
        lut_bank_size: ci_cfg.lut_bank_size,
    };
    let settings = Settings { data, network: Network {
        output_embedding: Vec::new(),
        layer_sizes: Vec::new(),
        lut_bank_size: 0,
    } };
    initialize_app_config_with_network(settings, Some(network))
}

} // verus!
