//! Configuration for a LUT-gate network run: raw data shape, network shape,
//! and the sizing values derived from them.
//!
//! The configuration is an explicit value, constructed once at startup and
//! passed by reference to every component.

use vstd::prelude::*;

verus! {

/// Which split of the data set is read, and how many rows of it.
pub enum DataSplit {
    Train(u32),
    Val(u32),
    Test(u32),
}

impl DataSplit {
    /// The number of rows this split loads.
    pub open spec fn spec_rows(self) -> int {
        match self {
            DataSplit::Train(r) => r as int,
            DataSplit::Val(r) => r as int,
            DataSplit::Test(r) => r as int,
        }
    }

    pub fn rows(&self) -> (r: usize)
        ensures
            r == self.spec_rows(),
    {
        match self {
            DataSplit::Train(r) => *r as usize,
            DataSplit::Val(r) => *r as usize,
            DataSplit::Test(r) => *r as usize,
        }
    }
}

/// Shape of the raw input data: bits per pixel and the two image dimensions,
/// where the files live, which split is used, and the batch size.
pub struct Data {
    pub dim1: usize,
    pub dim2: usize,
    pub dim3: usize,
    pub train_filepath: String,
    pub test_filepath: String,
    pub datasplit: DataSplit,
    pub batch_size: usize,
}

/// Shape of the network: the per-layer node counts, the class embedding
/// table, and the size of the optional LUT bank.
pub struct Network {
    pub output_embedding: Vec<usize>,
    pub layer_sizes: Vec<usize>,
    pub lut_bank_size: usize,
}

/// Sum of a sequence of sizes.
pub open spec fn sum_of(s: Seq<usize>) -> int
    decreases s.len(),
{
    if s.len() == 0 {
        0
    } else {
        sum_of(s.drop_last()) + s.last()
    }
}

/// The layer boundary at index `i`: total node count of the layers before
/// layer `i`.
pub open spec fn edge_at(sizes: Seq<usize>, i: int) -> int {
    sum_of(sizes.take(i))
}

/// Every prefix sum is bounded by the total when all entries are nonnegative
/// (they are, being `usize`).
pub proof fn lemma_sum_take_le(s: Seq<usize>, i: int)
    requires
        0 <= i <= s.len(),
    ensures
        sum_of(s.take(i)) <= sum_of(s),
        sum_of(s.take(i)) >= 0,
    decreases s.len() - i,
{
    lemma_sum_nonneg(s.take(i));
    if i == s.len() {
        assert(s.take(i) =~= s);
    } else {
        lemma_sum_take_le(s, i + 1);
        assert(s.take(i + 1).drop_last() =~= s.take(i));
        assert(sum_of(s.take(i + 1)) == sum_of(s.take(i)) + s[i]);
    }
}

/// The zeroth boundary is zero.
pub proof fn lemma_edge_zero(s: Seq<usize>)
    ensures
        edge_at(s, 0) == 0,
{
    assert(s.take(0) =~= Seq::<usize>::empty());
}

/// One more layer moves the boundary by exactly that layer's size.
pub proof fn lemma_edge_succ(s: Seq<usize>, i: int)
    requires
        0 <= i < s.len(),
    ensures
        edge_at(s, i + 1) == edge_at(s, i) + s[i],
{
    assert(s.take(i + 1).drop_last() =~= s.take(i));
}

pub proof fn lemma_sum_nonneg(s: Seq<usize>)
    ensures
        sum_of(s) >= 0,
    decreases s.len(),
{
    if s.len() > 0 {
        lemma_sum_nonneg(s.drop_last());
    }
}

/// Values computed once from `Data` and `Network`, used by every traversal
/// and evaluation routine.
pub struct DerivedValues {
    pub rows: usize,
    pub cols: usize,
    pub img_bitcount: usize,
    pub data_bitcount: usize,
    pub num_layers: usize,
    pub num_edges: usize,
    pub layer_edges: Vec<usize>,
    pub network_size: usize,
    pub bitvec_size: usize,
    pub bitvec_edges: Vec<usize>,
    pub batch_bitcount: usize,
    pub num_batches: usize,
    pub output_bitsize: usize,
}

/// The derived values are exactly the closed forms computed from the data
/// and network shapes.
pub open spec fn derived_ok(data: Data, network: Network, d: DerivedValues) -> bool {
    let sizes = network.layer_sizes@;
    &&& d.rows == data.datasplit.spec_rows()
    &&& d.cols == data.dim2 * data.dim3
    &&& d.img_bitcount == data.dim1 * data.dim2 * data.dim3
    &&& d.data_bitcount == d.rows * d.img_bitcount
    &&& d.num_layers == sizes.len()
    &&& d.num_edges == sizes.len() + 1
    &&& d.layer_edges@.len() == sizes.len() + 1
    &&& (forall|i: int| 0 <= i <= sizes.len() ==> d.layer_edges@[i] == edge_at(sizes, i))
    &&& d.network_size == sum_of(sizes)
    &&& d.bitvec_size == data.batch_size * (d.img_bitcount + d.network_size)
    &&& d.bitvec_edges@.len() == sizes.len() + 1
    &&& (forall|i: int| 0 <= i <= sizes.len() ==> d.bitvec_edges@[i]
        == d.layer_edges@[i] * data.batch_size)
    &&& d.batch_bitcount == data.batch_size * d.img_bitcount
    &&& data.batch_size > 0 && d.num_batches == d.rows as int / data.batch_size as int
    &&& sizes.len() > 0 && d.output_bitsize == sizes.last()
}

impl DerivedValues {
    pub fn new(data: &Data, network: &Network) -> (r: DerivedValues)
        requires
            network.layer_sizes@.len() > 0,
            network.layer_sizes@.len() < usize::MAX,
            data.batch_size > 0,
            data.dim1 >= 1 && data.dim2 >= 1 && data.dim3 >= 1,
            data.dim1 * data.dim2 * data.dim3 <= usize::MAX,
            data.datasplit.spec_rows() * (data.dim1 * data.dim2 * data.dim3) <= usize::MAX,
            data.batch_size * (data.dim1 * data.dim2 * data.dim3 + sum_of(network.layer_sizes@))
                <= usize::MAX,
        ensures
            derived_ok(*data, *network, r),
    {
        let ghost sizes = network.layer_sizes@;
        let rows: usize = data.datasplit.rows();
        assert(data.dim2 * data.dim3 <= data.dim1 * data.dim2 * data.dim3 && data.dim1 * data.dim2
            <= data.dim1 * data.dim2 * data.dim3) by (nonlinear_arith)
            requires
                data.dim1 >= 1 && data.dim2 >= 1 && data.dim3 >= 1,
        ;
        let cols: usize = data.dim2 * data.dim3;
        let img_bitcount: usize = data.dim1 * data.dim2 * data.dim3;
        assert(rows * img_bitcount <= usize::MAX) by (nonlinear_arith)
            requires
                rows == data.datasplit.spec_rows(),
                img_bitcount == data.dim1 * data.dim2 * data.dim3,
                data.datasplit.spec_rows() * (data.dim1 * data.dim2 * data.dim3) <= usize::MAX,
        ;
        let data_bitcount: usize = rows * img_bitcount;
        let num_layers: usize = network.layer_sizes.len();
        proof {
            lemma_sum_nonneg(sizes);
            lemma_sum_take_le(sizes, num_layers as int);
        }
        let num_edges: usize = num_layers + 1;

        let mut layer_edges: Vec<usize> = Vec::new();
        layer_edges.push(0);
        let mut cumulative_sum: usize = 0;
        let mut k: usize = 0;
        while k < num_layers
            invariant
                num_layers == sizes.len(),
                sizes == network.layer_sizes@,
                0 <= k <= num_layers,
                layer_edges@.len() == k + 1,
                forall|i: int| 0 <= i <= k ==> layer_edges@[i] == edge_at(sizes, i),
                cumulative_sum == edge_at(sizes, k as int),
                data.batch_size * (img_bitcount + sum_of(sizes)) <= usize::MAX,
                data.batch_size > 0,
                img_bitcount == data.dim1 * data.dim2 * data.dim3,
            decreases num_layers - k,
        {
            proof {
                lemma_sum_take_le(sizes, k + 1);
                assert(sizes.take(k + 1).drop_last() =~= sizes.take(k as int));
                assert(edge_at(sizes, k + 1) == edge_at(sizes, k as int) + sizes[k as int]);
                assert(data.batch_size * (img_bitcount + sum_of(sizes)) >= img_bitcount + sum_of(
                    sizes,
                )) by (nonlinear_arith)
                    requires
                        data.batch_size >= 1,
                        img_bitcount + sum_of(sizes) >= 0,
                ;
            }
            cumulative_sum = cumulative_sum + network.layer_sizes[k];
            layer_edges.push(cumulative_sum);
            k = k + 1;
        }
        proof {
            assert(sizes.take(num_layers as int) =~= sizes);
        }
        let network_size: usize = cumulative_sum;
        proof {
            assert(network_size == sum_of(sizes));
            assert(img_bitcount + network_size <= usize::MAX) by (nonlinear_arith)
                requires
                    data.batch_size >= 1,
                    img_bitcount + network_size >= 0,
                    data.batch_size * (img_bitcount + network_size as int) <= usize::MAX,
            ;
        }
        let bitvec_size: usize = data.batch_size * (img_bitcount + network_size);

        let mut bitvec_edges: Vec<usize> = Vec::new();
        let mut k2: usize = 0;
        while k2 < num_edges
            invariant
                num_edges == num_layers + 1,
                num_layers == sizes.len(),
                layer_edges@.len() == num_edges,
                forall|i: int| 0 <= i < num_edges ==> layer_edges@[i] == edge_at(sizes, i),
                network_size == sum_of(sizes),
                0 <= k2 <= num_edges,
                bitvec_edges@.len() == k2,
                forall|i: int| 0 <= i < k2 ==> bitvec_edges@[i] == layer_edges@[i]
                    * data.batch_size,
                bitvec_size == data.batch_size * (img_bitcount + network_size),
                img_bitcount >= 0,
            decreases num_edges - k2,
        {
            proof {
                lemma_sum_take_le(sizes, k2 as int);
                assert(layer_edges@[k2 as int] == edge_at(sizes, k2 as int));
                assert(layer_edges@[k2 as int] * data.batch_size <= data.batch_size * (img_bitcount
                    + network_size as int)) by (nonlinear_arith)
                    requires
                        0 <= layer_edges@[k2 as int] <= img_bitcount + network_size,
                        data.batch_size >= 0,
                ;
            }
            let e: usize = layer_edges[k2] * data.batch_size;
            bitvec_edges.push(e);
            k2 = k2 + 1;
        }

        proof {
            assert(data.batch_size * img_bitcount <= data.batch_size * (img_bitcount
                + network_size as int)) by (nonlinear_arith)
                requires
                    data.batch_size >= 0,
                    network_size >= 0,
                    img_bitcount >= 0,
            ;
        }
        let batch_bitcount: usize = data.batch_size * img_bitcount;
        let num_batches: usize = rows / data.batch_size;
        let output_bitsize: usize = network.layer_sizes[num_layers - 1];
        proof {
            assert(sizes.last() == sizes[num_layers - 1]);
        }
        DerivedValues {
            rows,
            cols,
            img_bitcount,
            data_bitcount,
            num_layers,
            num_edges,
            layer_edges,
            network_size,
            bitvec_size,
            bitvec_edges,
            batch_bitcount,
            num_batches,
            output_bitsize,
        }
    }
}

/// The data and network shapes as read from an external settings source.
pub struct Settings {
    pub data: Data,
    pub network: Network,
}

/// A complete run configuration: the shapes plus everything derived from
/// them.
pub struct Configuration {
    pub data: Data,
    pub network: Network,
    pub derived: DerivedValues,
}

/// A configuration is well formed when its derived values agree with its
/// shapes and the shapes themselves make sense: at least one layer, no empty
/// layer, nonzero image dimensions, and a nonzero batch.
pub open spec fn cfg_wf(cfg: Configuration) -> bool {
    &&& derived_ok(cfg.data, cfg.network, cfg.derived)
    &&& cfg.network.layer_sizes@.len() > 0
    &&& (forall|i: int|
        0 <= i < cfg.network.layer_sizes@.len() ==> cfg.network.layer_sizes@[i] > 0)
    &&& cfg.data.batch_size > 0
    &&& cfg.derived.img_bitcount > 0
}

/// Builds the configuration from already-loaded settings, replacing the
/// network shape when an override is given. Reading the settings from disk
/// is the caller's business; this is the construction step alone.
pub fn initialize_app_config_with_network(settings: Settings, network: Option<Network>) -> (r:
    Configuration)
    requires
        ({
            let net = if network is Some {
                network->0
            } else {
                settings.network
            };
            &&& net.layer_sizes@.len() > 0
            &&& net.layer_sizes@.len() < usize::MAX
            &&& settings.data.batch_size > 0
            &&& settings.data.dim1 >= 1 && settings.data.dim2 >= 1 && settings.data.dim3 >= 1
            &&& settings.data.dim1 * settings.data.dim2 * settings.data.dim3 <= usize::MAX
            &&& settings.data.datasplit.spec_rows() * (settings.data.dim1 * settings.data.dim2
                * settings.data.dim3) <= usize::MAX
            &&& settings.data.batch_size * (settings.data.dim1 * settings.data.dim2
                * settings.data.dim3 + sum_of(net.layer_sizes@)) <= usize::MAX
        }),
    ensures
        r.data == settings.data,
        r.network == if network is Some {
            network->0
        } else {
            settings.network
        },
        derived_ok(r.data, r.network, r.derived),
{
    let net: Network = match network {
        Option::Some(n) => n,
        Option::None => settings.network,
    };
    let derived: DerivedValues = DerivedValues::new(&settings.data, &net);
    Configuration { data: settings.data, network: net, derived }
}

} // verus!
