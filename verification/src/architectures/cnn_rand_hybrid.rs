//! Parameter record of the hybrid architecture: span details for the
//! convolution-style layers, then the layer sizes the random part fills.

use vstd::prelude::*;

verus! {

/// Span and shape parameters of the hybrid architecture.
pub struct CiSettings {
    pub layer_span_details: Vec<((usize, usize, usize), (usize, usize, usize))>,
    pub layer_sizes: Vec<usize>,
}

} // verus!
