//! A library for networks of 6-input boolean lookup-table (LUT) gates,
//! arranged in feed-forward layers and evaluated over whole batches of
//! packed bit images.
//!
//! The crate covers the packed-bit address translation and traversal order,
//! gate evaluation in its validated, fast, speculative-mutation and
//! speculative-corruption variants, the pivotal-node sensitivity tracker,
//! and label decoding with its loss.

pub mod architectures;
pub mod bitbuf;
pub mod codec;
pub mod iterators;
pub mod netcore;
pub mod perimage;
pub mod piv_select;
pub mod pivotal;
pub mod processing;
pub mod utils;
pub mod settings;

use vstd::prelude::*;

verus! {

} // verus!
