//! Architecture selection: a closed set of topology kinds, each carrying
//! its own parameter record, matched exhaustively by the provider that
//! wires up initial connectivity. The wiring itself draws random tables
//! and lives with the caller; these are the shapes it builds from.

pub mod cnn_iv0;
pub mod cnn_iv1;
pub mod cnn_iv2;
pub mod cnn_iv3;
pub mod cnn_rand_hybrid;

use vstd::prelude::*;

verus! {

/// The closed set of architecture kinds, each with its parameter record.
pub enum Architecture {
    CnnIv0(cnn_iv0::Ci0Settings),
    CnnIv1(cnn_iv1::Ci1Settings),
    CnnIv2(cnn_iv2::Ci2Settings),
    CnnIv3(cnn_iv3::Ci3Settings),
    Random,
}

/// An element-for-element copy of a size vector.
pub fn copy_usizes(v: &Vec<usize>) -> (r: Vec<usize>)
    ensures
        r@ == v@,
{
    let mut out: Vec<usize> = Vec::new();
    let mut i: usize = 0;
    while i < v.len()
        invariant
            i <= v@.len(),
            out@ == v@.take(i as int),
        decreases v@.len() - i,
    {
        out.push(v[i]);
        proof {
            assert(out@ =~= v@.take(i + 1));
        }
        i = i + 1;
    }
    proof {
        assert(v@.take(v@.len() as int) =~= v@);
    }
    out
}

} // verus!
