//! A bit-sliced membership index: for many sets ("accessions") of string
//! elements it answers which accessions may contain a given element, with
//! false positives possible and false negatives impossible.

use vstd::prelude::*;

pub mod bits;
pub mod hashing;
pub mod index;
pub mod laws;

pub use index::Bigsi;

verus! {

} // verus!
