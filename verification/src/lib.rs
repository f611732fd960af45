pub mod data_store;
pub mod primitives;
pub mod selection;
pub mod service;
pub mod util;

use vstd::prelude::*;

verus! {

/// A hash value: `0x` followed by 64 lowercase hex digits of a SHA-256 digest.
pub type Hash = String;

} // verus!
