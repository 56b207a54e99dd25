//! Broadcasting simulated transactions in a safe order, and naming deployed
//! contracts by the similarity of their runtime bytecode.
use vstd::prelude::*;

pub mod broadcaster;
pub mod bytecode;

verus! {

/// A 20-byte account address.
pub type Address = [u8; 20];

} // verus!
