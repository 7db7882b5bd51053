//! IPv4 CIDR blocks and canonical CIDR sets.
//!
//! `Ipv4Cidr` is an aligned power-of-two-sized range of IPv4 addresses,
//! given as a base address and a mask length.  `Ipv4CidrList` keeps a
//! minimal, merged, non-overlapping collection of such blocks under
//! insertion and removal, and converts between blocks and raw address
//! ranges.

use vstd::prelude::*;

pub mod arith;
pub mod block;
pub mod canon;
pub mod list;
pub mod text;

pub use block::CidrError;
pub use block::Ipv4Cidr;
pub use list::Ipv4CidrList;

verus! {

} // verus!
