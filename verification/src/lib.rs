//! A mesh overlay's control plane: AmneziaWG interfaces, BIRD routing, nftables rulesets, and the
//! generator that renders every node's configuration from one topology file.

use vstd::prelude::*;

pub mod assoc;
pub mod awg;
pub mod common;
pub mod lines;
pub mod nftables;
pub mod offset;
pub mod patches;
pub mod router;
pub mod taloscfg;
pub mod text;
pub mod value;
pub mod yaml;

verus! {

} // verus!
