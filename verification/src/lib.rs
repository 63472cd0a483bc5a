//! Rule-based port automata for Reo-style protocols, with verified
//! rule algebra (application, composition, merging), projection onto
//! a set of atomic ports, and supporting port and token machinery.

pub mod var;
mod var_store;
pub mod state_set;
pub mod ordering;
pub mod rule;
pub mod rbpa;
pub mod port_set;
pub mod laws;
mod random;
pub mod pair_test;
pub mod tokens;
pub mod ports;
pub mod helper;
pub mod proto;
pub mod acquire;
pub mod acquire_group;
pub mod claim;
pub mod text;
pub mod elimination;

use vstd::prelude::*;

verus! {

/// Generalizes over port and memory cell "name".
pub type LocId = usize;
/// Index of a rule within a protocol.
pub type RuleId = usize;
/// Name of a port.
pub type PortId = usize;
/// Identifier of a protocol rule that an abstract rule stands for.
pub type AbstractRuleId = usize;

} // verus!
