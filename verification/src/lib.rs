//! Deterministic per-line importance: the verified core.

use vstd::prelude::*;

pub mod artifact;
pub mod ascending;
pub mod blend;
pub mod calibration;
pub mod components;
pub mod confluence;
pub mod denylist;
pub mod dependence;
pub mod dominance;
pub mod filescope;
pub mod flow;
pub mod graph;
pub mod importance;
pub mod ir;
pub mod js;
pub mod jvm;
pub mod mutant;
pub mod pivot;
pub mod projection;
pub mod ranks;
pub mod rs;
pub mod search;
pub mod strahler;
pub mod text;
pub mod textmut;
pub mod tier_laws;
pub mod tiering;
pub mod trophic;
pub mod ts;

verus! {

} // verus!
