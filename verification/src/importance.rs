//! Tiers, and the line spans that carry them.

use vstd::prelude::*;

use crate::ir::NodeId;

verus! {

/// How much a line matters. A stronger tier is greater.
#[derive(Debug, Clone, Copy, PartialEq, Eq, PartialOrd, Ord, Structural)]
pub enum Tier {
    /// Carries no behavior: feeds only calls known to be inert.
    Inert,
    /// Neither carries behavior nor makes it observable.
    Plumbing,
    /// Where behavior becomes observable: returns, throws, state writes,
    /// opaque calls.
    Boundary,
    /// Behavior-carrying.
    Core,
}

impl Tier {
    /// How strong the tier is.
    pub open spec fn strength(self) -> int {
        match self {
            Tier::Inert => 0,
            Tier::Plumbing => 1,
            Tier::Boundary => 2,
            Tier::Core => 3,
        }
    }

    /// The tier's name in the artifact.
    pub open spec fn text(self) -> Seq<char> {
        match self {
            Tier::Core => "core"@,
            Tier::Boundary => "boundary"@,
            Tier::Plumbing => "plumbing"@,
            Tier::Inert => "inert"@,
        }
    }

    /// The tier's name in the artifact.
    #[must_use]
    pub fn name(self) -> (r: &'static str)
        ensures
            r@ == self.text(),
    {
        match self {
            Tier::Core => "core",
            Tier::Boundary => "boundary",
            Tier::Plumbing => "plumbing",
            Tier::Inert => "inert",
        }
    }

    /// Whether this tier is stronger than another.
    pub fn stronger_than(self, other: Tier) -> (r: bool)
        ensures
            r == (self.strength() > other.strength()),
    {
        let rank = |t: Tier| -> (n: u8)
            ensures
                n == t.strength(),
            {
                match t {
                    Tier::Inert => 0u8,
                    Tier::Plumbing => 1u8,
                    Tier::Boundary => 2u8,
                    Tier::Core => 3u8,
                }
            };
        rank(self) > rank(other)
    }
}

/// The importance of one node.
#[derive(Debug, Clone, Copy)]
pub struct NodeImportance {
    /// Which node.
    pub node: NodeId,
    /// Its tier.
    pub tier: Tier,
}

/// A run of source lines with one tier and one score. Scores and ranks are in
/// hundredths: the score is a ranking signal, and two decimals are all the
/// artifact keeps of it.
#[derive(Debug, Clone)]
pub struct LineSpan {
    /// First line, inclusive, 1-based.
    pub start: u32,
    /// Last line, inclusive, 1-based.
    pub end: u32,
    /// The tier of every line of the run.
    pub tier: Tier,
    /// The score, in hundredths.
    pub score: i64,
    /// The percentile of the score within the function, in hundredths.
    pub rank: i64,
    /// Why the run got its tier.
    pub reasons: Vec<String>,
}

} // verus!
