//! Failures of resolution and graph building.
use vstd::prelude::*;

verus! {

/// Mathematical view of a [`CraftError`].
pub enum Fault {
    TagNotFound(Seq<char>),
    CyclicTag(Seq<char>),
    ZeroResultCount,
    PatternTooLarge,
    RatioOverflow,
}

/// Why a resolution, a load or a graph build failed.
#[derive(Debug, Clone)]
pub enum CraftError {
    /// A tag reference names no tag of the index.
    TagNotFound(String),
    /// A tag reaches itself through nested references.
    CyclicTag(String),
    /// A recipe declares a result count of zero.
    ZeroResultCount,
    /// A shaped recipe has more pattern cells than a count can hold.
    PatternTooLarge,
    /// A ratio no longer fits a 32-bit numerator and denominator.
    RatioOverflow,
}

impl View for CraftError {
    type V = Fault;

    open spec fn view(&self) -> Fault {
        match self {
            CraftError::TagNotFound(n) => Fault::TagNotFound(n@),
            CraftError::CyclicTag(n) => Fault::CyclicTag(n@),
            CraftError::ZeroResultCount => Fault::ZeroResultCount,
            CraftError::PatternTooLarge => Fault::PatternTooLarge,
            CraftError::RatioOverflow => Fault::RatioOverflow,
        }
    }
}

impl CraftError {
    /// A message naming the failure.
    pub fn message(&self) -> (r: String)
        ensures
            r@ == match self {
                CraftError::TagNotFound(n) => "tag not found: "@ + n@,
                CraftError::CyclicTag(n) => "cyclic tag reference: "@ + n@,
                CraftError::ZeroResultCount => "recipe result count is zero"@,
                CraftError::PatternTooLarge => "recipe pattern too large"@,
                CraftError::RatioOverflow => "ratio does not fit 32 bits"@,
            },
    {
        proof {
            reveal_strlit("tag not found: ");
            reveal_strlit("cyclic tag reference: ");
            reveal_strlit("recipe result count is zero");
            reveal_strlit("recipe pattern too large");
            reveal_strlit("ratio does not fit 32 bits");
        }
        match self {
            CraftError::TagNotFound(n) => String::from_str("tag not found: ").concat(n.as_str()),
            CraftError::CyclicTag(n) => String::from_str("cyclic tag reference: ").concat(
                n.as_str(),
            ),
            CraftError::ZeroResultCount => String::from_str("recipe result count is zero"),
            CraftError::PatternTooLarge => String::from_str("recipe pattern too large"),
            CraftError::RatioOverflow => String::from_str("ratio does not fit 32 bits"),
        }
    }
}

} // verus!
