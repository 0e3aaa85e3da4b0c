//! Classes of checks, each named in snake case.
use vstd::prelude::*;

verus! {

/// The class of a check, which decides how its outcome is reported.
#[derive(Debug, Clone, Copy, PartialEq, Eq, Structural)]
pub enum PropertyClass {
    /// Overflow panics of arithmetic intrinsics.
    ArithmeticOverflow,
    /// An assumption of the program, checked as an assertion.
    Assume,
    /// A cover check: failing means reachable.
    Cover,
    /// A check added for code coverage.
    CodeCoverage,
    /// An ordinary assertion or panic.
    Assertion,
    /// An exact division check.
    ExactDiv,
    /// A finiteness check.
    FiniteCheck,
    /// Whether a property is reachable.
    ReachabilityCheck,
    /// A safety condition.
    SafetyCheck,
    /// A check of the generated code itself.
    SanityCheck,
    /// A reachable construct that is not supported.
    UnsupportedConstruct,
    /// Code that is considered unreachable.
    Unreachable,
}

impl PropertyClass {
    /// The snake-case name of this class.
    pub open spec fn name(&self) -> Seq<char> {
        match self {
            PropertyClass::ArithmeticOverflow => "arithmetic_overflow"@,
            PropertyClass::Assume => "assume"@,
            PropertyClass::Cover => "cover"@,
            PropertyClass::CodeCoverage => "code_coverage"@,
            PropertyClass::Assertion => "assertion"@,
            PropertyClass::ExactDiv => "exact_div"@,
            PropertyClass::FiniteCheck => "finite_check"@,
            PropertyClass::ReachabilityCheck => "reachability_check"@,
            PropertyClass::SafetyCheck => "safety_check"@,
            PropertyClass::SanityCheck => "sanity_check"@,
            PropertyClass::UnsupportedConstruct => "unsupported_construct"@,
            PropertyClass::Unreachable => "unreachable"@,
        }
    }

    /// The snake-case name of this class.
    pub fn as_str(&self) -> (r: &str)
        ensures
            r@ == self.name(),
    {
        match self {
            PropertyClass::ArithmeticOverflow => "arithmetic_overflow",
            PropertyClass::Assume => "assume",
            PropertyClass::Cover => "cover",
            PropertyClass::CodeCoverage => "code_coverage",
            PropertyClass::Assertion => "assertion",
            PropertyClass::ExactDiv => "exact_div",
            PropertyClass::FiniteCheck => "finite_check",
            PropertyClass::ReachabilityCheck => "reachability_check",
            PropertyClass::SafetyCheck => "safety_check",
            PropertyClass::SanityCheck => "sanity_check",
            PropertyClass::UnsupportedConstruct => "unsupported_construct",
            PropertyClass::Unreachable => "unreachable",
        }
    }
}

} // verus!
