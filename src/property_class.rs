//! Classes of generated assertions, named by text.
use crate::text::text_eq;
use vstd::prelude::*;

verus! {

/// The class of an assertion, cover or assumption statement.
#[derive(Debug, Clone)]
pub enum PropertyClass {
    ExpectFail,
    Unimplemented,
    ExactDiv,
    SanityCheck,
    UnsupportedStructs,
    Unreachable,
    Cover,
    PointerOffset,
    AssertFalse,
    Assume,
    DefaultAssertion,
    CustomProperty(String),
}

/// The class named `t`, where `t` is the name of a class other than a custom
/// one.
pub open spec fn known_class(t: Seq<char>) -> Option<PropertyClass> {
    if t == "expect_fail"@ {
        Some(PropertyClass::ExpectFail)
    } else if t == "unimplemented"@ {
        Some(PropertyClass::Unimplemented)
    } else if t == "assert_false"@ {
        Some(PropertyClass::AssertFalse)
    } else if t == "assume"@ {
        Some(PropertyClass::Assume)
    } else if t == "unreachable"@ {
        Some(PropertyClass::Unreachable)
    } else if t == "exact_div"@ {
        Some(PropertyClass::ExactDiv)
    } else if t == "unsupported_struct"@ {
        Some(PropertyClass::UnsupportedStructs)
    } else if t == "assertion"@ {
        Some(PropertyClass::DefaultAssertion)
    } else if t == "coverage_check"@ {
        Some(PropertyClass::Cover)
    } else if t == "sanity_check"@ {
        Some(PropertyClass::SanityCheck)
    } else if t == "pointer_offset"@ {
        Some(PropertyClass::PointerOffset)
    } else {
        None
    }
}

impl PropertyClass {
    /// The name of this class.
    pub open spec fn name(&self) -> Seq<char> {
        match self {
            PropertyClass::ExpectFail => "expect_fail"@,
            PropertyClass::Unimplemented => "unimplemented"@,
            PropertyClass::AssertFalse => "assert_false"@,
            PropertyClass::Unreachable => "unreachable"@,
            PropertyClass::Assume => "assume"@,
            PropertyClass::ExactDiv => "exact_div"@,
            PropertyClass::Cover => "coverage_check"@,
            PropertyClass::SanityCheck => "sanity_check"@,
            PropertyClass::UnsupportedStructs => "unsupported_struct"@,
            PropertyClass::PointerOffset => "pointer_offset"@,
            PropertyClass::DefaultAssertion => "assertion"@,
            PropertyClass::CustomProperty(s) => s@,
        }
    }

    /// The name of this class.
    pub fn as_str(&self) -> (r: &str)
        ensures
            r@ == self.name(),
    {
        match self {
            PropertyClass::ExpectFail => "expect_fail",
            PropertyClass::Unimplemented => "unimplemented",
            PropertyClass::AssertFalse => "assert_false",
            PropertyClass::Unreachable => "unreachable",
            PropertyClass::Assume => "assume",
            PropertyClass::ExactDiv => "exact_div",
            PropertyClass::Cover => "coverage_check",
            PropertyClass::SanityCheck => "sanity_check",
            PropertyClass::UnsupportedStructs => "unsupported_struct",
            PropertyClass::PointerOffset => "pointer_offset",
            PropertyClass::DefaultAssertion => "assertion",
            PropertyClass::CustomProperty(property_string) => property_string.as_str(),
        }
    }

    /// The class named `input`; any other name is a custom class.
    pub fn from_str(input: &str) -> (r: PropertyClass)
        ensures
            known_class(input@) matches Some(c) ==> r == c,
            known_class(input@) is None ==> (r matches PropertyClass::CustomProperty(s) && s@
                == input@),
    {
        if text_eq(input, "expect_fail") {
            PropertyClass::ExpectFail
        } else if text_eq(input, "unimplemented") {
            PropertyClass::Unimplemented
        } else if text_eq(input, "assert_false") {
            PropertyClass::AssertFalse
        } else if text_eq(input, "assume") {
            PropertyClass::Assume
        } else if text_eq(input, "unreachable") {
            PropertyClass::Unreachable
        } else if text_eq(input, "exact_div") {
            PropertyClass::ExactDiv
        } else if text_eq(input, "unsupported_struct") {
            PropertyClass::UnsupportedStructs
        } else if text_eq(input, "assertion") {
            PropertyClass::DefaultAssertion
        } else if text_eq(input, "coverage_check") {
            PropertyClass::Cover
        } else if text_eq(input, "sanity_check") {
            PropertyClass::SanityCheck
        } else if text_eq(input, "pointer_offset") {
            PropertyClass::PointerOffset
        } else {
            PropertyClass::CustomProperty(input.to_owned())
        }
    }
}

} // verus!
