//! Functions of the verification library that the compiler handles itself,
//! told apart by the marker text attached to them.
use crate::text::text_eq;
use vstd::prelude::*;

verus! {

/// A function whose body the compiler generates or models.
#[derive(Debug, Clone, Copy, PartialEq, Eq, Structural)]
pub enum KaniFunction {
    Model(KaniModel),
    Intrinsic(KaniIntrinsic),
}

/// Functions generated by the compiler.
#[derive(Debug, Clone, Copy, PartialEq, Eq, Structural)]
pub enum KaniIntrinsic {
    ValidValue,
    IsInitialized,
    CheckedAlignOf,
    CheckedSizeOf,
    SafetyCheck,
}

/// Functions that model runtime behaviour for instrumentation.
#[derive(Debug, Clone, Copy, PartialEq, Eq, Structural)]
pub enum KaniModel {
    IsStrPtrInitialized,
    IsSlicePtrInitialized,
    SizeOfVal,
    AlignOfVal,
    SizeOfDynObject,
    AlignOfDynObject,
    SizeOfSliceObject,
}

impl KaniIntrinsic {
    /// The marker text of this intrinsic.
    pub open spec fn marker(&self) -> Seq<char> {
        match self {
            KaniIntrinsic::ValidValue => "ValidValueIntrinsic"@,
            KaniIntrinsic::IsInitialized => "IsInitializedIntrinsic"@,
            KaniIntrinsic::CheckedAlignOf => "CheckedAlignOfIntrinsic"@,
            KaniIntrinsic::CheckedSizeOf => "CheckedSizeOfIntrinsic"@,
            KaniIntrinsic::SafetyCheck => "SafetyCheckIntrinsic"@,
        }
    }

    /// The marker text of this intrinsic.
    pub fn as_str(&self) -> (r: &'static str)
        ensures
            r@ == self.marker(),
    {
        match self {
            KaniIntrinsic::ValidValue => "ValidValueIntrinsic",
            KaniIntrinsic::IsInitialized => "IsInitializedIntrinsic",
            KaniIntrinsic::CheckedAlignOf => "CheckedAlignOfIntrinsic",
            KaniIntrinsic::CheckedSizeOf => "CheckedSizeOfIntrinsic",
            KaniIntrinsic::SafetyCheck => "SafetyCheckIntrinsic",
        }
    }

    /// The intrinsic whose marker is `value`, if any.
    pub fn from_marker(value: &str) -> (r: Option<KaniIntrinsic>)
        ensures
            r matches Some(k) ==> k.marker() == value@,
            r is None ==> forall|k: KaniIntrinsic| k.marker() != value@,
    {
        if text_eq(value, "ValidValueIntrinsic") {
            Some(KaniIntrinsic::ValidValue)
        } else if text_eq(value, "IsInitializedIntrinsic") {
            Some(KaniIntrinsic::IsInitialized)
        } else if text_eq(value, "CheckedAlignOfIntrinsic") {
            Some(KaniIntrinsic::CheckedAlignOf)
        } else if text_eq(value, "CheckedSizeOfIntrinsic") {
            Some(KaniIntrinsic::CheckedSizeOf)
        } else if text_eq(value, "SafetyCheckIntrinsic") {
            Some(KaniIntrinsic::SafetyCheck)
        } else {
            None
        }
    }
}

impl KaniModel {
    /// The marker text of this model.
    pub open spec fn marker(&self) -> Seq<char> {
        match self {
            KaniModel::IsStrPtrInitialized => "IsStrPtrInitializedModel"@,
            KaniModel::IsSlicePtrInitialized => "IsSlicePtrInitializedModel"@,
            KaniModel::SizeOfVal => "SizeOfValRawModel"@,
            KaniModel::AlignOfVal => "AlignOfValRawModel"@,
            KaniModel::SizeOfDynObject => "SizeOfDynObjectModel"@,
            KaniModel::AlignOfDynObject => "AlignOfDynObjectModel"@,
            KaniModel::SizeOfSliceObject => "SizeOfSliceObjectModel"@,
        }
    }

    /// The marker text of this model.
    pub fn as_str(&self) -> (r: &'static str)
        ensures
            r@ == self.marker(),
    {
        match self {
            KaniModel::IsStrPtrInitialized => "IsStrPtrInitializedModel",
            KaniModel::IsSlicePtrInitialized => "IsSlicePtrInitializedModel",
            KaniModel::SizeOfVal => "SizeOfValRawModel",
            KaniModel::AlignOfVal => "AlignOfValRawModel",
            KaniModel::SizeOfDynObject => "SizeOfDynObjectModel",
            KaniModel::AlignOfDynObject => "AlignOfDynObjectModel",
            KaniModel::SizeOfSliceObject => "SizeOfSliceObjectModel",
        }
    }

    /// The model whose marker is `value`, if any.
    pub fn from_marker(value: &str) -> (r: Option<KaniModel>)
        ensures
            r matches Some(k) ==> k.marker() == value@,
            r is None ==> forall|k: KaniModel| k.marker() != value@,
    {
        if text_eq(value, "IsStrPtrInitializedModel") {
            Some(KaniModel::IsStrPtrInitialized)
        } else if text_eq(value, "IsSlicePtrInitializedModel") {
            Some(KaniModel::IsSlicePtrInitialized)
        } else if text_eq(value, "SizeOfValRawModel") {
            Some(KaniModel::SizeOfVal)
        } else if text_eq(value, "AlignOfValRawModel") {
            Some(KaniModel::AlignOfVal)
        } else if text_eq(value, "SizeOfDynObjectModel") {
            Some(KaniModel::SizeOfDynObject)
        } else if text_eq(value, "AlignOfDynObjectModel") {
            Some(KaniModel::AlignOfDynObject)
        } else if text_eq(value, "SizeOfSliceObjectModel") {
            Some(KaniModel::SizeOfSliceObject)
        } else {
            None
        }
    }
}

impl KaniFunction {
    /// The function that a marker text names: an intrinsic first, then a
    /// model.
    pub fn from_marker(value: &str) -> (r: Option<KaniFunction>)
        ensures
            r matches Some(KaniFunction::Intrinsic(k)) ==> k.marker() == value@,
            r matches Some(KaniFunction::Model(m)) ==> m.marker() == value@,
            r is None ==> (forall|k: KaniIntrinsic| k.marker() != value@) && (forall|m: KaniModel|
                m.marker() != value@),
    {
        match KaniIntrinsic::from_marker(value) {
            Some(intrinsic) => Some(KaniFunction::Intrinsic(intrinsic)),
            None => match KaniModel::from_marker(value) {
                Some(model) => Some(KaniFunction::Model(model)),
                None => None,
            },
        }
    }
}

} // verus!
