use irep_binary::assertion_class::PropertyClass as CheckClass;
use irep_binary::install::InstallType;
use irep_binary::harness::{init_contracts, Config, InsertPosition, TestRunner, Unit};
use irep_binary::kani_functions::{KaniFunction, KaniIntrinsic, KaniModel};
use irep_binary::property_class::PropertyClass;
use irep_binary::symbol::SymbolFlags;
use irep_binary::ty_layout::{DataBytes, TypeLayout};

#[test]
fn property_class_names_round_trip() {
    for name in [
        "expect_fail",
        "unimplemented",
        "assert_false",
        "assume",
        "unreachable",
        "exact_div",
        "unsupported_struct",
        "assertion",
        "coverage_check",
        "sanity_check",
        "pointer_offset",
    ] {
        assert_eq!(PropertyClass::from_str(name).as_str(), name);
    }
    assert!(matches!(PropertyClass::from_str("coverage_check"), PropertyClass::Cover));
    match PropertyClass::from_str("my_property") {
        PropertyClass::CustomProperty(s) => assert_eq!(s, "my_property"),
        other => panic!("unexpected class {:?}", other),
    }
}

#[test]
fn check_class_names_are_snake_case() {
    assert_eq!(CheckClass::ArithmeticOverflow.as_str(), "arithmetic_overflow");
    assert_eq!(CheckClass::CodeCoverage.as_str(), "code_coverage");
    assert_eq!(CheckClass::UnsupportedConstruct.as_str(), "unsupported_construct");
}

#[test]
fn kani_function_markers() {
    assert_eq!(
        KaniFunction::from_marker("ValidValueIntrinsic"),
        Some(KaniFunction::Intrinsic(KaniIntrinsic::ValidValue))
    );
    assert_eq!(
        KaniFunction::from_marker("SizeOfValRawModel"),
        Some(KaniFunction::Model(KaniModel::SizeOfVal))
    );
    assert_eq!(KaniFunction::from_marker("SizeOfVal"), None);
    assert_eq!(KaniModel::AlignOfDynObject.as_str(), "AlignOfDynObjectModel");
    assert_eq!(KaniIntrinsic::SafetyCheck.as_str(), "SafetyCheckIntrinsic");
}

#[test]
fn small_items() {
    init_contracts();
    assert_eq!(TestRunner::new(Config {}), TestRunner::default());
    assert_ne!(InsertPosition::Before, InsertPosition::After);
    assert_eq!(Unit::Unit, Unit::Unit);
}

#[test]
fn flag_words_follow_bit_positions() {
    let mut flags = SymbolFlags::from_word(0);
    assert_eq!(flags.to_word(), 0);
    flags.is_extern = true;
    flags.is_auxiliary = true;
    assert_eq!(flags.to_word(), 0b1000_0010);
    let back = SymbolFlags::from_word(0x1_ffbf);
    assert!(back.is_weak && back.is_type && back.is_volatile && back.is_auxiliary);
    assert_eq!(back.to_word(), 0x1_ffbf);
}

#[test]
fn dev_repo_tool_locations() {
    let repo = InstallType::DevRepo("/work/rmc".to_string());
    assert_eq!(repo.rmc_rustc(), "/work/rmc/scripts/rmc-rustc");
    assert_eq!(repo.rmc_lib_c(), "/work/rmc/library/rmc/rmc_lib.c");
    let slash = InstallType::DevRepo("/work/rmc/".to_string());
    assert_eq!(slash.cbmc_json_parser_py(), "/work/rmc/scripts/cbmc_json_parser.py");
}

#[test]
fn byte_mask_marks_data_bytes() {
    let layout = TypeLayout {
        size_in_bytes: 8,
        data_chunks: vec![DataBytes { offset: 0, size: 2 }, DataBytes { offset: 4, size: 1 }, DataBytes { offset: 7, size: 5 }],
    };
    assert_eq!(
        layout.to_byte_mask(),
        vec![true, true, false, false, true, false, false, true]
    );
    let empty = TypeLayout { size_in_bytes: 3, data_chunks: vec![] };
    assert_eq!(empty.to_byte_mask(), vec![false, false, false]);
}
