use morfeusz::{
    CaseHandling, Charset, Morfeusz, MorfeuszUsage, TokenNumbering, WhitespaceHandling,
    ANALYSE_ONLY, APPEND_WHITESPACES, BOTH_ANALYSE_AND_GENERATE, CONDITIONALLY_CASE_SENSITIVE,
    CONTINUOUS_NUMBERING, CP1250, CP852, GENERATE_ONLY, IGNORE_CASE, ISO8859_2, KEEP_WHITESPACES,
    SEPARATE_NUMBERING, SKIP_WHITESPACES, STRICTLY_CASE_SENSITIVE, UTF8,
};

#[test]
fn legacy_static_metadata_matches_cpp_api_contract() {
    assert_eq!(Morfeusz::version(), "1.99.15");
    assert_eq!(Morfeusz::default_dict_name(), "sgjp");
    assert!(Morfeusz::copyright().starts_with("Copyright © 2014–2021"));
}

#[test]
fn cxx_named_constants_match_legacy_header_values() {
    assert_eq!(UTF8, Charset::Utf8);
    assert_eq!(UTF8.code(), 11);
    assert_eq!(ISO8859_2.code(), 12);
    assert_eq!(CP1250.code(), 13);
    assert_eq!(CP852.code(), 14);

    assert_eq!(
        CONDITIONALLY_CASE_SENSITIVE,
        CaseHandling::ConditionallyCaseSensitive
    );
    assert_eq!(CONDITIONALLY_CASE_SENSITIVE.code(), 100);
    assert_eq!(STRICTLY_CASE_SENSITIVE.code(), 101);
    assert_eq!(IGNORE_CASE.code(), 102);

    assert_eq!(SEPARATE_NUMBERING, TokenNumbering::Separate);
    assert_eq!(SEPARATE_NUMBERING.code(), 201);
    assert_eq!(CONTINUOUS_NUMBERING.code(), 202);

    assert_eq!(SKIP_WHITESPACES, WhitespaceHandling::Skip);
    assert_eq!(SKIP_WHITESPACES.code(), 301);
    assert_eq!(APPEND_WHITESPACES.code(), 302);
    assert_eq!(KEEP_WHITESPACES.code(), 303);

    assert_eq!(ANALYSE_ONLY, MorfeuszUsage::AnalyseOnly);
    assert_eq!(ANALYSE_ONLY.code(), 401);
    assert_eq!(GENERATE_ONLY.code(), 402);
    assert_eq!(BOTH_ANALYSE_AND_GENERATE.code(), 403);
}
