use morfeusz::id_resolver::canonicalize_labels;
use morfeusz::repository::{
    binary_dictionary_usage, file_name_ends_with, join_path, parts_for_usage, BinaryDictionaryUsage,
};
use morfeusz::text::{decimal_string, i32_string};
use morfeusz::{
    Dictionary, DictionaryEntry, Error, IdResolver, Morfeusz, MorfeuszUsage, MorphInterpretation,
    NamedDictionaryPaths, ResultsIterator,
};

fn interp(orth: &str, start: i32) -> MorphInterpretation {
    let mut i = MorphInterpretation::default();
    i.orth = orth.to_owned();
    i.lemma = orth.to_owned();
    i.start_node = start;
    i.end_node = start + 1;
    i
}

#[test]
fn paths_join_as_path_join_does() {
    assert_eq!(join_path("dicts", "sgjp-a.dict"), "dicts/sgjp-a.dict");
    assert_eq!(join_path("dicts/", "sgjp-a.dict"), "dicts/sgjp-a.dict");
    assert_eq!(join_path("", "sgjp-a.dict"), "sgjp-a.dict");
    assert_eq!(join_path("dicts", "/abs/x.dict"), "/abs/x.dict");
}

#[test]
fn file_name_suffix_ignores_directories_and_trailing_slash() {
    assert!(file_name_ends_with("/data/sgjp-s.dict", "-s.dict"));
    assert!(file_name_ends_with("/data/sgjp-s.dict/", "-s.dict"));
    assert!(!file_name_ends_with("/data-s.dict/sgjp-a.dict", "-s.dict"));
    assert!(!file_name_ends_with("/data/..", "-s.dict"));
}

#[test]
fn dictionary_usage_follows_file_name_for_both() {
    assert_eq!(
        binary_dictionary_usage("dir/sgjp-s.dict", MorfeuszUsage::BothAnalyseAndGenerate),
        BinaryDictionaryUsage::Generator(MorfeuszUsage::GenerateOnly)
    );
    assert_eq!(
        binary_dictionary_usage("dir/sgjp-a.dict", MorfeuszUsage::BothAnalyseAndGenerate),
        BinaryDictionaryUsage::Analyzer(MorfeuszUsage::AnalyseOnly)
    );
    assert_eq!(
        binary_dictionary_usage("dir/sgjp-s.dict", MorfeuszUsage::AnalyseOnly),
        BinaryDictionaryUsage::Analyzer(MorfeuszUsage::AnalyseOnly)
    );
}

#[test]
fn missing_generator_part_is_not_found() {
    let paths = NamedDictionaryPaths { analyzer: Some("x-a.dict".to_owned()), generator: None };
    match parts_for_usage(paths, "sgjp", MorfeuszUsage::GenerateOnly) {
        Err(Error::NotFound(m)) => assert_eq!(m, "Failed to load generator dictionary \"sgjp\""),
        other => panic!("unexpected {other:?}"),
    }
    let paths = NamedDictionaryPaths { analyzer: Some("x-a.dict".to_owned()), generator: None };
    let kept = parts_for_usage(paths, "sgjp", MorfeuszUsage::AnalyseOnly).unwrap();
    assert_eq!(kept.analyzer.as_deref(), Some("x-a.dict"));
    assert_eq!(kept.generator, None);
}

#[test]
fn decimals_are_written_in_base_ten() {
    assert_eq!(decimal_string(0), "0");
    assert_eq!(decimal_string(1234), "1234");
    assert_eq!(i32_string(-42), "-42");
    assert_eq!(i32_string(i32::MIN), "-2147483648");
}

#[test]
fn labels_are_canonicalized() {
    assert_eq!(canonicalize_labels(" b | a |b"), "a|b");
    assert_eq!(canonicalize_labels(""), "_");
    assert_eq!(canonicalize_labels("_"), "_");
}

#[test]
fn lookup_returns_entries_in_insertion_order() {
    let mut dictionary = Dictionary::new(IdResolver::default());
    for (orth, lemma) in [("zamek", "zamek:s1"), ("zamka", "zamek:s1"), ("zamek", "zamek:s2")] {
        dictionary.insert(DictionaryEntry {
            orth: orth.to_owned(),
            lemma: lemma.to_owned(),
            tag_id: 0,
            name_id: 0,
            labels_id: 0,
        });
    }
    let found = dictionary.lookup("zamek").unwrap();
    assert_eq!(found.len(), 2);
    assert_eq!(found[0].lemma, "zamek:s1");
    assert_eq!(found[1].lemma, "zamek:s2");
    assert!(dictionary.lookup("zamki").is_none());
    assert_eq!(dictionary.generate("zamek").unwrap().len(), 3);
}

#[test]
fn results_iterator_yields_in_order_then_fails() {
    let mut iterator = ResultsIterator::new(vec![interp("a", 0), interp("b", 1)]);
    assert!(iterator.has_next());
    assert_eq!(iterator.peek().unwrap().orth, "a");
    assert_eq!(iterator.next_result().unwrap().orth, "a");
    assert_eq!(iterator.next_result().unwrap().orth, "b");
    assert!(!iterator.has_next());
    match iterator.next_result() {
        Err(Error::OutOfRange(m)) => assert_eq!(m, "No more interpretations available to ResultsIterator"),
        other => panic!("unexpected {other:?}"),
    }
}

#[test]
fn usage_restricts_analysis_and_generation() {
    let mut generator_only = Morfeusz::with_dictionary(Dictionary::empty(), MorfeuszUsage::GenerateOnly);
    match generator_only.analyse("kot") {
        Err(Error::Unsupported(m)) => assert_eq!(m, "Cannot analyse with given Morfeusz instance."),
        other => panic!("unexpected {other:?}"),
    }
    let analyser_only = Morfeusz::with_dictionary(Dictionary::empty(), MorfeuszUsage::AnalyseOnly);
    match analyser_only.generate("kot") {
        Err(Error::Unsupported(m)) => assert_eq!(m, "Cannot generate with given Morfeusz instance."),
        other => panic!("unexpected {other:?}"),
    }
}

#[test]
fn invalid_options_are_rejected_and_leave_settings() {
    let mut morfeusz = Morfeusz::new();
    let before = morfeusz.aggl().to_owned();
    match morfeusz.set_aggl("bogus") {
        Err(Error::InvalidArgument(m)) => assert_eq!(m, "Invalid agglutination option: bogus"),
        other => panic!("unexpected {other:?}"),
    }
    assert_eq!(morfeusz.aggl(), before);
    match morfeusz.set_praet("bogus") {
        Err(Error::InvalidArgument(m)) => assert_eq!(m, "Invalid praet option: bogus"),
        other => panic!("unexpected {other:?}"),
    }
    match morfeusz.generate_by_tag_id("kot", -5) {
        Err(Error::InvalidArgument(m)) => assert_eq!(m, "Invalid tag id: -5"),
        other => panic!("unexpected {other:?}"),
    }
}
