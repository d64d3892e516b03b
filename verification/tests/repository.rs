use morfeusz::repository::parts_for_usage;
use morfeusz::{BinaryDictionaryRepository, Error, MorfeuszUsage};

#[test]
fn explicit_empty_search_paths_do_not_fall_back_to_current_directory() {
    let repo = BinaryDictionaryRepository::new(Vec::new());

    assert!(repo.search_paths().is_empty());
    assert!(repo.find_named("test-dict-copyright-v1").analyzer.is_none());
}

#[test]
fn missing_named_dictionary_reports_not_found() {
    let repo = BinaryDictionaryRepository::new(vec!["no-such-directory-for-dictionaries".to_owned()]);

    let paths = repo.find_named("definitely-missing-dictionary");
    let err = parts_for_usage(paths, "definitely-missing-dictionary", MorfeuszUsage::AnalyseOnly)
        .unwrap_err();

    assert!(matches!(err, Error::NotFound(_)));
}
