use morfeusz::hints::{apply_segmentation_hints, fits_hints, SegmentationHints};
use morfeusz::{Dictionary, Error, IdResolver, TsvLexiconLoader};

const TAGSET: &str = "#!TAGSET-ID test-tagset\n[TAGS]\n0 ign\n1 sp\n2 subst:sg:nom:m1\n3 prefs\n4 adja\n5 adj:sg:nom:m1:pos\n";

fn tagset() -> IdResolver {
    TsvLexiconLoader::tagset_from_str(TAGSET).unwrap()
}

fn orths_of(dictionary: &Dictionary, orth: &str) -> Vec<(String, String)> {
    match dictionary.lookup(orth) {
        Some(entries) => {
            let mut out = Vec::new();
            for entry in entries {
                out.push((entry.orth.clone(), entry.lemma.clone()));
            }
            out
        }
        None => Vec::new(),
    }
}

#[test]
fn tsv_reads_metadata_entries_and_new_tags() {
    let content = "#!DICT-ID  my-dict \n#<COPYRIGHT>\nline one\n#</COPYRIGHT>\n\n# comment\nkot\tkot\tsubst:sg:nom:m1\r\npies\tpies:s\tnowy\tnazwa\tx|a\n";
    let dictionary = TsvLexiconLoader::from_str(content, IdResolver::default()).unwrap();
    assert_eq!(dictionary.id(), "my-dict");
    assert_eq!(dictionary.copyright(), "line one\n");
    assert_eq!(dictionary.entries().len(), 2);
    let resolver = dictionary.resolver();
    let kot = &dictionary.lookup("kot").unwrap()[0];
    assert_eq!(kot.lemma, "kot");
    assert_eq!(resolver.tag(kot.tag_id), Some("subst:sg:nom:m1"));
    assert_eq!(resolver.name(kot.name_id), Some("_"));
    let pies = &dictionary.lookup("pies").unwrap()[0];
    assert_eq!(pies.lemma, "pies:s");
    assert_eq!(resolver.tag(pies.tag_id), Some("nowy"));
    assert_eq!(resolver.name(pies.name_id), Some("nazwa"));
    assert_eq!(resolver.labels_as_string(pies.labels_id), Some("a|x"));
    assert_eq!(dictionary.generate("pies").unwrap()[0].orth, "pies");
}

#[test]
fn tsv_reports_short_line_with_its_number() {
    let content = "kot\tkot\tsubst:sg:nom:m1\npies\tpies\n";
    let error = TsvLexiconLoader::from_str(content, IdResolver::default()).unwrap_err();
    match error {
        Error::InvalidDictionary(message) => {
            assert_eq!(message, "dictionary line 2 has fewer than 3 tab-separated fields")
        }
        other => panic!("unexpected error {other:?}"),
    }
}

#[test]
fn tagset_reads_id_and_numbered_tags() {
    let resolver = tagset();
    assert_eq!(resolver.tagset_id(), "test-tagset");
    assert_eq!(resolver.tag(5), Some("adj:sg:nom:m1:pos"));
    assert_eq!(resolver.tag_id("prefs").unwrap(), 3);
    assert!(TsvLexiconLoader::tagset_ids_in_range(TAGSET));
}

#[test]
fn tagset_ignores_lines_outside_tags_section() {
    let resolver = TsvLexiconLoader::tagset_from_str("[NAMES]\n7 x\n[TAGS]\n2 t\n").unwrap();
    assert_eq!(resolver.tag(2), Some("t"));
    assert!(resolver.tag_id("x").is_err());
}

#[test]
fn tagset_rejects_bad_id_and_missing_tag() {
    let bad_id = TsvLexiconLoader::tagset_from_str("[TAGS]\nabc def\n").unwrap_err();
    assert_eq!(bad_id.message(), "invalid tag id in line: abc def");
    let missing = TsvLexiconLoader::tagset_from_str("[TAGS]\n7\n").unwrap_err();
    assert_eq!(missing.message(), "missing tag in line: 7");
}

#[test]
fn tagset_range_check_flags_negative_ids() {
    assert!(!TsvLexiconLoader::tagset_ids_in_range("[TAGS]\n-1 x\n"));
    assert!(TsvLexiconLoader::tagset_ids_in_range("[NAMES]\n-1 x\n"));
}

#[test]
fn hints_parse_combinations_and_options() {
    let hints = SegmentationHints::parse(
        "[options]\nadja>adj\n[combinations]\nzwykly # standalone\nsuper > subst\nprefs > dywiz > subst\nsubst>dywiz>subst\n#define x\n(a) > b\n",
    );
    assert!(hints.shift_adja_adj);
    assert!(hints.prefs_dywiz_subst);
    assert!(hints.subst_dywiz_subst);
    assert!(!hints.prefs_subst);
    assert!(!hints.nie_dywiz_subst);
    assert_eq!(hints.standalone_labels.as_slice(), ["zwykly".to_owned()]);
    assert_eq!(hints.prefix_labels.as_slice(), ["super".to_owned()]);
    assert!(hints.has_rules());
    assert!(!SegmentationHints::parse("[combinations]\nsubst\n").has_rules());
}

#[test]
fn hints_join_named_prefix_with_labelled_entries() {
    let content = "kot\tkot\tsubst:sg:nom:m1\t_\tsuper\npies\tpies\tsubst:sg:nom:m1\t_\tzwykly\nsuper\tsuper\tprefs\t_\t_\n";
    let dictionary = TsvLexiconLoader::from_str(content, tagset()).unwrap();
    let hints = SegmentationHints::parse("[combinations]\nzwykly\nsuper > subst\n");
    assert!(fits_hints(&dictionary, &hints));
    let rebuilt = apply_segmentation_hints(dictionary, &hints);
    assert_eq!(orths_of(&rebuilt, "pies"), [("pies".to_owned(), "pies".to_owned())]);
    assert_eq!(orths_of(&rebuilt, "superkot"), [("superkot".to_owned(), "superkot".to_owned())]);
    assert!(rebuilt.lookup("kot").is_none());
    assert!(rebuilt.lookup("super").is_none());
    let entry = &rebuilt.lookup("superkot").unwrap()[0];
    assert_eq!(rebuilt.resolver().labels_as_string(entry.labels_id), Some("super"));
    assert_eq!(rebuilt.id(), "");
}

#[test]
fn hints_form_prefix_hyphen_compounds_with_titlecase_variant() {
    let content = "dom\tdom\tsubst:sg:nom:m1\neko\teko\tprefs\n";
    let dictionary = TsvLexiconLoader::from_str(content, tagset()).unwrap();
    let hints = SegmentationHints::parse("[combinations]\nprefs > dywiz > subst\n");
    let rebuilt = apply_segmentation_hints(dictionary, &hints);
    assert_eq!(orths_of(&rebuilt, "eko-dom"), [("eko-dom".to_owned(), "eko-dom".to_owned())]);
    assert_eq!(orths_of(&rebuilt, "Eko-dom"), [("Eko-dom".to_owned(), "eko-dom".to_owned())]);
    assert_eq!(orths_of(&rebuilt, "dom"), [("dom".to_owned(), "dom".to_owned())]);
    assert!(rebuilt.lookup("eko").is_none());
}

#[test]
fn hints_shift_adja_into_adj_and_alias_letter_case() {
    let content = "polsko\tpolsko\tadja\nczeski\tczeski\tadj:sg:nom:m1:pos\nKraków\tKraków\tsubst:sg:nom:m1\n";
    let dictionary = TsvLexiconLoader::from_str(content, tagset()).unwrap();
    let hints = SegmentationHints::parse("[options]\nadja>adj\n");
    let rebuilt = apply_segmentation_hints(dictionary, &hints);
    assert_eq!(
        orths_of(&rebuilt, "polskoczeski"),
        [("polskoczeski".to_owned(), "polskoczeski".to_owned())]
    );
    assert_eq!(orths_of(&rebuilt, "kraków"), [("Kraków".to_owned(), "Kraków".to_owned())]);
    assert_eq!(orths_of(&rebuilt, "Kraków"), [("Kraków".to_owned(), "Kraków".to_owned())]);
}

#[test]
fn hints_without_rules_leave_dictionary_unchanged() {
    let content = "Kraków\tKraków\tsubst:sg:nom:m1\n";
    let dictionary = TsvLexiconLoader::from_str_with_segmentation(content, tagset(), "# nothing\n").unwrap();
    assert!(dictionary.lookup("kraków").is_none());
    assert_eq!(dictionary.entries().len(), 1);
}

#[test]
fn segmented_load_reports_short_line() {
    let error = TsvLexiconLoader::from_str_with_segmentation("a\tb\n", tagset(), "[options]\nadja>adj\n")
        .unwrap_err();
    assert_eq!(error.message(), "dictionary line 1 has fewer than 3 tab-separated fields");
}

#[test]
fn segmented_load_applies_rules() {
    let content = "dom\tdom\tsubst:sg:nom:m1\nnie\tnie\tprefs\n";
    let dictionary =
        TsvLexiconLoader::from_str_with_segmentation(content, tagset(), "[combinations]\nprefs > subst\n")
            .unwrap();
    assert_eq!(orths_of(&dictionary, "niedom"), [("niedom".to_owned(), "niedom".to_owned())]);
    assert_eq!(orths_of(&dictionary, "Niedom"), [("Niedom".to_owned(), "niedom".to_owned())]);
}
