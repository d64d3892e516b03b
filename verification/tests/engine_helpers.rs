use morfeusz::binary::case::lowercase_with_original_boundaries;
use morfeusz::binary::read::past_limit;
use morfeusz::engine::{append_whitespace_to_word, ascii_uppercase, hyphenated_word_span_end, tokenize};
use morfeusz::{Error, MorphInterpretation};

fn reading(orth: &str, start: i32, end: i32) -> MorphInterpretation {
    MorphInterpretation::create_ign(start, end, orth, orth)
}

#[test]
fn whitespace_glues_onto_first_and_last_readings_only() {
    let mut v = vec![reading("ab", 0, 1), reading("a", 0, 2), reading("b", 1, 2)];
    append_whitespace_to_word(&mut v, Some(" "), Some("\t"));
    assert_eq!(v[0].orth, " ab");
    assert_eq!(v[1].orth, " a\t");
    assert_eq!(v[2].orth, "b\t");
    assert_eq!(v[1].lemma, "a");
    assert_eq!((v[2].start_node, v[2].end_node), (1, 2));
}

#[test]
fn whitespace_without_sides_changes_nothing() {
    let mut v = vec![reading("x", 3, 4)];
    append_whitespace_to_word(&mut v, None, None);
    assert_eq!(v[0].orth, "x");
}

#[test]
fn hyphenated_span_needs_a_word_after_each_hyphen() {
    let segments = tokenize("biało-czerwony-x y");
    assert_eq!(hyphenated_word_span_end(&segments, 0, segments.len()), Some(5));
    let plain = tokenize("słowo");
    assert_eq!(hyphenated_word_span_end(&plain, 0, plain.len()), None);
    let dangling = tokenize("a- b");
    assert_eq!(hyphenated_word_span_end(&dangling, 0, dangling.len()), None);
}

#[test]
fn ascii_uppercase_leaves_other_letters() {
    assert_eq!(ascii_uppercase("xiv-ż"), "XIV-ż");
}

#[test]
fn lowercased_input_keeps_its_original() {
    let n = lowercase_with_original_boundaries("ŻÓŁW").unwrap();
    assert_eq!(n.original_span(0, 2).unwrap().0, "Ż");
}

#[test]
fn offset_past_the_metadata_limit_is_reported_with_both_numbers() {
    match past_limit("segmentation data", 10, 5, 12) {
        Error::InvalidDictionary(m) => {
            assert_eq!(m, "truncated segmentation data: need offset 15, metadata limit is 12")
        },
        _ => panic!("expected an invalid dictionary"),
    }
}
