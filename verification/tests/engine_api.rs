use morfeusz::{Config, Engine, NumberingScope, SegmentationPreset, WhitespaceHandling};

#[test]
fn engine_uses_builder_config_without_legacy_setters() {
    let engine = Engine::builder()
        .config(
            Config::default()
                .with_whitespace(WhitespaceHandling::Keep)
                .with_segmentation(SegmentationPreset::new("permissive", "split").unwrap()),
        )
        .build();

    let result = engine.analyze("Aaaa  żżżż").unwrap();

    assert_eq!(
        result
            .iter()
            .map(|interp| interp.orth.as_str())
            .collect::<Vec<_>>(),
        ["Aaaa", "  ", "żżżż"]
    );
}

#[test]
fn stateless_analysis_keeps_numbering_separate_by_default() {
    let engine = Engine::builder().build();

    let first = engine.analyze("aaaa bbbb").unwrap();
    let second = engine.analyze("cccc").unwrap();

    assert_eq!((first[0].start_node, first[1].end_node), (0, 2));
    assert_eq!((second[0].start_node, second[0].end_node), (0, 1));
}

#[test]
fn session_owns_continuous_numbering_state() {
    let engine = Engine::builder()
        .config(Config::default().with_numbering(NumberingScope::Continuous))
        .build();
    let mut session = engine.session();

    let first = session.analyze("aaaa bbbb").unwrap();
    let second = session.analyze("cccc").unwrap();

    assert_eq!((first[0].start_node, first[1].end_node), (0, 2));
    assert_eq!((second[0].start_node, second[0].end_node), (2, 3));
}

#[test]
fn whitespace_only_text_is_one_kept_edge() {
    let engine = Engine::builder()
        .config(Config::default().with_whitespace(WhitespaceHandling::Keep))
        .build();
    let result = engine.analyze(" \t\n ").unwrap();
    assert_eq!(result.len(), 1);
    assert_eq!(result[0].orth, " \t\n ");
    assert_eq!(result[0].lemma, " \t\n ");
    assert_eq!(result[0].tag_id, 1);
    assert_eq!((result[0].start_node, result[0].end_node), (0, 1));

    let (from_node, next) = engine.analyze_from_node("  ", 7).unwrap();
    assert_eq!(from_node.len(), 1);
    assert_eq!((from_node[0].start_node, from_node[0].end_node), (7, 8));
    assert_eq!(next, 8);
}

#[test]
fn whitespace_only_text_has_no_readings_when_skipped_or_appended() {
    for handling in [WhitespaceHandling::Skip, WhitespaceHandling::Append] {
        let engine = Engine::builder()
            .config(Config::default().with_whitespace(handling))
            .build();
        assert!(engine.analyze("   ").unwrap().is_empty());
        let (readings, next) = engine.analyze_from_node("\t", 5).unwrap();
        assert!(readings.is_empty());
        assert_eq!(next, 5);
    }
}

#[test]
fn negative_start_node_numbers_nodes_negatively() {
    let engine = Engine::builder().build();
    let (from_zero, next_zero) = engine.analyze_from_node("ab cd", 0).unwrap();
    let (shifted, next) = engine.analyze_from_node("ab cd", -5).unwrap();
    assert_eq!(next, next_zero - 5);
    assert_eq!(shifted.len(), from_zero.len());
    for (a, b) in shifted.iter().zip(from_zero.iter()) {
        assert_eq!(a.start_node, b.start_node - 5);
        assert_eq!(a.end_node, b.end_node - 5);
        assert_eq!(a.orth, b.orth);
        assert_eq!(a.lemma, b.lemma);
        assert_eq!(a.tag_id, b.tag_id);
    }
    assert_eq!(shifted[0].start_node, -5);
}
