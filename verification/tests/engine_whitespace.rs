use morfeusz::engine::{contains_morfeusz_whitespace, is_morfeusz_whitespace};

#[test]
fn byte_whitespace_scan_matches_cpp_table_predicate() {
    assert!(!contains_morfeusz_whitespace("zażółć-gęślą-jaźń"));
    assert!(!contains_morfeusz_whitespace("漢字"));

    let whitespace_codepoints = [
        0x0000, 0x0009, 0x000A, 0x000B, 0x000C, 0x000D, 0x001C, 0x001D, 0x001E, 0x001F, 0x0020,
        0x0085, 0x00A0, 0x1680, 0x180E, 0x2000, 0x2001, 0x2002, 0x2003, 0x2004, 0x2005, 0x2006,
        0x2007, 0x2008, 0x2009, 0x200A, 0x200B, 0x2028, 0x2029, 0x202F, 0x205F, 0x2060, 0x3000,
    ];

    for codepoint in whitespace_codepoints {
        let ch = char::from_u32(codepoint).unwrap();
        let value = format!("a{ch}b");
        assert!(
            is_morfeusz_whitespace(ch),
            "predicate missed U+{codepoint:04X}"
        );
        assert!(
            contains_morfeusz_whitespace(&value),
            "byte scan missed U+{codepoint:04X}"
        );
    }
}
