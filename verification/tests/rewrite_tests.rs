use ttl_convert::rewrite::{apply_replacements, is_safe_base, trimmed_base, DEFAULT_NAMESPACE};
use ttl_convert::text::{
    chars_of, matches_at, overlaps_from, push_chars, push_str_chars, replace_chars, stays_apart,
    string_of,
};

fn replaced(src: &str, pat: &str, rep: &str) -> String {
    string_of(&replace_chars(&chars_of(src), &chars_of(pat), &chars_of(rep)))
}

#[test]
fn test_namespace_replacement_with_xml_namespace() {
    let ttl = r#"
<https://decisym.ai#/item1> <https://decisym.ai/xml2rdf/model#hasValue> "test" .
<https://decisym.ai#/item2> <https://decisym.ai/xml2rdf/model#hasName> "name" .
        "#.to_string();

    let result = apply_replacements(
        ttl,
        "https://example.org#",
        Some("ecospold02"),
    );

    assert!(!result.contains("decisym.ai"));
    assert!(result.contains("https://example.org#ecospold02.item1"));
    assert!(result.contains("https://example.org/xml2rdf/model#ecospold02.hasValue"));
}

#[test]
fn test_namespace_replacement_without_xml_namespace() {
    let ttl = r#"
<https://decisym.ai#/item1> <https://decisym.ai/xml2rdf/model#hasValue> "test" .
        "#.to_string();

    let result = apply_replacements(
        ttl,
        "https://example.org#",
        None,
    );

    assert!(!result.contains("decisym.ai"));
    assert!(result.contains("https://example.org"));
}

#[test]
fn default_namespace_is_the_converters() {
    assert_eq!(DEFAULT_NAMESPACE, "https://decisym.ai");
}

#[test]
fn labelled_line_is_rewritten_exactly() {
    let ttl = "<https://decisym.ai#/item1> <https://decisym.ai/xml2rdf/model#hasValue> \"test\" .".to_string();
    let out = apply_replacements(ttl, "https://example.org#", Some("ecospold02"));
    assert_eq!(
        out,
        "<https://example.org#ecospold02.item1> <https://example.org/xml2rdf/model#ecospold02.hasValue> \"test\" ."
    );
}

#[test]
fn unlabelled_line_is_rewritten_exactly() {
    let ttl = "<https://decisym.ai#/item1> <https://decisym.ai/xml2rdf/model#hasValue> \"test\" .\n".to_string();
    let out = apply_replacements(ttl, "https://example.org#", None);
    assert_eq!(
        out,
        "<https://example.org#/item1> <https://example.org/xml2rdf/model#hasValue> \"test\" .\n"
    );
}

#[test]
fn bare_namespace_takes_the_base_without_the_label() {
    let ttl = "<https://decisym.ai/other/thing> <https://decisym.ai> .".to_string();
    let out = apply_replacements(ttl, "https://example.org", Some("foo"));
    assert_eq!(out, "<https://example.org/other/thing> <https://example.org> .");
}

#[test]
fn label_is_inserted_without_a_stray_separator() {
    let ttl = "<https://decisym.ai#/item1>".to_string();
    let out = apply_replacements(ttl, "https://example.org", Some("foo"));
    assert!(out.contains("https://example.org#foo.item1>"));
    assert!(!out.contains("https://example.org#/foo.item1>"));
    assert!(!out.contains("https://example.org#foo./item1>"));
    assert_eq!(out, "<https://example.org#foo.item1>");
}

#[test]
fn no_default_namespace_is_left() {
    let ttl = "<https://decisym.ai#/a> <https://decisym.ai/xml2rdf/model#p> <https://decisym.ai/b> .\n\
               <https://decisym.aihttps://decisym.ai> <x> \"https://decisym.ai\" .\n";
    let with_label = apply_replacements(ttl.to_string(), "https://example.org#", Some("lbl"));
    let without_label = apply_replacements(ttl.to_string(), "https://example.org#", None);
    assert!(!with_label.contains(DEFAULT_NAMESPACE));
    assert!(!without_label.contains(DEFAULT_NAMESPACE));
    assert_eq!(
        without_label,
        "<https://example.org#/a> <https://example.org/xml2rdf/model#p> <https://example.org/b> .\n\
         <https://example.orghttps://example.org> <x> \"https://example.org\" .\n"
    );
}

#[test]
fn clean_text_comes_back_unchanged() {
    let ttl = "<https://example.org#foo.item1> <https://example.org/p> \"v\" .\n";
    assert_eq!(apply_replacements(ttl.to_string(), "https://other.org#", None), ttl);
    assert_eq!(apply_replacements(ttl.to_string(), "https://other.org#", Some("foo")), ttl);
    let once = apply_replacements(
        "<https://decisym.ai#/item1> <https://decisym.ai/xml2rdf/model#p> \"v\" .".to_string(),
        "https://example.org",
        Some("foo"),
    );
    assert_eq!(apply_replacements(once.clone(), "https://example.org", Some("foo")), once);
}

#[test]
fn separator_after_hash_is_dropped_only_with_a_label() {
    let ttl = "<http://a.example/x#/y> <p> <o> .";
    assert_eq!(
        apply_replacements(ttl.to_string(), "https://example.org", Some("l")),
        "<http://a.example/x#y> <p> <o> ."
    );
    assert_eq!(apply_replacements(ttl.to_string(), "https://example.org", None), ttl);
}

#[test]
fn trailing_hash_changes_nothing() {
    let ttl = "<https://decisym.ai#/item1> <https://decisym.ai/xml2rdf/model#hasValue> \"test\" .\n";
    for label in [None, Some("ecospold02")] {
        let with_hash = apply_replacements(ttl.to_string(), "https://example.org#", label);
        let without_hash = apply_replacements(ttl.to_string(), "https://example.org", label);
        assert_eq!(with_hash, without_hash);
    }
}

#[test]
fn every_trailing_hash_is_trimmed() {
    assert_eq!(string_of(&trimmed_base("https://example.org###")), "https://example.org");
    assert_eq!(string_of(&trimmed_base("https://example.org")), "https://example.org");
    assert_eq!(string_of(&trimmed_base("a#b#")), "a#b");
    assert_eq!(string_of(&trimmed_base("##")), "");
    assert_eq!(string_of(&trimmed_base("")), "");
}

#[test]
fn replacement_scans_from_the_left_without_overlap() {
    assert_eq!(replaced("aaa", "aa", "b"), "ba");
    assert_eq!(replaced("aaaa", "aa", "b"), "bb");
    assert_eq!(replaced("abcabc", "bc", "X"), "aXaX");
    assert_eq!(replaced("abc", "abcd", "X"), "abc");
    assert_eq!(replaced("abab", "ab", ""), "");
    assert_eq!(replaced("xay", "a", "aa"), "xaay");
    assert_eq!(replaced("", "a", "b"), "");
}

#[test]
fn empty_pattern_replaces_nothing() {
    assert_eq!(replaced("abc", "", "X"), "abc");
}

#[test]
fn replacement_agrees_with_the_standard_library() {
    let cases = [
        ("héllo wörld héllo", "héllo", "∂"),
        ("#/#/#//#", "#/", "#"),
        ("https://decisym.ai#/x", "https://decisym.ai", "https://example.org"),
    ];
    for (src, pat, rep) in cases {
        assert_eq!(replaced(src, pat, rep), src.replace(pat, rep));
    }
}

#[test]
fn pattern_is_found_only_where_it_stands() {
    let src = chars_of("abcabc");
    let pat = chars_of("bc");
    assert!(!matches_at(&src, &pat, 0));
    assert!(matches_at(&src, &pat, 1));
    assert!(matches_at(&src, &pat, 4));
    assert!(!matches_at(&src, &pat, 5));
    assert!(!matches_at(&src, &pat, 6));
    assert!(!matches_at(&src, &pat, 7));
    assert!(matches_at(&src, &chars_of(""), 6));
}

#[test]
fn strings_and_characters_convert_both_ways() {
    let v = chars_of("a\"ß∂");
    assert_eq!(v, vec!['a', '"', 'ß', '∂']);
    assert_eq!(string_of(&v), "a\"ß∂");
    assert_eq!(string_of(&Vec::new()), "");
    let mut out = vec!['x'];
    push_str_chars(&mut out, "yz");
    push_chars(&mut out, &vec!['!', '?']);
    assert_eq!(out, vec!['x', 'y', 'z', '!', '?']);
}

#[test]
fn ordinary_bases_stay_apart_from_the_namespace() {
    assert!(is_safe_base("https://example.org"));
    assert!(is_safe_base("https://example.org#"));
    assert!(is_safe_base("https://purl.org/wiser#"));
    assert!(is_safe_base("https://github.com/here/there"));
}

#[test]
fn bases_that_can_rebuild_the_namespace_are_told() {
    assert!(!is_safe_base(""));
    assert!(!is_safe_base("###"));
    assert!(!is_safe_base("https://decisym.ai"));
    assert!(!is_safe_base("https://decisym.ai/sub"));
    assert!(!is_safe_base("x/https://decisym.ai/sub"));
    assert!(!is_safe_base("https"));
    assert!(!is_safe_base(".ai"));
    assert!(!is_safe_base("example.org/h"));
    assert!(!is_safe_base("sym"));
}

#[test]
fn an_empty_base_can_leave_the_namespace_behind() {
    let ttl = "https://decisymhttps://decisym.ai.ai".to_string();
    assert_eq!(apply_replacements(ttl, "", None), "https://decisym.ai");
}

#[test]
fn apartness_is_decided_on_both_sides() {
    let q = chars_of("abc");
    assert!(stays_apart(&chars_of("xyz"), &q));
    assert!(!stays_apart(&chars_of(""), &q));
    assert!(!stays_apart(&chars_of("cx"), &q));
    assert!(!stays_apart(&chars_of("xa"), &q));
    assert!(!stays_apart(&chars_of("b"), &q));
    assert!(!stays_apart(&chars_of("xabcx"), &q));
    assert!(stays_apart(&chars_of("xacbx"), &q));
    assert!(overlaps_from(&chars_of("xxab"), 2, &q));
    assert!(overlaps_from(&chars_of("xxabcd"), 2, &q));
    assert!(!overlaps_from(&chars_of("xxabd"), 2, &q));
    assert!(overlaps_from(&chars_of("xx"), 2, &q));
}

#[test]
fn separator_pass_runs_once_from_the_left() {
    let once = apply_replacements("a#//b".to_string(), "https://example.org", Some("l"));
    assert_eq!(once, "a#/b");
    let twice = apply_replacements(once, "https://example.org", Some("l"));
    assert_eq!(twice, "a#b");
}

#[test]
fn rewriting_twice_is_rewriting_once() {
    let ttl = "<https://decisym.ai#/item1> <https://decisym.ai/xml2rdf/model#hasValue> \"v\" .\n";
    for label in [None, Some("foo")] {
        let once = apply_replacements(ttl.to_string(), "https://example.org#", label);
        let twice = apply_replacements(once.clone(), "https://example.org#", label);
        assert_eq!(once, twice);
    }
}
