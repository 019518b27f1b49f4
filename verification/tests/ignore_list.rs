use shader_language::ignore::{is_ignored, load_ignore_list, parse_ignore_list};
use shader_language::names::get_file_name;

#[test]
fn one_token_per_line() {
    let toks = parse_ignore_list("alpha\nbeta\ngamma");
    assert_eq!(toks, vec!["alpha", "beta", "gamma"]);
}

#[test]
fn blank_lines_and_edge_blanks_are_dropped() {
    let toks = parse_ignore_list("  alpha \n\n\t\nbeta\r\n   \n");
    assert_eq!(toks, vec!["alpha", "beta"]);
}

#[test]
fn empty_text_yields_no_tokens() {
    let toks = parse_ignore_list("");
    assert_eq!(toks, Vec::<String>::new());
}

#[test]
fn missing_file_acts_like_a_file_with_zero_tokens() {
    let missing = load_ignore_list(None);
    let empty = load_ignore_list(Some(""));
    assert_eq!(missing, empty);
    assert_eq!(missing, Vec::<String>::new());
    assert!(!is_ignored("anything", &missing));
    assert!(!is_ignored("anything", &empty));
}

#[test]
fn listed_stem_is_ignored() {
    let toks = parse_ignore_list("Common\nDebug");
    assert!(is_ignored("Common", &toks));
    assert!(is_ignored("Debug", &toks));
    assert!(!is_ignored("main", &toks));
    assert!(!is_ignored("Commo", &toks));
    assert!(!is_ignored("CommonX", &toks));
}

#[test]
fn shared_stem_ignores_every_extension() {
    // Two shader files share the stem `a`; listing `a` excludes both.
    let toks = parse_ignore_list("a\n");
    let stem_vert = get_file_name("a.vert");
    let stem_frag = get_file_name("a.frag");
    assert_eq!(stem_vert, "a");
    assert_eq!(stem_frag, "a");
    assert!(is_ignored(&stem_vert, &toks));
    assert!(is_ignored(&stem_frag, &toks));
}
