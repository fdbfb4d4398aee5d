use cargo_propagate_features::strings::{contains_text, is_white_space_char, parse_feature_list};

fn names(v: &[&str]) -> Vec<String> {
    v.iter().map(|s| s.to_string()).collect()
}

#[test]
fn default_feature_list() {
    assert_eq!(
        parse_feature_list("backend,cli,desktop,web"),
        names(&["backend", "cli", "desktop", "web"])
    );
}

#[test]
fn pieces_are_trimmed_and_kept_once() {
    assert_eq!(parse_feature_list(" web , cli,web,cli "), names(&["web", "cli"]));
}

#[test]
fn unicode_white_space_is_trimmed() {
    assert_eq!(parse_feature_list("\u{3000}web\t,\u{85}cli\u{a0}"), names(&["web", "cli"]));
}

#[test]
fn empty_pieces_stay() {
    assert_eq!(parse_feature_list(""), names(&[""]));
    assert_eq!(parse_feature_list("a,,b"), names(&["a", "", "b"]));
    assert_eq!(parse_feature_list("a, ,b,"), names(&["a", "", "b"]));
}

#[test]
fn single_feature() {
    assert_eq!(parse_feature_list("web"), names(&["web"]));
}

#[test]
fn white_space_characters() {
    for c in [' ', '\t', '\n', '\u{b}', '\u{c}', '\r', '\u{85}', '\u{a0}', '\u{1680}', '\u{2000}', '\u{200a}', '\u{2028}', '\u{2029}', '\u{202f}', '\u{205f}', '\u{3000}'] {
        assert!(is_white_space_char(c), "{:?}", c);
        assert_eq!(is_white_space_char(c), c.is_whitespace());
    }
    for c in ['a', ',', '\u{200b}', '\u{180e}', '\u{feff}', '_'] {
        assert!(!is_white_space_char(c), "{:?}", c);
        assert_eq!(is_white_space_char(c), c.is_whitespace());
    }
}

#[test]
fn text_membership() {
    let v = names(&["web", "cli"]);
    assert!(contains_text(&v, &"cli".to_string()));
    assert!(!contains_text(&v, &"gpu".to_string()));
    assert!(!contains_text(&Vec::new(), &"web".to_string()));
}
