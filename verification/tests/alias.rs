use modular_aliases::alias::{parse_alias_line, Alias, AliasSource};
use modular_aliases::text::{is_whitespace_char, lines_of, same_text};

fn path(p: &str) -> AliasSource {
    AliasSource::Path(p.to_string())
}

fn parsed(line: &str) -> Option<(String, String)> {
    parse_alias_line(line, AliasSource::Default).map(|(name, alias)| (name, alias.value))
}

fn pair(name: &str, value: &str) -> Option<(String, String)> {
    Some((name.to_string(), value.to_string()))
}

#[test]
fn parse_alias_line_reads_name_and_value() {
    assert_eq!(
        parse_alias_line("alias foo=bar", path("p")),
        Some(("foo".to_string(), Alias { value: "bar".to_string(), source: path("p") }))
    );
}

#[test]
fn parse_alias_line_without_equals_is_none() {
    assert_eq!(parse_alias_line("alias onlyname", path("p")), None);
}

#[test]
fn parse_alias_line_without_prefix_is_none() {
    assert_eq!(parse_alias_line("notalias x=y", path("p")), None);
    assert_eq!(parsed("alias"), None);
    assert_eq!(parsed("alias "), None);
    assert_eq!(parsed("alias\tfoo=bar"), None);
    assert_eq!(parsed("Alias foo=bar"), None);
    assert_eq!(parsed("# alias foo=bar"), None);
    assert_eq!(parsed(""), None);
}

#[test]
fn parse_alias_line_trims_line_name_and_value() {
    assert_eq!(parsed("  alias  foo = bar baz  "), pair("foo", "bar baz"));
    assert_eq!(parsed("\talias ll=ls -l\r"), pair("ll", "ls -l"));
    assert_eq!(parsed("\u{a0}alias a\u{3000}=\u{2003}b\u{2028}"), pair("a", "b"));
}

#[test]
fn parse_alias_line_splits_at_first_equals() {
    assert_eq!(parsed("alias a=b=c"), pair("a", "b=c"));
    assert_eq!(parsed("alias g='git log --format=%h'"), pair("g", "'git log --format=%h'"));
}

#[test]
fn parse_alias_line_accepts_empty_name_or_value() {
    assert_eq!(parsed("alias =x"), pair("", "x"));
    assert_eq!(parsed("alias x="), pair("x", ""));
    assert_eq!(parsed("alias ="), pair("", ""));
}

#[test]
fn parse_alias_line_keeps_the_source() {
    let (_, alias) = parse_alias_line("alias a=b", AliasSource::Default).unwrap();
    assert_eq!(alias.source, AliasSource::Default);
}

#[test]
fn parse_alias_line_agrees_with_std_trim_for_every_white_space() {
    for code in 0u32..=0x3100 {
        let c = match char::from_u32(code) {
            Some(c) => c,
            None => continue,
        };
        let line = format!("{}alias {}k{}={}v{}{}", c, c, c, c, c, c);
        let t = line.trim();
        let expected = if t.starts_with("alias ") {
            t[6..].split_once('=').map(|(n, v)| (n.trim().to_string(), v.trim().to_string()))
        } else {
            None
        };
        assert_eq!(parsed(&line), expected, "code point {:x}", code);
    }
}

#[test]
fn is_whitespace_char_agrees_with_std() {
    for code in 0u32..=0x10FFFF {
        if let Some(c) = char::from_u32(code) {
            assert_eq!(is_whitespace_char(c), c.is_whitespace(), "code point {:x}", code);
        }
    }
}

#[test]
fn get_path_names_the_source() {
    assert_eq!(path("aliases/git").get_path(), "aliases/git");
    assert_eq!(AliasSource::Default.get_path(), "default");
}

#[test]
fn lines_of_splits_at_line_feeds() {
    assert_eq!(lines_of("a\nb\n\nc"), vec!["a", "b", "", "c"]);
    assert_eq!(lines_of("a\n"), vec!["a", ""]);
    assert_eq!(lines_of(""), vec![""]);
    assert_eq!(lines_of("a\r\nb"), vec!["a\r", "b"]);
}

#[test]
fn same_text_compares_characters() {
    assert!(same_text("abc", "abc"));
    assert!(!same_text("abc", "abd"));
    assert!(!same_text("abc", "ab"));
    assert!(same_text("", ""));
}
