use trapezoid::filter::{matches_include, IgnoreRule, IgnoreRules, InvalidIgnoreRule};
use trapezoid::paths::to_path;
use trapezoid::pattern::to_pattern;

fn rules(lines: &[&str]) -> IgnoreRules {
    let lines: Vec<String> = lines.iter().map(|s| s.to_string()).collect();
    IgnoreRules::parse(&lines).unwrap()
}

#[test]
fn to_pattern_keeps_text_and_matches() {
    let g = to_pattern("*.txt").unwrap();
    assert_eq!(g.as_str(), "*.txt");
    let globs = vec![g];
    assert!(matches_include(&globs, "notes.txt", "notes.txt"));
    assert!(!matches_include(&globs, "notes.md", "notes.md"));
}

#[test]
fn to_pattern_refuses_malformed_glob() {
    assert!(to_pattern("[abc").is_err());
    assert!(to_pattern("a**").is_err());
}

#[test]
fn to_path_keeps_text() {
    assert_eq!(to_path("some/dir"), "some/dir".to_string());
}

#[test]
fn parse_line_kinds() {
    assert!(IgnoreRule::parse("").unwrap().is_none());
    assert!(IgnoreRule::parse("# comment").unwrap().is_none());
    let r = IgnoreRule::parse("!/docs/").unwrap().unwrap();
    assert!(r.negated);
    assert!(r.dir_only);
    assert!(r.anchored);
    assert_eq!(r.glob.as_str(), "docs");
    let r = IgnoreRule::parse("*.log").unwrap().unwrap();
    assert!(!r.negated && !r.dir_only && !r.anchored);
    assert_eq!(r.glob.as_str(), "*.log");
    let r = IgnoreRule::parse("src/gen").unwrap().unwrap();
    assert!(r.anchored && !r.dir_only);
    assert_eq!(r.glob.as_str(), "src/gen");
}

#[test]
fn parse_reports_first_bad_line() {
    let lines: Vec<String> = vec!["ok".to_string(), "a**".to_string(), "[x".to_string()];
    assert_eq!(IgnoreRules::parse(&lines).unwrap_err(), InvalidIgnoreRule { line: 1 });
}

#[test]
fn no_rules_visit_everything() {
    let r = IgnoreRules::new();
    assert!(r.should_visit("a/b/c.txt", false));
    assert!(r.should_visit("", true));
}

#[test]
fn directory_rule_prunes_everything_below() {
    let r = rules(&["build/"]);
    assert!(!r.should_visit("build", true));
    assert!(r.should_visit("build", false));
    assert!(!r.should_visit("build/notes.txt", false));
    assert!(!r.should_visit("src/build/out.o", false));
    assert!(r.should_visit("notes.txt", false));
}

#[test]
fn later_negation_reincludes() {
    let r = rules(&["*.log", "!keep.log"]);
    assert!(r.should_visit("keep.log", false));
    assert!(!r.should_visit("other.log", false));
    assert!(r.should_visit("sub/keep.log", false));
    assert!(!r.should_visit("sub/other.log", false));
}

#[test]
fn anchored_rule_matches_relative_path_only() {
    let r = rules(&["/docs"]);
    assert!(!r.should_visit("docs", true));
    assert!(r.should_visit("src/docs", true));
    let r = rules(&["src/*.rs"]);
    assert!(!r.should_visit("src/main.rs", false));
    assert!(r.should_visit("main.rs", false));
}

#[test]
fn include_matches_name_or_relative_path() {
    let globs = vec![to_pattern("*.md").unwrap(), to_pattern("docs/**/*").unwrap()];
    assert!(matches_include(&globs, "a.md", "a.md"));
    assert!(matches_include(&globs, "c.md", "sub/c.md"));
    assert!(matches_include(&globs, "x.bin", "docs/deep/x.bin"));
    assert!(!matches_include(&globs, "b.txt", "b.txt"));
    assert!(!matches_include(&globs, "A.MD", "A.MD"));
}
