use make_ultra::config::{compile_rules, default_folders, Config, RuleDef};
use make_ultra::rule::{get_matching_rules, rules_list_eq, Rule};

fn minify_rule() -> Rule {
    Rule::new(
        "(?P<name>.*)\\.js$",
        "$name.min.js",
        Some("\\.min\\.js$"),
        "terser $i -o $o",
    )
    .unwrap()
}

fn brotli_rule() -> Rule {
    Rule::new(
        "(?P<name>.*)\\.min\\.js$",
        "$name.min.js.br",
        None,
        "brotli -f $i",
    )
    .unwrap()
}

#[test]
fn rule_matches_plain_js() {
    let r = minify_rule();
    assert!(r.does_match("a.js"));
    assert!(!r.does_match("a.txt"));
}

#[test]
fn rule_exclude_wins_over_from() {
    let r = minify_rule();
    assert!(!r.does_match("a.min.js"));
}

#[test]
fn rule_output_uses_named_group() {
    let r = minify_rule();
    assert_eq!(r.get_output("a.js"), "a.min.js");
    assert_eq!(r.get_output("src/app.js"), "src/app.min.js");
}

#[test]
fn rule_output_of_non_match_is_input() {
    let r = minify_rule();
    assert_eq!(r.get_output("a.txt"), "a.txt");
}

#[test]
fn rule_chain_outputs() {
    let r = brotli_rule();
    assert!(r.does_match("a.min.js"));
    assert_eq!(r.get_output("a.min.js"), "a.min.js.br");
}

#[test]
fn rule_keeps_its_pattern_source() {
    let r = minify_rule();
    assert_eq!(r.from_source(), "(?P<name>.*)\\.js$");
    assert_eq!(r.command_text(), "terser $i -o $o");
}

#[test]
fn rule_bad_regex_is_refused() {
    assert!(Rule::new("(", "x", None, "cmd").is_none());
    assert!(Rule::new("a", "x", Some("("), "cmd").is_none());
}

#[test]
fn rule_equality_ignores_exclude() {
    let a = Rule::new("x", "y", Some("z"), "c").unwrap();
    let b = Rule::new("x", "y", None, "c").unwrap();
    let c = Rule::new("x", "y", None, "other").unwrap();
    assert!(a == b);
    assert!(!(a == c));
}

#[test]
fn matching_rules_in_declaration_order() {
    let rules = vec![minify_rule(), brotli_rule()];
    assert_eq!(get_matching_rules(&rules, "a.js"), vec![0]);
    assert_eq!(get_matching_rules(&rules, "a.min.js"), vec![1]);
    assert_eq!(get_matching_rules(&rules, "a.txt"), Vec::<usize>::new());
}

#[test]
fn rule_list_comparison_goes_by_identity() {
    let rules = vec![minify_rule(), brotli_rule()];
    let a = vec![0usize, 1usize];
    let b = vec![0usize, 1usize];
    let c = vec![1usize, 0usize];
    assert!(rules_list_eq(&rules, &a, &b));
    assert!(!rules_list_eq(&rules, &a, &c));
    assert!(!rules_list_eq(&rules, &a, &vec![0usize]));
}

#[test]
fn default_folders_is_current_dir() {
    let f = default_folders();
    assert_eq!(f, vec![String::from(".")]);
}

#[test]
fn compile_rules_rejects_bad_pattern() {
    let defs = vec![RuleDef {
        from: String::from("("),
        to: String::from("x"),
        exclude: None,
        command: String::from("c"),
    }];
    assert!(compile_rules(&defs).is_none());
}

#[test]
fn config_from_parts_keeps_folders() {
    let defs = vec![RuleDef {
        from: String::from("a"),
        to: String::from("b"),
        exclude: None,
        command: String::from("c"),
    }];
    let cfg = Config::from_parts(vec![String::from("src")], &defs).unwrap();
    assert_eq!(cfg.folders, vec![String::from("src")]);
    assert_eq!(cfg.rules.len(), 1);
}
