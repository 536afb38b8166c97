use apl_format::condition::transform_condition;
use apl_format::expr::{parse_expr, Expr};
use apl_format::group::process_apl_grouped;
use apl_format::render::pretty_format_condition;
use apl_format::script::process_line;
use apl_format::tokenizer::{tokenize_chars, tokenize_line};

fn chars(s: &str) -> Vec<char> {
    s.chars().collect()
}

fn words(s: &str) -> Vec<Vec<char>> {
    s.split_whitespace().map(chars).collect()
}

fn atom(s: &str) -> Expr {
    Expr::Atom(chars(s))
}

fn render(tokens: &str, level: usize) -> String {
    pretty_format_condition(&parse_expr(&words(tokens)), level)
}

#[test]
fn two_char_operators_stay_whole() {
    assert_eq!(tokenize_line("dmg<=5"), vec!["dmg", "<=", "5"]);
    assert_eq!(tokenize_line("hp>=10"), vec!["hp", ">=", "10"]);
    assert_eq!(tokenize_line("a<<=b"), vec!["a", "<", "<=", "b"]);
    assert_eq!(tokenize_line("a< =b"), vec!["a", "<", "=", "b"]);
}

#[test]
fn tokenizer_edge_cases() {
    assert!(tokenize_line("").is_empty());
    assert!(tokenize_line("  \t ").is_empty());
    assert_eq!(tokenize_line(" (a&b)|!c.d "), vec!["(", "a", "&", "b", ")", "|", "!c.d"]);
    assert_eq!(tokenize_line("x=1"), vec!["x", "=", "1"]);
}

#[test]
fn tokenizer_agrees_with_pattern() {
    let re = regex::Regex::new(r"(<=|>=|<|>|=|&|\||\(|\)|[^<>=&|\(\)\s]+)").unwrap();
    let samples = [
        "dmg<=5",
        "a and b or c",
        "buff.x.up&(cd.y<2|talent.z)",
        "  x >= 3 <= 4 == 5 ",
        "é ü\u{a0}ß=\u{3000}(t)",
        "((a))|b&&c",
    ];
    for s in samples {
        let expected: Vec<&str> = re.find_iter(s).map(|m| m.as_str()).collect();
        assert_eq!(tokenize_line(s), expected, "input {:?}", s);
    }
}

#[test]
fn or_binds_looser_than_and() {
    let e = parse_expr(&words("a and b or c"));
    assert_eq!(e, Expr::Or(vec![Expr::And(vec![atom("a"), atom("b")]), atom("c")]));
}

#[test]
fn outer_parentheses_are_stripped() {
    assert_eq!(parse_expr(&words("( a and b )")), parse_expr(&words("a and b")));
    assert_eq!(parse_expr(&words("( ( x ) )")), atom("x"));
}

#[test]
fn parentheses_hide_keywords() {
    let e = parse_expr(&words("( a or b ) and c"));
    assert_eq!(
        e,
        Expr::And(vec![Expr::Or(vec![atom("a"), atom("b")]), atom("c")])
    );
}

#[test]
fn two_groups_are_not_one_wrap() {
    assert_eq!(parse_expr(&words("( a ) x ( b )")), atom("( a ) x ( b )"));
}

#[test]
fn empty_parts_become_empty_atoms() {
    assert_eq!(parse_expr(&words("")), atom(""));
    assert_eq!(parse_expr(&words("a or")), Expr::Or(vec![atom("a"), atom("")]));
}

#[test]
fn render_atom_and_levels() {
    assert_eq!(render("x > 3", 0), "x > 3");
    assert_eq!(render("x > 3", 2), "        x > 3");
}

#[test]
fn render_conjunction_on_one_line() {
    assert_eq!(render("a and b and c", 1), "    a AND b AND c");
}

#[test]
fn render_disjunction_block() {
    assert_eq!(render("a or b or c", 1), "    a\n    OR b\n    OR c");
}

#[test]
fn render_disjunction_inside_conjunction() {
    assert_eq!(render("a and ( b or c )", 1), "    a AND (\n        b\n        OR c\n    )");
}

#[test]
fn render_nested_block_after_or() {
    assert_eq!(
        render("x or a and ( b or c )", 1),
        "    x\n    OR a AND (\n        b\n        OR c\n    )"
    );
}

#[test]
fn talent_markers_are_spelled_out() {
    let r = transform_condition("talent.foo.bar");
    assert!(r.contains("foo.bar talented"));
    assert_eq!(r, "    foo.bar talented");
    let n = transform_condition("!talent.x");
    assert!(n.contains("x not talented"));
    assert_eq!(n, "    x not talented");
}

#[test]
fn buff_prefixes_are_removed() {
    let r = transform_condition("buff.stacks>=3");
    assert!(!r.contains("buff."));
    assert_eq!(r, "    stacks >= 3");
    assert_eq!(transform_condition("debuff.a.up&mybuff.b"), "    a.up AND myb");
}

#[test]
fn operators_become_words() {
    assert_eq!(transform_condition("a&b|c"), "    a AND b\n    OR c");
    assert_eq!(transform_condition("! x"), "    not x");
}

#[test]
fn line_key_and_entry() {
    assert_eq!(process_line("actions.foo=bar"), Some(("foo".to_string(), "bar".to_string())));
    assert_eq!(
        process_line("actions+=/x,if=a|b"),
        Some(("actions".to_string(), "x:\n    a\n    OR b".to_string()))
    );
    assert_eq!(process_line("  key  =  spell  "), Some(("key".to_string(), "spell".to_string())));
}

#[test]
fn line_without_separator_is_ignored() {
    assert_eq!(process_line("just text"), None);
    assert_eq!(process_line(""), None);
}

#[test]
fn end_to_end_script() {
    let script = "actions.precombat=snapshot_stats\n\
                  actions+=/fireball,if=talent.pyromania&!debuff.burning\n\
                  actions+=/frostbolt,if=mana>50|talent.icy_veins\n";
    let groups = process_apl_grouped(script);
    assert_eq!(
        groups,
        vec![
            (
                "actions".to_string(),
                vec![
                    "fireball:\n    pyromania talented AND !burning".to_string(),
                    "frostbolt:\n    mana > 50\n    OR icy_veins talented".to_string(),
                ]
            ),
            ("precombat".to_string(), vec!["snapshot_stats".to_string()]),
        ]
    );
}

#[test]
fn groups_come_in_key_order() {
    let groups = process_apl_grouped("zeta=1\nalpha=2\nzeta=3");
    let keys: Vec<&str> = groups.iter().map(|g| g.0.as_str()).collect();
    assert_eq!(keys, vec!["alpha", "zeta"]);
    assert_eq!(groups[1].1, vec!["1".to_string(), "3".to_string()]);
}

#[test]
fn comments_and_blank_lines_are_skipped() {
    let groups = process_apl_grouped("# a=b\n\n   \r\n  # c=d\nfoo=bar\r\n");
    assert_eq!(groups, vec![("foo".to_string(), vec!["bar".to_string()])]);
    assert!(process_apl_grouped("").is_empty());
    assert!(process_apl_grouped("# only=comment").is_empty());
}

#[test]
fn tokens_of_chars() {
    assert_eq!(tokenize_chars(&chars("a>=b")), vec![chars("a"), chars(">="), chars("b")]);
}
