use mixfix::ast::Application;
use mixfix::ast::Fixity;
use mixfix::ast::Group;
use mixfix::ast::ParseError;
use mixfix::grouping::get_groups;
use mixfix::pratt::pratt_parser;

fn toks(s: &str) -> Vec<String> {
    s.split_whitespace().map(|t| t.to_string()).collect()
}

fn rule(markers: &[&str]) -> Vec<String> {
    markers.iter().map(|m| m.to_string()).collect()
}

fn arith_rules() -> Vec<Vec<String>> {
    vec![
        rule(&["+"]),
        rule(&["-"]),
        rule(&["*"]),
        rule(&["/"]),
        rule(&["(", ")"]),
        rule(&["x"]),
    ]
}

fn arith_levels() -> Vec<(String, Fixity)> {
    vec![
        ("+".to_string(), Fixity::Infix(1, 2)),
        ("-".to_string(), Fixity::Infix(1, 2)),
        ("*".to_string(), Fixity::Infix(3, 4)),
        ("/".to_string(), Fixity::Infix(3, 4)),
        ("x".to_string(), Fixity::Nonfix),
        ("(".to_string(), Fixity::Nonfix),
    ]
}

fn flatten_group(g: &Group, out: &mut Vec<String>) {
    out.push(g.head_part.clone());
    for (k, part) in g.name_parts.iter().enumerate() {
        for inner in &g.inner_groups[k] {
            flatten_group(inner, out);
        }
        out.push(part.clone());
    }
}

fn flatten_forest(gs: &[Group]) -> Vec<String> {
    let mut out = Vec::new();
    for g in gs {
        flatten_group(g, &mut out);
    }
    out
}

fn same_group(a: &Group, b: &Group) -> bool {
    a.head_part == b.head_part && a.name_parts == b.name_parts
        && a.inner_groups.len() == b.inner_groups.len()
        && a.inner_groups.iter().zip(b.inner_groups.iter()).all(|(x, y)| same_forest(x, y))
}

fn same_forest(a: &[Group], b: &[Group]) -> bool {
    a.len() == b.len() && a.iter().zip(b.iter()).all(|(x, y)| same_group(x, y))
}

#[test]
fn groups_atomic_tokens() {
    let tokens = toks("x x x");
    let (groups, pos) = get_groups(&tokens, 0, &arith_rules(), None).unwrap();
    assert_eq!(pos, 3);
    assert_eq!(groups.len(), 3);
    for g in &groups {
        assert_eq!(g.head_part, "x");
        assert_eq!(g.name_parts.len(), 0);
        assert_eq!(g.inner_groups.len(), 0);
    }
}

#[test]
fn groups_bracketed_expression() {
    let tokens = toks("( x + x )");
    let (groups, pos) = get_groups(&tokens, 0, &arith_rules(), None).unwrap();
    assert_eq!(pos, 5);
    assert_eq!(groups.len(), 1);
    let g = &groups[0];
    assert_eq!(g.head_part, "(");
    assert_eq!(g.name_parts, vec![")".to_string()]);
    assert_eq!(g.inner_groups.len(), 1);
    let inner: Vec<&str> = g.inner_groups[0].iter().map(|h| h.head_part.as_str()).collect();
    assert_eq!(inner, vec!["x", "+", "x"]);
}

#[test]
fn grouping_stops_at_end_marker_without_consuming() {
    let tokens = toks("x x )");
    let end = ")".to_string();
    let (groups, pos) = get_groups(&tokens, 0, &arith_rules(), Some(&end)).unwrap();
    assert_eq!(pos, 2);
    assert_eq!(groups.len(), 2);
}

#[test]
fn round_trip_structural_tokens() {
    let tokens = toks("x + ( x * ( x ) ) - x");
    let (groups, pos) = get_groups(&tokens, 0, &arith_rules(), None).unwrap();
    assert_eq!(pos, tokens.len());
    assert_eq!(flatten_forest(&groups), tokens);
}

#[test]
fn regrouping_flattened_forest_is_identical() {
    let tokens = toks("( x + ( x ) ) * x");
    let (groups, _) = get_groups(&tokens, 0, &arith_rules(), None).unwrap();
    let flat = flatten_forest(&groups);
    let (again, pos) = get_groups(&flat, 0, &arith_rules(), None).unwrap();
    assert_eq!(pos, flat.len());
    assert!(same_forest(&groups, &again));
}

#[test]
fn missing_closing_marker_is_unmatched_continuation() {
    let tokens = toks("( x + x");
    let err = get_groups(&tokens, 0, &arith_rules(), None).unwrap_err();
    match err {
        ParseError::UnmatchedContinuation { expected, found } => {
            assert_eq!(expected, ")");
            assert!(found.is_none());
        },
        _ => panic!("expected UnmatchedContinuation"),
    }
}

#[test]
fn rule_lookup_precedes_end_marker_check() {
    // "]" opens a rule of its own, so inside "(" it is consumed as a group
    // rather than stopping the inner walk; the ")" marker is then never found.
    let rules = vec![rule(&["(", ")"]), rule(&["x"]), rule(&["]"])];
    let tokens = toks("( x ]");
    let err = get_groups(&tokens, 0, &rules, None).unwrap_err();
    match err {
        ParseError::UnmatchedContinuation { expected, found } => {
            assert_eq!(expected, ")");
            assert!(found.is_none());
        },
        _ => panic!("expected UnmatchedContinuation"),
    }
}

#[test]
fn unknown_token_is_unknown_group_start() {
    let tokens = toks("x y");
    let err = get_groups(&tokens, 0, &arith_rules(), None).unwrap_err();
    match err {
        ParseError::UnknownGroupStart { token } => assert_eq!(token, "y"),
        _ => panic!("expected UnknownGroupStart"),
    }
}

#[test]
fn precedence_and_associativity() {
    let tokens = toks("x + x + x * x + ( x + x ) * x");
    let (groups, pos) = get_groups(&tokens, 0, &arith_rules(), None).unwrap();
    assert_eq!(pos, tokens.len());
    let (app, rest) = pratt_parser(&groups, 0, &arith_levels(), 0).unwrap();
    assert_eq!(rest, groups.len());
    assert_eq!(
        app.render(),
        "(_+_ (_+_ (_+_ (x) (x)) (_*_ (x) (x))) (_*_ ((_) (_+_ (x) (x))) (x)))"
    );
}

#[test]
fn division_groups_left_associative() {
    let tokens = toks("x / x / x");
    let (groups, _) = get_groups(&tokens, 0, &arith_rules(), None).unwrap();
    let (app, _) = pratt_parser(&groups, 0, &arith_levels(), 0).unwrap();
    assert_eq!(app.render(), "(_/_ (_/_ (x) (x)) (x))");
}

#[test]
fn prefix_power_decides_what_it_absorbs() {
    let rules = vec![rule(&["~"]), rule(&["*"]), rule(&["x"])];
    let tokens = toks("~ x * x");
    let (groups, _) = get_groups(&tokens, 0, &rules, None).unwrap();

    let tight = vec![
        ("~".to_string(), Fixity::Prefix(5)),
        ("*".to_string(), Fixity::Infix(3, 4)),
        ("x".to_string(), Fixity::Nonfix),
    ];
    let (app, rest) = pratt_parser(&groups, 0, &tight, 0).unwrap();
    assert_eq!(rest, groups.len());
    assert_eq!(app.render(), "(_*_ (_~ (x)) (x))");

    let loose = vec![
        ("~".to_string(), Fixity::Prefix(1)),
        ("*".to_string(), Fixity::Infix(3, 4)),
        ("x".to_string(), Fixity::Nonfix),
    ];
    let (app2, rest2) = pratt_parser(&groups, 0, &loose, 0).unwrap();
    assert_eq!(rest2, groups.len());
    assert_eq!(app2.render(), "(_~ (_*_ (x) (x)))");
}

#[test]
fn postfix_operator_takes_left_operand() {
    let rules = vec![rule(&["!"]), rule(&["+"]), rule(&["x"])];
    let levels = vec![
        ("!".to_string(), Fixity::Postfix(5)),
        ("+".to_string(), Fixity::Infix(1, 2)),
        ("x".to_string(), Fixity::Nonfix),
    ];
    let tokens = toks("x ! + x");
    let (groups, _) = get_groups(&tokens, 0, &rules, None).unwrap();
    let (app, rest) = pratt_parser(&groups, 0, &levels, 0).unwrap();
    assert_eq!(rest, groups.len());
    assert_eq!(app.render(), "(_+_ (!_ (x)) (x))");
}

#[test]
fn weak_postfix_is_left_for_the_caller() {
    let rules = vec![rule(&["!"]), rule(&["x"])];
    let levels = vec![
        ("!".to_string(), Fixity::Postfix(1)),
        ("x".to_string(), Fixity::Nonfix),
    ];
    let tokens = toks("x !");
    let (groups, _) = get_groups(&tokens, 0, &rules, None).unwrap();
    let (app, rest) = pratt_parser(&groups, 0, &levels, 3).unwrap();
    assert_eq!(app.render(), "(x)");
    assert_eq!(rest, 1);
}

#[test]
fn unknown_operator_names_the_head() {
    let rules = vec![rule(&["y"])];
    let tokens = toks("y");
    let (groups, _) = get_groups(&tokens, 0, &rules, None).unwrap();
    let levels: Vec<(String, Fixity)> = Vec::new();
    let err = pratt_parser(&groups, 0, &levels, 0).unwrap_err();
    match err {
        ParseError::UnknownOperator { head } => assert_eq!(head, "y"),
        _ => panic!("expected UnknownOperator"),
    }
}

#[test]
fn leading_infix_is_misplaced() {
    let tokens = toks("+ x");
    let (groups, _) = get_groups(&tokens, 0, &arith_rules(), None).unwrap();
    let err = pratt_parser(&groups, 0, &arith_levels(), 0).unwrap_err();
    match err {
        ParseError::MisplacedOperator { head } => assert_eq!(head, "+"),
        _ => panic!("expected MisplacedOperator"),
    }
}

#[test]
fn empty_forest_is_empty_expression() {
    let groups: Vec<Group> = Vec::new();
    let err = pratt_parser(&groups, 0, &arith_levels(), 0).unwrap_err();
    assert!(matches!(err, ParseError::EmptyExpression));
}

#[test]
fn leftover_inner_groups_fail_loudly() {
    let tokens = toks("( x x )");
    let (groups, _) = get_groups(&tokens, 0, &arith_rules(), None).unwrap();
    let err = pratt_parser(&groups, 0, &arith_levels(), 0).unwrap_err();
    assert!(matches!(err, ParseError::InnerForestNotConsumed));
}

#[test]
fn resolver_leaves_unconsumed_groups_to_the_caller() {
    let tokens = toks("x x");
    let (groups, _) = get_groups(&tokens, 0, &arith_rules(), None).unwrap();
    let (app, rest) = pratt_parser(&groups, 0, &arith_levels(), 0).unwrap();
    assert_eq!(app.render(), "(x)");
    assert_eq!(rest, 1);
}

#[test]
fn show_name_marks_operand_slots() {
    let g = Group {
        head_part: "if".to_string(),
        name_parts: vec!["then".to_string(), "else".to_string()],
        inner_groups: vec![Vec::new(), Vec::new()],
    };
    assert_eq!(g.show_name(Fixity::Nonfix), "if_then_else");
    assert_eq!(g.show_name(Fixity::Prefix(1)), "_if_then_else");
    assert_eq!(g.show_name(Fixity::Postfix(1)), "if_then_else_");
    assert_eq!(g.show_name(Fixity::Infix(1, 2)), "_if_then_else_");
}

#[test]
fn fixity_operand_sides() {
    assert!(Fixity::Infix(1, 2).has_prefix());
    assert!(Fixity::Infix(1, 2).has_postfix());
    assert!(Fixity::Prefix(1).has_prefix());
    assert!(!Fixity::Prefix(1).has_postfix());
    assert!(!Fixity::Postfix(1).has_prefix());
    assert!(Fixity::Postfix(1).has_postfix());
    assert!(!Fixity::Nonfix.has_prefix());
    assert!(!Fixity::Nonfix.has_postfix());
}

#[test]
fn render_writes_canonical_form() {
    let leaf = Application("x".to_string(), Vec::new());
    assert_eq!(leaf.render(), "(x)");
    let node = Application(
        "_+_".to_string(),
        vec![
            Application("x".to_string(), Vec::new()),
            Application("x".to_string(), Vec::new()),
        ],
    );
    assert_eq!(node.render(), "(_+_ (x) (x))");
}

#[test]
fn mixfix_rule_with_two_continuations() {
    let rules = vec![rule(&["if", "then", "else"]), rule(&["x"])];
    let levels = vec![
        ("if".to_string(), Fixity::Nonfix),
        ("x".to_string(), Fixity::Nonfix),
    ];
    let tokens = toks("if x then x else");
    let (groups, pos) = get_groups(&tokens, 0, &rules, None).unwrap();
    assert_eq!(pos, tokens.len());
    assert_eq!(groups.len(), 1);
    assert_eq!(groups[0].inner_groups.len(), 2);
    let (app, rest) = pratt_parser(&groups, 0, &levels, 0).unwrap();
    assert_eq!(rest, 1);
    assert_eq!(app.render(), "(if_then_else (x) (x))");
}

#[test]
fn empty_input_yields_empty_forest() {
    let tokens: Vec<String> = Vec::new();
    let (groups, pos) = get_groups(&tokens, 0, &arith_rules(), None).unwrap();
    assert_eq!(pos, 0);
    assert!(groups.is_empty());
}

#[test]
fn missing_right_operand_is_empty_expression() {
    let tokens = toks("x +");
    let (groups, _) = get_groups(&tokens, 0, &arith_rules(), None).unwrap();
    let err = pratt_parser(&groups, 0, &arith_levels(), 0).unwrap_err();
    assert!(matches!(err, ParseError::EmptyExpression));
}
