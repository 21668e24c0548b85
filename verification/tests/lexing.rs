use temporal_planner::error::ErrorKind;
use temporal_planner::lexer::{blank_comments, scan_tokens, TokenKind};
use temporal_planner::sexpr::{read_expressions, SExpr};
use temporal_planner::surface::{clean_pddl_content, extract_balanced_expression, tokenize_formula};
use temporal_planner::text::{chars_of, parse_decimal, parse_signed_decimal};

fn text(chars: &[char]) -> String {
    chars.iter().collect()
}

fn show(e: &SExpr) -> String {
    match e {
        SExpr::Atom(a) => text(a),
        SExpr::List(items) => {
            let inner: Vec<String> = items.iter().map(show).collect();
            format!("({})", inner.join(" "))
        }
    }
}

#[test]
fn comments_are_blanked_in_place() {
    let cleaned = blank_comments(&chars_of("(a ; b c\n d) ;e"));
    assert_eq!(text(&cleaned), "(a      \n d)   ");
}

#[test]
fn comment_ends_at_line_feed_only() {
    let cleaned = blank_comments(&chars_of(";x\r\ny;\n"));
    assert_eq!(text(&cleaned), "   \ny \n");
}

#[test]
fn tokens_carry_kind_text_and_offset() {
    let tokens = scan_tokens(&chars_of(" (at  ?x)b")).unwrap();
    let seen: Vec<(TokenKind, String, usize)> =
        tokens.iter().map(|t| (t.kind, text(&t.text), t.offset)).collect();
    assert_eq!(
        seen,
        vec![
            (TokenKind::Open, "(".to_string(), 1),
            (TokenKind::Atom, "at".to_string(), 2),
            (TokenKind::Atom, "?x".to_string(), 6),
            (TokenKind::Close, ")".to_string(), 8),
            (TokenKind::Atom, "b".to_string(), 9),
        ]
    );
}

#[test]
fn tabs_and_line_breaks_separate_atoms() {
    let tokens = scan_tokens(&chars_of("a\tb\nc\rd")).unwrap();
    assert_eq!(tokens.len(), 4);
}

#[test]
fn quoted_identifier_keeps_spaces_and_parentheses() {
    let tokens = scan_tokens(&chars_of("(\"a (b\" c)")).unwrap();
    let seen: Vec<String> = tokens.iter().map(|t| text(&t.text)).collect();
    assert_eq!(seen, vec!["(", "\"a (b\"", "c", ")"]);
}

#[test]
fn open_quote_is_malformed_at_the_quote() {
    let err = scan_tokens(&chars_of("(a \"b c)")).unwrap_err();
    assert_eq!(err.kind, ErrorKind::MalformedSyntax);
    assert_eq!(err.offset, Some(3));
}

#[test]
fn trees_nest_by_parentheses() {
    let trees = read_expressions("(a (b c) ()) d").unwrap();
    let seen: Vec<String> = trees.iter().map(show).collect();
    assert_eq!(seen, vec!["(a (b c) ())", "d"]);
}

#[test]
fn stray_close_is_malformed_at_its_offset() {
    let err = read_expressions("(a) )").unwrap_err();
    assert_eq!(err.kind, ErrorKind::MalformedSyntax);
    assert_eq!(err.offset, Some(4));
}

#[test]
fn list_left_open_is_malformed_at_its_opening() {
    let err = read_expressions("(a (b (c)").unwrap_err();
    assert_eq!(err.kind, ErrorKind::MalformedSyntax);
    assert_eq!(err.offset, Some(3));
}

#[test]
fn parenthesis_in_comment_does_not_count() {
    let trees = read_expressions("(a ; )\n)").unwrap();
    assert_eq!(trees.len(), 1);
}

#[test]
fn empty_text_has_no_trees() {
    assert!(read_expressions("  \n ; nothing").unwrap().is_empty());
}

#[test]
fn decimal_literals_in_ticks() {
    assert_eq!(parse_decimal(&chars_of("5")), Some(5_000_000));
    assert_eq!(parse_decimal(&chars_of("5.0")), Some(5_000_000));
    assert_eq!(parse_decimal(&chars_of("2.5")), Some(2_500_000));
    assert_eq!(parse_decimal(&chars_of("0.000001")), Some(1));
    assert_eq!(parse_decimal(&chars_of(".5")), Some(500_000));
    assert_eq!(parse_decimal(&chars_of("7.")), Some(7_000_000));
    assert_eq!(parse_decimal(&chars_of("999999999999.999999")), Some(999_999_999_999_999_999));
}

#[test]
fn what_is_no_decimal_literal() {
    for bad in ["", ".", "1.2.3", "1e3", "-1", "+1", "abc", "1 ", "0.0000001", "1000000000000"] {
        assert_eq!(parse_decimal(&chars_of(bad)), None, "{:?}", bad);
    }
}

#[test]
fn signed_decimal_literals() {
    assert_eq!(parse_signed_decimal(&chars_of("-3.5")), Some(-3_500_000));
    assert_eq!(parse_signed_decimal(&chars_of("3.5")), Some(3_500_000));
    assert_eq!(parse_signed_decimal(&chars_of("-0")), Some(0));
    assert_eq!(parse_signed_decimal(&chars_of("--1")), None);
    assert_eq!(parse_signed_decimal(&chars_of("-")), None);
}

#[test]
fn fault_offsets_count_bytes() {
    let err = read_expressions("(a) )").unwrap_err();
    assert_eq!(err.offset, Some(4));
    let err = read_expressions("(\u{e9}\u{4e16}\u{1f600}) )").unwrap_err();
    assert_eq!(err.offset, Some(12));
    let err = read_expressions("; \u{e9}\n (x \"y").unwrap_err();
    assert_eq!(err.offset, Some(9));
}

#[test]
fn cleaning_joins_words_by_single_spaces() {
    assert_eq!(clean_pddl_content("(a ; c\n b)"), "(a b)");
    assert_eq!(clean_pddl_content("  (a\t\tb \r\n c)  ; x"), "(a b c)");
    assert_eq!(clean_pddl_content("; only a comment"), "");
    assert_eq!(clean_pddl_content(""), "");
    assert_eq!(clean_pddl_content("a;b\n;c\nd"), "a d");
    let once = clean_pddl_content(" (define ; one\n\t(domain  d)) ");
    assert_eq!(once, "(define (domain d))");
    assert_eq!(clean_pddl_content(&once), once);
}

#[test]
fn first_group_is_taken_alone() {
    assert_eq!(extract_balanced_expression(" (a (b)) (c)"), "(a (b))");
    assert_eq!(extract_balanced_expression("()()"), "()");
    assert_eq!(extract_balanced_expression("x y (p q) z"), "(p q)");
    assert_eq!(extract_balanced_expression("no group"), "");
    assert_eq!(extract_balanced_expression("a (b (c)"), "(b (c)");
}

#[test]
fn formula_tokens_are_atoms_and_whole_groups() {
    assert_eq!(tokenize_formula("and (p) (q)").unwrap(), vec!["and", "(p)", "(q)"]);
    assert_eq!(tokenize_formula("()").unwrap(), vec!["()"]);
    assert_eq!(tokenize_formula("  at start\t(on ?x (f ?y)) ").unwrap(), vec!["at", "start", "(on ?x (f ?y))"]);
    assert_eq!(tokenize_formula("not(p)q").unwrap(), vec!["not", "(p)", "q"]);
    assert_eq!(tokenize_formula("a ; (b\n c").unwrap(), vec!["a", "c"]);
    assert_eq!(tokenize_formula("(\"a (b\" c)").unwrap(), vec!["(\"a (b\" c)"]);
    assert!(tokenize_formula("").unwrap().is_empty());
}

#[test]
fn formula_tokens_need_balance() {
    let open = tokenize_formula("and (p (q)").unwrap_err();
    assert_eq!(open.kind, ErrorKind::MalformedSyntax);
    assert_eq!(open.offset, Some(10));
    let close = tokenize_formula("(p)) (q").unwrap_err();
    assert_eq!(close.kind, ErrorKind::MalformedSyntax);
    assert_eq!(close.offset, Some(3));
    let quote = tokenize_formula("(p \"q)").unwrap_err();
    assert_eq!(quote.kind, ErrorKind::MalformedSyntax);
    assert_eq!(quote.offset, Some(3));
    let wide = tokenize_formula("\u{e9}) x").unwrap_err();
    assert_eq!(wide.offset, Some(2));
}
