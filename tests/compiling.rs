use strem::compiler::{compile, parse_source, CompileError};
use strem::ir::{Node, OperandKind};
use strem::matcher::{horizon, regexify};
use strem::ops::{
    FolOperatorKind, Operator, RangeKind, RegexOperatorKind, S4mOperatorKind, S4uOperatorKind,
    SpatialOperatorKind,
};
use strem::parser::{parse_count, ParseError};

fn parse_error(src: &str) -> ParseError {
    match compile(src) {
        Err(CompileError::Parse(e)) => e,
        _ => panic!("expected a parse error"),
    }
}

#[test]
fn equal_formulas_share_a_symbol() {
    let ast = compile("[[:a:]][[:b:]][[:a:]]").ok().unwrap();
    assert_eq!(ast.table.len(), 2);
    assert_eq!(ast.table[0].0, 'a');
    assert_eq!(ast.table[1].0, 'b');
    assert_eq!(regexify(&ast), "((ab)a)");
}

#[test]
fn distinct_formulas_get_distinct_symbols() {
    let ast = compile("[[:car:]] [NonEmpty([:car:] & [:road:])] [[:car:]] [[:bus:]]").ok().unwrap();
    assert_eq!(ast.table.len(), 3);
    let symbols: Vec<char> = ast.table.iter().map(|e| e.0).collect();
    assert_eq!(symbols, vec!['a', 'b', 'c']);
    assert_eq!(regexify(&ast), "(((ab)a)c)");
}

#[test]
fn regexify_writes_every_operator() {
    let ast = compile("([[:a:]]|[[:b:]])*[[:c:]]{2}[[:d:]]{3,}[[:e:]]{1,4}").ok().unwrap();
    assert_eq!(regexify(&ast), "(((((a|b)*)(c{2}))(d{3,}))(e{1,4}))");
}

#[test]
fn empty_pattern_has_no_root() {
    let ast = compile("  ").ok().unwrap();
    assert!(ast.root.is_none());
    assert_eq!(regexify(&ast), "");
    assert_eq!(horizon(&ast), None);
}

#[test]
fn horizon_follows_the_rules() {
    assert_eq!(horizon(&compile("[[:a:]]").ok().unwrap()), Some(1));
    assert_eq!(horizon(&compile("[[:a:]]{2,3}").ok().unwrap()), Some(3));
    assert_eq!(horizon(&compile("[[:a:]]{4}").ok().unwrap()), Some(4));
    assert_eq!(horizon(&compile("[[:a:]][[:b:]]{2}").ok().unwrap()), Some(3));
    assert_eq!(horizon(&compile("([[:a:]][[:b:]])|[[:c:]]").ok().unwrap()), Some(2));
    assert_eq!(horizon(&compile("[[:a:]]*").ok().unwrap()), None);
    assert_eq!(horizon(&compile("[[:a:]]{2,}").ok().unwrap()), None);
    assert_eq!(horizon(&compile("([[:a:]]{2}[[:b:]])*").ok().unwrap()), None);
}

#[test]
fn range_after_comma_without_integer_is_open() {
    let ast = compile("[[:a:]]{2,}").ok().unwrap();
    match ast.root {
        Some(Node::UnaryExpr { op: Operator::RegexOperator(RegexOperatorKind::Range(RangeKind::AtLeast(2))), .. }) => {}
        _ => panic!("expected an open range"),
    }
}

#[test]
fn parses_quantifier_with_comparison() {
    let ast = compile("[E(a:=[:car:], b:=[:car:]) @dist(a,b) < 50]").ok().unwrap();
    assert_eq!(ast.table.len(), 1);
    match &ast.table[0].1 {
        Node::UnaryExpr { op: Operator::SpatialOperator(SpatialOperatorKind::S4uOperator(S4uOperatorKind::Exists(b))), child } => {
            assert_eq!(b.len(), 2);
            assert_eq!(b[0].0, "a");
            assert_eq!(b[1].0, "b");
            match child.as_ref() {
                Node::BinaryExpr { op: Operator::SpatialOperator(SpatialOperatorKind::FolOperator(FolOperatorKind::LessThan)), rhs, .. } => {
                    match rhs.as_ref() {
                        Node::Operand(OperandKind::Number(text)) => assert_eq!(text, "50"),
                        _ => panic!("expected a number"),
                    }
                }
                _ => panic!("expected a comparison"),
            }
        }
        _ => panic!("expected an existential"),
    }
}

#[test]
fn repeated_binding_replaces_the_earlier_one() {
    let ast = compile("[A(a:=[:car:], a:=[:bus:]) NonEmpty(a)]").ok().unwrap();
    match &ast.table[0].1 {
        Node::UnaryExpr { op: Operator::SpatialOperator(SpatialOperatorKind::S4uOperator(S4uOperatorKind::Forall(b))), .. } => {
            assert_eq!(b.len(), 1);
            match &b[0].1 {
                Node::Operand(OperandKind::Symbol(label)) => assert_eq!(label, "bus"),
                _ => panic!("expected a class"),
            }
        }
        _ => panic!("expected a universal"),
    }
}

#[test]
fn missing_token_is_an_expected_error() {
    let e = parse_error("[[:car:]");
    assert_eq!(e.code(), 1);
    match e {
        ParseError::Expected { line, col, .. } => assert_eq!((line, col), (1, 9)),
        _ => panic!("expected an expected-token error"),
    }
}

#[test]
fn bad_start_is_a_syntax_error() {
    let e = parse_error("*[[:car:]]");
    assert_eq!(e.code(), 2);
    match e {
        ParseError::Syntax { line, col } => assert_eq!((line, col), (1, 1)),
        _ => panic!("expected a syntax error"),
    }
}

#[test]
fn unknown_character_is_a_lex_error() {
    assert!(matches!(compile("[[:car:]] $"), Err(CompileError::Lex(_))));
}

#[test]
fn parse_count_reads_decimal() {
    assert_eq!(parse_count(&String::from("123")), Some(123));
    assert_eq!(parse_count(&String::from("0")), Some(0));
    assert_eq!(parse_count(&String::from("99999999999999999999999")), None);
    assert_eq!(parse_count(&String::from("1a")), None);
}

#[test]
fn parsing_twice_gives_the_same_tree() {
    let src = "([[:a:] & [:b:] | NonEmpty([:c:] | x)])* [ @x([:d:]) + 1 >= 2.5 ]{1,2}";
    let a = compile(src).ok().unwrap();
    let b = compile(src).ok().unwrap();
    assert_eq!(regexify(&a), regexify(&b));
    assert_eq!(a.table.len(), b.table.len());
    for (x, y) in a.table.iter().zip(b.table.iter()) {
        assert_eq!(x.0, y.0);
        assert!(strem::ir::formula_equal(&x.1, &y.1));
    }
}

#[test]
fn symbols_past_the_alphabet_continue_from_latin_extended() {
    let mut src = String::new();
    for i in 0..28 {
        src.push_str(&format!("[[:l{}:]]", i));
    }
    let ast = compile(&src).ok().unwrap();
    assert_eq!(ast.table.len(), 28);
    assert_eq!(ast.table[25].0, 'z');
    assert_eq!(ast.table[26].0, '\u{11a}');
    assert_eq!(ast.table[27].0, '\u{11b}');
}

#[test]
fn parse_source_gives_the_tree_or_the_error() {
    assert!(parse_source("").ok().unwrap().root.is_none());
    assert!(parse_source("[[:a:]]*").ok().unwrap().root.is_some());
    assert!(matches!(parse_source("[[:a:]] ]"), Err(CompileError::Parse(ParseError::Expected { .. }))));
    assert!(matches!(parse_source("[[:a:]] #"), Err(CompileError::Lex(_))));
}

#[test]
fn negation_binds_to_its_operand() {
    let ast = compile("[![:a:] & [:b:]]").ok().unwrap();
    match &ast.table[0].1 {
        Node::BinaryExpr { op: Operator::SpatialOperator(SpatialOperatorKind::FolOperator(FolOperatorKind::Conjunction)), lhs, .. } => {
            assert!(matches!(
                lhs.as_ref(),
                Node::UnaryExpr { op: Operator::SpatialOperator(SpatialOperatorKind::FolOperator(FolOperatorKind::Negation)), .. }
            ));
        }
        _ => panic!("expected a conjunction"),
    }
}

#[test]
fn concatenation_nests_to_the_left() {
    assert_eq!(regexify(&compile("[[:a:]][[:b:]][[:c:]]").ok().unwrap()), "((ab)c)");
    assert_eq!(regexify(&compile("[[:a:]][[:b:]]*").ok().unwrap()), "(a(b*))");
    assert_eq!(regexify(&compile("[[:a:]][[:b:]]|[[:c:]]").ok().unwrap()), "((ab)|c)");
    assert_eq!(regexify(&compile("[[:a:]]|[[:b:]]|[[:c:]]").ok().unwrap()), "(a|(b|c))");
}

#[test]
fn conjunction_and_disjunction_nest_to_the_left() {
    let ast = compile("[[:a:] & [:b:] | [:c:]]").ok().unwrap();
    match &ast.table[0].1 {
        Node::BinaryExpr { op: Operator::SpatialOperator(SpatialOperatorKind::FolOperator(FolOperatorKind::Disjunction)), lhs, rhs } => {
            assert!(matches!(
                lhs.as_ref(),
                Node::BinaryExpr { op: Operator::SpatialOperator(SpatialOperatorKind::FolOperator(FolOperatorKind::Conjunction)), .. }
            ));
            assert!(matches!(rhs.as_ref(), Node::Operand(OperandKind::Symbol(_))));
        }
        _ => panic!("expected a disjunction at the top"),
    }
}

#[test]
fn arithmetic_nests_to_the_left() {
    let ast = compile("[1 - 2 - 3 < 0]").ok().unwrap();
    match &ast.table[0].1 {
        Node::BinaryExpr { op: Operator::SpatialOperator(SpatialOperatorKind::FolOperator(FolOperatorKind::LessThan)), lhs, .. } => match lhs.as_ref() {
            Node::BinaryExpr { op: Operator::SpatialOperator(SpatialOperatorKind::S4mOperator(S4mOperatorKind::Subtraction)), lhs: inner, rhs } => {
                assert!(matches!(
                    inner.as_ref(),
                    Node::BinaryExpr { op: Operator::SpatialOperator(SpatialOperatorKind::S4mOperator(S4mOperatorKind::Subtraction)), .. }
                ));
                match rhs.as_ref() {
                    Node::Operand(OperandKind::Number(t)) => assert_eq!(t, "3"),
                    _ => panic!("expected the last operand on the right"),
                }
            }
            _ => panic!("expected a subtraction"),
        },
        _ => panic!("expected a comparison"),
    }
}

#[test]
fn a_zero_count_bounds_the_horizon_to_zero() {
    assert_eq!(horizon(&compile("(([[:a:]]{18446744073709551615}){2}){0}").ok().unwrap()), Some(0));
    assert_eq!(horizon(&compile("([[:a:]]{18446744073709551615}){2}").ok().unwrap()), None);
    assert_eq!(horizon(&compile("([[:a:]]*){0}").ok().unwrap()), None);
    assert_eq!(horizon(&compile("([[:a:]]{3}){2,0}").ok().unwrap()), Some(0));
}

#[test]
fn repeated_formula_takes_one_row() {
    let mut src = String::new();
    for _ in 0..40 {
        src.push_str("[[:car:]]");
    }
    let ast = compile(&src).ok().unwrap();
    assert_eq!(ast.table.len(), 1);
}

#[test]
fn leftover_token_is_an_expected_error_there() {
    match parse_error("[[:a:]])") {
        ParseError::Expected { line, col, expected, found } => {
            assert_eq!((line, col), (1, 8));
            assert_eq!(expected, strem::lexer::TokenKind::EndOfFile);
            assert_eq!(found, strem::lexer::TokenKind::RightParen);
        }
        _ => panic!("expected an expected-token error"),
    }
}

#[test]
fn numbers_of_equal_value_are_one_formula() {
    let ast = compile("[@x([:a:]) < 50][@x([:a:]) < 50.0][@x([:a:]) < 050.00]").ok().unwrap();
    assert_eq!(ast.table.len(), 1);
    assert_eq!(regexify(&ast), "((aa)a)");
    let ast = compile("[1 < 007.250]").ok().unwrap();
    match &ast.table[0].1 {
        Node::BinaryExpr { lhs, rhs, .. } => {
            assert!(matches!(lhs.as_ref(), Node::Operand(OperandKind::Number(t)) if t == "1"));
            assert!(matches!(rhs.as_ref(), Node::Operand(OperandKind::Number(t)) if t == "7.25"));
        }
        _ => panic!("expected a comparison"),
    }
    let ast = compile("[0.0 < 00]").ok().unwrap();
    match &ast.table[0].1 {
        Node::BinaryExpr { lhs, rhs, .. } => {
            assert!(matches!(lhs.as_ref(), Node::Operand(OperandKind::Number(t)) if t == "0"));
            assert!(matches!(rhs.as_ref(), Node::Operand(OperandKind::Number(t)) if t == "0"));
        }
        _ => panic!("expected a comparison"),
    }
}
