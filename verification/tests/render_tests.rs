use langlang::ast::{SemExpr, SemValue, AST};
use langlang::format::{value_fmt0, value_fmt1, value_fmt2};
use langlang::parser::{expand, Error, Parser};
use langlang::text::{i64_string, u64_string, usize_string};
use langlang::vm::Value;

#[test]
fn top_level_error_wraps_both_sides() {
    let pe = Error::ParseIntError("x".to_string());
    let e1 = langlang::Error::from(pe);
    assert!(matches!(e1, langlang::Error::ParserError(_)));
    let ve = langlang::vm::Error::Fail;
    let e2 = langlang::Error::from(ve);
    assert!(matches!(e2, langlang::Error::RuntimeError(_)));
}

#[test]
fn unsigned_rendering() {
    assert_eq!("0", u64_string(0).as_str());
    assert_eq!("7", u64_string(7).as_str());
    assert_eq!("10", u64_string(10).as_str());
    assert_eq!("65535", u64_string(65535).as_str());
    assert_eq!("18446744073709551615", u64_string(u64::MAX).as_str());
    assert_eq!("123", usize_string(123).as_str());
}

#[test]
fn signed_rendering() {
    assert_eq!("0", i64_string(0).as_str());
    assert_eq!("42", i64_string(42).as_str());
    assert_eq!("-42", i64_string(-42).as_str());
    assert_eq!("-9223372036854775808", i64_string(i64::MIN).as_str());
    assert_eq!("9223372036854775807", i64_string(i64::MAX).as_str());
}

#[test]
fn sem_value_rendering() {
    assert_eq!("-42", SemValue::Number(-42).to_string().as_str());
    assert_eq!("'x'", SemValue::Char('x').to_string().as_str());
    assert_eq!("\"hi\"", SemValue::String("hi".to_string()).to_string().as_str());
    assert_eq!("%3", SemValue::Variable(3).to_string().as_str());
    let list = SemValue::List(vec![
        SemExpr::Value(SemValue::Number(1)),
        SemExpr::Value(SemValue::Number(2)),
    ]);
    assert_eq!("{1, 2}", list.to_string().as_str());
    let neg = SemExpr::UnaryOp(
        langlang::ast::SemExprUnaryOp::Negative,
        Box::new(SemExpr::Value(SemValue::Number(5))),
    );
    assert_eq!("-5", neg.to_string().as_str());
}

#[test]
fn ast_rendering() {
    let def = AST::Definition(
        "A".to_string(),
        Box::new(AST::Sequence(vec![AST::Char('a'), AST::Any])),
    );
    assert_eq!("A <- 'a' .", def.to_string().as_str());
    let choice = AST::Choice(vec![AST::Char('a'), AST::Char('b')]);
    assert_eq!("'a' / 'b'", choice.to_string().as_str());
    let star = AST::ZeroOrMore(Box::new(AST::Identifier("B".to_string())));
    assert_eq!("B*", star.to_string().as_str());
    let not = AST::Not(Box::new(AST::Char('f')));
    assert_eq!("!'f'", not.to_string().as_str());
}

#[test]
fn value_fmt1_renders_tree() {
    let v = Value::Node {
        name: "G".to_string(),
        children: vec![
            Value::Chr('a'),
            Value::Str("bc".to_string()),
            Value::List(vec![Value::Chr('d')]),
            Value::Error { label: "eof".to_string(), message: Some("end".to_string()) },
        ],
    };
    assert_eq!("G[abc[d]Error[eof: end]]", value_fmt1(&v).as_str());
}

#[test]
fn value_fmt0_spells_out_variants() {
    let v = Value::Node {
        name: "G".to_string(),
        children: vec![
            Value::Chr('a'),
            Value::Error { label: "e".to_string(), message: None },
        ],
    };
    assert_eq!(
        "Node { name: \"G\", children: [Chr('a'), Error { label: \"e\", message: None }] }",
        value_fmt0(&v).as_str()
    );
}

#[test]
fn value_fmt1_error_without_message() {
    let v = Value::Error { label: "syntax".to_string(), message: None };
    assert_eq!("Error[syntax]", value_fmt1(&v).as_str());
}

#[test]
fn value_fmt2_indents_children() {
    let v = Value::Node {
        name: "G".to_string(),
        children: vec![Value::Chr('a'), Value::Chr('\n')],
    };
    assert_eq!("G: [\n    \"a\"\n    \"\\n\"\n]", value_fmt2(&v).as_str());
}

#[test]
fn expand_wraps_definitions() {
    let g = AST::Grammar(vec![AST::Definition(
        "A".to_string(),
        Box::new(AST::Char('a')),
    )]);
    let out = expand(g);
    assert!(out.is_ok());
    assert_eq!(
        AST::Grammar(vec![AST::Definition(
            "A".to_string(),
            Box::new(AST::Node("A".to_string(), vec![AST::Char('a')])),
        )]),
        out.unwrap()
    );
}

#[test]
fn expand_keeps_other_nodes() {
    let out = expand(AST::Char('x'));
    assert_eq!(AST::Char('x'), out.unwrap());
}

#[test]
fn decimal_number_too_large() {
    let mut p = Parser::new("99999999999999999999");
    let o = p.parse_decimal_number();
    assert!(matches!(o, Err(Error::ParseIntError(_))));
}

#[test]
fn number_at_i64_limit() {
    let mut p = Parser::new("9223372036854775807");
    assert_eq!(9223372036854775807i64, p.parse_decimal_number().unwrap());
}

#[test]
fn hexadecimal_uppercase() {
    let mut p = Parser::new("0xFF");
    let o = p.parse_number();
    assert_eq!(SemValue::Number(255), o.unwrap());
}

#[test]
fn literal_escapes() {
    let mut p = Parser::new("'a\\nb'");
    let o = p.parse_literal_string();
    assert_eq!("a\nb".to_string(), o.unwrap());
}

#[test]
fn identifier_and_spacing() {
    let mut p = Parser::new("foo_Bar1  rest");
    let o = p.parse_identifier();
    assert_eq!("foo_Bar1".to_string(), o.unwrap());
    assert_eq!(10, p.cursor);
}

#[test]
fn eol_consumes_crlf_pair() {
    let mut p = Parser::new("\r\nx");
    assert!(p.parse_eol().is_ok());
    assert_eq!(2, p.cursor);
}

#[test]
fn class_becomes_choice() {
    let mut p = Parser::new("[a-z_]");
    let o = p.parse_class();
    assert_eq!(vec![AST::Range('a', 'z'), AST::Char('_')], o.unwrap());
}

#[test]
fn grammar_with_comment() {
    let mut p = Parser::new("# leading note\nA <- 'a'\n");
    let ast = p.parse_grammar();
    assert!(ast.is_ok());
}

#[test]
fn one_or_more_requires_first() {
    let mut p = Parser::new("123x");
    let o = p.one_or_more(vec![langlang::parser::Matcher::ExpectRange('0', '9')]);
    assert_eq!(vec!['1', '2', '3'], o.unwrap());
    assert_eq!(3, p.cursor);
    let mut q = Parser::new("x");
    assert!(q.one_or_more(vec![langlang::parser::Matcher::ExpectRange('0', '9')]).is_err());
    assert_eq!(0, q.cursor);
}
