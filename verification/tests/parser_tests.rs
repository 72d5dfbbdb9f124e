use langlang::ast::{SemValue, AST};
use langlang::parser::{Error, Matcher, Parser};

#[test]
fn test_parse_decimal_number_0() {
    let mut p = Parser::new("0");
    let o = p.parse_number();
    assert!(o.is_ok());
    let u = o.unwrap();
    assert_eq!(SemValue::Number(0), u);
    assert_eq!("0".to_string(), u.to_string());
}

#[test]
fn test_parse_decimal_number_1() {
    let mut p = Parser::new("1");
    let o = p.parse_number();
    assert!(o.is_ok());
    let u = o.unwrap();
    assert_eq!(SemValue::Number(1), u);
    assert_eq!("1".to_string(), u.to_string());
}

#[test]
fn test_parse_decimal_number_2() {
    let mut p = Parser::new("321");
    let o = p.parse_number();
    assert!(o.is_ok());
    let u = o.unwrap();
    assert_eq!(SemValue::Number(321), u);
    assert_eq!("321".to_string(), u.to_string());
}

#[test]
fn test_parse_hexadecimal_number() {
    let mut p = Parser::new("0xfada");
    let o = p.parse_number();
    assert!(o.is_ok());
    let u = o.unwrap();
    assert_eq!(SemValue::Number(0xfada), u);
    assert_eq!("64218".to_string(), u.to_string());
}

#[test]
fn test_parse_sem_expr_decimal_num() {
    let mut p = Parser::new("A -> 0");
    let ast = p.parse_grammar();
    assert!(ast.is_ok());
    assert_eq!("A -> 0\n".to_string(), ast.unwrap().to_string());
}

#[test]
fn test_parse_sem_expr_hex_num() {
    let mut p = Parser::new("A -> 0xff");
    let ast = p.parse_grammar();
    assert!(ast.is_ok());
    assert_eq!("A -> 255\n".to_string(), ast.unwrap().to_string());
}

#[test]
fn test_parse_sem_expr_literal_0() {
    let mut p = Parser::new("A -> 'c'");
    let ast = p.parse_grammar();
    assert!(ast.is_ok());
    assert_eq!("A -> 'c'\n".to_string(), ast.unwrap().to_string());
}

#[test]
fn test_parse_sem_expr_literal_1() {
    let mut p = Parser::new("A -> 'foo'");
    let ast = p.parse_grammar();
    assert!(ast.is_ok());
    assert_eq!("A -> \"foo\"\n".to_string(), ast.unwrap().to_string());
}

#[test]
fn test_parse_sem_expr_variable() {
    let mut p = Parser::new("A -> %0");
    let ast = p.parse_grammar();
    assert!(ast.is_ok());
    assert_eq!("A -> %0\n".to_string(), ast.unwrap().to_string());
}

#[test]
fn test_parse_sem_expr_bool_true() {
    let mut p = Parser::new("true");
    let o = p.parse_bool();
    assert!(o.is_ok());
    let v = o.unwrap();
    assert_eq!("true".to_string(), v.to_string());
    assert_eq!(SemValue::Bool(true), v)
}

#[test]
fn test_parse_sem_expr_bool_false() {
    let mut p = Parser::new("false");
    let o = p.parse_bool();
    assert!(o.is_ok());
    let v = o.unwrap();
    assert_eq!("false".to_string(), v.to_string());
    assert_eq!(SemValue::Bool(false), v)
}

#[test]
fn test_parse_sem_expr_call() {
    let mut p = Parser::new("A -> discard()");
    let ast = p.parse_grammar();
    assert!(ast.is_ok());
    assert_eq!("A -> discard()\n".to_string(), ast.unwrap().to_string());
}

#[test]
fn test_parse_sem_expr_call_one_param() {
    let mut p = Parser::new("A -> cons(%0)");
    let ast = p.parse_grammar();
    assert!(ast.is_ok());
    assert_eq!("A -> cons(%0)\n".to_string(), ast.unwrap().to_string());
}

#[test]
fn test_parse_sem_expr_call_multiparam() {
    let mut p = Parser::new("A -> cons(%0, %1)");
    let ast = p.parse_grammar();
    assert!(ast.is_ok());
    assert_eq!("A -> cons(%0, %1)\n".to_string(), ast.unwrap().to_string());
}

#[test]
fn test_precedence_syntax() {
    let mut p = Parser::new(
        "
            A <- A¹ '+' A² / 'n'
            ",
    );
    let ast = p.parse_grammar();
    assert!(ast.is_ok());
    assert_eq!(
        AST::Grammar(vec![AST::Definition(
            "A".to_string(),
            Box::new(AST::Choice(vec![
                AST::Sequence(vec![
                    AST::Precedence(Box::new(AST::Identifier("A".to_string())), 1),
                    AST::Char('+'),
                    AST::Precedence(Box::new(AST::Identifier("A".to_string())), 2),
                ]),
                AST::Sequence(vec![AST::Char('n'),])
            ])),
        ),]),
        ast.unwrap(),
    );
}

#[test]
fn structure_empty() {
    let mut p = Parser::new(
        "A <- 'a' /
             B <- 'b'
            ",
    );
    let out = p.parse_grammar();

    assert!(out.is_ok());
    assert_eq!(
        AST::Grammar(vec![
            AST::Definition(
                "A".to_string(),
                Box::new(AST::Choice(vec![
                    AST::Sequence(vec![AST::Char('a')]),
                    AST::Sequence(vec![AST::Empty])
                ]))
            ),
            AST::Definition(
                "B".to_string(),
                Box::new(AST::Sequence(vec![AST::Char('b')])),
            ),
        ]),
        out.unwrap()
    );
}

#[test]
fn choice_pick_none() -> Result<(), Error> {
    let mut parser = Parser::new("e");
    let out = parser.choice(vec![
        Matcher::Expect('a'),
        Matcher::Expect('b'),
        Matcher::Expect('c'),
        Matcher::Expect('d'),
    ]);

    assert!(out.is_err());
    assert_eq!(0, parser.cursor);

    Ok(())
}

#[test]
fn choice_pick_last() -> Result<(), Error> {
    let mut parser = Parser::new("d");
    let out = parser.choice(vec![
        Matcher::Expect('a'),
        Matcher::Expect('b'),
        Matcher::Expect('c'),
        Matcher::Expect('d'),
    ]);

    assert!(out.is_ok());
    assert_eq!(1, parser.cursor);

    Ok(())
}

#[test]
fn choice_pick_first() -> Result<(), Error> {
    let mut parser = Parser::new("a");
    let out = parser.choice(vec![Matcher::Expect('a')]);

    assert!(out.is_ok());
    assert_eq!(1, parser.cursor);

    Ok(())
}

#[test]
fn not_success_on_err() -> Result<(), Error> {
    let mut parser = Parser::new("a");
    let out = parser.not(Matcher::Expect('b'));

    assert!(out.is_ok());
    assert_eq!(0, parser.cursor);

    Ok(())
}

#[test]
fn not_err_on_match() -> Result<(), Error> {
    let mut parser = Parser::new("a");
    let out = parser.not(Matcher::Expect('a'));

    assert!(out.is_err());
    assert_eq!(0, parser.cursor);

    Ok(())
}

#[test]
fn zero_or_more() -> Result<(), Error> {
    let mut parser = Parser::new("ab2");

    let prefix = parser.zero_or_more(vec![Matcher::ExpectRange('a', 'z')])?;

    assert_eq!(vec!['a', 'b'], prefix);
    assert_eq!(2, parser.cursor);

    Ok(())
}
