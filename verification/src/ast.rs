//! Abstract syntax of the grammar language: grammar definitions,
//! expressions built from the PEG operators, and the small expression
//! language of semantic actions.

#![verifier::loop_isolation(false)]

use vstd::prelude::*;

verus! {

use crate::text::{char_string, dec_str_nat, i64_string, int_str, usize_string};

/// A unary operator in a semantic-action expression.
#[derive(Debug, PartialEq)]
pub enum SemExprUnaryOp {
    Negative,
    Positive,
}

/// A literal value in a semantic-action expression.
#[derive(Debug, PartialEq)]
pub enum SemValue {
    Char(char),
    String(String),
    Variable(usize),
    Number(i64),
    Bool(bool),
    List(Vec<SemExpr>),
}

/// A semantic-action expression.
#[derive(Debug, PartialEq)]
pub enum SemExpr {
    UnaryOp(SemExprUnaryOp, Box<SemExpr>),
    Identifier(String),
    Call(String, Vec<SemExpr>),
    Value(SemValue),
}

/// A node of the grammar's abstract syntax tree.
#[derive(Debug, PartialEq)]
pub enum AST {
    Grammar(Vec<AST>),
    Definition(String, Box<AST>),
    LabelDefinition(String, String),
    SemanticAction(String, Box<SemExpr>),
    Sequence(Vec<AST>),
    Choice(Vec<AST>),
    And(Box<AST>),
    Not(Box<AST>),
    Optional(Box<AST>),
    ZeroOrMore(Box<AST>),
    OneOrMore(Box<AST>),
    Identifier(String),
    Precedence(Box<AST>, usize),
    Label(String, Box<AST>),
    Node(String, Vec<AST>),
    List(Vec<AST>),
    Char(char),
    String(String),
    Range(char, char),
    Any,
    Empty,
}

/// The textual form of a semantic-action value.
pub open spec fn sem_value_str(v: SemValue) -> Seq<char>
    decreases v, 1int, 0int,
{
    match v {
        SemValue::Char(c) => seq!['\'', c, '\''],
        SemValue::String(s) => seq!['"'] + s@ + seq!['"'],
        SemValue::Variable(n) => seq!['%'] + dec_str_nat(n as int),
        SemValue::Number(n) => int_str(n as int),
        SemValue::Bool(b) => if b {
            "true"@
        } else {
            "false"@
        },
        SemValue::List(items) => seq!['{'] + sem_exprs_str(items@) + seq!['}'],
    }
}

/// The textual form of a semantic-action expression.
pub open spec fn sem_expr_str(e: SemExpr) -> Seq<char>
    decreases e, 1int, 0int,
{
    match e {
        SemExpr::UnaryOp(op, b) => (match op {
            SemExprUnaryOp::Negative => seq!['-'],
            SemExprUnaryOp::Positive => seq!['+'],
        }) + sem_expr_str(*b),
        SemExpr::Identifier(s) => s@,
        SemExpr::Call(name, params) => name@ + seq!['('] + sem_exprs_str(params@) + seq![')'],
        SemExpr::Value(v) => sem_value_str(v),
    }
}

/// The textual form of a comma-separated expression list.
pub open spec fn sem_exprs_str(items: Seq<SemExpr>) -> Seq<char>
    decreases items, 2int, 0int,
{
    if items.len() == 0 {
        Seq::empty()
    } else {
        sem_expr_str(items[0]) + sem_exprs_rest(items, 1)
    }
}

/// The textual form of the expression list from position `i` on,
/// with a comma before each item.
pub open spec fn sem_exprs_rest(items: Seq<SemExpr>, i: int) -> Seq<char>
    decreases items, 0int, items.len() - i,
{
    if i < 0 || i >= items.len() {
        Seq::empty()
    } else {
        ", "@ + sem_expr_str(items[i]) + sem_exprs_rest(items, i + 1)
    }
}

/// The comma-separated textual form of the expressions.
pub fn sem_exprs_string(items: &Vec<SemExpr>) -> (r: String)
    ensures
        r@ == sem_exprs_str(items@),
    decreases *items,
{
    if items.len() == 0 {
        return String::new();
    }
    let mut s = items[0].to_string();
    let mut j: usize = 1;
    while j < items.len()
        invariant
            1 <= j <= items@.len(),
            s@ + sem_exprs_rest(items@, j as int) == sem_exprs_str(items@),
        decreases items@.len() - j,
    {
        let ghost pre = s@;
        s.append(", ");
        let item = items[j].to_string();
        s.append(item.as_str());
        proof {
            assert(s@ + sem_exprs_rest(items@, j + 1) =~= pre + sem_exprs_rest(items@, j as int));
        }
        j += 1;
    }
    proof {
        assert(s@ + sem_exprs_rest(items@, items@.len() as int) =~= s@);
    }
    s
}

impl SemValue {
    /// The textual form of this value.
    pub fn to_string(&self) -> (r: String)
        ensures
            r@ == sem_value_str(*self),
        decreases *self,
    {
        match self {
            SemValue::Char(c) => {
                let mut s = char_string('\'');
                s.push(*c);
                s.push('\'');
                proof {
                    assert(s@ =~= sem_value_str(*self));
                }
                s
            },
            SemValue::String(st) => {
                let mut s = char_string('"');
                s.append(st.as_str());
                s.push('"');
                proof {
                    assert(s@ =~= sem_value_str(*self));
                }
                s
            },
            SemValue::Variable(n) => {
                let mut s = char_string('%');
                let num = usize_string(*n);
                s.append(num.as_str());
                proof {
                    assert(s@ =~= sem_value_str(*self));
                }
                s
            },
            SemValue::Number(n) => i64_string(*n),
            SemValue::Bool(b) => {
                if *b {
                    "true".to_owned()
                } else {
                    "false".to_owned()
                }
            },
            SemValue::List(items) => {
                let mut s = char_string('{');
                let body = sem_exprs_string(items);
                s.append(body.as_str());
                s.push('}');
                proof {
                    assert(s@ =~= sem_value_str(*self));
                }
                s
            },
        }
    }
}

impl SemExpr {
    /// The textual form of this expression.
    pub fn to_string(&self) -> (r: String)
        ensures
            r@ == sem_expr_str(*self),
        decreases *self,
    {
        match self {
            SemExpr::UnaryOp(op, b) => {
                let mut s = match op {
                    SemExprUnaryOp::Negative => char_string('-'),
                    SemExprUnaryOp::Positive => char_string('+'),
                };
                let body = b.to_string();
                s.append(body.as_str());
                proof {
                    assert(s@ =~= sem_expr_str(*self));
                }
                s
            },
            SemExpr::Identifier(id) => id.clone(),
            SemExpr::Call(name, params) => {
                let mut s = name.clone();
                s.push('(');
                let body = sem_exprs_string(params);
                s.append(body.as_str());
                s.push(')');
                proof {
                    assert(s@ =~= sem_expr_str(*self));
                }
                s
            },
            SemExpr::Value(v) => v.to_string(),
        }
    }
}

/// The textual form of a grammar node.
pub open spec fn ast_str(a: AST) -> Seq<char>
    decreases a, 1int, 0int,
{
    match a {
        AST::Grammar(defs) => grammar_items_str(defs@, 0),
        AST::Definition(name, b) => name@ + " <- "@ + ast_str(*b),
        AST::LabelDefinition(l, s) => "label "@ + l@ + " = \""@ + s@ + seq!['"'],
        AST::SemanticAction(name, e) => name@ + " -> "@ + sem_expr_str(*e),
        AST::Sequence(items) => asts_str(items@, " "@),
        AST::Choice(items) => asts_str(items@, " / "@),
        AST::And(b) => seq!['&'] + ast_str(*b),
        AST::Not(b) => seq!['!'] + ast_str(*b),
        AST::Optional(b) => ast_str(*b) + seq!['?'],
        AST::ZeroOrMore(b) => ast_str(*b) + seq!['*'],
        AST::OneOrMore(b) => ast_str(*b) + seq!['+'],
        AST::Identifier(s) => s@,
        AST::Precedence(b, n) => ast_str(*b) + precedence_mark(n),
        AST::Label(l, b) => ast_str(*b) + seq!['^'] + l@,
        AST::Node(name, items) => seq!['{'] + name@ + ": "@ + asts_str(items@, " "@) + seq!['}'],
        AST::List(items) => seq!['{'] + asts_str(items@, " "@) + seq!['}'],
        AST::Char(c) => seq!['\'', c, '\''],
        AST::String(s) => seq!['"'] + s@ + seq!['"'],
        AST::Range(a2, b2) => seq![a2, '-', b2],
        AST::Any => seq!['.'],
        AST::Empty => Seq::empty(),
    }
}

/// The mark a precedence level is written with: a superscript digit
/// for levels one through nine, a caret and the decimal value
/// otherwise.
pub open spec fn precedence_mark(n: usize) -> Seq<char> {
    match n {
        1usize => seq!['\u{b9}'],
        2usize => seq!['\u{b2}'],
        3usize => seq!['\u{b3}'],
        4usize => seq!['\u{2074}'],
        5usize => seq!['\u{2075}'],
        6usize => seq!['\u{2076}'],
        7usize => seq!['\u{2077}'],
        8usize => seq!['\u{2078}'],
        9usize => seq!['\u{2079}'],
        _ => seq!['^'] + dec_str_nat(n as int),
    }
}

/// The textual form of a node list joined by a separator.
pub open spec fn asts_str(items: Seq<AST>, sep: Seq<char>) -> Seq<char>
    decreases items, 2int, 0int,
{
    if items.len() == 0 {
        Seq::empty()
    } else {
        ast_str(items[0]) + asts_rest(items, 1, sep)
    }
}

/// The textual form of the node list from position `i` on, with the
/// separator before each item.
pub open spec fn asts_rest(items: Seq<AST>, i: int, sep: Seq<char>) -> Seq<char>
    decreases items, 0int, items.len() - i,
{
    if i < 0 || i >= items.len() {
        Seq::empty()
    } else {
        sep + ast_str(items[i]) + asts_rest(items, i + 1, sep)
    }
}

/// The textual form of a grammar's items, one per line.
pub open spec fn grammar_items_str(items: Seq<AST>, i: int) -> Seq<char>
    decreases items, 0int, items.len() - i,
{
    if i < 0 || i >= items.len() {
        Seq::empty()
    } else {
        ast_str(items[i]) + seq!['\n'] + grammar_items_str(items, i + 1)
    }
}

/// The textual form of the nodes joined by the separator.
pub fn asts_join_string(items: &Vec<AST>, sep: &str) -> (r: String)
    ensures
        r@ == asts_str(items@, sep@),
    decreases *items,
{
    if items.len() == 0 {
        return String::new();
    }
    let mut s = items[0].to_string();
    let mut j: usize = 1;
    while j < items.len()
        invariant
            1 <= j <= items@.len(),
            s@ + asts_rest(items@, j as int, sep@) == asts_str(items@, sep@),
        decreases items@.len() - j,
    {
        let ghost pre = s@;
        s.append(sep);
        let item = items[j].to_string();
        s.append(item.as_str());
        proof {
            assert(s@ + asts_rest(items@, j + 1, sep@) =~= pre + asts_rest(
                items@,
                j as int,
                sep@,
            ));
        }
        j += 1;
    }
    proof {
        assert(s@ + asts_rest(items@, items@.len() as int, sep@) =~= s@);
    }
    s
}

/// The textual form of a grammar's items, one per line.
pub fn grammar_items_string(items: &Vec<AST>) -> (r: String)
    ensures
        r@ == grammar_items_str(items@, 0),
    decreases *items,
{
    let mut s = String::new();
    let mut j: usize = 0;
    while j < items.len()
        invariant
            0 <= j <= items@.len(),
            s@ + grammar_items_str(items@, j as int) == grammar_items_str(items@, 0),
        decreases items@.len() - j,
    {
        let ghost pre = s@;
        let item = items[j].to_string();
        s.append(item.as_str());
        s.push('\n');
        proof {
            assert(s@ + grammar_items_str(items@, j + 1) =~= pre + grammar_items_str(
                items@,
                j as int,
            ));
        }
        j += 1;
    }
    proof {
        assert(s@ + grammar_items_str(items@, items@.len() as int) =~= s@);
    }
    s
}

impl AST {
    /// The textual form of this node, in the grammar language's own
    /// syntax.
    pub fn to_string(&self) -> (r: String)
        ensures
            r@ == ast_str(*self),
        decreases *self,
    {
        match self {
            AST::Grammar(defs) => grammar_items_string(defs),
            AST::Definition(name, b) => {
                let mut s = name.clone();
                s.append(" <- ");
                let body = b.to_string();
                s.append(body.as_str());
                proof {
                    assert(s@ =~= ast_str(*self));
                }
                s
            },
            AST::LabelDefinition(l, st) => {
                let mut s = "label ".to_owned();
                s.append(l.as_str());
                s.append(" = \"");
                s.append(st.as_str());
                s.push('"');
                proof {
                    assert(s@ =~= ast_str(*self));
                }
                s
            },
            AST::SemanticAction(name, e) => {
                let mut s = name.clone();
                s.append(" -> ");
                let body = e.to_string();
                s.append(body.as_str());
                proof {
                    assert(s@ =~= ast_str(*self));
                }
                s
            },
            AST::Sequence(items) => asts_join_string(items, " "),
            AST::Choice(items) => asts_join_string(items, " / "),
            AST::And(b) => {
                let mut s = char_string('&');
                let body = b.to_string();
                s.append(body.as_str());
                proof {
                    assert(s@ =~= ast_str(*self));
                }
                s
            },
            AST::Not(b) => {
                let mut s = char_string('!');
                let body = b.to_string();
                s.append(body.as_str());
                proof {
                    assert(s@ =~= ast_str(*self));
                }
                s
            },
            AST::Optional(b) => {
                let mut s = b.to_string();
                s.push('?');
                s
            },
            AST::ZeroOrMore(b) => {
                let mut s = b.to_string();
                s.push('*');
                s
            },
            AST::OneOrMore(b) => {
                let mut s = b.to_string();
                s.push('+');
                s
            },
            AST::Identifier(id) => id.clone(),
            AST::Precedence(b, n) => {
                let mut s = b.to_string();
                let mark: Option<char> = match *n {
                    1usize => Some('\u{b9}'),
                    2usize => Some('\u{b2}'),
                    3usize => Some('\u{b3}'),
                    4usize => Some('\u{2074}'),
                    5usize => Some('\u{2075}'),
                    6usize => Some('\u{2076}'),
                    7usize => Some('\u{2077}'),
                    8usize => Some('\u{2078}'),
                    9usize => Some('\u{2079}'),
                    _ => None,
                };
                match mark {
                    Some(c) => {
                        s.push(c);
                    },
                    None => {
                        s.push('^');
                        let num = usize_string(*n);
                        s.append(num.as_str());
                    },
                }
                proof {
                    assert(s@ =~= ast_str(*self));
                }
                s
            },
            AST::Label(l, b) => {
                let mut s = b.to_string();
                s.push('^');
                s.append(l.as_str());
                proof {
                    assert(s@ =~= ast_str(*self));
                }
                s
            },
            AST::Node(name, items) => {
                let mut s = char_string('{');
                s.append(name.as_str());
                s.append(": ");
                let body = asts_join_string(items, " ");
                s.append(body.as_str());
                s.push('}');
                proof {
                    assert(s@ =~= ast_str(*self));
                }
                s
            },
            AST::List(items) => {
                let mut s = char_string('{');
                let body = asts_join_string(items, " ");
                s.append(body.as_str());
                s.push('}');
                proof {
                    assert(s@ =~= ast_str(*self));
                }
                s
            },
            AST::Char(c) => {
                let mut s = char_string('\'');
                s.push(*c);
                s.push('\'');
                proof {
                    assert(s@ =~= ast_str(*self));
                }
                s
            },
            AST::String(st) => {
                let mut s = char_string('"');
                s.append(st.as_str());
                s.push('"');
                proof {
                    assert(s@ =~= ast_str(*self));
                }
                s
            },
            AST::Range(a2, b2) => {
                let mut s = char_string(*a2);
                s.push('-');
                s.push(*b2);
                proof {
                    assert(s@ =~= ast_str(*self));
                }
                s
            },
            AST::Any => char_string('.'),
            AST::Empty => String::new(),
        }
    }
}

} // verus!
