//! Renders captured values as text: a compact single-line form and
//! an indented tree form.

#![verifier::loop_isolation(false)]

use vstd::prelude::*;

verus! {

use crate::text::char_string;
use crate::vm::Value;

/// The compact textual form of a value: characters and text as they
/// are, a node as its name and bracketed children, a list as its
/// bracketed items, an error as its label and optional message.
pub open spec fn value_fmt1_str(v: Value) -> Seq<char>
    decreases v, 1int, 0int,
{
    match v {
        Value::Chr(c) => seq![c],
        Value::Str(s) => s@,
        Value::Node { name, children } => name@ + seq!['['] + children_fmt1(children@, 0) + seq![
            ']',
        ],
        Value::List(items) => seq!['['] + children_fmt1(items@, 0) + seq![']'],
        Value::Error { label, message } => "Error["@ + label@ + (match message {
            Some(m) => ": "@ + m@,
            None => Seq::empty(),
        }) + seq![']'],
    }
}

/// The compact forms of the values from position `i` on, one after
/// another.
pub open spec fn children_fmt1(items: Seq<Value>, i: int) -> Seq<char>
    decreases items, 0int, items.len() - i,
{
    if i < 0 || i >= items.len() {
        Seq::empty()
    } else {
        value_fmt1_str(items[i]) + children_fmt1(items, i + 1)
    }
}

/// Four blanks for each indentation level.
pub open spec fn indent_str(n: int) -> Seq<char>
    decreases n when n >= 0
{
    if n <= 0 {
        Seq::empty()
    } else {
        indent_str(n - 1) + "    "@
    }
}

/// The indentation depth of a node's children: one level deeper,
/// until the depth counter is exhausted.
pub open spec fn next_indent(ind: int) -> int {
    if ind < usize::MAX {
        ind + 1
    } else {
        ind
    }
}

/// The indented textual form of a value at the given depth: one
/// quoted code point or text fragment per line, a node as its name
/// and its children on their own lines, a list as its braced items,
/// an error as its label and optional message.
pub open spec fn value_fmt2_str(v: Value, ind: int) -> Seq<char>
    decreases v, 1int, 0int,
{
    match v {
        Value::Chr(c) => indent_str(ind) + seq!['"'] + (if c == '\n' {
            seq!['\\', 'n']
        } else {
            seq![c]
        }) + seq!['"'],
        Value::Str(s) => indent_str(ind) + seq!['"'] + s@ + seq!['"'],
        Value::Node { name, children } => indent_str(ind) + name@ + ": ["@ + seq!['\n']
            + children_fmt2(children@, 0, next_indent(ind), seq!['\n']) + indent_str(ind) + seq![
            ']',
        ],
        Value::List(items) => indent_str(ind) + seq!['{'] + children_fmt2(
            items@,
            0,
            next_indent(ind),
            Seq::empty(),
        ) + indent_str(ind) + seq!['}'],
        Value::Error { label, message } => indent_str(ind) + "Error{"@ + label@ + (match message {
            Some(m) => ": "@ + m@,
            None => Seq::empty(),
        }) + seq!['}'],
    }
}

/// The indented forms of the values from position `i` on, each
/// followed by the given trailer.
pub open spec fn children_fmt2(items: Seq<Value>, i: int, ind: int, after: Seq<char>) -> Seq<char>
    decreases items, 0int, items.len() - i,
{
    if i < 0 || i >= items.len() {
        Seq::empty()
    } else {
        value_fmt2_str(items[i], ind) + after + children_fmt2(items, i + 1, ind, after)
    }
}

/// Four blanks for each indentation level.
fn indent_string(n: usize) -> (r: String)
    ensures
        r@ == indent_str(n as int),
{
    let mut s = String::new();
    let mut j: usize = 0;
    while j < n
        invariant
            j <= n,
            s@ == indent_str(j as int),
        decreases n - j,
    {
        s.append("    ");
        j += 1;
    }
    s
}

/// The compact forms of the values, one after another.
fn children_fmt1_string(items: &Vec<Value>) -> (r: String)
    ensures
        r@ == children_fmt1(items@, 0),
    decreases *items,
{
    let mut s = String::new();
    let mut j: usize = 0;
    while j < items.len()
        invariant
            j <= items@.len(),
            s@ + children_fmt1(items@, j as int) == children_fmt1(items@, 0),
        decreases items@.len() - j,
    {
        let ghost pre = s@;
        let item = value_fmt1(&items[j]);
        s.append(item.as_str());
        proof {
            assert(s@ + children_fmt1(items@, j + 1) =~= pre + children_fmt1(items@, j as int));
        }
        j += 1;
    }
    proof {
        assert(s@ + children_fmt1(items@, items@.len() as int) =~= s@);
    }
    s
}

/// Renders a value in its compact single-line form.
pub fn value_fmt1(value: &Value) -> (r: String)
    ensures
        r@ == value_fmt1_str(*value),
    decreases *value,
{
    match value {
        Value::Chr(c) => char_string(*c),
        Value::Str(v) => v.clone(),
        Value::Node { name, children } => {
            let mut s = name.clone();
            s.push('[');
            let body = children_fmt1_string(children);
            s.append(body.as_str());
            s.push(']');
            proof {
                assert(s@ =~= value_fmt1_str(*value));
            }
            s
        },
        Value::List(items) => {
            let mut s = char_string('[');
            let body = children_fmt1_string(items);
            s.append(body.as_str());
            s.push(']');
            proof {
                assert(s@ =~= value_fmt1_str(*value));
            }
            s
        },
        Value::Error { label, message } => {
            let mut s = "Error[".to_owned();
            s.append(label.as_str());
            match message {
                Some(m) => {
                    s.append(": ");
                    s.append(m.as_str());
                },
                None => {},
            }
            s.push(']');
            proof {
                assert(s@ =~= value_fmt1_str(*value));
            }
            s
        },
    }
}

/// The indented forms of the values, each followed by the given
/// trailer.
fn children_fmt2_string(items: &Vec<Value>, ind: usize, newline: bool) -> (r: String)
    ensures
        r@ == children_fmt2(
            items@,
            0,
            ind as int,
            if newline {
                seq!['\n']
            } else {
                Seq::<char>::empty()
            },
        ),
    decreases *items,
{
    let ghost after = if newline {
        seq!['\n']
    } else {
        Seq::<char>::empty()
    };
    let mut s = String::new();
    let mut j: usize = 0;
    while j < items.len()
        invariant
            j <= items@.len(),
            s@ + children_fmt2(items@, j as int, ind as int, after) == children_fmt2(
                items@,
                0,
                ind as int,
                after,
            ),
        decreases items@.len() - j,
    {
        let ghost pre = s@;
        let item = value_fmt2_at(&items[j], ind);
        s.append(item.as_str());
        if newline {
            s.push('\n');
        }
        proof {
            assert(item@ == value_fmt2_str(items@[j as int], ind as int));
            assert(s@ =~= pre + item@ + after);
            assert(s@ =~= pre + value_fmt2_str(items@[j as int], ind as int) + after);
            assert(children_fmt2(items@, j as int, ind as int, after) == value_fmt2_str(
                items@[j as int],
                ind as int,
            ) + after + children_fmt2(items@, j + 1, ind as int, after));
            assert(s@ + children_fmt2(items@, j + 1, ind as int, after) =~= pre + children_fmt2(
                items@,
                j as int,
                ind as int,
                after,
            ));
        }
        j += 1;
    }
    proof {
        assert(s@ + children_fmt2(items@, items@.len() as int, ind as int, after) =~= s@);
    }
    s
}

/// Renders a value at the given indentation depth.
fn value_fmt2_at(value: &Value, ind: usize) -> (r: String)
    ensures
        r@ == value_fmt2_str(*value, ind as int),
    decreases *value,
{
    let deeper: usize = if ind < usize::MAX {
        ind + 1
    } else {
        ind
    };
    match value {
        Value::Chr(c) => {
            let mut s = indent_string(ind);
            s.push('"');
            if *c == '\n' {
                s.push('\\');
                s.push('n');
            } else {
                s.push(*c);
            }
            s.push('"');
            proof {
                assert(s@ =~= value_fmt2_str(*value, ind as int));
            }
            s
        },
        Value::Str(v) => {
            let mut s = indent_string(ind);
            s.push('"');
            s.append(v.as_str());
            s.push('"');
            proof {
                assert(s@ =~= value_fmt2_str(*value, ind as int));
            }
            s
        },
        Value::Node { name, children } => {
            let mut s = indent_string(ind);
            s.append(name.as_str());
            s.append(": [");
            s.push('\n');
            let body = children_fmt2_string(children, deeper, true);
            s.append(body.as_str());
            let tail = indent_string(ind);
            s.append(tail.as_str());
            s.push(']');
            proof {
                assert(s@ =~= value_fmt2_str(*value, ind as int));
            }
            s
        },
        Value::List(items) => {
            let mut s = indent_string(ind);
            s.push('{');
            let body = children_fmt2_string(items, deeper, false);
            s.append(body.as_str());
            let tail = indent_string(ind);
            s.append(tail.as_str());
            s.push('}');
            proof {
                assert(s@ =~= value_fmt2_str(*value, ind as int));
            }
            s
        },
        Value::Error { label, message } => {
            let mut s = indent_string(ind);
            s.append("Error{");
            s.append(label.as_str());
            match message {
                Some(m) => {
                    s.append(": ");
                    s.append(m.as_str());
                },
                None => {},
            }
            s.push('}');
            proof {
                assert(s@ =~= value_fmt2_str(*value, ind as int));
            }
            s
        },
    }
}

/// Renders a value as an indented tree.
pub fn value_fmt2(value: &Value) -> (r: String)
    ensures
        r@ == value_fmt2_str(*value, 0),
{
    value_fmt2_at(value, 0)
}

/// The diagnostic textual form of a value: each variant spelled out
/// with its fields, like a derived debug rendering on one line.
pub open spec fn value_fmt0_str(v: Value) -> Seq<char>
    decreases v, 1int, 0int,
{
    match v {
        Value::Chr(c) => "Chr('"@ + seq![c] + "')"@,
        Value::Str(s) => "Str(\""@ + s@ + "\")"@,
        Value::Node { name, children } => "Node { name: \""@ + name@ + "\", children: ["@
            + children_fmt0(children@) + "] }"@,
        Value::List(items) => "List(["@ + children_fmt0(items@) + "])"@,
        Value::Error { label, message } => "Error { label: \""@ + label@ + "\", message: "@
            + (match message {
            Some(m) => "Some(\""@ + m@ + "\")"@,
            None => "None"@,
        }) + " }"@,
    }
}

/// The diagnostic forms of the values, separated by commas.
pub open spec fn children_fmt0(items: Seq<Value>) -> Seq<char>
    decreases items, 2int, 0int,
{
    if items.len() == 0 {
        Seq::empty()
    } else {
        value_fmt0_str(items[0]) + children_fmt0_rest(items, 1)
    }
}

/// The diagnostic forms of the values from position `i` on, each
/// with a comma before it.
pub open spec fn children_fmt0_rest(items: Seq<Value>, i: int) -> Seq<char>
    decreases items, 0int, items.len() - i,
{
    if i < 0 || i >= items.len() {
        Seq::empty()
    } else {
        ", "@ + value_fmt0_str(items[i]) + children_fmt0_rest(items, i + 1)
    }
}

/// The diagnostic forms of the values, separated by commas.
fn children_fmt0_string(items: &Vec<Value>) -> (r: String)
    ensures
        r@ == children_fmt0(items@),
    decreases *items,
{
    if items.len() == 0 {
        return String::new();
    }
    let mut s = value_fmt0(&items[0]);
    let mut j: usize = 1;
    while j < items.len()
        invariant
            1 <= j <= items@.len(),
            s@ + children_fmt0_rest(items@, j as int) == children_fmt0(items@),
        decreases items@.len() - j,
    {
        let ghost pre = s@;
        s.append(", ");
        let item = value_fmt0(&items[j]);
        s.append(item.as_str());
        proof {
            assert(s@ + children_fmt0_rest(items@, j + 1) =~= pre + children_fmt0_rest(
                items@,
                j as int,
            ));
        }
        j += 1;
    }
    proof {
        assert(s@ + children_fmt0_rest(items@, items@.len() as int) =~= s@);
    }
    s
}

/// Renders a value in a diagnostic form that spells out each
/// variant and its fields.
pub fn value_fmt0(value: &Value) -> (r: String)
    ensures
        r@ == value_fmt0_str(*value),
    decreases *value,
{
    match value {
        Value::Chr(c) => {
            let mut s = "Chr('".to_owned();
            s.push(*c);
            s.append("')");
            proof {
                assert(s@ =~= value_fmt0_str(*value));
            }
            s
        },
        Value::Str(v) => {
            let mut s = "Str(\"".to_owned();
            s.append(v.as_str());
            s.append("\")");
            proof {
                assert(s@ =~= value_fmt0_str(*value));
            }
            s
        },
        Value::Node { name, children } => {
            let mut s = "Node { name: \"".to_owned();
            s.append(name.as_str());
            s.append("\", children: [");
            let body = children_fmt0_string(children);
            s.append(body.as_str());
            s.append("] }");
            proof {
                assert(s@ =~= value_fmt0_str(*value));
            }
            s
        },
        Value::List(items) => {
            let mut s = "List([".to_owned();
            let body = children_fmt0_string(items);
            s.append(body.as_str());
            s.append("])");
            proof {
                assert(s@ =~= value_fmt0_str(*value));
            }
            s
        },
        Value::Error { label, message } => {
            let mut s = "Error { label: \"".to_owned();
            s.append(label.as_str());
            s.append("\", message: ");
            match message {
                Some(m) => {
                    s.append("Some(\"");
                    s.append(m.as_str());
                    s.append("\")");
                },
                None => {
                    s.append("None");
                },
            }
            s.append(" }");
            proof {
                assert(s@ =~= value_fmt0_str(*value));
            }
            s
        },
    }
}

} // verus!
