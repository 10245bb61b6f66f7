//! Compact text rendering of a value tree.
//!
//! Strings are quoted, with `"`, `\` and the control characters
//! escaped; numbers print their stored canonical text; arrays and
//! objects print their parts in order, separated by commas.

use vstd::prelude::*;
use vstd::string::*;

use crate::value::{Node, JsonValue};

verus! {

/// The lower hexadecimal digit for a value below sixteen.
pub open spec fn hex_digit(d: int) -> char {
    if d == 0 {
        '0'
    } else if d == 1 {
        '1'
    } else if d == 2 {
        '2'
    } else if d == 3 {
        '3'
    } else if d == 4 {
        '4'
    } else if d == 5 {
        '5'
    } else if d == 6 {
        '6'
    } else if d == 7 {
        '7'
    } else if d == 8 {
        '8'
    } else if d == 9 {
        '9'
    } else if d == 10 {
        'a'
    } else if d == 11 {
        'b'
    } else if d == 12 {
        'c'
    } else if d == 13 {
        'd'
    } else if d == 14 {
        'e'
    } else {
        'f'
    }
}

/// How one character appears inside a rendered string literal.
pub open spec fn escape_char(c: char) -> Seq<char> {
    if c == '"' {
        "\\\""@
    } else if c == '\\' {
        "\\\\"@
    } else if c == '\x08' {
        "\\b"@
    } else if c == '\t' {
        "\\t"@
    } else if c == '\n' {
        "\\n"@
    } else if c == '\x0c' {
        "\\f"@
    } else if c == '\r' {
        "\\r"@
    } else if (c as int) < 0x20 {
        "\\u00"@ + seq![hex_digit((c as int) / 0x10), hex_digit((c as int) % 0x10)]
    } else {
        seq![c]
    }
}

/// The body of a rendered string literal.
pub open spec fn escape_str(s: Seq<char>) -> Seq<char>
    decreases s.len(),
{
    if s.len() == 0 {
        Seq::empty()
    } else {
        escape_char(s[0]) + escape_str(s.drop_first())
    }
}

/// A rendered string literal: quoted and escaped.
pub open spec fn quoted(s: Seq<char>) -> Seq<char> {
    "\""@ + escape_str(s) + "\""@
}

/// The compact text of a node.
pub open spec fn render(n: Node) -> Seq<char>
    decreases n, 0int,
{
    match n {
        Node::Null => "null"@,
        Node::Bool(b) => if b {
            "true"@
        } else {
            "false"@
        },
        Node::Num(s) => s,
        Node::Text(s) => quoted(s),
        Node::Arr(items) => "["@ + render_items(items, 0) + "]"@,
        Node::Obj(es) => "{"@ + render_entries(es, 0) + "}"@,
    }
}

/// The comma-separated texts of the elements `items[i..]`.
pub open spec fn render_items(items: Seq<Node>, i: int) -> Seq<char>
    decreases items, items.len() - i + 1,
{
    if i < 0 || i >= items.len() {
        Seq::empty()
    } else if i == items.len() - 1 {
        render_one(items[i])
    } else {
        render_one(items[i]) + ","@ + render_items(items, i + 1)
    }
}

/// The text of one array element.
pub open spec fn render_one(n: Node) -> Seq<char>
    decreases n, 1int,
{
    render(n)
}

/// The comma-separated texts of the members `es[i..]`, each a quoted
/// key, a colon, and the member's text.
pub open spec fn render_entries(es: Seq<(Seq<char>, Node)>, i: int) -> Seq<char>
    decreases es, es.len() - i + 1,
{
    if i < 0 || i >= es.len() {
        Seq::empty()
    } else if i == es.len() - 1 {
        render_entry(es[i])
    } else {
        render_entry(es[i]) + ","@ + render_entries(es, i + 1)
    }
}

/// The text of one object member.
pub open spec fn render_entry(e: (Seq<char>, Node)) -> Seq<char>
    decreases e, 1int,
{
    quoted(e.0) + ":"@ + render_one(e.1)
}

/// How one character appears inside a rendered string literal.
fn escape_char_exec(c: char) -> (r: String)
    ensures
        r@ == escape_char(c),
{
    if c == '"' {
        "\\\"".to_owned()
    } else if c == '\\' {
        "\\\\".to_owned()
    } else if c == '\x08' {
        "\\b".to_owned()
    } else if c == '\t' {
        "\\t".to_owned()
    } else if c == '\n' {
        "\\n".to_owned()
    } else if c == '\x0c' {
        "\\f".to_owned()
    } else if c == '\r' {
        "\\r".to_owned()
    } else if (c as u32) < 0x20 {
        let d = c as u32;
        let hi: char = if d < 0x10 {
            '0'
        } else {
            '1'
        };
        let lo = d % 0x10;
        let lo_char: char = if lo == 0 {
            '0'
        } else if lo == 1 {
            '1'
        } else if lo == 2 {
            '2'
        } else if lo == 3 {
            '3'
        } else if lo == 4 {
            '4'
        } else if lo == 5 {
            '5'
        } else if lo == 6 {
            '6'
        } else if lo == 7 {
            '7'
        } else if lo == 8 {
            '8'
        } else if lo == 9 {
            '9'
        } else if lo == 10 {
            'a'
        } else if lo == 11 {
            'b'
        } else if lo == 12 {
            'c'
        } else if lo == 13 {
            'd'
        } else if lo == 14 {
            'e'
        } else {
            'f'
        };
        let mut out = "\\u00".to_owned();
        push_char(&mut out, hi);
        push_char(&mut out, lo_char);
        proof {
            assert(out@ =~= escape_char(c));
        }
        out
    } else {
        let mut out = String::new();
        push_char(&mut out, c);
        proof {
            assert(out@ =~= seq![c]);
        }
        out
    }
}

/// Relies on String::push: appends one character at the end.
#[verifier::external_body]
fn push_char(s: &mut String, c: char)
    ensures
        final(s)@ == old(s)@.push(c),
{
    s.push(c);
}

/// The body of a rendered string literal, from character `i` on.
fn escape_from(s: &str, i: usize) -> (r: String)
    requires
        i <= s@.len(),
    ensures
        r@ == escape_str(s@.skip(i as int)),
    decreases s@.len() - i,
{
    let n = s.unicode_len();
    if i == n {
        proof {
            assert(s@.skip(i as int) =~= Seq::<char>::empty());
        }
        return String::new();
    }
    let head = escape_char_exec(s.get_char(i));
    let rest = escape_from(s, i + 1);
    let out = head.concat(rest.as_str());
    proof {
        assert(s@.skip(i as int).drop_first() =~= s@.skip(i as int + 1));
        assert(s@.skip(i as int)[0] == s@[i as int]);
    }
    out
}

/// A rendered string literal: quoted and escaped.
fn quoted_exec(s: &str) -> (r: String)
    ensures
        r@ == quoted(s@),
{
    let body = escape_from(s, 0);
    proof {
        assert(s@.skip(0) =~= s@);
    }
    let open = "\"".to_owned();
    let out = open.concat(body.as_str()).concat("\"");
    out
}

/// The compact text of a value.
pub fn render_value(v: &JsonValue) -> (r: String)
    ensures
        r@ == render(v.node()),
    decreases v, 0int,
{
    match v {
        JsonValue::Null => "null".to_owned(),
        JsonValue::Bool(b) => if *b {
            "true".to_owned()
        } else {
            "false".to_owned()
        },
        JsonValue::Num(s) => clone_text(s),
        JsonValue::Text(s) => quoted_exec(s.as_str()),
        JsonValue::Arr(items) => {
            proof {
                assert(decreases_to!(*v => v->Arr_0));
            }
            let inner = render_values(items, 0);
            let out = "[".to_owned().concat(inner.as_str()).concat("]");
            out
        },
        JsonValue::Obj(entries) => {
            proof {
                assert(decreases_to!(*v => v->Obj_0));
            }
            let inner = render_members(entries, 0);
            let out = "{".to_owned().concat(inner.as_str()).concat("}");
            out
        },
    }
}

/// The comma-separated texts of the elements `items[i..]`.
fn render_values(items: &Vec<JsonValue>, i: usize) -> (r: String)
    requires
        i <= items@.len(),
    ensures
        r@ == render_items(crate::value::nodes_of(items@), i as int),
    decreases items, items@.len() - i + 1,
{
    proof {
        crate::value::lemma_nodes_of_len(items@);
    }
    let n = items.len();
    if i == n {
        return String::new();
    }
    proof {
        crate::value::lemma_nodes_of_index(items@, i as int);
        assert(decreases_to!(*items => items@));
        assert(decreases_to!(items@ => items@[i as int]));
    }
    let head = render_value(&items[i]);
    let ghost no = crate::value::nodes_of(items@);
    if i == n - 1 {
        proof {
            assert(render_items(no, i as int) == render_one(no[i as int]));
            assert(head@ == render_items(no, i as int));
        }
        head
    } else {
        let rest = render_values(items, i + 1);
        let out = head.concat(",").concat(rest.as_str());
        proof {
            assert(out@ == render_one(no[i as int]) + ","@ + render_items(no, i as int + 1));
            assert(render_items(no, i as int) == render_one(no[i as int]) + ","@ + render_items(
                no,
                i as int + 1,
            ));
        }
        out
    }
}

/// The comma-separated texts of the members `entries[i..]`.
fn render_members(entries: &Vec<(String, JsonValue)>, i: usize) -> (r: String)
    requires
        i <= entries@.len(),
    ensures
        r@ == render_entries(crate::value::entries_of(entries@), i as int),
    decreases entries, entries@.len() - i + 1,
{
    proof {
        crate::value::lemma_entries_of_len(entries@);
    }
    let n = entries.len();
    if i == n {
        return String::new();
    }
    proof {
        crate::value::lemma_entries_of_index(entries@, i as int);
        assert(decreases_to!(*entries => entries@));
        assert(decreases_to!(entries@ => entries@[i as int]));
        assert(decreases_to!(entries@[i as int] => entries@[i as int].1));
    }
    let key_text = quoted_exec(entries[i].0.as_str());
    let val_text = render_value(&entries[i].1);
    let head = key_text.concat(":").concat(val_text.as_str());
    let ghost eo = crate::value::entries_of(entries@);
    proof {
        assert(head@ == render_entry(eo[i as int]));
    }
    if i == n - 1 {
        proof {
            assert(render_entries(eo, i as int) == render_entry(eo[i as int]));
        }
        head
    } else {
        let rest = render_members(entries, i + 1);
        let out = head.concat(",").concat(rest.as_str());
        proof {
            assert(render_entries(eo, i as int) == render_entry(eo[i as int]) + ","@
                + render_entries(eo, i as int + 1));
        }
        out
    }
}

/// A copy of stored number text.
fn clone_text(s: &String) -> (r: String)
    ensures
        r@ == s@,
{
    s.clone()
}

} // verus!
