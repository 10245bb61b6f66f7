//! Literal coercion: reading the raw text of a write into a value.
//!
//! The type is inferred by trial, in a fixed order: empty text is the
//! empty string; then a number literal; then the exact words `true`,
//! `false` and `null`; then a bracketed list, split on commas with no
//! nesting awareness; anything else is the text itself.

use core::str::FromStr;

use vstd::prelude::*;
use vstd::string::*;

use crate::path::{lemma_split_sep_piece_len, split_sep, split_sep_exec};
use crate::value::{lemma_nodes_of_eq, Node, JsonValue};

verus! {

/// The canonical text of a fragment read as a JSON number, when the
/// fragment reads as one.
pub uninterp spec fn json_num(s: Seq<char>) -> Option<Seq<char>>;

/// Relies on serde_json::Number: its text parser decides from the
/// characters alone whether a fragment is a JSON number, and its
/// rendering gives that number one canonical text; a number literal
/// begins with a digit or a minus sign.
#[verifier::external_body]
fn num_canon(raw: &str) -> (r: Option<String>)
    ensures
        r is Some <==> json_num(raw@) is Some,
        r matches Some(t) ==> json_num(raw@) == Some(t@),
        r is Some ==> raw@.len() > 0 && (raw@[0] == '-' || ('0' <= raw@[0] && raw@[0] <= '9')),
{
    match serde_json::Number::from_str(raw) {
        Ok(n) => Some(n.to_string()),
        Err(_) => None,
    }
}

/// The value that raw text coerces to.
pub open spec fn coerce_spec(s: Seq<char>) -> Node
    decreases s.len(), 1int, 0int,
{
    if s.len() == 0 {
        Node::Text(s)
    } else if json_num(s) is Some {
        Node::Num(json_num(s)->0)
    } else if s == "true"@ {
        Node::Bool(true)
    } else if s == "false"@ {
        Node::Bool(false)
    } else if s == "null"@ {
        Node::Null
    } else if s[0] == '[' && s[s.len() - 1] == ']' {
        Node::Arr(coerce_pieces(split_sep(s.subrange(1, s.len() - 1), ','), s.len() - 1))
    } else {
        Node::Text(s)
    }
}

/// The values that the comma-separated pieces of a bracketed list
/// coerce to.  Every piece of a list literal is at least two
/// characters shorter than the literal, so the bound is never hit.
pub open spec fn coerce_pieces(pieces: Seq<Seq<char>>, bound: int) -> Seq<Node>
    decreases bound, 0int, pieces.len(),
{
    if pieces.len() == 0 {
        Seq::empty()
    } else {
        let head = if pieces[0].len() < bound {
            coerce_spec(pieces[0])
        } else {
            Node::Null
        };
        seq![head] + coerce_pieces(pieces.drop_first(), bound)
    }
}

pub proof fn lemma_coerce_pieces_index(pieces: Seq<Seq<char>>, bound: int, i: int)
    requires
        0 <= i < pieces.len(),
    ensures
        coerce_pieces(pieces, bound).len() == pieces.len(),
        coerce_pieces(pieces, bound)[i] == (if pieces[i].len() < bound {
            coerce_spec(pieces[i])
        } else {
            Node::Null
        }),
    decreases pieces.len(),
{
    lemma_coerce_pieces_len(pieces, bound);
    if i > 0 {
        lemma_coerce_pieces_index(pieces.drop_first(), bound, i - 1);
    }
}

pub proof fn lemma_coerce_pieces_len(pieces: Seq<Seq<char>>, bound: int)
    ensures
        coerce_pieces(pieces, bound).len() == pieces.len(),
    decreases pieces.len(),
{
    if pieces.len() > 0 {
        lemma_coerce_pieces_len(pieces.drop_first(), bound);
    }
}

/// Coerces raw text into a value, inferring the type by trial in a
/// fixed order.  Total: any text that fits nothing else is a string.
pub fn coerce(raw: &String) -> (v: JsonValue)
    ensures
        v.node() == coerce_spec(raw@),
    decreases raw@.len(),
{
    let n = raw.as_str().unicode_len();
    if n == 0 {
        let empty = String::new();
        proof {
            assert(empty@ =~= raw@);
        }
        return JsonValue::Text(empty);
    }
    match num_canon(raw.as_str()) {
        Some(t) => {
            return JsonValue::Num(t);
        },
        None => {},
    }
    if raw.eq(&"true".to_owned()) {
        return JsonValue::Bool(true);
    }
    if raw.eq(&"false".to_owned()) {
        return JsonValue::Bool(false);
    }
    if raw.eq(&"null".to_owned()) {
        return JsonValue::Null;
    }
    let first = raw.as_str().get_char(0);
    let last = raw.as_str().get_char(n - 1);
    if first == '[' && last == ']' {
        let interior = raw.as_str().substring_char(1, n - 1);
        proof {
            assert(interior@ =~= raw@.subrange(1, n as int - 1));
        }
        let pieces = split_sep_exec(interior, ',');
        let ghost pm = split_sep(interior@, ',');
        let ghost bound = raw@.len() - 1;
        let m = pieces.len();
        let mut items: Vec<JsonValue> = Vec::new();
        let mut k: usize = 0;
        while k < m
            invariant
                k <= m,
                m == pieces@.len(),
                pieces.deep_view() == pm,
                pm == split_sep(interior@, ','),
                interior@ == raw@.subrange(1, raw@.len() - 1),
                raw@.len() >= 2,
                bound == raw@.len() - 1,
                items@.len() == k,
                forall|q: int| 0 <= q < k ==> (#[trigger] items@[q]).node() == coerce_pieces(
                    pm,
                    bound,
                )[q],
            decreases m - k,
        {
            proof {
                lemma_split_sep_piece_len(interior@, ',', k as int);
                assert(pm[k as int] == pieces.deep_view()[k as int]);
                lemma_coerce_pieces_index(pm, bound, k as int);
            }
            let item = coerce(&pieces[k]);
            items.push(item);
            k += 1;
        }
        proof {
            lemma_coerce_pieces_len(pm, bound);
            lemma_nodes_of_eq(items@, coerce_pieces(pm, bound));
        }
        return JsonValue::Arr(items);
    }
    let text = clone_key(raw);
    JsonValue::Text(text)
}

/// A copy of the raw text.
fn clone_key(s: &String) -> (r: String)
    ensures
        r@ == s@,
{
    s.clone()
}

} // verus!
