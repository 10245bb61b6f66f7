//! The engine facade: a document and its three operations.
//!
//! `refer` reads the text of the node a path points at, `modify`
//! overwrites that node with coerced raw text, and `delete` removes an
//! object member or an array element through its parent.  Every
//! operation either succeeds or reports one error and leaves the
//! document unchanged — except that resolving a parent for a write or
//! a delete autocreates missing intermediate members, as the mutating
//! walk describes.

use vstd::prelude::*;
use vstd::string::*;

use crate::codec::{convert, parse_raw};
use crate::coerce::{coerce, coerce_spec};
use crate::error::Error;
use crate::path::{bracket_content, find_char, first_ix, is_contain_list_ref, lemma_first_ix,
    lemma_split_sep_len, not_ends_with_bracket, not_num_in_bracket, parse_index, parse_usize,
    split_sep, split_sep_exec, start_or_end_by_dot, steps_of_tokens, tokenize, tokenize_spec,
    tokens_to_steps, unclosed_bracket, Step, StepModel};
use crate::render::{render, render_value};
use crate::resolve::{lookup_at, lookup_spec, update_at, update_spec, Act, ActModel, Walked};
use crate::value::{Node, JsonValue};

verus! {

/// The nesting depth beyond which a freshly parsed document is read as
/// null; the codec refuses documents anywhere near this deep.
pub const MAX_DEPTH: u64 = 4096;

/// The steps a query string stands for: the bare separator `.` names
/// the root; anything else goes through the tokenizer.
pub open spec fn query_steps(q: Seq<char>) -> Result<Seq<StepModel>, Error> {
    if q.len() == 1 && q[0] == '.' {
        Ok(Seq::empty())
    } else {
        tokenize_spec(q)
    }
}

/// What `refer` returns on a document: the rendered text of the node
/// the query points at, or the first error of tokenizing or resolving.
pub open spec fn refer_spec(doc: Node, q: Seq<char>) -> Result<Seq<char>, Error> {
    match query_steps(q) {
        Err(e) => Err(e),
        Ok(steps) => match lookup_spec(doc, steps, 0) {
            Err(e) => Err(e),
            Ok(t) => Ok(render(t)),
        },
    }
}

/// What `modify` turns a document into: the tree with the coerced raw
/// text written at the query's destination, or the first error.
pub open spec fn modify_spec(doc: Node, q: Seq<char>, raw: Seq<char>) -> Result<Node, Error> {
    match query_steps(q) {
        Err(e) => Err(e),
        Ok(steps) => update_spec(doc, steps, 0, ActModel::Put(coerce_spec(raw))),
    }
}

/// What `delete` turns a document into.  The last raw token decides
/// the shape: one with both brackets is re-validated and names an
/// array element under its key; any other last token is a plain member
/// key.  The parent path — the remaining tokens, plus the key for an
/// array element — is resolved in mutating mode, and the member or
/// element is removed there.
pub open spec fn delete_spec(doc: Node, path: Seq<char>) -> Result<Node, Error> {
    if path.len() == 0 {
        Err(Error::EmptyQuery)
    } else if path[0] == '.' || path[path.len() - 1] == '.' {
        Err(Error::StartOrEndByDot)
    } else {
        let toks = split_sep(path, '.');
        let last = toks.last();
        let prefix = toks.drop_last();
        if last.contains('[') && last.contains(']') {
            match parse_usize(bracket_content(last)) {
                None => Err(Error::NotNumInBracket),
                Some(ix) => if last[last.len() - 1] != ']' {
                    Err(Error::NotEndWithBracket)
                } else {
                    let name = last.take(first_ix(last, '['));
                    match steps_of_tokens(prefix) {
                        Err(e) => Err(e),
                        Ok(ps) => update_spec(
                            doc,
                            ps.push(StepModel::Key(name)),
                            0,
                            ActModel::DelIdx(ix),
                        ),
                    }
                },
            }
        } else {
            match steps_of_tokens(prefix) {
                Err(e) => Err(e),
                Ok(ps) => update_spec(doc, ps, 0, ActModel::DelKey(last)),
            }
        }
    }
}

/// A document: one owned value tree.
#[derive(Debug)]
pub struct Json {
    pub data: JsonValue,
}

impl Json {
    /// Reads a document from JSON text through the outside codec.
    /// Text that the codec refuses yields a null document.
    pub fn new(data: &String) -> Self {
        match parse_raw(data.as_str()) {
            Some(raw) => Json { data: convert(raw, MAX_DEPTH) },
            None => Json { data: JsonValue::Null },
        }
    }

    /// Reads the steps a query string stands for, the bare separator
    /// `.` naming the root.
    fn steps_of_query(query: &String) -> (r: Result<Vec<Step>, Error>)
        ensures
            match r {
                Ok(steps) => query_steps(query@) == Ok::<Seq<StepModel>, Error>(steps.deep_view()),
                Err(e) => query_steps(query@) == Err::<Seq<StepModel>, Error>(e),
            },
    {
        let n = query.as_str().unicode_len();
        if n == 1 && query.as_str().get_char(0) == '.' {
            let steps: Vec<Step> = Vec::new();
            proof {
                assert(steps.deep_view() =~= Seq::<StepModel>::empty());
            }
            Ok(steps)
        } else {
            tokenize(query)
        }
    }

    /// Renders the node the query points at.  The document is left
    /// unchanged.
    pub fn refer(&mut self, query: &String) -> (r: Result<String, Error>)
        ensures
            final(self).data.node() == old(self).data.node(),
            match r {
                Ok(text) => refer_spec(old(self).data.node(), query@) == Ok::<Seq<char>, Error>(
                    text@,
                ),
                Err(e) => refer_spec(old(self).data.node(), query@) == Err::<Seq<char>, Error>(e),
            },
    {
        let steps = match Self::steps_of_query(query) {
            Ok(steps) => steps,
            Err(e) => {
                return Err(e);
            },
        };
        match lookup_at(&self.data, &steps, 0) {
            Ok(node) => Ok(render_value(node)),
            Err(e) => Err(e),
        }
    }

    /// Writes the coerced raw text at the query's destination,
    /// autocreating missing intermediate members.  On error the
    /// document is unchanged.
    pub fn modify(&mut self, locate: &String, raw_value: &String) -> (r: Result<(), Error>)
        ensures
            match r {
                Ok(()) => modify_spec(old(self).data.node(), locate@, raw_value@) == Ok::<
                    Node,
                    Error,
                >(final(self).data.node()),
                Err(e) => final(self).data.node() == old(self).data.node() && modify_spec(
                    old(self).data.node(),
                    locate@,
                    raw_value@,
                ) == Err::<Node, Error>(e),
            },
    {
        let steps = match Self::steps_of_query(locate) {
            Ok(steps) => steps,
            Err(e) => {
                return Err(e);
            },
        };
        let value = coerce(raw_value);
        let mut data = JsonValue::Null;
        core::mem::swap(&mut self.data, &mut data);
        match update_at(data, &steps, 0, Act::Put(value)) {
            Walked::Done(nv) => {
                self.data = nv;
                Ok(())
            },
            Walked::Failed(orig, e) => {
                self.data = orig;
                Err(e)
            },
        }
    }

    /// Removes the object member or array element the path points at,
    /// through its parent.  Resolving the parent walks in mutating
    /// mode, so missing intermediate members are autocreated on the
    /// way; the removal itself fails on a parent of the wrong shape.
    pub fn delete(&mut self, path: &String) -> (r: Result<(), Error>)
        ensures
            match r {
                Ok(()) => delete_spec(old(self).data.node(), path@) == Ok::<Node, Error>(
                    final(self).data.node(),
                ),
                Err(e) => final(self).data.node() == old(self).data.node() && delete_spec(
                    old(self).data.node(),
                    path@,
                ) == Err::<Node, Error>(e),
            },
    {
        let n = path.as_str().unicode_len();
        if n == 0 {
            return Err(Error::EmptyQuery);
        }
        if start_or_end_by_dot(path) {
            return Err(Error::StartOrEndByDot);
        }
        let mut toks = split_sep_exec(path.as_str(), '.');
        let ghost toks_model = split_sep(path@, '.');
        proof {
            lemma_split_sep_len(path@, '.');
            assert(toks@.len() == toks_model.len());
        }
        let last = toks.remove(toks.len() - 1);
        proof {
            assert(last@ == toks_model.last());
            assert(toks.deep_view() =~= toks_model.drop_last());
        }
        let has_open = is_contain_list_ref(last.as_str());
        let has_close = !unclosed_bracket(last.as_str());
        if has_open && has_close {
            if not_num_in_bracket(last.as_str()) {
                return Err(Error::NotNumInBracket);
            }
            proof {
                lemma_first_ix(last@, '[');
            }
            if not_ends_with_bracket(last.as_str()) {
                return Err(Error::NotEndWithBracket);
            }
            let ln = last.as_str().unicode_len();
            let a = match find_char(last.as_str(), '[') {
                Some(a) => a,
                None => {
                    proof {
                        assert(false);
                    }
                    return Err(Error::NotNumInBracket);
                },
            };
            let name = last.as_str().substring_char(0, a).to_owned();
            let rest = last.as_str().substring_char(a + 1, ln);
            proof {
                assert(rest@ =~= last@.skip(a + 1));
                lemma_first_ix(rest@, ']');
            }
            let rn = rest.unicode_len();
            let content = match find_char(rest, ']') {
                Some(b) => rest.substring_char(0, b),
                None => rest.substring_char(0, rn),
            };
            proof {
                assert(content@ =~= bracket_content(last@));
                assert(name@ =~= last@.take(first_ix(last@, '[')));
            }
            let ix = match parse_index(content) {
                Some(ix) => ix,
                None => {
                    proof {
                        assert(false);
                    }
                    return Err(Error::NotNumInBracket);
                },
            };
            let mut steps = match tokens_to_steps(&toks) {
                Ok(steps) => steps,
                Err(e) => {
                    return Err(e);
                },
            };
            let ghost prefix_steps = steps.deep_view();
            steps.push(Step::Key(name));
            proof {
                assert(steps.deep_view() =~= prefix_steps.push(
                    StepModel::Key(last@.take(first_ix(last@, '['))),
                ));
            }
            let mut data = JsonValue::Null;
            core::mem::swap(&mut self.data, &mut data);
            match update_at(data, &steps, 0, Act::DelIdx(ix)) {
                Walked::Done(nv) => {
                    self.data = nv;
                    Ok(())
                },
                Walked::Failed(orig, e) => {
                    self.data = orig;
                    Err(e)
                },
            }
        } else {
            let steps = match tokens_to_steps(&toks) {
                Ok(steps) => steps,
                Err(e) => {
                    return Err(e);
                },
            };
            let mut data = JsonValue::Null;
            core::mem::swap(&mut self.data, &mut data);
            match update_at(data, &steps, 0, Act::DelKey(last)) {
                Walked::Done(nv) => {
                    self.data = nv;
                    Ok(())
                },
                Walked::Failed(orig, e) => {
                    self.data = orig;
                    Err(e)
                },
            }
        }
    }
}

} // verus!
