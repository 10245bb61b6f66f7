//! Laws of the engine: what a write leaves behind for a read, and
//! what a delete leaves behind, on every document and every
//! resolvable path.

use vstd::prelude::*;

use crate::coerce::coerce_spec;
use crate::error::Error;
use crate::json::{delete_spec, modify_spec, query_steps, refer_spec};
use crate::path::{step_of_token, steps_of_tokens, split_sep, tokenize_spec, StepModel,
    lemma_split_sep_len, first_ix, bracket_content, parse_usize};
use crate::render::render;
use crate::resolve::{apply_act, drop_key, lookup_one, lookup_spec, obj_find, update_spec,
    lemma_obj_find, ActModel};
use crate::value::Node;

verus! {

/// After an update at index `j` that keeps the key, `j` is still the
/// first index with that key.
proof fn lemma_obj_find_update(es: Seq<(Seq<char>, Node)>, name: Seq<char>, c: Node)
    requires
        0 <= obj_find(es, name),
    ensures
        obj_find(es.update(obj_find(es, name), (name, c)), name) == obj_find(es, name),
{
    let j = obj_find(es, name);
    let up = es.update(j, (name, c));
    lemma_obj_find(es, name);
    lemma_obj_find(up, name);
    let fu = obj_find(up, name);
    if fu == -1 {
        assert(up[j].0 == name);
        assert(false);
    } else if fu < j {
        assert(up[fu].0 == es[fu].0);
        assert(false);
    } else if fu > j {
        assert(up[j].0 == name);
        assert(false);
    }
}

/// A key absent from `es` is first found at the end after a push.
proof fn lemma_obj_find_push(es: Seq<(Seq<char>, Node)>, name: Seq<char>, c: Node)
    requires
        obj_find(es, name) == -1,
    ensures
        obj_find(es.push((name, c)), name) == es.len(),
{
    let up = es.push((name, c));
    lemma_obj_find(es, name);
    lemma_obj_find(up, name);
    let fu = obj_find(up, name);
    if fu == -1 {
        assert(up[es.len() as int].0 == name);
        assert(false);
    } else if fu < es.len() {
        assert(up[fu].0 == es[fu].0);
        assert(false);
    }
}

/// In a one-member object the key is found at once.
proof fn lemma_obj_find_singleton(name: Seq<char>, c: Node)
    ensures
        obj_find(seq![(name, c)], name) == 0,
{
    assert(seq![(name, c)][0].0 == name);
}

/// No member of `drop_key(es, k)` carries the key `k`.
proof fn lemma_drop_key_keys(es: Seq<(Seq<char>, Node)>, k: Seq<char>)
    ensures
        forall|m: int| 0 <= m < drop_key(es, k).len() ==> (#[trigger] drop_key(es, k)[m]).0 != k,
    decreases es.len(),
{
    let dk = drop_key(es, k);
    if es.len() == 0 {
        assert(dk.len() == 0);
    } else {
        lemma_drop_key_keys(es.drop_first(), k);
        let tail = drop_key(es.drop_first(), k);
        if es[0].0 == k {
            assert(dk == tail);
            assert forall|m: int| 0 <= m < dk.len() implies (#[trigger] dk[m]).0 != k by {
                assert(dk[m] == tail[m]);
                assert(tail[m].0 != k);
            }
        } else {
            assert(dk == seq![es[0]] + tail);
            assert forall|m: int| 0 <= m < dk.len() implies (#[trigger] dk[m]).0 != k by {
                if m == 0 {
                    assert(dk[0] == es[0]);
                } else {
                    assert(dk[m] == tail[m - 1]);
                    assert(tail[m - 1].0 != k);
                }
            }
        }
    }
}

/// The dropped key is not found in the filtered object.
proof fn lemma_obj_find_drop_key(es: Seq<(Seq<char>, Node)>, k: Seq<char>)
    ensures
        obj_find(drop_key(es, k), k) == -1,
{
    lemma_drop_key_keys(es, k);
    lemma_obj_find(drop_key(es, k), k);
    let fu = obj_find(drop_key(es, k), k);
    if fu != -1 {
        assert(drop_key(es, k)[fu].0 != k);
        assert(false);
    }
}

/// A read of several steps is a read of all but the last, then one
/// step more.
proof fn lemma_lookup_snoc(n: Node, steps: Seq<StepModel>, i: int)
    requires
        0 <= i <= steps.len() - 1,
    ensures
        lookup_spec(n, steps, i) == (match lookup_spec(n, steps.drop_last(), i) {
            Ok(par) => lookup_one(par, steps.last()),
            Err(e) => Err(e),
        }),
    decreases steps.len() - i,
{
    if i == steps.len() - 1 {
        assert(steps.drop_last().len() == i);
        assert(steps[i] == steps.last());
        match lookup_one(n, steps[i]) {
            Ok(c) => {
                assert(lookup_spec(c, steps, i + 1) == Ok::<Node, Error>(c));
            },
            Err(e) => {},
        }
    } else {
        assert(steps.drop_last()[i] == steps[i]);
        match lookup_one(n, steps[i]) {
            Ok(c) => {
                lemma_lookup_snoc(c, steps, i + 1);
            },
            Err(e) => {},
        }
    }
}

/// After a write of `x` at a path, a read of the same path gives `x`.
proof fn lemma_put_then_lookup(n: Node, steps: Seq<StepModel>, i: int, x: Node, n2: Node)
    requires
        0 <= i <= steps.len(),
        update_spec(n, steps, i, ActModel::Put(x)) == Ok::<Node, Error>(n2),
    ensures
        lookup_spec(n2, steps, i) == Ok::<Node, Error>(x),
    decreases steps.len() - i,
{
    if i >= steps.len() {
        assert(n2 == x);
    } else {
        match steps[i] {
            StepModel::Key(name) => match n {
                Node::Obj(es) => {
                    let j = obj_find(es, name);
                    lemma_obj_find(es, name);
                    if j >= 0 {
                        match update_spec(es[j].1, steps, i + 1, ActModel::Put(x)) {
                            Ok(c) => {
                                lemma_put_then_lookup(es[j].1, steps, i + 1, x, c);
                                lemma_obj_find_update(es, name, c);
                            },
                            Err(e) => {
                                assert(false);
                            },
                        }
                    } else {
                        match update_spec(Node::Null, steps, i + 1, ActModel::Put(x)) {
                            Ok(c) => {
                                lemma_put_then_lookup(Node::Null, steps, i + 1, x, c);
                                lemma_obj_find_push(es, name, c);
                                assert(es.push((name, c))[es.len() as int].1 == c);
                            },
                            Err(e) => {
                                assert(false);
                            },
                        }
                    }
                },
                Node::Null => {
                    match update_spec(Node::Null, steps, i + 1, ActModel::Put(x)) {
                        Ok(c) => {
                            lemma_put_then_lookup(Node::Null, steps, i + 1, x, c);
                            lemma_obj_find_singleton(name, c);
                        },
                        Err(e) => {
                            assert(false);
                        },
                    }
                },
                _ => {
                    assert(false);
                },
            },
            StepModel::Indexed(name, ix) => match n {
                Node::Obj(es) => {
                    let j = obj_find(es, name);
                    lemma_obj_find(es, name);
                    assert(j >= 0);
                    match es[j].1 {
                        Node::Arr(items) => {
                            assert(0 <= ix < items.len());
                            match update_spec(items[ix], steps, i + 1, ActModel::Put(x)) {
                                Ok(c) => {
                                    lemma_put_then_lookup(items[ix], steps, i + 1, x, c);
                                    let member = Node::Arr(items.update(ix, c));
                                    lemma_obj_find_update(es, name, member);
                                },
                                Err(e) => {
                                    assert(false);
                                },
                            }
                        },
                        _ => {
                            assert(false);
                        },
                    }
                },
                _ => {
                    assert(false);
                },
            },
        }
    }
}

/// A mutating walk along a readable path succeeds exactly as the
/// action does at its destination, and a read afterwards sees the
/// action's result.
proof fn lemma_update_ok_lookup(
    n: Node,
    steps: Seq<StepModel>,
    i: int,
    act: ActModel,
    t: Node,
    t2: Node,
)
    requires
        0 <= i <= steps.len(),
        lookup_spec(n, steps, i) == Ok::<Node, Error>(t),
        apply_act(t, act) == Ok::<Node, Error>(t2),
    ensures
        update_spec(n, steps, i, act) matches Ok(n2) && lookup_spec(n2, steps, i) == Ok::<
            Node,
            Error,
        >(t2),
    decreases steps.len() - i,
{
    if i >= steps.len() {
        assert(t == n);
    } else {
        match steps[i] {
            StepModel::Key(name) => match n {
                Node::Obj(es) => {
                    let j = obj_find(es, name);
                    lemma_obj_find(es, name);
                    assert(j >= 0);
                    lemma_update_ok_lookup(es[j].1, steps, i + 1, act, t, t2);
                    match update_spec(es[j].1, steps, i + 1, act) {
                        Ok(c) => {
                            lemma_obj_find_update(es, name, c);
                        },
                        Err(e) => {
                            assert(false);
                        },
                    }
                },
                _ => {
                    assert(false);
                },
            },
            StepModel::Indexed(name, ix) => match n {
                Node::Obj(es) => {
                    let j = obj_find(es, name);
                    lemma_obj_find(es, name);
                    assert(j >= 0);
                    match es[j].1 {
                        Node::Arr(items) => {
                            assert(0 <= ix < items.len());
                            lemma_update_ok_lookup(items[ix], steps, i + 1, act, t, t2);
                            match update_spec(items[ix], steps, i + 1, act) {
                                Ok(c) => {
                                    let member = Node::Arr(items.update(ix, c));
                                    lemma_obj_find_update(es, name, member);
                                },
                                Err(e) => {
                                    assert(false);
                                },
                            }
                        },
                        _ => {
                            assert(false);
                        },
                    }
                },
                _ => {
                    assert(false);
                },
            },
        }
    }
}

/// Valid token lists translate token by token.
proof fn lemma_steps_of_tokens_index(toks: Seq<Seq<char>>, steps: Seq<StepModel>)
    requires
        steps_of_tokens(toks) == Ok::<Seq<StepModel>, Error>(steps),
    ensures
        steps.len() == toks.len(),
        forall|m: int| 0 <= m < toks.len() ==> step_of_token(toks[m]) == Ok::<StepModel, Error>(
            #[trigger] steps[m],
        ),
    decreases toks.len(),
{
    if toks.len() > 0 {
        match step_of_token(toks[0]) {
            Ok(st) => match steps_of_tokens(toks.drop_first()) {
                Ok(rest) => {
                    lemma_steps_of_tokens_index(toks.drop_first(), rest);
                    assert(steps == seq![st] + rest);
                    assert(forall|m: int| 0 < m < toks.len() ==> toks[m] == toks.drop_first()[m
                        - 1]);
                },
                Err(e) => {
                    assert(false);
                },
            },
            Err(e) => {
                assert(false);
            },
        }
    }
}

/// Dropping the last token drops the last step.
proof fn lemma_steps_of_tokens_drop_last(toks: Seq<Seq<char>>, steps: Seq<StepModel>)
    requires
        toks.len() >= 1,
        steps_of_tokens(toks) == Ok::<Seq<StepModel>, Error>(steps),
    ensures
        steps_of_tokens(toks.drop_last()) == Ok::<Seq<StepModel>, Error>(steps.drop_last()),
    decreases toks.len(),
{
    lemma_steps_of_tokens_index(toks, steps);
    match step_of_token(toks[0]) {
        Ok(st) => match steps_of_tokens(toks.drop_first()) {
            Ok(rest) => {
                if toks.len() == 1 {
                    assert(toks.drop_last() =~= Seq::<Seq<char>>::empty());
                    assert(steps.drop_last() =~= Seq::<StepModel>::empty());
                } else {
                    lemma_steps_of_tokens_drop_last(toks.drop_first(), rest);
                    assert(toks.drop_last()[0] == toks[0]);
                    assert(toks.drop_last().drop_first() =~= toks.drop_first().drop_last());
                    assert(steps == seq![st] + rest);
                    assert(steps.drop_last() =~= seq![st] + rest.drop_last());
                    match steps_of_tokens(toks.drop_last().drop_first()) {
                        Ok(r2) => {},
                        Err(e) => {
                            assert(false);
                        },
                    }
                }
            },
            Err(e) => {
                assert(false);
            },
        },
        Err(e) => {
            assert(false);
        },
    }
}

/// Writing raw text at a resolvable path and reading the same path
/// back gives exactly the rendered text of the coerced value.
pub proof fn lemma_write_then_read(d: Node, p: Seq<char>, raw: Seq<char>, d2: Node)
    requires
        p.len() > 0,
        p[0] != '.',
        p[p.len() - 1] != '.',
        modify_spec(d, p, raw) == Ok::<Node, Error>(d2),
    ensures
        refer_spec(d2, p) == Ok::<Seq<char>, Error>(render(coerce_spec(raw))),
{
    match query_steps(p) {
        Ok(steps) => {
            lemma_put_then_lookup(d, steps, 0, coerce_spec(raw), d2);
        },
        Err(e) => {
            assert(false);
        },
    }
}

/// Deleting a resolvable plain-key path leaves a document in which
/// reading that path fails with `NotFound`.
pub proof fn lemma_delete_then_missing(
    d: Node,
    p: Seq<char>,
    steps: Seq<StepModel>,
    k: Seq<char>,
    t: Node,
)
    requires
        tokenize_spec(p) == Ok::<Seq<StepModel>, Error>(steps),
        steps.len() > 0,
        steps.last() == StepModel::Key(k),
        lookup_spec(d, steps, 0) == Ok::<Node, Error>(t),
    ensures
        delete_spec(d, p) matches Ok(d2) && refer_spec(d2, p) == Err::<Seq<char>, Error>(
            Error::NotFound,
        ),
{
    let toks = split_sep(p, '.');
    lemma_split_sep_len(p, '.');
    match steps_of_tokens(toks) {
        Ok(steps0) => {
            assert(steps0 == steps);
            lemma_steps_of_tokens_index(toks, steps);
            assert(step_of_token(toks.last()) == Ok::<StepModel, Error>(steps.last()));
            assert(!toks.last().contains('['));
            lemma_steps_of_tokens_drop_last(toks, steps);
            assert(k == toks.last());
            let psteps = steps.drop_last();
            lemma_lookup_snoc(d, steps, 0);
            match lookup_spec(d, psteps, 0) {
                Ok(par) => {
                    match par {
                        Node::Obj(es) => {
                            let filtered = Node::Obj(drop_key(es, k));
                            assert(apply_act(par, ActModel::DelKey(k)) == Ok::<Node, Error>(
                                filtered,
                            ));
                            lemma_update_ok_lookup(d, psteps, 0, ActModel::DelKey(k), par,
                                filtered);
                            match update_spec(d, psteps, 0, ActModel::DelKey(k)) {
                                Ok(d2) => {
                                    lemma_lookup_snoc(d2, steps, 0);
                                    lemma_obj_find_drop_key(es, k);
                                },
                                Err(e) => {
                                    assert(false);
                                },
                            }
                        },
                        _ => {
                            assert(false);
                        },
                    }
                },
                Err(e) => {
                    assert(false);
                },
            }
        },
        Err(e) => {
            assert(false);
        },
    }
}

/// Deleting a resolvable indexed path removes exactly one element of
/// the parent array: the length drops by one, earlier elements stay,
/// later elements shift down by one, in order.
pub proof fn lemma_delete_element(
    d: Node,
    p: Seq<char>,
    steps: Seq<StepModel>,
    k: Seq<char>,
    ix: int,
    items: Seq<Node>,
)
    requires
        tokenize_spec(p) == Ok::<Seq<StepModel>, Error>(steps),
        steps.len() > 0,
        steps.last() == StepModel::Indexed(k, ix),
        lookup_spec(d, steps.drop_last().push(StepModel::Key(k)), 0) == Ok::<Node, Error>(
            Node::Arr(items),
        ),
        0 <= ix < items.len(),
    ensures
        delete_spec(d, p) matches Ok(d2) && lookup_spec(
            d2,
            steps.drop_last().push(StepModel::Key(k)),
            0,
        ) == Ok::<Node, Error>(Node::Arr(items.remove(ix))),
        items.remove(ix).len() == items.len() - 1,
        forall|q: int| 0 <= q < ix ==> items.remove(ix)[q] == items[q],
        forall|q: int| ix <= q < items.len() - 1 ==> items.remove(ix)[q] == items[q + 1],
{
    items.remove_ensures(ix);
    let toks = split_sep(p, '.');
    lemma_split_sep_len(p, '.');
    match steps_of_tokens(toks) {
        Ok(steps0) => {
            assert(steps0 == steps);
            lemma_steps_of_tokens_index(toks, steps);
            let lt = toks.last();
            assert(step_of_token(lt) == Ok::<StepModel, Error>(StepModel::Indexed(k, ix)));
            assert(lt.contains('['));
            assert(lt.contains(']'));
            assert(parse_usize(bracket_content(lt)) == Some(ix));
            assert(lt[lt.len() - 1] == ']');
            assert(k == lt.take(first_ix(lt, '[')));
            lemma_steps_of_tokens_drop_last(toks, steps);
            let full = steps.drop_last().push(StepModel::Key(k));
            let shorter = Node::Arr(items.remove(ix));
            assert(apply_act(Node::Arr(items), ActModel::DelIdx(ix)) == Ok::<Node, Error>(
                shorter,
            ));
            lemma_update_ok_lookup(d, full, 0, ActModel::DelIdx(ix), Node::Arr(items), shorter);
        },
        Err(e) => {
            assert(false);
        },
    }
}

} // verus!
