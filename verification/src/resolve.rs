//! Step-by-step resolution of a path over a value tree.
//!
//! The same walk serves two modes.  A read-only lookup fails with
//! `NotFound` on a missing member.  A mutating walk autocreates missing
//! intermediate object members (as null, which a later key step turns
//! into an object) and applies an action at the destination: overwrite
//! it, drop an object member, or drop an array element.  When any step
//! fails, the tree is left exactly as it was.

use vstd::prelude::*;

use crate::error::Error;
use crate::path::{Step, StepModel};
use crate::value::{entries_of, lemma_entries_of_eq, lemma_entries_of_index, lemma_entries_of_len,
    lemma_nodes_of_eq, lemma_nodes_of_index, lemma_nodes_of_len, nodes_of, Node, JsonValue};

verus! {

/// First index in `entries` whose key is `name`, or -1.
pub open spec fn obj_find(entries: Seq<(Seq<char>, Node)>, name: Seq<char>) -> int
    decreases entries.len(),
{
    if entries.len() == 0 {
        -1
    } else if entries[0].0 == name {
        0
    } else {
        let r = obj_find(entries.drop_first(), name);
        if r < 0 {
            -1
        } else {
            r + 1
        }
    }
}

pub proof fn lemma_obj_find(entries: Seq<(Seq<char>, Node)>, name: Seq<char>)
    ensures
        obj_find(entries, name) == -1 ==> forall|i: int|
            0 <= i < entries.len() ==> (#[trigger] entries[i]).0 != name,
        obj_find(entries, name) != -1 ==> 0 <= obj_find(entries, name) < entries.len()
            && entries[obj_find(entries, name)].0 == name && forall|i: int|
            0 <= i < obj_find(entries, name) ==> (#[trigger] entries[i]).0 != name,
    decreases entries.len(),
{
    if entries.len() > 0 && entries[0].0 != name {
        lemma_obj_find(entries.drop_first(), name);
        let t = entries.drop_first();
        assert(forall|i: int| 0 < i < entries.len() ==> entries[i] == t[i - 1]);
    }
}

/// Reads one step against a node, in read-only mode.
pub open spec fn lookup_one(n: Node, step: StepModel) -> Result<Node, Error> {
    match step {
        StepModel::Key(name) => match n {
            Node::Obj(es) => {
                let j = obj_find(es, name);
                if j >= 0 {
                    Ok(es[j].1)
                } else {
                    Err(Error::NotFound)
                }
            },
            _ => Err(Error::NotFound),
        },
        StepModel::Indexed(name, ix) => match n {
            Node::Obj(es) => {
                let j = obj_find(es, name);
                if j >= 0 {
                    match es[j].1 {
                        Node::Arr(items) => if 0 <= ix < items.len() {
                            Ok(items[ix])
                        } else {
                            Err(Error::IndexOutOfBounds)
                        },
                        _ => Err(Error::TypeMismatch),
                    }
                } else {
                    Err(Error::NotFound)
                }
            },
            _ => Err(Error::NotFound),
        },
    }
}

/// Resolves `steps[i..]` against `n` in read-only mode: the node at the
/// end of the walk, or the error of the first failing step.
pub open spec fn lookup_spec(n: Node, steps: Seq<StepModel>, i: int) -> Result<Node, Error>
    decreases steps.len() - i,
{
    if i < 0 || i >= steps.len() {
        Ok(n)
    } else {
        match lookup_one(n, steps[i]) {
            Ok(c) => lookup_spec(c, steps, i + 1),
            Err(e) => Err(e),
        }
    }
}

/// The image of what a mutating walk does at its destination.
pub enum ActModel {
    Put(Node),
    DelKey(Seq<char>),
    DelIdx(int),
}

/// What a mutating walk does at its destination: overwrite the node,
/// drop an object member by key, or drop an array element by index.
pub enum Act {
    Put(JsonValue),
    DelKey(String),
    DelIdx(usize),
}

impl View for Act {
    type V = ActModel;

    open spec fn view(&self) -> ActModel {
        match self {
            Act::Put(v) => ActModel::Put(v.node()),
            Act::DelKey(k) => ActModel::DelKey(k@),
            Act::DelIdx(i) => ActModel::DelIdx(*i as int),
        }
    }
}

/// The members of `es` whose key is not `k`, in their original order.
pub open spec fn drop_key(es: Seq<(Seq<char>, Node)>, k: Seq<char>) -> Seq<(Seq<char>, Node)>
    decreases es.len(),
{
    if es.len() == 0 {
        es
    } else if es[0].0 == k {
        drop_key(es.drop_first(), k)
    } else {
        seq![es[0]] + drop_key(es.drop_first(), k)
    }
}

/// Applies `act` to the resolved destination node.
pub open spec fn apply_act(n: Node, act: ActModel) -> Result<Node, Error> {
    match act {
        ActModel::Put(x) => Ok(x),
        ActModel::DelKey(k) => match n {
            Node::Obj(es) => Ok(Node::Obj(drop_key(es, k))),
            _ => Err(Error::TypeMismatch),
        },
        ActModel::DelIdx(ix) => match n {
            Node::Arr(items) => if 0 <= ix < items.len() {
                Ok(Node::Arr(items.remove(ix)))
            } else {
                Err(Error::IndexOutOfBounds)
            },
            _ => Err(Error::TypeMismatch),
        },
    }
}

/// Resolves `steps[i..]` against `n` in mutating mode and applies `act`
/// at the destination: the rebuilt tree, or the error of the first
/// failing step.  A missing member under a key step is created as null
/// (a null node under a key step becomes a one-member object); a key
/// step into any other non-object, and an index step into anything but
/// an existing array, fails.
pub open spec fn update_spec(n: Node, steps: Seq<StepModel>, i: int, act: ActModel) -> Result<
    Node,
    Error,
>
    decreases steps.len() - i,
{
    if i < 0 || i >= steps.len() {
        apply_act(n, act)
    } else {
        match steps[i] {
            StepModel::Key(name) => match n {
                Node::Obj(es) => {
                    let j = obj_find(es, name);
                    if j >= 0 {
                        match update_spec(es[j].1, steps, i + 1, act) {
                            Ok(c) => Ok(Node::Obj(es.update(j, (name, c)))),
                            Err(e) => Err(e),
                        }
                    } else {
                        match update_spec(Node::Null, steps, i + 1, act) {
                            Ok(c) => Ok(Node::Obj(es.push((name, c)))),
                            Err(e) => Err(e),
                        }
                    }
                },
                Node::Null => match update_spec(Node::Null, steps, i + 1, act) {
                    Ok(c) => Ok(Node::Obj(seq![(name, c)])),
                    Err(e) => Err(e),
                },
                _ => Err(Error::TypeMismatch),
            },
            StepModel::Indexed(name, ix) => match n {
                Node::Obj(es) => {
                    let j = obj_find(es, name);
                    if j >= 0 {
                        match es[j].1 {
                            Node::Arr(items) => if 0 <= ix < items.len() {
                                match update_spec(items[ix], steps, i + 1, act) {
                                    Ok(c) => Ok(
                                        Node::Obj(
                                            es.update(j, (name, Node::Arr(items.update(ix, c)))),
                                        ),
                                    ),
                                    Err(e) => Err(e),
                                }
                            } else {
                                Err(Error::IndexOutOfBounds)
                            },
                            _ => Err(Error::TypeMismatch),
                        }
                    } else {
                        Err(Error::TypeMismatch)
                    }
                },
                _ => Err(Error::TypeMismatch),
            },
        }
    }
}

/// First index in `entries` whose key is `name`, if any.
pub fn find_key(entries: &Vec<(String, JsonValue)>, name: &String) -> (r: Option<usize>)
    ensures
        match r {
            Some(j) => obj_find(entries_of(entries@), name@) == j as int,
            None => obj_find(entries_of(entries@), name@) == -1,
        },
{
    let n = entries.len();
    let mut i: usize = 0;
    while i < n
        invariant
            i <= n,
            n == entries@.len(),
            forall|m: int| 0 <= m < i ==> entries_of(entries@)[m].0 != name@,
        decreases n - i,
    {
        proof {
            lemma_entries_of_len(entries@);
            lemma_entries_of_index(entries@, i as int);
        }
        if entries[i].0.eq(name) {
            proof {
                lemma_obj_find(entries_of(entries@), name@);
            }
            return Some(i);
        }
        i += 1;
    }
    proof {
        lemma_entries_of_len(entries@);
        lemma_obj_find(entries_of(entries@), name@);
    }
    None
}

/// Resolves `steps[i..]` against `v` in read-only mode.
pub fn lookup_at<'a>(v: &'a JsonValue, steps: &Vec<Step>, i: usize) -> (r: Result<&'a JsonValue, Error>)
    requires
        i <= steps@.len(),
    ensures
        match r {
            Ok(t) => lookup_spec(v.node(), steps.deep_view(), i as int) == Ok::<Node, Error>(
                t.node(),
            ),
            Err(e) => lookup_spec(v.node(), steps.deep_view(), i as int) == Err::<Node, Error>(e),
        },
    decreases steps@.len() - i,
{
    if i == steps.len() {
        return Ok(v);
    }
    let step = &steps[i];
    proof {
        assert(steps.deep_view()[i as int] == steps@[i as int]@);
    }
    match step {
        Step::Key(name) => match v {
            JsonValue::Obj(entries) => match find_key(entries, name) {
                Some(j) => {
                    proof {
                        lemma_obj_find(entries_of(entries@), name@);
                        lemma_entries_of_len(entries@);
                        lemma_entries_of_index(entries@, j as int);
                    }
                    lookup_at(&entries[j].1, steps, i + 1)
                },
                None => Err(Error::NotFound),
            },
            _ => Err(Error::NotFound),
        },
        Step::Indexed(name, ix) => match v {
            JsonValue::Obj(entries) => match find_key(entries, name) {
                Some(j) => {
                    proof {
                        lemma_obj_find(entries_of(entries@), name@);
                        lemma_entries_of_len(entries@);
                        lemma_entries_of_index(entries@, j as int);
                    }
                    match &entries[j].1 {
                        JsonValue::Arr(items) => if *ix < items.len() {
                            proof {
                                lemma_nodes_of_len(items@);
                                lemma_nodes_of_index(items@, *ix as int);
                            }
                            lookup_at(&items[*ix], steps, i + 1)
                        } else {
                            proof {
                                lemma_nodes_of_len(items@);
                            }
                            Err(Error::IndexOutOfBounds)
                        },
                        _ => Err(Error::TypeMismatch),
                    }
                },
                None => Err(Error::NotFound),
            },
            _ => Err(Error::NotFound),
        },
    }
}

/// The outcome of a mutating walk: the rebuilt tree, or the original
/// tree handed back untouched together with the error.
pub enum Walked {
    Done(JsonValue),
    Failed(JsonValue, Error),
}

/// The members of `entries` whose key is not `k`, in order.
fn drop_key_exec(entries: Vec<(String, JsonValue)>, k: &String) -> (r: Vec<(String, JsonValue)>)
    ensures
        entries_of(r@) == drop_key(entries_of(entries@), k@),
    decreases entries@.len(),
{
    let ghost orig = entries@;
    let mut entries = entries;
    proof {
        lemma_entries_of_len(orig);
    }
    if entries.len() == 0 {
        proof {
            assert(entries_of(orig) =~= Seq::<(Seq<char>, Node)>::empty());
        }
        entries
    } else {
        let head = entries.remove(0);
        proof {
            lemma_entries_of_index(orig, 0);
            assert(entries@ =~= orig.drop_first());
        }
        proof {
            assert(entries_of(orig.drop_first()) == entries_of(orig).drop_first()) by {
                lemma_entries_of_len(orig.drop_first());
                assert forall|m: int| 0 <= m < orig.len() - 1 implies entries_of(
                    orig,
                ).drop_first()[m] == (orig.drop_first()[m].0@, orig.drop_first()[m].1.node()) by {
                    lemma_entries_of_index(orig, m + 1);
                }
                lemma_entries_of_eq(orig.drop_first(), entries_of(orig).drop_first());
            }
        }
        let ghost tail = drop_key(entries_of(orig).drop_first(), k@);
        let rest = drop_key_exec(entries, k);
        if head.0.eq(k) {
            rest
        } else {
            let ghost rest_snap = rest@;
            let mut out = rest;
            out.insert(0, head);
            proof {
                lemma_entries_of_len(rest_snap);
                rest_snap.insert_ensures(0, head);
                assert forall|m: int| 0 <= m < out@.len() implies (seq![(head.0@, head.1.node())]
                    + tail)[m] == ((#[trigger] out@[m]).0@, out@[m].1.node()) by {
                    if m > 0 {
                        assert(out@[m] == rest_snap[m - 1]);
                        lemma_entries_of_index(rest_snap, m - 1);
                    } else {
                        assert(out@[0] == head);
                    }
                }
                lemma_entries_of_eq(out@, seq![(head.0@, head.1.node())] + tail);
            }
            out
        }
    }
}

/// Applies `act` to the destination node itself.
fn apply_act_exec(v: JsonValue, act: Act) -> (r: Walked)
    ensures
        match r {
            Walked::Done(nv) => apply_act(v.node(), act@) == Ok::<Node, Error>(nv.node()),
            Walked::Failed(orig, e) => orig.node() == v.node() && apply_act(v.node(), act@)
                == Err::<Node, Error>(e),
        },
{
    match act {
        Act::Put(x) => Walked::Done(x),
        Act::DelKey(k) => match v {
            JsonValue::Obj(entries) => {
                let ghost eo = entries_of(entries@);
                let out = drop_key_exec(entries, &k);
                Walked::Done(JsonValue::Obj(out))
            },
            other => Walked::Failed(other, Error::TypeMismatch),
        },
        Act::DelIdx(ix) => match v {
            JsonValue::Arr(items) => {
                let ghost no = nodes_of(items@);
                proof {
                    lemma_nodes_of_len(items@);
                }
                if ix < items.len() {
                    let ghost before = items@;
                    let mut items = items;
                    items.remove(ix);
                    proof {
                        assert forall|m: int| 0 <= m < items@.len() implies no.remove(ix as int)[m]
                            == (#[trigger] items@[m]).node() by {
                            lemma_nodes_of_index(before, m);
                            lemma_nodes_of_index(before, m + 1);
                        }
                        lemma_nodes_of_eq(items@, no.remove(ix as int));
                    }
                    Walked::Done(JsonValue::Arr(items))
                } else {
                    Walked::Failed(JsonValue::Arr(items), Error::IndexOutOfBounds)
                }
            },
            other => Walked::Failed(other, Error::TypeMismatch),
        },
    }
}

/// Resolves `steps[i..]` against `v` in mutating mode and applies
/// `act` at the destination.  On failure the original tree comes back
/// untouched, together with the error of the first failing step.
pub fn update_at(v: JsonValue, steps: &Vec<Step>, i: usize, act: Act) -> (r: Walked)
    requires
        i <= steps@.len(),
    ensures
        match r {
            Walked::Done(nv) => update_spec(v.node(), steps.deep_view(), i as int, act@) == Ok::<
                Node,
                Error,
            >(nv.node()),
            Walked::Failed(orig, e) => orig.node() == v.node() && update_spec(
                v.node(),
                steps.deep_view(),
                i as int,
                act@,
            ) == Err::<Node, Error>(e),
        },
    decreases steps@.len() - i,
{
    if i == steps.len() {
        return apply_act_exec(v, act);
    }
    let step = &steps[i];
    proof {
        assert(steps.deep_view()[i as int] == steps@[i as int]@);
    }
    match step {
        Step::Key(name) => match v {
            JsonValue::Obj(entries) => {
                let ghost before = entries@;
                let ghost eo = entries_of(before);
                let mut entries = entries;
                proof {
                    lemma_entries_of_len(before);
                }
                match find_key(&entries, name) {
                    Some(j) => {
                        proof {
                            lemma_obj_find(eo, name@);
                            lemma_entries_of_index(before, j as int);
                        }
                        let pair = entries.remove(j);
                        match update_at(pair.1, steps, i + 1, act) {
                            Walked::Done(c) => {
                                let ghost cn = c.node();
                                entries.insert(j, (pair.0, c));
                                proof {
                                    assert(entries@ =~= before.update(
                                        j as int,
                                        (before[j as int].0, entries@[j as int].1),
                                    ));
                                    assert forall|m: int| 0 <= m < entries@.len() implies eo.update(
                                        j as int,
                                        (name@, cn),
                                    )[m] == ((#[trigger] entries@[m]).0@, entries@[m].1.node()) by {
                                        lemma_entries_of_index(before, m);
                                    }
                                    lemma_entries_of_eq(entries@, eo.update(j as int, (name@, cn)));
                                }
                                Walked::Done(JsonValue::Obj(entries))
                            },
                            Walked::Failed(orig, e) => {
                                entries.insert(j, (pair.0, orig));
                                proof {
                                    assert forall|m: int| 0 <= m < entries@.len() implies eo[m] == (
                                    (#[trigger] entries@[m]).0@, entries@[m].1.node()) by {
                                        lemma_entries_of_index(before, m);
                                        if m < j as int {
                                            assert(entries@[m] == before[m]);
                                        } else if m > j as int {
                                            assert(entries@[m] == before[m]);
                                        }
                                    }
                                    lemma_entries_of_eq(entries@, eo);
                                }
                                Walked::Failed(JsonValue::Obj(entries), e)
                            },
                        }
                    },
                    None => {
                        match update_at(JsonValue::Null, steps, i + 1, act) {
                            Walked::Done(c) => {
                                let ghost cn = c.node();
                                let key = clone_string(name);
                                entries.push((key, c));
                                proof {
                                    assert forall|m: int| 0 <= m < entries@.len() implies eo.push(
                                        (name@, cn),
                                    )[m] == ((#[trigger] entries@[m]).0@, entries@[m].1.node()) by {
                                        if m < before.len() {
                                            lemma_entries_of_index(before, m);
                                        }
                                    }
                                    lemma_entries_of_eq(entries@, eo.push((name@, cn)));
                                }
                                Walked::Done(JsonValue::Obj(entries))
                            },
                            Walked::Failed(_, e) => Walked::Failed(JsonValue::Obj(entries), e),
                        }
                    },
                }
            },
            JsonValue::Null => match update_at(JsonValue::Null, steps, i + 1, act) {
                Walked::Done(c) => {
                    let ghost cn = c.node();
                    let key = clone_string(name);
                    let mut es: Vec<(String, JsonValue)> = Vec::new();
                    es.push((key, c));
                    proof {
                        lemma_entries_of_len(es@);
                        lemma_entries_of_index(es@, 0);
                        assert(entries_of(es@) =~= seq![(name@, cn)]);
                    }
                    Walked::Done(JsonValue::Obj(es))
                },
                Walked::Failed(_, e) => Walked::Failed(JsonValue::Null, e),
            },
            other => Walked::Failed(other, Error::TypeMismatch),
        },
        Step::Indexed(name, ix) => match v {
            JsonValue::Obj(entries) => {
                let ghost before = entries@;
                let ghost eo = entries_of(before);
                let mut entries = entries;
                proof {
                    lemma_entries_of_len(before);
                }
                match find_key(&entries, name) {
                    Some(j) => {
                        proof {
                            lemma_obj_find(eo, name@);
                            lemma_entries_of_index(before, j as int);
                        }
                        let pair = entries.remove(j);
                        let key = pair.0;
                        match pair.1 {
                            JsonValue::Arr(items) => {
                                let ghost items_before = items@;
                                let ghost no = nodes_of(items_before);
                                let mut items = items;
                                proof {
                                    lemma_nodes_of_len(items_before);
                                }
                                if *ix < items.len() {
                                    proof {
                                        lemma_nodes_of_index(items_before, *ix as int);
                                    }
                                    let child = items.remove(*ix);
                                    match update_at(child, steps, i + 1, act) {
                                        Walked::Done(c) => {
                                            let ghost cn = c.node();
                                            items.insert(*ix, c);
                                            proof {
                                                assert forall|m: int|
                                                    0 <= m < items@.len() implies no.update(
                                                    *ix as int,
                                                    cn,
                                                )[m] == (#[trigger] items@[m]).node() by {
                                                    lemma_nodes_of_index(items_before, m);
                                                }
                                                lemma_nodes_of_eq(
                                                    items@,
                                                    no.update(*ix as int, cn),
                                                );
                                            }
                                            entries.insert(j, (key, JsonValue::Arr(items)));
                                            proof {
                                                assert forall|m: int|
                                                    0 <= m < entries@.len() implies eo.update(
                                                    j as int,
                                                    (name@, Node::Arr(no.update(*ix as int, cn))),
                                                )[m] == ((#[trigger] entries@[m]).0@,
                                                entries@[m].1.node()) by {
                                                    lemma_entries_of_index(before, m);
                                                }
                                                lemma_entries_of_eq(
                                                    entries@,
                                                    eo.update(
                                                        j as int,
                                                        (
                                                            name@,
                                                            Node::Arr(no.update(*ix as int, cn)),
                                                        ),
                                                    ),
                                                );
                                            }
                                            Walked::Done(JsonValue::Obj(entries))
                                        },
                                        Walked::Failed(orig, e) => {
                                            items.insert(*ix, orig);
                                            proof {
                                                assert forall|m: int|
                                                    0 <= m < items@.len() implies no[m] == (
                                                #[trigger] items@[m]).node() by {
                                                    lemma_nodes_of_index(items_before, m);
                                                }
                                                lemma_nodes_of_eq(items@, no);
                                            }
                                            entries.insert(j, (key, JsonValue::Arr(items)));
                                            proof {
                                                assert forall|m: int|
                                                    0 <= m < entries@.len() implies eo[m] == ((
                                                #[trigger] entries@[m]).0@,
                                                entries@[m].1.node()) by {
                                                    lemma_entries_of_index(before, m);
                                                }
                                                lemma_entries_of_eq(entries@, eo);
                                            }
                                            Walked::Failed(JsonValue::Obj(entries), e)
                                        },
                                    }
                                } else {
                                    entries.insert(j, (key, JsonValue::Arr(items)));
                                    proof {
                                        assert forall|m: int| 0 <= m < entries@.len() implies eo[m]
                                            == ((#[trigger] entries@[m]).0@,
                                        entries@[m].1.node()) by {
                                            lemma_entries_of_index(before, m);
                                        }
                                        lemma_entries_of_eq(entries@, eo);
                                    }
                                    Walked::Failed(
                                        JsonValue::Obj(entries),
                                        Error::IndexOutOfBounds,
                                    )
                                }
                            },
                            other_member => {
                                entries.insert(j, (key, other_member));
                                proof {
                                    assert forall|m: int| 0 <= m < entries@.len() implies eo[m] == (
                                    (#[trigger] entries@[m]).0@, entries@[m].1.node()) by {
                                        lemma_entries_of_index(before, m);
                                    }
                                    lemma_entries_of_eq(entries@, eo);
                                }
                                Walked::Failed(JsonValue::Obj(entries), Error::TypeMismatch)
                            },
                        }
                    },
                    None => Walked::Failed(JsonValue::Obj(entries), Error::TypeMismatch),
                }
            },
            other => Walked::Failed(other, Error::TypeMismatch),
        },
    }
}

/// A copy of a key string.
fn clone_string(s: &String) -> (r: String)
    ensures
        r@ == s@,
{
    s.clone()
}

} // verus!
