//! The JSON-shaped value tree that documents are built from, and its
//! mathematical model.
//!
//! A number carries its canonical decimal text; the engine never does
//! arithmetic on it.  Object members keep their insertion order.

use vstd::prelude::*;

verus! {

/// A tree value: null, a boolean, a number (as canonical text), a
/// string, an ordered array, or an ordered object.
#[derive(Debug)]
pub enum JsonValue {
    Null,
    Bool(bool),
    Num(String),
    Text(String),
    Arr(Vec<JsonValue>),
    Obj(Vec<(String, JsonValue)>),
}

/// The mathematical image of a `JsonValue` tree.
pub enum Node {
    Null,
    Bool(bool),
    Num(Seq<char>),
    Text(Seq<char>),
    Arr(Seq<Node>),
    Obj(Seq<(Seq<char>, Node)>),
}

/// The images of a sequence of array elements.
pub open spec fn nodes_of(items: Seq<JsonValue>) -> Seq<Node>
    decreases items,
{
    if items.len() == 0 {
        Seq::empty()
    } else {
        nodes_of(items.drop_last()).push(items.last().node())
    }
}

/// The images of a sequence of object members.
pub open spec fn entries_of(entries: Seq<(String, JsonValue)>) -> Seq<(Seq<char>, Node)>
    decreases entries,
{
    if entries.len() == 0 {
        Seq::empty()
    } else {
        entries_of(entries.drop_last()).push((entries.last().0@, entries.last().1.node()))
    }
}

impl JsonValue {
    /// The mathematical image of this value.
    pub open spec fn node(self) -> Node
        decreases self,
    {
        match self {
            JsonValue::Null => Node::Null,
            JsonValue::Bool(b) => Node::Bool(b),
            JsonValue::Num(s) => Node::Num(s@),
            JsonValue::Text(s) => Node::Text(s@),
            JsonValue::Arr(items) => Node::Arr(nodes_of(items@)),
            JsonValue::Obj(entries) => Node::Obj(entries_of(entries@)),
        }
    }
}

impl View for JsonValue {
    type V = Node;

    open spec fn view(&self) -> Node {
        self.node()
    }
}

impl DeepView for JsonValue {
    type V = Node;

    open spec fn deep_view(&self) -> Node {
        self.node()
    }
}

pub broadcast proof fn lemma_nodes_of_len(items: Seq<JsonValue>)
    ensures
        #[trigger] nodes_of(items).len() == items.len(),
    decreases items.len(),
{
    if items.len() > 0 {
        lemma_nodes_of_len(items.drop_last());
    }
}

pub broadcast proof fn lemma_nodes_of_index(items: Seq<JsonValue>, i: int)
    requires
        0 <= i < items.len(),
    ensures
        #[trigger] nodes_of(items)[i] == items[i].node(),
    decreases items.len(),
{
    lemma_nodes_of_len(items);
    if items.len() > 0 {
        lemma_nodes_of_len(items.drop_last());
        if i < items.len() - 1 {
            lemma_nodes_of_index(items.drop_last(), i);
        }
    }
}

pub broadcast proof fn lemma_entries_of_len(entries: Seq<(String, JsonValue)>)
    ensures
        #[trigger] entries_of(entries).len() == entries.len(),
    decreases entries.len(),
{
    if entries.len() > 0 {
        lemma_entries_of_len(entries.drop_last());
    }
}

pub broadcast proof fn lemma_entries_of_index(entries: Seq<(String, JsonValue)>, i: int)
    requires
        0 <= i < entries.len(),
    ensures
        #[trigger] entries_of(entries)[i] == (entries[i].0@, entries[i].1.node()),
    decreases entries.len(),
{
    lemma_entries_of_len(entries);
    if entries.len() > 0 {
        lemma_entries_of_len(entries.drop_last());
        if i < entries.len() - 1 {
            lemma_entries_of_index(entries.drop_last(), i);
        }
    }
}

/// A sequence of members whose images agree pointwise with `b` has
/// image `b`.
pub proof fn lemma_entries_of_eq(a: Seq<(String, JsonValue)>, b: Seq<(Seq<char>, Node)>)
    requires
        b.len() == a.len(),
        forall|i: int| 0 <= i < a.len() ==> #[trigger] b[i] == (a[i].0@, a[i].1.node()),
    ensures
        entries_of(a) == b,
{
    lemma_entries_of_len(a);
    assert forall|i: int| 0 <= i < a.len() implies entries_of(a)[i] == b[i] by {
        lemma_entries_of_index(a, i);
    }
    assert(entries_of(a) =~= b);
}

/// A sequence of elements whose images agree pointwise with `b` has
/// image `b`.
pub proof fn lemma_nodes_of_eq(a: Seq<JsonValue>, b: Seq<Node>)
    requires
        b.len() == a.len(),
        forall|i: int| 0 <= i < a.len() ==> #[trigger] b[i] == a[i].node(),
    ensures
        nodes_of(a) == b,
{
    lemma_nodes_of_len(a);
    assert forall|i: int| 0 <= i < a.len() implies nodes_of(a)[i] == b[i] by {
        lemma_nodes_of_index(a, i);
    }
    assert(nodes_of(a) =~= b);
}

/// Deep structural equality of two value trees: true exactly when the
/// mathematical images coincide.
pub fn value_eq(a: &JsonValue, b: &JsonValue) -> (r: bool)
    ensures
        r == (a.node() == b.node()),
    decreases a,
{
    broadcast use lemma_nodes_of_len, lemma_nodes_of_index, lemma_entries_of_len, lemma_entries_of_index;

    match (a, b) {
        (JsonValue::Null, JsonValue::Null) => true,
        (JsonValue::Bool(x), JsonValue::Bool(y)) => *x == *y,
        (JsonValue::Num(x), JsonValue::Num(y)) => x.eq(y),
        (JsonValue::Text(x), JsonValue::Text(y)) => x.eq(y),
        (JsonValue::Arr(x), JsonValue::Arr(y)) => {
            if x.len() != y.len() {
                proof {
                    lemma_nodes_of_len(x@);
                    lemma_nodes_of_len(y@);
                }
                return false;
            }
            let n = x.len();
            let mut i: usize = 0;
            while i < n
                invariant
                    i <= n,
                    n == x@.len(),
                    n == y@.len(),
                    *a is Arr,
                    a->Arr_0 == *x,
                    a.node() == Node::Arr(nodes_of(x@)),
                    b.node() == Node::Arr(nodes_of(y@)),
                    forall|m: int| 0 <= m < i ==> nodes_of(x@)[m] == nodes_of(y@)[m],
                decreases n - i,
            {
                proof {
                    broadcast use lemma_nodes_of_len, lemma_nodes_of_index;

                    assert(decreases_to!(*a => a->Arr_0));
                    assert(decreases_to!(a->Arr_0 => a->Arr_0@));
                    assert(decreases_to!(a->Arr_0@ => a->Arr_0@[i as int]));
                }
                if !value_eq(&x[i], &y[i]) {
                    proof {
                        lemma_nodes_of_index(x@, i as int);
                        lemma_nodes_of_index(y@, i as int);
                    }
                    return false;
                }
                i += 1;
            }
            proof {
                assert(nodes_of(x@) =~= nodes_of(y@));
            }
            true
        },
        (JsonValue::Obj(x), JsonValue::Obj(y)) => {
            if x.len() != y.len() {
                proof {
                    lemma_entries_of_len(x@);
                    lemma_entries_of_len(y@);
                }
                return false;
            }
            let n = x.len();
            let mut i: usize = 0;
            while i < n
                invariant
                    i <= n,
                    n == x@.len(),
                    n == y@.len(),
                    *a is Obj,
                    a->Obj_0 == *x,
                    a.node() == Node::Obj(entries_of(x@)),
                    b.node() == Node::Obj(entries_of(y@)),
                    forall|m: int| 0 <= m < i ==> entries_of(x@)[m] == entries_of(y@)[m],
                decreases n - i,
            {
                proof {
                    broadcast use lemma_entries_of_len, lemma_entries_of_index;

                    assert(decreases_to!(*a => a->Obj_0));
                    assert(decreases_to!(a->Obj_0 => a->Obj_0@));
                    assert(decreases_to!(a->Obj_0@ => a->Obj_0@[i as int]));
                    assert(decreases_to!(a->Obj_0@[i as int] => a->Obj_0@[i as int].1));
                }
                if !x[i].0.eq(&y[i].0) {
                    proof {
                        lemma_entries_of_index(x@, i as int);
                        lemma_entries_of_index(y@, i as int);
                    }
                    return false;
                }
                if !value_eq(&x[i].1, &y[i].1) {
                    proof {
                        lemma_entries_of_index(x@, i as int);
                        lemma_entries_of_index(y@, i as int);
                    }
                    return false;
                }
                i += 1;
            }
            proof {
                assert(entries_of(x@) =~= entries_of(y@));
            }
            true
        },
        _ => false,
    }
}

impl PartialEq for JsonValue {
    fn eq(&self, other: &JsonValue) -> (r: bool) {
        value_eq(self, other)
    }
}

impl vstd::std_specs::cmp::PartialEqSpecImpl for JsonValue {
    open spec fn obeys_eq_spec() -> bool {
        true
    }

    open spec fn eq_spec(&self, other: &JsonValue) -> bool {
        self.node() == other.node()
    }
}

} // verus!
