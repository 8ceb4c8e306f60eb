//! The value tree shared by every other module, and its mathematical model.

use vstd::prelude::*;

verus! {

/// A JSON number is carried through unchanged; nothing here reads inside it.
#[verifier::external_type_specification]
#[verifier::external_body]
pub struct ExNumber(serde_json::Number);

/// Relies on the `Clone` that serde_json derives for `Number`: it copies the
/// number's representation, so the copy is the same number.
pub assume_specification[ <serde_json::Number as Clone>::clone ](n: &serde_json::Number) -> (r:
    serde_json::Number)
    ensures
        r == *n,
;

/// A node of a value tree. Arrays keep their order; objects keep their
/// entries in insertion order, and a key is looked up by its first entry.
#[derive(Debug, PartialEq)]
pub enum Value {
    Null,
    Bool(bool),
    Number(serde_json::Number),
    String(String),
    Array(Vec<Value>),
    Object(Vec<(String, Value)>),
}

/// The model of a `Value`: the same tree with sequences in place of vectors
/// and character sequences in place of strings.
pub enum Json {
    Null,
    Bool(bool),
    Number(serde_json::Number),
    String(Seq<char>),
    Array(Seq<Json>),
    Object(Seq<(Seq<char>, Json)>),
}

pub open spec fn view_items(items: Seq<Value>) -> Seq<Json>
    decreases items,
{
    if items.len() == 0 {
        Seq::empty()
    } else {
        view_items(items.drop_last()).push(view_value(items.last()))
    }
}

pub open spec fn view_entries(entries: Seq<(String, Value)>) -> Seq<(Seq<char>, Json)>
    decreases entries,
{
    if entries.len() == 0 {
        Seq::empty()
    } else {
        let e = entries.last();
        view_entries(entries.drop_last()).push((e.0@, view_value(e.1)))
    }
}

pub open spec fn view_value(v: Value) -> Json
    decreases v,
{
    match v {
        Value::Null => Json::Null,
        Value::Bool(b) => Json::Bool(b),
        Value::Number(n) => Json::Number(n),
        Value::String(s) => Json::String(s@),
        Value::Array(items) => Json::Array(view_items(items@)),
        Value::Object(entries) => Json::Object(view_entries(entries@)),
    }
}

impl View for Value {
    type V = Json;

    open spec fn view(&self) -> Json {
        view_value(*self)
    }
}

pub proof fn lemma_view_items(items: Seq<Value>)
    ensures
        view_items(items).len() == items.len(),
        forall|i: int| 0 <= i < items.len() ==> #[trigger] view_items(items)[i] == items[i]@,
    decreases items.len(),
{
    if items.len() > 0 {
        lemma_view_items(items.drop_last());
    }
}

pub proof fn lemma_view_entries(entries: Seq<(String, Value)>)
    ensures
        view_entries(entries).len() == entries.len(),
        forall|i: int|
            0 <= i < entries.len() ==> #[trigger] view_entries(entries)[i] == (
            entries[i].0@,
            entries[i].1@,
        ),
    decreases entries.len(),
{
    if entries.len() > 0 {
        lemma_view_entries(entries.drop_last());
    }
}

pub proof fn lemma_view_entries_push(entries: Seq<(String, Value)>, e: (String, Value))
    ensures
        view_entries(entries.push(e)) == view_entries(entries).push((e.0@, e.1@)),
{
    assert(entries.push(e).drop_last() =~= entries);
}

/// Two item sequences with equal views element by element have equal views.
pub proof fn lemma_view_items_ext(a: Seq<Value>, b: Seq<Value>)
    requires
        a.len() == b.len(),
        forall|i: int| 0 <= i < a.len() ==> #[trigger] a[i]@ == b[i]@,
    ensures
        view_items(a) == view_items(b),
{
    lemma_view_items(a);
    lemma_view_items(b);
    assert(view_items(a) =~= view_items(b));
}

pub proof fn lemma_view_entries_ext(a: Seq<(String, Value)>, b: Seq<(String, Value)>)
    requires
        a.len() == b.len(),
        forall|i: int| #![trigger a[i]] 0 <= i < a.len() ==> a[i].0@ == b[i].0@ && a[i].1@ == b[i].1@,
    ensures
        view_entries(a) == view_entries(b),
{
    lemma_view_entries(a);
    lemma_view_entries(b);
    assert(view_entries(a) =~= view_entries(b));
}

/// The position of the first entry with key `k`, or -1 where there is none.
pub open spec fn key_index(entries: Seq<(Seq<char>, Json)>, k: Seq<char>) -> int
    decreases entries.len(),
{
    if entries.len() == 0 {
        -1
    } else {
        let i = key_index(entries.drop_last(), k);
        if i >= 0 {
            i
        } else if entries.last().0 == k {
            entries.len() - 1
        } else {
            -1
        }
    }
}

/// What an object holds under key `k`.
pub open spec fn lookup(entries: Seq<(Seq<char>, Json)>, k: Seq<char>) -> Option<Json> {
    let i = key_index(entries, k);
    if i >= 0 {
        Some(entries[i].1)
    } else {
        None
    }
}

/// An object with key `k` bound to `v`: the first entry with that key is
/// replaced in place, or a new entry goes at the end.
pub open spec fn insert(entries: Seq<(Seq<char>, Json)>, k: Seq<char>, v: Json) -> Seq<(Seq<char>, Json)> {
    let i = key_index(entries, k);
    if i >= 0 {
        entries.update(i, (k, v))
    } else {
        entries.push((k, v))
    }
}

pub proof fn lemma_key_index(entries: Seq<(Seq<char>, Json)>, k: Seq<char>)
    ensures
        -1 <= key_index(entries, k) < entries.len(),
        key_index(entries, k) >= 0 ==> entries[key_index(entries, k)].0 == k,
        forall|j: int|
            0 <= j < entries.len() && (key_index(entries, k) < 0 || j < key_index(entries, k))
                ==> #[trigger] entries[j].0 != k,
    decreases entries.len(),
{
    if entries.len() > 0 {
        lemma_key_index(entries.drop_last(), k);
        assert(forall|j: int| 0 <= j < entries.len() - 1 ==> entries.drop_last()[j] == entries[j]);
    }
}

/// Looking a key up after binding it gives the bound value; other keys are
/// untouched.
pub proof fn lemma_lookup_insert(entries: Seq<(Seq<char>, Json)>, k: Seq<char>, v: Json, q: Seq<char>)
    ensures
        lookup(insert(entries, k, v), q) == if q == k {
            Some(v)
        } else {
            lookup(entries, q)
        },
{
    let e2 = insert(entries, k, v);
    lemma_key_index(entries, k);
    lemma_key_index(entries, q);
    lemma_key_index(e2, q);
    let i = key_index(entries, q);
    let i2 = key_index(e2, q);
    if i2 >= 0 && i >= 0 {
        if i2 < i {
            assert(e2[i2].0 == q);
        } else if i < i2 {
            assert(e2[i].0 == q);
        }
    } else if i2 >= 0 {
        assert(e2[i2].0 == q);
    } else if i >= 0 {
        assert(e2[i].0 == q);
    }
}

/// No two entries of an object share a key.
pub open spec fn keys_unique(entries: Seq<(Seq<char>, Json)>) -> bool {
    forall|i: int, j: int| 0 <= i < j < entries.len() ==> entries[i].0 != entries[j].0
}

/// A well-formed tree: every object in it has unique keys.
pub open spec fn wf(v: Json) -> bool
    decreases v,
{
    match v {
        Json::Array(items) => forall|i: int| 0 <= i < items.len() ==> wf(#[trigger] items[i]),
        Json::Object(es) => keys_unique(es) && forall|i: int|
            #![trigger es[i]]
            0 <= i < es.len() ==> wf(es[i].1),
        _ => true,
    }
}

/// The entries of a well-formed object.
pub open spec fn wf_entries(es: Seq<(Seq<char>, Json)>) -> bool {
    wf(Json::Object(es))
}

pub proof fn lemma_lookup_wf(es: Seq<(Seq<char>, Json)>, k: Seq<char>)
    requires
        wf_entries(es),
    ensures
        lookup(es, k) matches Some(x) ==> wf(x),
{
    lemma_key_index(es, k);
}

/// Binding a key keeps an object well formed.
pub proof fn lemma_insert_wf(es: Seq<(Seq<char>, Json)>, k: Seq<char>, v: Json)
    requires
        wf_entries(es),
        wf(v),
    ensures
        wf_entries(insert(es, k, v)),
{
    lemma_key_index(es, k);
    let e2 = insert(es, k, v);
    let ki = key_index(es, k);
    assert forall|i: int, j: int| 0 <= i < j < e2.len() implies e2[i].0 != e2[j].0 by {
        if ki < 0 && j == es.len() {
            assert(es[i].0 != k);
        } else {
            assert(e2[i].0 == es[i].0 && e2[j].0 == es[j].0);
        }
    }
    assert forall|i: int| 0 <= i < e2.len() implies wf(#[trigger] e2[i].1) by {
        if i != ki && i < es.len() {
            assert(e2[i] == es[i]);
        }
    }
}

/// The first entry of `entries` whose key is `k`.
pub fn find_key(entries: &Vec<(String, Value)>, k: &str) -> (r: Option<usize>)
    ensures
        match r {
            Some(i) => key_index(view_entries(entries@), k@) == i,
            None => key_index(view_entries(entries@), k@) == -1,
        },
{
    let ghost m = view_entries(entries@);
    proof {
        lemma_view_entries(entries@);
        lemma_key_index(m, k@);
    }
    let key = String::from_str(k);
    let mut i: usize = 0;
    while i < entries.len()
        invariant
            i <= entries.len(),
            key@ == k@,
            m == view_entries(entries@),
            m.len() == entries.len(),
            forall|j: int| 0 <= j < i ==> #[trigger] m[j].0 != k@,
        decreases entries.len() - i,
    {
        proof {
            lemma_view_entries(entries@);
        }
        if entries[i].0 == key {
            proof {
                assert(m[i as int].0 == k@);
                lemma_key_index(m, k@);
                let ki = key_index(m, k@);
                if ki >= 0 && ki < i {
                    assert(m[ki].0 == k@);
                }
            }
            return Some(i);
        }
        i += 1;
    }
    None
}

/// Binds `k` to `v` in an object's entries.
pub fn object_insert(entries: &mut Vec<(String, Value)>, k: String, v: Value)
    ensures
        view_entries(final(entries)@) == insert(view_entries(old(entries)@), k@, v@),
{
    proof {
        lemma_view_entries(entries@);
        lemma_key_index(view_entries(entries@), k@);
    }
    match find_key(entries, k.as_str()) {
        Some(i) => {
            let ghost before = entries@;
            let ghost kv = k@;
            let ghost vv = v@;
            entries.set(i, (k, v));
            proof {
                lemma_view_entries(entries@);
                assert(view_entries(entries@) =~= view_entries(before).update(i as int, (kv, vv)));
            }
        },
        None => {
            let ghost before = entries@;
            let ghost kv = k@;
            let ghost vv = v@;
            entries.push((k, v));
            proof {
                lemma_view_entries(entries@);
                assert(view_entries(entries@) =~= view_entries(before).push((kv, vv)));
            }
        },
    }
}

impl Clone for Value {
    fn clone(&self) -> Self {
        self.deep_clone()
    }
}

impl Value {
    /// A copy of the whole tree.
    pub fn deep_clone(&self) -> (r: Value)
        ensures
            r@ == self@,
        decreases self,
    {
        match self {
            Value::Null => Value::Null,
            Value::Bool(b) => Value::Bool(*b),
            Value::Number(n) => Value::Number(n.clone()),
            Value::String(s) => Value::String(s.clone()),
            Value::Array(items) => {
                let mut out: Vec<Value> = Vec::new();
                let mut i: usize = 0;
                while i < items.len()
                    invariant
                        i <= items.len(),
                        *self == Value::Array(*items),
                        out.len() == i,
                        forall|j: int| 0 <= j < i ==> #[trigger] out@[j]@ == items@[j]@,
                    decreases items.len() - i,
                {
                    assert(decreases_to!(*self => self->Array_0));
                    assert(decreases_to!(*items => items[i as int]));
                    out.push(items[i].deep_clone());
                    i += 1;
                }
                proof {
                    lemma_view_items_ext(out@, items@);
                }
                Value::Array(out)
            },
            Value::Object(entries) => {
                let mut out: Vec<(String, Value)> = Vec::new();
                let mut i: usize = 0;
                while i < entries.len()
                    invariant
                        i <= entries.len(),
                        *self == Value::Object(*entries),
                        out.len() == i,
                        forall|j: int|
                            #![trigger out@[j]]
                            0 <= j < i ==> out@[j].0@ == entries@[j].0@ && out@[j].1@
                                == entries@[j].1@,
                    decreases entries.len() - i,
                {
                    assert(decreases_to!(*self => self->Object_0));
                    assert(decreases_to!(*entries => entries[i as int]));
                    assert(decreases_to!(entries[i as int] => entries[i as int].1));
                    let k = entries[i].0.clone();
                    let v = entries[i].1.deep_clone();
                    out.push((k, v));
                    i += 1;
                }
                proof {
                    lemma_view_entries_ext(out@, entries@);
                }
                Value::Object(out)
            },
        }
    }
}

} // verus!
