//! Classification, shape description and path enumeration of a value tree.
//! Arrays are sampled: only their first element is looked into.

use vstd::prelude::*;
use crate::path::opt_view;
use crate::text::{concat, dotted, join_dotted, views};
use crate::value::{lemma_view_entries, lemma_view_items, view_entries, Json, Value};

verus! {

/// The kind of a node. `Undefined` stands for a value that was not supplied
/// at all, as opposed to a null.
#[derive(Debug, Clone, Copy, PartialEq, Eq, Structural)]
pub enum JsonType {
    Array,
    Object,
    Primitive,
    Null,
    Undefined,
}

/// What `analyze_value` reports of a node.
#[derive(Debug)]
pub struct JsonAnalysisResult {
    pub json_type: JsonType,
    /// For an object, each key mapped to the type name of its value; for an
    /// array, one string naming its elements' type; for a primitive, its type
    /// name; for a null, a null.
    pub structure: Value,
    pub paths: Vec<String>,
    /// The first element of an array, or the primitive itself.
    pub sample: Option<Value>,
}

pub open spec fn kind_of(v: Json) -> JsonType {
    match v {
        Json::Null => JsonType::Null,
        Json::Array(_) => JsonType::Array,
        Json::Object(_) => JsonType::Object,
        _ => JsonType::Primitive,
    }
}

pub open spec fn kind_label(v: Json) -> Seq<char> {
    match v {
        Json::Null => seq!['n', 'u', 'l', 'l'],
        Json::Bool(_) => seq!['b', 'o', 'o', 'l', 'e', 'a', 'n'],
        Json::Number(_) => seq!['n', 'u', 'm', 'b', 'e', 'r'],
        Json::String(_) => seq!['s', 't', 'r', 'i', 'n', 'g'],
        Json::Array(_) => seq!['a', 'r', 'r', 'a', 'y'],
        Json::Object(_) => seq!['o', 'b', 'j', 'e', 'c', 't'],
    }
}

/// The shape descriptor of a node.
pub open spec fn structure_of(v: Json) -> Json {
    match v {
        Json::Null => Json::Null,
        Json::Array(items) => if items.len() == 0 {
            Json::String(seq!['a', 'r', 'r', 'a', 'y'])
        } else {
            Json::String(kind_label(items[0]) + seq!['[', ']'])
        },
        Json::Object(entries) => Json::Object(
            entries.map_values(|e: (Seq<char>, Json)| (e.0, Json::String(kind_label(e.1)))),
        ),
        _ => Json::String(kind_label(v)),
    }
}

pub open spec fn sample_of(v: Json) -> Option<Json> {
    match v {
        Json::Null => None,
        Json::Object(_) => None,
        Json::Array(items) => if items.len() > 0 {
            Some(items[0])
        } else {
            None
        },
        _ => Some(v),
    }
}

/// A path of the first element, placed under the marker `[0]`.
pub open spec fn under_first(p: Seq<char>) -> Seq<char> {
    if p.len() > 0 && p[0] == '.' {
        seq!['[', '0', ']'] + p
    } else {
        seq!['[', '0', ']', '.'] + p
    }
}

/// The paths that analysis reports: an array reports the marker `[]` and
/// then its first element's paths under `[0]`; an object reports `.key` for
/// each key, followed by the paths of a nested object or array under it.
pub open spec fn analysis_paths(v: Json) -> Seq<Seq<char>>
    decreases v,
{
    match v {
        Json::Array(items) => seq![seq!['[', ']']] + if items.len() > 0 {
            analysis_paths(items[0]).map_values(|p: Seq<char>| under_first(p))
        } else {
            Seq::empty()
        },
        Json::Object(entries) => entry_analysis_paths(entries),
        _ => Seq::empty(),
    }
}

pub open spec fn entry_analysis_paths(entries: Seq<(Seq<char>, Json)>) -> Seq<Seq<char>>
    decreases entries,
{
    if entries.len() == 0 {
        Seq::empty()
    } else {
        let e = entries.last();
        let dk = seq!['.'] + e.0;
        entry_analysis_paths(entries.drop_last()) + seq![dk] + if e.1 is Object || e.1 is Array {
            analysis_paths(e.1).map_values(|p: Seq<char>| dk + p)
        } else {
            Seq::empty()
        }
    }
}

/// What `analyze_value` reports of `v`.
pub open spec fn analysis_matches(r: JsonAnalysisResult, v: Json) -> bool {
    &&& r.json_type == kind_of(v)
    &&& r.structure@ == structure_of(v)
    &&& views(r.paths@) == analysis_paths(v)
    &&& opt_view(r.sample) == sample_of(v)
}

pub fn kind_label_of(v: &Value) -> (r: String)
    ensures
        r@ == kind_label(v@),
{
    proof {
        reveal_strlit("null");
        reveal_strlit("boolean");
        reveal_strlit("number");
        reveal_strlit("string");
        reveal_strlit("array");
        reveal_strlit("object");
    }
    match v {
        Value::Null => String::from_str("null"),
        Value::Bool(_) => String::from_str("boolean"),
        Value::Number(_) => String::from_str("number"),
        Value::String(_) => String::from_str("string"),
        Value::Array(_) => String::from_str("array"),
        Value::Object(_) => String::from_str("object"),
    }
}

fn object_structure(entries: &Vec<(String, Value)>) -> (r: Vec<(String, Value)>)
    ensures
        view_entries(r@) == view_entries(entries@).map_values(
            |e: (Seq<char>, Json)| (e.0, Json::String(kind_label(e.1))),
        ),
{
    let mut out: Vec<(String, Value)> = Vec::new();
    let mut i: usize = 0;
    while i < entries.len()
        invariant
            i <= entries.len(),
            out.len() == i,
            forall|j: int|
                #![trigger out@[j]]
                0 <= j < i ==> out@[j].0@ == entries@[j].0@ && out@[j].1@ == Json::String(
                    kind_label(entries@[j].1@),
                ),
        decreases entries.len() - i,
    {
        let k = entries[i].0.clone();
        let t = kind_label_of(&entries[i].1);
        out.push((k, Value::String(t)));
        i += 1;
    }
    proof {
        lemma_view_entries(out@);
        lemma_view_entries(entries@);
        assert(view_entries(out@) =~= view_entries(entries@).map_values(
            |e: (Seq<char>, Json)| (e.0, Json::String(kind_label(e.1))),
        ));
    }
    out
}

/// Classifies `v`, describes its shape, and lists its paths, looking only
/// into the first element of each array.
pub fn analyze_value(v: &Value) -> (r: JsonAnalysisResult)
    ensures
        analysis_matches(r, v@),
    decreases v,
{
    match v {
        Value::Null => {
            let paths: Vec<String> = Vec::new();
            proof {
                assert(views(paths@) =~= Seq::<Seq<char>>::empty());
            }
            JsonAnalysisResult {
                json_type: JsonType::Null,
                structure: Value::Null,
                paths,
                sample: None,
            }
        },
        Value::Array(items) => {
            proof {
                reveal_strlit("[]");
                reveal_strlit("array");
                reveal_strlit("[0]");
                reveal_strlit("[0].");
                lemma_view_items(items@);
            }
            let mut paths: Vec<String> = Vec::new();
            let marker = String::from_str("[]");
            proof {
                assert(marker@ =~= seq!['[', ']']);
                assert("array"@ =~= seq!['a', 'r', 'r', 'a', 'y']);
            }
            paths.push(marker);
            proof {
                assert(views(paths@) =~= seq![seq!['[', ']']]);
            }
            if items.len() == 0 {
                proof {
                    assert(analysis_paths(v@) =~= seq![seq!['[', ']']]);
                }
                return JsonAnalysisResult {
                    json_type: JsonType::Array,
                    structure: Value::String(String::from_str("array")),
                    paths,
                    sample: None,
                };
            }
            assert(decreases_to!(*v => v->Array_0));
            assert(decreases_to!(*items => items[0]));
            let sub = analyze_value(&items[0]);
            let ghost subp = analysis_paths(items@[0]@);
            let mut i: usize = 0;
            while i < sub.paths.len()
                invariant
                    i <= sub.paths.len(),
                    views(sub.paths@) == subp,
                    views(paths@) == seq![seq!['[', ']']] + subp.take(i as int).map_values(
                        |p: Seq<char>| under_first(p),
                    ),
                decreases sub.paths.len() - i,
            {
                let p = sub.paths[i].as_str();
                proof {
                    assert(views(sub.paths@)[i as int] == sub.paths@[i as int]@);
                    reveal_strlit("[0]");
                    reveal_strlit("[0].");
                    assert("[0]"@ =~= seq!['[', '0', ']']);
                    assert("[0]."@ =~= seq!['[', '0', ']', '.']);
                }
                let full = if p.unicode_len() > 0 && p.get_char(0) == '.' {
                    concat("[0]", p)
                } else {
                    concat("[0].", p)
                };
                let ghost before = paths@;
                paths.push(full);
                proof {
                    assert(full@ == under_first(subp[i as int]));
                    assert(views(paths@) =~= views(before).push(full@));
                    assert(subp.take(i + 1) =~= subp.take(i as int).push(subp[i as int]));
                    assert(views(paths@) =~= seq![seq!['[', ']']] + subp.take(i + 1).map_values(
                        |p: Seq<char>| under_first(p),
                    ));
                }
                i += 1;
            }
            proof {
                assert(subp.take(i as int) =~= subp);
            }
            let name = kind_label_of(&items[0]);
            let structure = Value::String(concat(name.as_str(), "[]"));
            JsonAnalysisResult {
                json_type: JsonType::Array,
                structure,
                paths,
                sample: Some(items[0].deep_clone()),
            }
        },
        Value::Object(entries) => {
            let ghost m = view_entries(entries@);
            let mut paths: Vec<String> = Vec::new();
            let mut i: usize = 0;
            proof {
                lemma_view_entries(entries@);
                assert(m.take(0) =~= Seq::<(Seq<char>, Json)>::empty());
                assert(views(paths@) =~= Seq::<Seq<char>>::empty());
            }
            while i < entries.len()
                invariant
                    i <= entries.len(),
                    *v == Value::Object(*entries),
                    m == view_entries(entries@),
                    m.len() == entries.len(),
                    views(paths@) == entry_analysis_paths(m.take(i as int)),
                decreases entries.len() - i,
            {
                proof {
                    lemma_view_entries(entries@);
                    reveal_strlit(".");
                    assert(m.take(i + 1).drop_last() =~= m.take(i as int));
                    assert(m.take(i + 1).last() == m[i as int]);
                }
                let k = entries[i].0.as_str();
                let x = &entries[i].1;
                let dk = concat(".", k);
                proof {
                    assert("."@ =~= seq!['.']);
                    assert(dk@ == seq!['.'] + m[i as int].0);
                }
                let ghost base = views(paths@);
                paths.push(dk.clone());
                proof {
                    assert(views(paths@) =~= base + seq![dk@]);
                }
                let nested = match x {
                    Value::Object(_) => true,
                    Value::Array(_) => true,
                    _ => false,
                };
                if nested {
                    assert(decreases_to!(*v => v->Object_0));
                    assert(decreases_to!(*entries => entries[i as int]));
                    assert(decreases_to!(entries[i as int] => entries[i as int].1));
                    let sub = analyze_value(x);
                    let ghost subp = analysis_paths(x@);
                    let ghost mid = views(paths@);
                    let mut j: usize = 0;
                    while j < sub.paths.len()
                        invariant
                            j <= sub.paths.len(),
                            views(sub.paths@) == subp,
                            views(paths@) == mid + subp.take(j as int).map_values(
                                |p: Seq<char>| dk@ + p,
                            ),
                        decreases sub.paths.len() - j,
                    {
                        proof {
                            assert(views(sub.paths@)[j as int] == sub.paths@[j as int]@);
                        }
                        let full = concat(dk.as_str(), sub.paths[j].as_str());
                        let ghost before = paths@;
                        paths.push(full);
                        proof {
                            assert(views(paths@) =~= views(before).push(full@));
                            assert(subp.take(j + 1) =~= subp.take(j as int).push(subp[j as int]));
                            assert(views(paths@) =~= mid + subp.take(j + 1).map_values(
                                |p: Seq<char>| dk@ + p,
                            ));
                        }
                        j += 1;
                    }
                    proof {
                        assert(subp.take(j as int) =~= subp);
                        assert(views(paths@) =~= entry_analysis_paths(m.take(i + 1)));
                    }
                } else {
                    proof {
                        assert(views(paths@) =~= entry_analysis_paths(m.take(i + 1)));
                    }
                }
                i += 1;
            }
            proof {
                assert(m.take(i as int) =~= m);
            }
            let structure = Value::Object(object_structure(entries));
            JsonAnalysisResult { json_type: JsonType::Object, structure, paths, sample: None }
        },
        _ => {
            let paths: Vec<String> = Vec::new();
            proof {
                assert(views(paths@) =~= Seq::<Seq<char>>::empty());
            }
            JsonAnalysisResult {
                json_type: JsonType::Primitive,
                structure: Value::String(kind_label_of(v)),
                paths,
                sample: Some(v.deep_clone()),
            }
        },
    }
}

/// Analyses a value that may be missing: a missing value is `Undefined`,
/// with a null structure, no paths and no sample.
pub fn analyze_json_structure(data: &Option<Value>) -> (r: JsonAnalysisResult)
    ensures
        match data {
            Some(v) => analysis_matches(r, v@),
            None => r.json_type == JsonType::Undefined && r.structure@ == Json::Null
                && r.paths@.len() == 0 && r.sample is None,
        },
{
    match data {
        Some(v) => analyze_value(v),
        None => JsonAnalysisResult {
            json_type: JsonType::Undefined,
            structure: Value::Null,
            paths: Vec::new(),
            sample: None,
        },
    }
}

/// Analysis of an array looks at its first element only: two non-empty
/// arrays with the same first element get the same kind, structure, paths
/// and sample.
pub proof fn array_analysis_follows_first(a: Seq<Json>, b: Seq<Json>)
    requires
        a.len() > 0,
        b.len() > 0,
        a[0] == b[0],
    ensures
        kind_of(Json::Array(a)) == kind_of(Json::Array(b)),
        structure_of(Json::Array(a)) == structure_of(Json::Array(b)),
        analysis_paths(Json::Array(a)) == analysis_paths(Json::Array(b)),
        sample_of(Json::Array(a)) == sample_of(Json::Array(b)),
{
}

/// The prefix itself, unless it is the root.
pub open spec fn here(prefix: Seq<char>) -> Seq<Seq<char>> {
    if prefix.len() > 0 {
        seq![prefix]
    } else {
        Seq::empty()
    }
}

/// The absolute paths below `prefix`: a primitive, an empty array or an
/// empty object emits its own path (none at the root); a non-empty object
/// emits its entries' paths, key order kept; a non-empty array emits its
/// first element's paths under `[0]`.
pub open spec fn leaf_paths(v: Json, prefix: Seq<char>) -> Seq<Seq<char>>
    decreases v,
{
    match v {
        Json::Array(items) => if items.len() == 0 {
            here(prefix)
        } else {
            leaf_paths(items[0], prefix + seq!['[', '0', ']'])
        },
        Json::Object(entries) => if entries.len() == 0 {
            here(prefix)
        } else {
            entry_leaf_paths(entries, prefix)
        },
        _ => here(prefix),
    }
}

pub open spec fn entry_leaf_paths(entries: Seq<(Seq<char>, Json)>, prefix: Seq<char>) -> Seq<
    Seq<char>,
>
    decreases entries,
{
    if entries.len() == 0 {
        Seq::empty()
    } else {
        let e = entries.last();
        entry_leaf_paths(entries.drop_last(), prefix) + leaf_paths(e.1, dotted(prefix, e.0))
    }
}

fn here_of(prefix: &str) -> (r: Vec<String>)
    ensures
        views(r@) == here(prefix@),
{
    let mut r: Vec<String> = Vec::new();
    if prefix.unicode_len() > 0 {
        r.push(String::from_str(prefix));
    }
    proof {
        assert(views(r@) =~= here(prefix@));
    }
    r
}

/// Every path below `prefix` that ends at a primitive or an empty
/// container, in document order, descending only into the first element of
/// each array.
pub fn extract_paths(value: &Value, prefix: &str) -> (r: Vec<String>)
    ensures
        views(r@) == leaf_paths(value@, prefix@),
    decreases value,
{
    match value {
        Value::Array(items) => {
            proof {
                lemma_view_items(items@);
            }
            if items.len() == 0 {
                return here_of(prefix);
            }
            let first = concat(prefix, "[0]");
            proof {
                reveal_strlit("[0]");
                assert("[0]"@ =~= seq!['[', '0', ']']);
            }
            assert(decreases_to!(*value => value->Array_0));
            assert(decreases_to!(*items => items[0]));
            extract_paths(&items[0], first.as_str())
        },
        Value::Object(entries) => {
            proof {
                lemma_view_entries(entries@);
            }
            if entries.len() == 0 {
                return here_of(prefix);
            }
            let ghost m = view_entries(entries@);
            let mut paths: Vec<String> = Vec::new();
            let mut i: usize = 0;
            proof {
                assert(m.take(0) =~= Seq::<(Seq<char>, Json)>::empty());
                assert(views(paths@) =~= Seq::<Seq<char>>::empty());
            }
            while i < entries.len()
                invariant
                    i <= entries.len(),
                    *value == Value::Object(*entries),
                    m == view_entries(entries@),
                    m.len() == entries.len(),
                    views(paths@) == entry_leaf_paths(m.take(i as int), prefix@),
                decreases entries.len() - i,
            {
                proof {
                    lemma_view_entries(entries@);
                    assert(m.take(i + 1).drop_last() =~= m.take(i as int));
                    assert(m.take(i + 1).last() == m[i as int]);
                }
                let key = join_dotted(prefix, entries[i].0.as_str());
                assert(decreases_to!(*value => value->Object_0));
                assert(decreases_to!(*entries => entries[i as int]));
                assert(decreases_to!(entries[i as int] => entries[i as int].1));
                let mut sub = extract_paths(&entries[i].1, key.as_str());
                let ghost before = paths@;
                let ghost added = sub@;
                paths.append(&mut sub);
                proof {
                    assert(views(paths@) =~= views(before) + views(added));
                }
                i += 1;
            }
            proof {
                assert(m.take(i as int) =~= m);
            }
            paths
        },
        _ => here_of(prefix),
    }
}

} // verus!
