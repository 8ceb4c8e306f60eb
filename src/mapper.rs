//! Mapping rules between two shapes: deriving them from a source and a
//! target shape, and applying them to a source to build a new tree.

use vstd::prelude::*;
use crate::error::DataError;
use crate::path::{
    get_by_path, lemma_set_in_wf, lemma_walk_wf, opt_view, read_path, read_segments, set_by_path,
    set_in, write_path,
};
use crate::text::{dotted, join_dotted, lemma_split_nonempty, split};
use crate::value::{
    find_key, lemma_key_index, lemma_lookup_wf, lemma_view_entries, lemma_view_items, lookup,
    view_entries, view_items, wf, wf_entries, Json, Value,
};

verus! {

/// Copy the value at `source_path` of the source to `target_path` of the
/// result, or `default_value` where the source has nothing there.
#[derive(Debug)]
pub struct MappingRule {
    pub field: String,
    pub source_path: String,
    pub target_path: String,
    pub default_value: Option<Value>,
}

/// The model of a `MappingRule`.
pub struct RuleModel {
    pub field: Seq<char>,
    pub source_path: Seq<char>,
    pub target_path: Seq<char>,
    pub default_value: Option<Json>,
}

impl View for MappingRule {
    type V = RuleModel;

    open spec fn view(&self) -> RuleModel {
        RuleModel {
            field: self.field@,
            source_path: self.source_path@,
            target_path: self.target_path@,
            default_value: opt_view(self.default_value),
        }
    }
}

pub open spec fn rule_views(v: Seq<MappingRule>) -> Seq<RuleModel> {
    v.map_values(|r: MappingRule| r@)
}

pub open spec fn direct_rule(k: Seq<char>, path: Seq<char>) -> RuleModel {
    RuleModel { field: k, source_path: path, target_path: path, default_value: None }
}

pub open spec fn fallback_rule(k: Seq<char>, path: Seq<char>) -> RuleModel {
    RuleModel { field: k, source_path: path, target_path: path, default_value: Some(Json::Null) }
}

/// The rules derived from a source and a target shape under `prefix`: for
/// two objects, one rule per target key, recursing where both sides hold
/// objects, and falling back to null where the source lacks the key; for
/// two non-empty arrays, the rules of their first elements, unprefixed.
pub open spec fn gen_rules(source: Json, target: Json, prefix: Seq<char>) -> Seq<RuleModel>
    decreases target,
{
    match target {
        Json::Object(te) => match source {
            Json::Object(se) => gen_entries(se, te, prefix),
            _ => Seq::empty(),
        },
        Json::Array(ta) => match source {
            Json::Array(sa) => if sa.len() > 0 && ta.len() > 0 {
                gen_rules(sa[0], ta[0], prefix)
            } else {
                Seq::empty()
            },
            _ => Seq::empty(),
        },
        _ => Seq::empty(),
    }
}

pub open spec fn gen_entries(
    se: Seq<(Seq<char>, Json)>,
    te: Seq<(Seq<char>, Json)>,
    prefix: Seq<char>,
) -> Seq<RuleModel>
    decreases te,
{
    if te.len() == 0 {
        Seq::empty()
    } else {
        let k = te.last().0;
        let tv = te.last().1;
        let path = dotted(prefix, k);
        gen_entries(se, te.drop_last(), prefix) + match lookup(se, k) {
            Some(sv) => if sv is Object && tv is Object {
                gen_rules(sv, tv, path)
            } else {
                seq![direct_rule(k, path)]
            },
            None => seq![fallback_rule(k, path)],
        }
    }
}

fn generate_under(source: &Value, target: &Value, prefix: &str) -> (r: Vec<MappingRule>)
    ensures
        rule_views(r@) == gen_rules(source@, target@, prefix@),
    decreases target,
{
    match target {
        Value::Object(te) => match source {
            Value::Object(se) => {
                let ghost tm = view_entries(te@);
                let ghost sm = view_entries(se@);
                let mut out: Vec<MappingRule> = Vec::new();
                let mut i: usize = 0;
                proof {
                    lemma_view_entries(te@);
                    assert(tm.take(0) =~= Seq::<(Seq<char>, Json)>::empty());
                    assert(rule_views(out@) =~= Seq::<RuleModel>::empty());
                }
                while i < te.len()
                    invariant
                        i <= te.len(),
                        *target == Value::Object(*te),
                        tm == view_entries(te@),
                        sm == view_entries(se@),
                        tm.len() == te.len(),
                        rule_views(out@) == gen_entries(sm, tm.take(i as int), prefix@),
                    decreases te.len() - i,
                {
                    proof {
                        lemma_view_entries(te@);
                        lemma_view_entries(se@);
                        lemma_key_index(sm, te@[i as int].0@);
                        assert(tm.take(i + 1).drop_last() =~= tm.take(i as int));
                        assert(tm.take(i + 1).last() == tm[i as int]);
                    }
                    let k = &te[i].0;
                    let tv = &te[i].1;
                    let path = join_dotted(prefix, k.as_str());
                    let ghost before = rule_views(out@);
                    match find_key(se, k.as_str()) {
                        Some(j) => {
                            let sv = &se[j].1;
                            let both = match (sv, tv) {
                                (Value::Object(_), Value::Object(_)) => true,
                                _ => false,
                            };
                            if both {
                                assert(decreases_to!(*target => target->Object_0));
                                assert(decreases_to!(*te => te[i as int]));
                                assert(decreases_to!(te[i as int] => te[i as int].1));
                                let mut nested = generate_under(sv, tv, path.as_str());
                                let ghost added = nested@;
                                out.append(&mut nested);
                                proof {
                                    assert(rule_views(out@) =~= before + rule_views(added));
                                }
                            } else {
                                let rule = MappingRule {
                                    field: k.clone(),
                                    source_path: path.clone(),
                                    target_path: path,
                                    default_value: None,
                                };
                                out.push(rule);
                                proof {
                                    assert(rule_views(out@) =~= before + seq![
                                        direct_rule(k@, dotted(prefix@, k@)),
                                    ]);
                                }
                            }
                        },
                        None => {
                            let rule = MappingRule {
                                field: k.clone(),
                                source_path: path.clone(),
                                target_path: path,
                                default_value: Some(Value::Null),
                            };
                            out.push(rule);
                            proof {
                                assert(rule_views(out@) =~= before + seq![
                                    fallback_rule(k@, dotted(prefix@, k@)),
                                ]);
                            }
                        },
                    }
                    i += 1;
                }
                proof {
                    assert(tm.take(i as int) =~= tm);
                }
                out
            },
            _ => {
                let out: Vec<MappingRule> = Vec::new();
                proof {
                    assert(rule_views(out@) =~= Seq::<RuleModel>::empty());
                }
                out
            },
        },
        Value::Array(ta) => {
            let out: Vec<MappingRule> = Vec::new();
            proof {
                assert(rule_views(out@) =~= Seq::<RuleModel>::empty());
            }
            match source {
                Value::Array(sa) => {
                    if sa.len() > 0 && ta.len() > 0 {
                        proof {
                            lemma_view_items(sa@);
                            lemma_view_items(ta@);
                        }
                        assert(decreases_to!(*target => target->Array_0));
                        assert(decreases_to!(*ta => ta[0]));
                        generate_under(&sa[0], &ta[0], prefix)
                    } else {
                        out
                    }
                },
                _ => out,
            }
        },
        _ => {
            let out: Vec<MappingRule> = Vec::new();
            proof {
                assert(rule_views(out@) =~= Seq::<RuleModel>::empty());
            }
            out
        },
    }
}

/// The mapping rules from `source` to the shape `target`.
pub fn generate_mapping(source: &Value, target: &Value) -> (r: Vec<MappingRule>)
    ensures
        rule_views(r@) == gen_rules(source@, target@, Seq::empty()),
{
    proof {
        reveal_strlit("");
        assert(""@ =~= Seq::<char>::empty());
    }
    generate_under(source, target, "")
}

pub open spec fn field_key() -> Seq<char> {
    "field"@
}

pub open spec fn source_key() -> Seq<char> {
    "sourcePath"@
}

pub open spec fn target_key() -> Seq<char> {
    "targetPath"@
}

pub open spec fn default_key() -> Seq<char> {
    "defaultValue"@
}

/// A rule written as an object: `field`, `sourcePath`, `targetPath`, and
/// `defaultValue` where the rule has one.
pub open spec fn rule_json(r: RuleModel) -> Json {
    let base = seq![
        (field_key(), Json::String(r.field)),
        (source_key(), Json::String(r.source_path)),
        (target_key(), Json::String(r.target_path)),
    ];
    Json::Object(
        match r.default_value {
            Some(d) => base.push((default_key(), d)),
            None => base,
        },
    )
}

impl MappingRule {
    /// The rule as an object, in the form that `apply_mapping` reads.
    pub fn to_value(&self) -> (r: Value)
        ensures
            r@ == rule_json(self@),
    {
        let mut entries: Vec<(String, Value)> = Vec::new();
        entries.push((String::from_str("field"), Value::String(self.field.clone())));
        entries.push((String::from_str("sourcePath"), Value::String(self.source_path.clone())));
        entries.push((String::from_str("targetPath"), Value::String(self.target_path.clone())));
        match &self.default_value {
            Some(d) => {
                entries.push((String::from_str("defaultValue"), d.deep_clone()));
            },
            None => {},
        }
        proof {
            lemma_view_entries(entries@);
            let m = view_entries(entries@);
            let base = seq![
                (field_key(), Json::String(self.field@)),
                (source_key(), Json::String(self.source_path@)),
                (target_key(), Json::String(self.target_path@)),
            ];
            if self.default_value is Some {
                assert(m =~= base.push((default_key(), self.default_value->0@)));
            } else {
                assert(m =~= base);
            }
        }
        Value::Object(entries)
    }
}

/// Why applying rules fails, in the model.
pub enum Fault {
    InvalidPath,
    PathConflict,
    MalformedRule(Seq<char>),
}

pub open spec fn fault_is(e: DataError, f: Fault) -> bool {
    match f {
        Fault::InvalidPath => e is InvalidPath,
        Fault::PathConflict => e is PathConflict,
        Fault::MalformedRule(n) => e matches DataError::MalformedRule(m) && m@ == n,
    }
}

/// The string that an object holds under `k`, if it holds a string there.
pub open spec fn string_at(entries: Seq<(Seq<char>, Json)>, k: Seq<char>) -> Option<Seq<char>> {
    match lookup(entries, k) {
        Some(Json::String(s)) => Some(s),
        _ => None,
    }
}

/// The value that a rule moves: what the source holds at the source path,
/// else the rule's default, else null.
pub open spec fn moved_value(src: Json, e: Seq<(Seq<char>, Json)>, sp: Seq<char>) -> Json {
    match read_path(src, sp) {
        Some(x) => x,
        None => match lookup(e, default_key()) {
            Some(d) => d,
            None => Json::Null,
        },
    }
}

/// One rule applied to the result built so far. A rule that is not an
/// object, or has no string `sourcePath`, fails naming `sourcePath`; one
/// without a string `targetPath` fails naming `targetPath`.
pub open spec fn apply_one(src: Json, rule: Json, acc: Seq<(Seq<char>, Json)>) -> Result<
    Seq<(Seq<char>, Json)>,
    Fault,
> {
    match rule {
        Json::Object(e) => match string_at(e, source_key()) {
            None => Err(Fault::MalformedRule(source_key())),
            Some(sp) => match string_at(e, target_key()) {
                None => Err(Fault::MalformedRule(target_key())),
                Some(tp) => if tp.len() == 0 {
                    Err(Fault::InvalidPath)
                } else {
                    match set_in(acc, split(tp, '.'), moved_value(src, e, sp)) {
                        Some(a) => Ok(a),
                        None => Err(Fault::PathConflict),
                    }
                },
            },
        },
        _ => Err(Fault::MalformedRule(source_key())),
    }
}

/// A rule that applying can read: an object with a string `sourcePath` and
/// a string `targetPath`.
pub open spec fn rule_shaped(rule: Json) -> bool {
    match rule {
        Json::Object(e) => string_at(e, source_key()) is Some && string_at(e, target_key()) is Some,
        _ => false,
    }
}

/// The entries of the result of applying `rules` in order to `src`,
/// starting from an empty object; the first failure stops everything.
pub open spec fn apply_rules(src: Json, rules: Seq<Json>) -> Result<Seq<(Seq<char>, Json)>, Fault>
    decreases rules.len(),
{
    if rules.len() == 0 {
        Ok(Seq::empty())
    } else {
        match apply_rules(src, rules.drop_last()) {
            Err(f) => Err(f),
            Ok(acc) => apply_one(src, rules.last(), acc),
        }
    }
}

/// Rules that are well formed, applied to a well-formed source, build a
/// well-formed object.
pub proof fn applied_rules_are_well_formed(src: Json, rules: Seq<Json>)
    requires
        wf(src),
        forall|i: int| 0 <= i < rules.len() ==> wf(#[trigger] rules[i]),
    ensures
        apply_rules(src, rules) matches Ok(es) ==> wf_entries(es),
    decreases rules.len(),
{
    if rules.len() == 0 {
        assert(wf_entries(Seq::empty()));
    } else {
        let init = rules.drop_last();
        assert forall|i: int| 0 <= i < init.len() implies wf(#[trigger] init[i]) by {
            assert(init[i] == rules[i]);
        }
        applied_rules_are_well_formed(src, init);
        let rule = rules.last();
        assert(wf(rules[rules.len() - 1]));
        if let Ok(acc) = apply_rules(src, init) {
            if let Json::Object(e) = rule {
                if let Some(sp) = string_at(e, source_key()) {
                    if let Some(tp) = string_at(e, target_key()) {
                        if tp.len() > 0 {
                            lemma_lookup_wf(e, default_key());
                            if let Some(segs) = read_segments(sp) {
                                lemma_walk_wf(src, segs);
                            }
                            lemma_split_nonempty(tp, '.');
                            lemma_set_in_wf(acc, split(tp, '.'), moved_value(src, e, sp));
                        }
                    }
                }
            }
        }
    }
}

/// Once a prefix of the rules fails, all of them fail the same way.
proof fn lemma_failure_persists(src: Json, rules: Seq<Json>, n: int)
    requires
        0 <= n <= rules.len(),
        apply_rules(src, rules.take(n)) is Err,
    ensures
        apply_rules(src, rules) == apply_rules(src, rules.take(n)),
    decreases rules.len(),
{
    if rules.len() == n {
        assert(rules.take(n) =~= rules);
    } else {
        assert(rules.drop_last().take(n) =~= rules.take(n));
        lemma_failure_persists(src, rules.drop_last(), n);
    }
}

/// A rule that is not an object, or lacks a string `sourcePath` or
/// `targetPath`, makes the whole application fail with `MalformedRule`,
/// whatever the source and whatever rules follow; nothing that the rules
/// before it built is returned.
pub proof fn malformed_rule_fails(src: Json, rules: Seq<Json>, k: int)
    requires
        0 <= k < rules.len(),
        apply_rules(src, rules.take(k)) is Ok,
        !rule_shaped(rules[k]),
    ensures
        apply_rules(src, rules) matches Err(Fault::MalformedRule(_)),
{
    assert(rules.take(k + 1).drop_last() =~= rules.take(k));
    assert(rules.take(k + 1).last() == rules[k]);
    lemma_failure_persists(src, rules, k + 1);
}

fn string_field<'a>(entries: &'a Vec<(String, Value)>, k: &str) -> (r: Option<&'a String>)
    ensures
        match string_at(view_entries(entries@), k@) {
            Some(s) => r is Some && r->0@ == s,
            None => r is None,
        },
{
    proof {
        lemma_view_entries(entries@);
        lemma_key_index(view_entries(entries@), k@);
    }
    match find_key(entries, k) {
        Some(i) => match &entries[i].1 {
            Value::String(s) => Some(s),
            _ => None,
        },
        None => None,
    }
}

/// Applies mapping rules, given as objects, to `data`, and returns the
/// object they build. Nothing is returned but the error where a rule fails.
pub fn apply_mapping(data: &Value, mappings: &Vec<Value>) -> (r: Result<Value, DataError>)
    ensures
        match apply_rules(data@, view_items(mappings@)) {
            Ok(es) => r is Ok && r->Ok_0@ == Json::Object(es),
            Err(f) => r is Err && fault_is(r->Err_0, f),
        },
        wf(data@) && (forall|i: int| 0 <= i < mappings@.len() ==> wf(#[trigger] mappings@[i]@))
            ==> (r matches Ok(v) ==> wf(v@)),
{
    let ghost rules = view_items(mappings@);
    proof {
        lemma_view_items(mappings@);
        if wf(data@) && (forall|i: int| 0 <= i < mappings@.len() ==> wf(#[trigger] mappings@[i]@)) {
            assert forall|i: int| 0 <= i < rules.len() implies wf(#[trigger] rules[i]) by {
                assert(rules[i] == mappings@[i]@);
            }
            applied_rules_are_well_formed(data@, rules);
        }
    }
    let mut result = Value::Object(Vec::new());
    let mut i: usize = 0;
    proof {
        lemma_view_items(mappings@);
        assert(rules.take(0) =~= Seq::<Json>::empty());
        assert(view_entries(Seq::<(String, Value)>::empty()) =~= Seq::<(Seq<char>, Json)>::empty());
    }
    while i < mappings.len()
        invariant
            i <= mappings.len(),
            rules == view_items(mappings@),
            rules.len() == mappings.len(),
            apply_rules(data@, rules.take(i as int)) is Ok,
            result@ == Json::Object(apply_rules(data@, rules.take(i as int))->Ok_0),
        decreases mappings.len() - i,
    {
        let ghost acc = apply_rules(data@, rules.take(i as int))->Ok_0;
        proof {
            lemma_view_items(mappings@);
            assert(rules.take(i + 1).drop_last() =~= rules.take(i as int));
            assert(rules.take(i + 1).last() == mappings@[i as int]@);
        }
        match &mappings[i] {
            Value::Object(e) => {
                let sp = match string_field(e, "sourcePath") {
                    Some(s) => s,
                    None => {
                        proof {
                            lemma_failure_persists(data@, rules, i + 1);
                        }
                        return Err(DataError::MalformedRule(String::from_str("sourcePath")));
                    },
                };
                let tp = match string_field(e, "targetPath") {
                    Some(s) => s,
                    None => {
                        proof {
                            lemma_failure_persists(data@, rules, i + 1);
                        }
                        return Err(DataError::MalformedRule(String::from_str("targetPath")));
                    },
                };
                let x = match get_by_path(data, sp.as_str()) {
                    Some(x) => x,
                    None => {
                        proof {
                            lemma_view_entries(e@);
                            lemma_key_index(view_entries(e@), default_key());
                        }
                        match find_key(e, "defaultValue") {
                            Some(j) => e[j].1.deep_clone(),
                            None => Value::Null,
                        }
                    },
                };
                proof {
                    assert(x@ == moved_value(data@, view_entries(e@), sp@));
                }
                match set_by_path(&mut result, tp.as_str(), x) {
                    Ok(()) => {},
                    Err(err) => {
                        proof {
                            lemma_failure_persists(data@, rules, i + 1);
                        }
                        return Err(err);
                    },
                }
            },
            _ => {
                proof {
                    lemma_failure_persists(data@, rules, i + 1);
                }
                return Err(DataError::MalformedRule(String::from_str("sourcePath")));
            },
        }
        i += 1;
    }
    proof {
        assert(rules.take(i as int) =~= rules);
    }
    Ok(result)
}

} // verus!
