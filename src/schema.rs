//! Project schemas: checking that a schema has its required fields,
//! changing its version, and converting between a project and its schema.

use vstd::prelude::*;
use crate::value::{
    find_key, insert, lemma_insert_wf, lemma_key_index, lemma_lookup_wf, lemma_view_entries,
    lemma_view_entries_push, lookup, object_insert, view_entries, view_items, wf, wf_entries, Json,
    Value,
};

verus! {

/// Whether a schema passed the check, and the problems found, in order.
#[derive(Debug, Clone)]
pub struct ValidationResult {
    valid: bool,
    errors: Vec<String>,
}

impl ValidationResult {
    pub closed spec fn spec_valid(&self) -> bool {
        self.valid
    }

    pub closed spec fn spec_errors(&self) -> Seq<Seq<char>> {
        self.errors@.map_values(|e: String| e@)
    }

    /// A result with the given problems; it is valid when there are none.
    pub fn from_errors(errors: Vec<String>) -> (r: ValidationResult)
        ensures
            r.spec_errors() == errors@.map_values(|e: String| e@),
            r.spec_valid() == (errors@.len() == 0),
    {
        let valid = errors.len() == 0;
        ValidationResult { valid, errors }
    }

    pub fn valid(&self) -> (r: bool)
        ensures
            r == self.spec_valid(),
    {
        self.valid
    }

    pub fn errors(&self) -> (r: Vec<String>)
        ensures
            r@.map_values(|e: String| e@) == self.spec_errors(),
    {
        let mut out: Vec<String> = Vec::new();
        let mut i: usize = 0;
        while i < self.errors.len()
            invariant
                i <= self.errors.len(),
                out@.map_values(|e: String| e@) == self.errors@.take(i as int).map_values(
                    |e: String| e@,
                ),
            decreases self.errors.len() - i,
        {
            let ghost before = out@;
            let e = self.errors[i].clone();
            out.push(e);
            proof {
                assert(e@ == self.errors@[i as int]@);
                assert(out@.map_values(|e: String| e@) =~= before.map_values(|e: String| e@).push(
                    e@,
                ));
                assert(self.errors@.take(i + 1) =~= self.errors@.take(i as int).push(
                    self.errors@[i as int],
                ));
                assert(out@.map_values(|e: String| e@) =~= self.errors@.take(i + 1).map_values(
                    |e: String| e@,
                ));
            }
            i += 1;
        }
        proof {
            assert(self.errors@.take(i as int) =~= self.errors@);
        }
        out
    }
}

/// What an object holds under `k`; nothing for a value that is not an object.
pub open spec fn member(v: Json, k: Seq<char>) -> Option<Json> {
    match v {
        Json::Object(es) => lookup(es, k),
        _ => None,
    }
}

pub open spec fn is_string(v: Option<Json>) -> bool {
    v matches Some(Json::String(_))
}

pub open spec fn is_array(v: Option<Json>) -> bool {
    v matches Some(Json::Array(_))
}

pub open spec fn when(c: bool, msg: Seq<char>) -> Seq<Seq<char>> {
    if c {
        seq![msg]
    } else {
        Seq::empty()
    }
}

pub open spec fn metadata_errors(v: Json) -> Seq<Seq<char>> {
    match member(v, "metadata"@) {
        None => seq!["Missing 'metadata' field"@],
        Some(Json::Object(m)) => when(lookup(m, "name"@) is None, "Missing 'metadata.name' field"@)
            + when(lookup(m, "version"@) is None, "Missing 'metadata.version' field"@),
        Some(_) => seq!["'metadata' must be an object"@],
    }
}

pub open spec fn canvas_errors(v: Json) -> Seq<Seq<char>> {
    match member(v, "canvas"@) {
        None => seq!["Missing 'canvas' field"@],
        Some(Json::Object(c)) => when(
            lookup(c, "viewportWidth"@) is None,
            "Missing 'canvas.viewportWidth' field"@,
        ),
        Some(_) => seq!["'canvas' must be an object"@],
    }
}

/// The problems of a schema, in this order: a string `version`; a
/// `metadata` object with `name` and `version`; a `components` array; a
/// `canvas` object with `viewportWidth`; a `dataSources` array.
pub open spec fn schema_errors(v: Json) -> Seq<Seq<char>> {
    when(!is_string(member(v, "version"@)), "Missing or invalid 'version' field"@)
        + metadata_errors(v) + when(
        !is_array(member(v, "components"@)),
        "Missing or invalid 'components' field (must be an array)"@,
    ) + canvas_errors(v) + when(
        !is_array(member(v, "dataSources"@)),
        "Missing or invalid 'dataSources' field (must be an array)"@,
    )
}

/// The value under `k` of an object, borrowed.
pub fn member_of<'a>(v: &'a Value, k: &str) -> (r: Option<&'a Value>)
    ensures
        match member(v@, k@) {
            Some(x) => r is Some && r->0@ == x,
            None => r is None,
        },
{
    match v {
        Value::Object(es) => {
            proof {
                lemma_view_entries(es@);
                lemma_key_index(view_entries(es@), k@);
            }
            match find_key(es, k) {
                Some(i) => Some(&es[i].1),
                None => None,
            }
        },
        _ => None,
    }
}

fn note(errors: &mut Vec<String>, c: bool, msg: &str)
    ensures
        final(errors)@.map_values(|e: String| e@) == old(errors)@.map_values(|e: String| e@)
            + when(c, msg@),
{
    let ghost before = errors@;
    if c {
        errors.push(String::from_str(msg));
    }
    proof {
        assert(errors@.map_values(|e: String| e@) =~= before.map_values(|e: String| e@) + when(
            c,
            msg@,
        ));
    }
}

/// Checks that a schema has the fields a project needs.
pub fn check_schema(schema: &Value) -> (r: ValidationResult)
    ensures
        r.spec_errors() == schema_errors(schema@),
        r.spec_valid() == (schema_errors(schema@).len() == 0),
{
    let mut errors: Vec<String> = Vec::new();
    proof {
        assert(errors@.map_values(|e: String| e@) =~= Seq::<Seq<char>>::empty());
    }
    let version_ok = match member_of(schema, "version") {
        Some(Value::String(_)) => true,
        _ => false,
    };
    note(&mut errors, !version_ok, "Missing or invalid 'version' field");
    let ghost e1 = errors@.map_values(|e: String| e@);
    match member_of(schema, "metadata") {
        None => note(&mut errors, true, "Missing 'metadata' field"),
        Some(Value::Object(m)) => {
            proof {
                lemma_view_entries(m@);
                lemma_key_index(view_entries(m@), "name"@);
                lemma_key_index(view_entries(m@), "version"@);
            }
            let no_name = find_key(m, "name").is_none();
            note(&mut errors, no_name, "Missing 'metadata.name' field");
            let no_version = find_key(m, "version").is_none();
            note(&mut errors, no_version, "Missing 'metadata.version' field");
        },
        Some(_) => note(&mut errors, true, "'metadata' must be an object"),
    }
    proof {
        assert(errors@.map_values(|e: String| e@) =~= e1 + metadata_errors(schema@));
    }
    let components_ok = match member_of(schema, "components") {
        Some(Value::Array(_)) => true,
        _ => false,
    };
    note(
        &mut errors,
        !components_ok,
        "Missing or invalid 'components' field (must be an array)",
    );
    let ghost e2 = errors@.map_values(|e: String| e@);
    match member_of(schema, "canvas") {
        None => note(&mut errors, true, "Missing 'canvas' field"),
        Some(Value::Object(c)) => {
            proof {
                lemma_view_entries(c@);
                lemma_key_index(view_entries(c@), "viewportWidth"@);
            }
            let no_width = find_key(c, "viewportWidth").is_none();
            note(&mut errors, no_width, "Missing 'canvas.viewportWidth' field");
        },
        Some(_) => note(&mut errors, true, "'canvas' must be an object"),
    }
    proof {
        assert(errors@.map_values(|e: String| e@) =~= e2 + canvas_errors(schema@));
    }
    let sources_ok = match member_of(schema, "dataSources") {
        Some(Value::Array(_)) => true,
        _ => false,
    };
    note(
        &mut errors,
        !sources_ok,
        "Missing or invalid 'dataSources' field (must be an array)",
    );
    proof {
        assert(errors@.map_values(|e: String| e@) =~= schema_errors(schema@));
    }
    ValidationResult::from_errors(errors)
}

/// The schema with its version changed from `from` to `to`: where the two
/// differ, `metadata.version` is set when `metadata` is an object, and a
/// top-level `version` that exists is set.
pub open spec fn migrated(v: Json, from: Seq<char>, to: Seq<char>) -> Json {
    if from == to {
        v
    } else {
        match v {
            Json::Object(es) => {
                let es1 = match lookup(es, "metadata"@) {
                    Some(Json::Object(m)) => insert(
                        es,
                        "metadata"@,
                        Json::Object(insert(m, "version"@, Json::String(to))),
                    ),
                    _ => es,
                };
                Json::Object(
                    if lookup(es1, "version"@) is Some {
                        insert(es1, "version"@, Json::String(to))
                    } else {
                        es1
                    },
                )
            },
            _ => v,
        }
    }
}

/// Migration keeps a schema well formed.
pub proof fn migration_keeps_well_formed(v: Json, from: Seq<char>, to: Seq<char>)
    requires
        wf(v),
    ensures
        wf(migrated(v, from, to)),
{
    if from != to {
        if let Json::Object(es) = v {
            lemma_lookup_wf(es, "metadata"@);
            let es1 = match lookup(es, "metadata"@) {
                Some(Json::Object(m)) => {
                    lemma_insert_wf(m, "version"@, Json::String(to));
                    lemma_insert_wf(es, "metadata"@, Json::Object(insert(m, "version"@, Json::String(to))));
                    insert(es, "metadata"@, Json::Object(insert(m, "version"@, Json::String(to))))
                },
                _ => es,
            };
            lemma_insert_wf(es1, "version"@, Json::String(to));
        }
    }
}

/// Moves a schema from version `from` to version `to`.
pub fn migrate_schema_value(schema: &mut Value, from: &str, to: &str)
    ensures
        final(schema)@ == migrated(old(schema)@, from@, to@),
        wf(old(schema)@) ==> wf(final(schema)@),
{
    proof {
        if wf(schema@) {
            migration_keeps_well_formed(schema@, from@, to@);
        }
    }
    if String::from_str(from) == String::from_str(to) {
        return;
    }
    match schema {
        Value::Object(es) => {
            proof {
                lemma_view_entries(es@);
                lemma_key_index(view_entries(es@), "metadata"@);
            }
            let ghost e0 = es@;
            match find_key(es, "metadata") {
                Some(i) => {
                    let (k, v) = es.remove(i);
                    match v {
                        Value::Object(mut m) => {
                            let ghost km = k@;
                            object_insert(&mut m, String::from_str("version"), Value::String(String::from_str(to)));
                            let ghost mv = Value::Object(m)@;
                            es.insert(i, (k, Value::Object(m)));
                            proof {
                                lemma_view_entries(es@);
                                lemma_view_entries(e0);
                                assert(view_entries(es@) =~= view_entries(e0).update(
                                    i as int,
                                    (km, mv),
                                ));
                            }
                        },
                        other => {
                            es.insert(i, (k, other));
                            proof {
                                lemma_view_entries(es@);
                                lemma_view_entries(e0);
                                assert(view_entries(es@) =~= view_entries(e0));
                            }
                        },
                    }
                },
                None => {},
            }
            proof {
                lemma_view_entries(es@);
                lemma_key_index(view_entries(es@), "version"@);
            }
            if find_key(es, "version").is_some() {
                object_insert(es, String::from_str("version"), Value::String(String::from_str(to)));
            }
        },
        _ => {},
    }
}

/// The number `n` as serde_json holds it.
pub uninterp spec fn number_of(n: u64) -> serde_json::Number;

/// Relies on serde_json's `From<u64>` for `Number`: the number it makes
/// depends on `n` alone.
#[verifier::external_body]
fn number_from(n: u64) -> (r: serde_json::Number)
    ensures
        r == number_of(n),
{
    serde_json::Number::from(n)
}

pub open spec fn string_or(v: Option<Json>, d: Seq<char>) -> Seq<char> {
    match v {
        Some(Json::String(s)) => s,
        _ => d,
    }
}

pub open spec fn or_default(v: Option<Json>, d: Json) -> Json {
    match v {
        Some(x) => x,
        None => d,
    }
}

/// The canvas of a project that has none.
pub open spec fn default_canvas() -> Json {
    Json::Object(
        seq![
            ("showGrid"@, Json::Bool(false)),
            ("snapToGrid"@, Json::Bool(false)),
            ("viewportWidth"@, Json::Number(number_of(1920))),
            ("activeDevice"@, Json::String("desktop"@)),
        ],
    )
}

/// The settings of a project whose schema has none.
pub open spec fn default_settings() -> Json {
    Json::Object(
        seq![
            ("activeTab"@, Json::String("components"@)),
            ("sidebarCollapsed"@, Json::Bool(false)),
            ("rightPanelCollapsed"@, Json::Bool(false)),
            ("leftPanelCollapsed"@, Json::Bool(false)),
        ],
    )
}

pub open spec fn schema_version() -> Seq<char> {
    "1.0.0"@
}

/// The metadata of a project's schema: its name (or a default), its
/// description where it has one, its creation and update times (or `now`),
/// and the schema version.
pub open spec fn schema_metadata(p: Json, now: Seq<char>) -> Seq<(Seq<char>, Json)> {
    let m0 = seq![("name"@, Json::String(string_or(member(p, "name"@), "未命名项目"@)))];
    let m1 = match member(p, "description"@) {
        Some(Json::String(d)) => m0.push(("description"@, Json::String(d))),
        _ => m0,
    };
    m1.push(("createdAt"@, Json::String(string_or(member(p, "createdAt"@), now)))).push(
        ("updatedAt"@, Json::String(string_or(member(p, "updatedAt"@), now))),
    ).push(("version"@, Json::String(schema_version())))
}

/// The schema of a project, its parts carried over or defaulted.
pub open spec fn project_schema(p: Json, now: Seq<char>) -> Json {
    let base = seq![
        ("version"@, Json::String(schema_version())),
        ("metadata"@, Json::Object(schema_metadata(p, now))),
        ("components"@, or_default(member(p, "components"@), Json::Array(Seq::empty()))),
        ("canvas"@, or_default(member(p, "canvas"@), default_canvas())),
        ("theme"@, or_default(member(p, "theme"@), Json::Object(Seq::empty()))),
        ("dataSources"@, or_default(member(p, "dataSources"@), Json::Array(Seq::empty()))),
    ];
    Json::Object(
        match member(p, "settings"@) {
            Some(x) => base.push(("settings"@, x)),
            None => base,
        },
    )
}

fn string_member_or(v: &Value, k: &str, d: &str) -> (r: String)
    ensures
        r@ == string_or(member(v@, k@), d@),
{
    match member_of(v, k) {
        Some(Value::String(s)) => s.clone(),
        _ => String::from_str(d),
    }
}

fn member_or(v: &Value, k: &str, d: Value) -> (r: Value)
    ensures
        r@ == or_default(member(v@, k@), d@),
{
    match member_of(v, k) {
        Some(x) => x.deep_clone(),
        None => d,
    }
}

fn make_default_canvas() -> (r: Value)
    ensures
        r@ == default_canvas(),
{
    let mut es: Vec<(String, Value)> = Vec::new();
    es.push((String::from_str("showGrid"), Value::Bool(false)));
    es.push((String::from_str("snapToGrid"), Value::Bool(false)));
    es.push((String::from_str("viewportWidth"), Value::Number(number_from(1920))));
    es.push((String::from_str("activeDevice"), Value::String(String::from_str("desktop"))));
    proof {
        lemma_view_entries(es@);
        assert(view_entries(es@) =~= default_canvas()->Object_0);
    }
    Value::Object(es)
}

fn make_default_settings() -> (r: Value)
    ensures
        r@ == default_settings(),
{
    let mut es: Vec<(String, Value)> = Vec::new();
    es.push((String::from_str("activeTab"), Value::String(String::from_str("components"))));
    es.push((String::from_str("sidebarCollapsed"), Value::Bool(false)));
    es.push((String::from_str("rightPanelCollapsed"), Value::Bool(false)));
    es.push((String::from_str("leftPanelCollapsed"), Value::Bool(false)));
    proof {
        lemma_view_entries(es@);
        assert(view_entries(es@) =~= default_settings()->Object_0);
    }
    Value::Object(es)
}

/// The schema of a project; `now` stands for creation and update times that
/// the project lacks.
pub fn project_data_to_schema(project: &Value, now: &str) -> (r: Value)
    ensures
        r@ == project_schema(project@, now@),
{
    let mut meta: Vec<(String, Value)> = Vec::new();
    meta.push((
        String::from_str("name"),
        Value::String(string_member_or(project, "name", "未命名项目")),
    ));
    match member_of(project, "description") {
        Some(Value::String(d)) => {
            meta.push((String::from_str("description"), Value::String(d.clone())));
        },
        _ => {},
    }
    meta.push((
        String::from_str("createdAt"),
        Value::String(string_member_or(project, "createdAt", now)),
    ));
    meta.push((
        String::from_str("updatedAt"),
        Value::String(string_member_or(project, "updatedAt", now)),
    ));
    meta.push((String::from_str("version"), Value::String(String::from_str("1.0.0"))));
    proof {
        lemma_view_entries(meta@);
        assert(view_entries(meta@) =~= schema_metadata(project@, now@));
    }
    let mut es: Vec<(String, Value)> = Vec::new();
    es.push((String::from_str("version"), Value::String(String::from_str("1.0.0"))));
    es.push((String::from_str("metadata"), Value::Object(meta)));
    es.push((
        String::from_str("components"),
        member_or(project, "components", Value::Array(Vec::new())),
    ));
    es.push((String::from_str("canvas"), member_or(project, "canvas", make_default_canvas())));
    es.push((String::from_str("theme"), member_or(project, "theme", Value::Object(Vec::new()))));
    es.push((
        String::from_str("dataSources"),
        member_or(project, "dataSources", Value::Array(Vec::new())),
    ));
    let ghost base = es@;
    match member_of(project, "settings") {
        Some(x) => {
            es.push((String::from_str("settings"), x.deep_clone()));
        },
        None => {},
    }
    proof {
        lemma_view_entries(es@);
        lemma_view_entries(base);
        assert(view_items(Seq::<Value>::empty()) =~= Seq::<Json>::empty());
        assert(view_entries(Seq::<(String, Value)>::empty()) =~= Seq::<(Seq<char>, Json)>::empty());
        assert(view_entries(es@) =~= project_schema(project@, now@)->Object_0);
    }
    Value::Object(es)
}

/// The text with every character lowercased, as `str::to_lowercase` gives it.
pub uninterp spec fn lower_of(s: Seq<char>) -> Seq<char>;

/// Relies on `str::to_lowercase`: the result depends on the characters alone.
#[verifier::external_body]
fn lowercase(s: &str) -> (r: String)
    ensures
        r@ == lower_of(s@),
{
    s.to_lowercase()
}

pub open spec fn digit_char(d: nat) -> char {
    seq!['0', '1', '2', '3', '4', '5', '6', '7', '8', '9'][d as int]
}

/// The decimal digits of `n`, without leading zeros.
pub open spec fn decimal(n: nat) -> Seq<char>
    decreases n,
{
    if n < 10 {
        seq![digit_char(n)]
    } else {
        decimal(n / 10).push(digit_char(n % 10))
    }
}

/// Relies on `u64`'s `to_string`, which writes the decimal digits of `n`.
#[verifier::external_body]
fn decimal_text(n: u64) -> (r: String)
    ensures
        r@ == decimal(n as nat),
{
    n.to_string()
}

/// An identifier made of a lowercased name, with spaces turned into dashes,
/// a dash, and a timestamp.
pub open spec fn id_text(lowered: Seq<char>, timestamp: u64) -> Seq<char> {
    lowered.map_values(|c: char| if c == ' ' { '-' } else { c }) + seq!['-'] + decimal(
        timestamp as nat,
    )
}

/// The identifier of a project from its already lowercased name and a
/// timestamp.
pub fn project_id(lowered: &str, timestamp: u64) -> (r: String)
    ensures
        r@ == id_text(lowered@, timestamp),
{
    let n = lowered.unicode_len();
    let mut out = String::new();
    let mut i: usize = 0;
    proof {
        reveal_strlit("-");
        assert("-"@ =~= seq!['-']);
    }
    while i < n
        invariant
            n == lowered@.len(),
            i <= n,
            "-"@ == seq!['-'],
            out@ == lowered@.take(i as int).map_values(|c: char| if c == ' ' { '-' } else { c }),
        decreases n - i,
    {
        let c = lowered.get_char(i);
        let ghost before = out@;
        if c == ' ' {
            out.append("-");
        } else {
            out.append(lowered.substring_char(i, i + 1));
        }
        proof {
            assert(lowered@.subrange(i as int, i + 1) =~= seq![c]);
            assert(lowered@.take(i + 1) =~= lowered@.take(i as int).push(c));
            assert(out@ =~= lowered@.take(i + 1).map_values(
                |c: char| if c == ' ' { '-' } else { c },
            ));
        }
        i += 1;
    }
    proof {
        assert(lowered@.take(i as int) =~= lowered@);
    }
    out.append("-");
    let digits = decimal_text(timestamp);
    out.append(digits.as_str());
    out
}

/// The metadata entries that a project takes from its schema: an
/// identifier and the name where the name is a string, then a description,
/// a creation and an update time where they are strings.
pub open spec fn project_metadata(m: Json, timestamp: u64) -> Seq<(Seq<char>, Json)> {
    let a = match member(m, "name"@) {
        Some(Json::String(n)) => seq![
            ("id"@, Json::String(id_text(lower_of(n), timestamp))),
            ("name"@, Json::String(n)),
        ],
        _ => Seq::empty(),
    };
    let b = match member(m, "description"@) {
        Some(Json::String(d)) => a.push(("description"@, Json::String(d))),
        _ => a,
    };
    let c = match member(m, "createdAt"@) {
        Some(Json::String(d)) => b.push(("createdAt"@, Json::String(d))),
        _ => b,
    };
    match member(m, "updatedAt"@) {
        Some(Json::String(d)) => c.push(("updatedAt"@, Json::String(d))),
        _ => c,
    }
}

/// The project that a schema describes, its parts carried over or
/// defaulted.
pub open spec fn schema_project(s: Json, timestamp: u64) -> Json {
    let e0 = match member(s, "metadata"@) {
        Some(m) => project_metadata(m, timestamp),
        None => Seq::empty(),
    };
    Json::Object(
        e0.push(
            ("components"@, or_default(member(s, "components"@), Json::Array(Seq::empty()))),
        ).push(("canvas"@, or_default(member(s, "canvas"@), default_canvas()))).push(
            ("theme"@, or_default(member(s, "theme"@), Json::Object(Seq::empty()))),
        ).push(
            ("dataSources"@, or_default(member(s, "dataSources"@), Json::Array(Seq::empty()))),
        ).push(("settings"@, or_default(member(s, "settings"@), default_settings()))),
    )
}

fn push_string_member(es: &mut Vec<(String, Value)>, m: &Value, k: &str)
    ensures
        view_entries(final(es)@) == match member(m@, k@) {
            Some(Json::String(d)) => view_entries(old(es)@).push((k@, Json::String(d))),
            _ => view_entries(old(es)@),
        },
{
    let ghost before = es@;
    match member_of(m, k) {
        Some(Value::String(d)) => {
            es.push((String::from_str(k), Value::String(d.clone())));
        },
        _ => {},
    }
    proof {
        lemma_view_entries(es@);
        lemma_view_entries(before);
        match member(m@, k@) {
            Some(Json::String(d)) => {
                assert(view_entries(es@) =~= view_entries(before).push((k@, Json::String(d))));
            },
            _ => {
                assert(view_entries(es@) =~= view_entries(before));
            },
        }
    }
}

/// The project that a schema describes; `timestamp` goes into the
/// project's identifier.
pub fn schema_to_project_data(schema: &Value, timestamp: u64) -> (r: Value)
    ensures
        r@ == schema_project(schema@, timestamp),
{
    let mut es: Vec<(String, Value)> = Vec::new();
    proof {
        assert(view_entries(es@) =~= Seq::<(Seq<char>, Json)>::empty());
    }
    match member_of(schema, "metadata") {
        Some(m) => {
            match member_of(m, "name") {
                Some(Value::String(n)) => {
                    let lowered = lowercase(n.as_str());
                    let id = project_id(lowered.as_str(), timestamp);
                    es.push((String::from_str("id"), Value::String(id)));
                    es.push((String::from_str("name"), Value::String(n.clone())));
                    proof {
                        lemma_view_entries(es@);
                        assert(view_entries(es@) =~= seq![
                            ("id"@, Json::String(id_text(lower_of(n@), timestamp))),
                            ("name"@, Json::String(n@)),
                        ]);
                    }
                },
                _ => {},
            }
            proof {
                lemma_view_entries(es@);
                match member(m@, "name"@) {
                    Some(Json::String(n)) => {},
                    _ => {
                        assert(view_entries(es@) =~= Seq::<(Seq<char>, Json)>::empty());
                    },
                }
            }
            push_string_member(&mut es, m, "description");
            push_string_member(&mut es, m, "createdAt");
            push_string_member(&mut es, m, "updatedAt");
            proof {
                assert(view_entries(es@) == project_metadata(m@, timestamp));
            }
        },
        None => {},
    }
    let ghost e0 = view_entries(es@);
    let x = (
        String::from_str("components"),
        member_or(schema, "components", Value::Array(Vec::new())),
    );
    proof { lemma_view_entries_push(es@, x); }
    es.push(x);
    let x = (String::from_str("canvas"), member_or(schema, "canvas", make_default_canvas()));
    proof { lemma_view_entries_push(es@, x); }
    es.push(x);
    let x = (String::from_str("theme"), member_or(schema, "theme", Value::Object(Vec::new())));
    proof { lemma_view_entries_push(es@, x); }
    es.push(x);
    let x = (
        String::from_str("dataSources"),
        member_or(schema, "dataSources", Value::Array(Vec::new())),
    );
    proof { lemma_view_entries_push(es@, x); }
    es.push(x);
    let x = (String::from_str("settings"), member_or(schema, "settings", make_default_settings()));
    proof { lemma_view_entries_push(es@, x); }
    es.push(x);
    proof {
        assert(view_items(Seq::<Value>::empty()) =~= Seq::<Json>::empty());
        assert(view_entries(Seq::<(String, Value)>::empty()) =~= Seq::<(Seq<char>, Json)>::empty());
        assert(view_entries(es@) =~= schema_project(schema@, timestamp)->Object_0);
    }
    Value::Object(es)
}

} // verus!
