//! Reading and writing a value at a textual path.
//!
//! Reads take paths such as `a.b[0].c`: pieces between dots, each a key
//! followed by any number of bracketed indexes. A bare index (digits,
//! optionally after `+`) also indexes an array. Writes take plain dotted keys: every piece, digits
//! included, is an object key, and missing objects on the way are created.

use vstd::prelude::*;
use crate::error::DataError;
use crate::text::{
    index_text, index_value, lemma_split_nonempty, parse_index, saturate, split,
    split_at_char, views,
};
use crate::value::{
    find_key, insert, lemma_insert_wf, lemma_key_index, lemma_lookup_wf, lemma_view_entries,
    lemma_view_items, lookup, object_insert, view_entries, wf, wf_entries, Json, Value,
};

verus! {

/// One step of a read path.
pub enum PathSegment {
    Key(String),
    Index(usize),
}

/// The model of a `PathSegment`.
pub enum Segment {
    Key(Seq<char>),
    Index(usize),
}

impl View for PathSegment {
    type V = Segment;

    open spec fn view(&self) -> Segment {
        match self {
            PathSegment::Key(k) => Segment::Key(k@),
            PathSegment::Index(n) => Segment::Index(*n),
        }
    }
}

pub open spec fn segment_views(v: Seq<PathSegment>) -> Seq<Segment> {
    v.map_values(|s: PathSegment| s@)
}

/// A bracketed index after its opening bracket: an index text, then `]`.
pub open spec fn index_part(t: Seq<char>) -> bool {
    t.len() >= 2 && t.last() == ']' && index_text(t.drop_last())
}

/// A piece between dots is a key with no `]`, then bracketed indexes.
pub open spec fn piece_ok(p: Seq<char>) -> bool {
    let parts = split(p, '[');
    &&& !parts[0].contains(']')
    &&& forall|i: int| 1 <= i < parts.len() ==> index_part(#[trigger] parts[i])
}

/// The index written in a bracketed part; one too large for `usize` reads as
/// `usize::MAX`, past the end of any array.
pub open spec fn part_index(t: Seq<char>) -> Segment {
    Segment::Index(saturate(index_value(t.drop_last())))
}

/// The segments of one piece. A piece made of indexes alone, such as `[0]`,
/// has no key segment; an empty piece is the empty key.
pub open spec fn piece_segments(p: Seq<char>) -> Seq<Segment> {
    let parts = split(p, '[');
    let head = if parts[0].len() > 0 || parts.len() == 1 {
        seq![Segment::Key(parts[0])]
    } else {
        Seq::empty()
    };
    head + parts.drop_first().map_values(|t: Seq<char>| part_index(t))
}

/// The segments of a read path; the empty path is the root. `None` where a
/// piece is malformed.
pub open spec fn read_segments(path: Seq<char>) -> Option<Seq<Segment>> {
    if path.len() == 0 {
        Some(Seq::empty())
    } else {
        let pieces = split(path, '.');
        if forall|i: int| 0 <= i < pieces.len() ==> piece_ok(#[trigger] pieces[i]) {
            Some(pieces.map_values(|p: Seq<char>| piece_segments(p)).flatten())
        } else {
            None
        }
    }
}

/// One step down from `v`.
pub open spec fn step(v: Json, s: Segment) -> Option<Json> {
    match s {
        Segment::Key(k) => match v {
            Json::Object(entries) => lookup(entries, k),
            Json::Array(items) => if index_text(k) && saturate(index_value(k)) < items.len() {
                Some(items[saturate(index_value(k)) as int])
            } else {
                None
            },
            _ => None,
        },
        Segment::Index(n) => match v {
            Json::Array(items) => if n < items.len() {
                Some(items[n as int])
            } else {
                None
            },
            _ => None,
        },
    }
}

/// The node that `segs` lead to from `v`, if every step exists.
pub open spec fn walk(v: Json, segs: Seq<Segment>) -> Option<Json>
    decreases segs.len(),
{
    if segs.len() == 0 {
        Some(v)
    } else {
        match step(v, segs[0]) {
            Some(w) => walk(w, segs.drop_first()),
            None => None,
        }
    }
}

/// What a read of `path` on `v` gives: `None` is absence, which differs from
/// a present `Json::Null`.
pub open spec fn read_path(v: Json, path: Seq<char>) -> Option<Json> {
    match read_segments(path) {
        Some(segs) => walk(v, segs),
        None => None,
    }
}

pub open spec fn opt_view(r: Option<Value>) -> Option<Json> {
    match r {
        Some(v) => Some(v@),
        None => None,
    }
}

pub proof fn lemma_walk_append(v: Json, a: Seq<Segment>, b: Seq<Segment>)
    ensures
        walk(v, a + b) == match walk(v, a) {
            Some(w) => walk(w, b),
            None => None,
        },
    decreases a.len(),
{
    if a.len() > 0 {
        assert((a + b).drop_first() =~= a.drop_first() + b);
        assert((a + b)[0] == a[0]);
        match step(v, a[0]) {
            Some(w) => lemma_walk_append(w, a.drop_first(), b),
            None => {},
        }
    } else {
        assert(a + b =~= b);
    }
}

/// Whether `s` holds `c`.
pub fn has_char(s: &str, c: char) -> (r: bool)
    ensures
        r == s@.contains(c),
{
    let n = s.unicode_len();
    let mut i: usize = 0;
    while i < n
        invariant
            n == s@.len(),
            i <= n,
            forall|j: int| 0 <= j < i ==> s@[j] != c,
        decreases n - i,
    {
        if s.get_char(i) == c {
            return true;
        }
        i += 1;
    }
    false
}

/// The segments of one piece of a read path, or `None` where it is malformed.
pub fn parse_piece(p: &str) -> (r: Option<Vec<PathSegment>>)
    ensures
        r is Some <==> piece_ok(p@),
        r is Some ==> segment_views(r->0@) == piece_segments(p@),
{
    let parts = split_at_char(p, '[');
    let ghost sp = split(p@, '[');
    proof {
        lemma_split_nonempty(p@, '[');
        assert(views(parts@)[0] == parts@[0]@);
    }
    if has_char(parts[0].as_str(), ']') {
        proof {
            assert(sp[0] == parts@[0]@);
        }
        return None;
    }
    let mut out: Vec<PathSegment> = Vec::new();
    if parts[0].unicode_len() > 0 || parts.len() == 1 {
        out.push(PathSegment::Key(parts[0].clone()));
    }
    let ghost head = segment_views(out@);
    proof {
        assert(head =~= if sp[0].len() > 0 || sp.len() == 1 {
            seq![Segment::Key(sp[0])]
        } else {
            Seq::empty()
        });
    }
    let mut i: usize = 1;
    while i < parts.len()
        invariant
            1 <= i <= parts.len(),
            sp == split(p@, '['),
            views(parts@) == sp,
            sp.len() == parts.len(),
            forall|j: int| 1 <= j < i ==> index_part(#[trigger] sp[j]),
            segment_views(out@) == head + sp.drop_first().take(i - 1).map_values(
                |t: Seq<char>| part_index(t),
            ),
        decreases parts.len() - i,
    {
        let t = parts[i].as_str();
        proof {
            assert(views(parts@)[i as int] == parts@[i as int]@);
        }
        let n = t.unicode_len();
        if n < 2 || t.get_char(n - 1) != ']' {
            proof {
                assert(!index_part(sp[i as int]));
            }
            return None;
        }
        let digits = t.substring_char(0, n - 1);
        proof {
            assert(digits@ =~= t@.drop_last());
        }
        match parse_index(digits) {
            None => {
                proof {
                    assert(!index_part(sp[i as int]));
                }
                return None;
            },
            Some(m) => {
                let ghost before = out@;
                out.push(PathSegment::Index(m));
                proof {
                    assert(segment_views(out@) =~= segment_views(before).push(Segment::Index(m)));
                    assert(sp.drop_first().take(i as int) =~= sp.drop_first().take(i - 1).push(
                        sp[i as int],
                    ));
                    assert(segment_views(out@) =~= head + sp.drop_first().take(i as int).map_values(
                        |t: Seq<char>| part_index(t),
                    ));
                }
            },
        }
        i += 1;
    }
    proof {
        assert(sp.drop_first().take(i - 1) =~= sp.drop_first());
    }
    Some(out)
}

/// The segments of a read path, or `None` where a piece is malformed.
pub fn parse_read_path(path: &str) -> (r: Option<Vec<PathSegment>>)
    ensures
        match read_segments(path@) {
            Some(segs) => r is Some && segment_views(r->0@) == segs,
            None => r is None,
        },
{
    if path.unicode_len() == 0 {
        let out: Vec<PathSegment> = Vec::new();
        proof {
            assert(segment_views(out@) =~= Seq::<Segment>::empty());
        }
        return Some(out);
    }
    let pieces = split_at_char(path, '.');
    let ghost sp = split(path@, '.');
    let ghost per = sp.map_values(|p: Seq<char>| piece_segments(p));
    let mut out: Vec<PathSegment> = Vec::new();
    let mut i: usize = 0;
    proof {
        assert(per.take(0).flatten_alt() =~= Seq::<Segment>::empty());
        assert(segment_views(out@) =~= Seq::<Segment>::empty());
    }
    while i < pieces.len()
        invariant
            i <= pieces.len(),
            path@.len() > 0,
            sp == split(path@, '.'),
            views(pieces@) == sp,
            sp.len() == pieces.len(),
            per == sp.map_values(|p: Seq<char>| piece_segments(p)),
            forall|j: int| 0 <= j < i ==> piece_ok(#[trigger] sp[j]),
            segment_views(out@) == per.take(i as int).flatten_alt(),
        decreases pieces.len() - i,
    {
        proof {
            assert(views(pieces@)[i as int] == pieces@[i as int]@);
        }
        match parse_piece(pieces[i].as_str()) {
            None => {
                proof {
                    assert(!piece_ok(sp[i as int]));
                }
                return None;
            },
            Some(mut segs) => {
                let ghost before = out@;
                let ghost added = segs@;
                out.append(&mut segs);
                proof {
                    assert(segment_views(out@) =~= segment_views(before) + segment_views(added));
                    assert(per.take(i + 1).drop_last() =~= per.take(i as int));
                }
            },
        }
        i += 1;
    }
    proof {
        assert(per.take(i as int) =~= per);
        per.lemma_flatten_and_flatten_alt_are_equivalent();
    }
    Some(out)
}

/// The node at `path` in `tree`, borrowed.
pub fn find_path<'a>(tree: &'a Value, segs: &Vec<PathSegment>) -> (r: Option<&'a Value>)
    ensures
        match walk(tree@, segment_views(segs@)) {
            Some(w) => r is Some && r->0@ == w,
            None => r is None,
        },
{
    let ghost all = segment_views(segs@);
    let mut cur: &Value = tree;
    let mut i: usize = 0;
    proof {
        assert(all.skip(0) =~= all);
    }
    while i < segs.len()
        invariant
            i <= segs.len(),
            all == segment_views(segs@),
            walk(tree@, all) == walk(cur@, all.skip(i as int)),
        decreases segs.len() - i,
    {
        let ghost rest = all.skip(i as int);
        proof {
            assert(rest[0] == segs@[i as int]@);
            assert(rest.drop_first() =~= all.skip(i + 1));
        }
        let next: Option<&Value> = match &segs[i] {
            PathSegment::Key(k) => match cur {
                Value::Object(entries) => {
                    proof {
                        lemma_view_entries(entries@);
                        lemma_key_index(view_entries(entries@), k@);
                    }
                    match find_key(entries, k.as_str()) {
                        Some(j) => Some(&entries[j].1),
                        None => None,
                    }
                },
                Value::Array(items) => {
                    proof {
                        lemma_view_items(items@);
                    }
                    match parse_index(k.as_str()) {
                        Some(j) => if j < items.len() {
                            Some(&items[j])
                        } else {
                            None
                        },
                        None => None,
                    }
                },
                _ => None,
            },
            PathSegment::Index(j) => match cur {
                Value::Array(items) => {
                    proof {
                        lemma_view_items(items@);
                    }
                    if *j < items.len() {
                        Some(&items[*j])
                    } else {
                        None
                    }
                },
                _ => None,
            },
        };
        match next {
            Some(n) => {
                proof {
                    assert(step(cur@, rest[0]) == Some(n@));
                }
                cur = n;
            },
            None => {
                proof {
                    assert(step(cur@, rest[0]) is None);
                }
                return None;
            },
        }
        i += 1;
    }
    proof {
        assert(all.skip(i as int) =~= Seq::<Segment>::empty());
    }
    Some(cur)
}

/// A copy of the node that `path` leads to in `tree`, or `None` where the
/// path is malformed or some step of it does not exist.
pub fn get_by_path(tree: &Value, path: &str) -> (r: Option<Value>)
    ensures
        opt_view(r) == read_path(tree@, path@),
{
    match parse_read_path(path) {
        None => None,
        Some(segs) => match find_path(tree, &segs) {
            Some(v) => Some(v.deep_clone()),
            None => None,
        },
    }
}

/// What a well-formed tree holds anywhere is well formed.
pub proof fn lemma_walk_wf(v: Json, segs: Seq<Segment>)
    requires
        wf(v),
    ensures
        walk(v, segs) matches Some(w) ==> wf(w),
    decreases segs.len(),
{
    if segs.len() > 0 {
        match step(v, segs[0]) {
            Some(w) => {
                match v {
                    Json::Object(es) => {
                        match segs[0] {
                            Segment::Key(k) => lemma_lookup_wf(es, k),
                            _ => {},
                        }
                    },
                    _ => {},
                }
                lemma_walk_wf(w, segs.drop_first());
            },
            None => {},
        }
    }
}

/// Writing a well-formed value into a well-formed object keeps it well
/// formed.
pub proof fn lemma_set_in_wf(entries: Seq<(Seq<char>, Json)>, keys: Seq<Seq<char>>, x: Json)
    requires
        wf_entries(entries),
        wf(x),
        keys.len() >= 1,
    ensures
        set_in(entries, keys, x) matches Some(e2) ==> wf_entries(e2),
    decreases keys.len(),
{
    if keys.len() <= 1 {
        lemma_insert_wf(entries, keys[0], x);
    } else {
        let k = keys[0];
        lemma_lookup_wf(entries, k);
        match lookup(entries, k) {
            None => {
                assert(wf_entries(Seq::empty()));
                lemma_set_in_wf(Seq::empty(), keys.drop_first(), x);
                if set_in(Seq::empty(), keys.drop_first(), x) is Some {
                    lemma_insert_wf(
                        entries,
                        k,
                        Json::Object(set_in(Seq::empty(), keys.drop_first(), x)->0),
                    );
                }
            },
            Some(Json::Object(c)) => {
                lemma_set_in_wf(c, keys.drop_first(), x);
                if set_in(c, keys.drop_first(), x) is Some {
                    lemma_insert_wf(entries, k, Json::Object(set_in(c, keys.drop_first(), x)->0));
                }
            },
            Some(_) => {},
        }
    }
}

/// The entries of an object after writing `x` under the key path `keys`
/// (at least one key): missing objects on the way are created, and `None`
/// means a step met a value that is not an object.
pub open spec fn set_in(entries: Seq<(Seq<char>, Json)>, keys: Seq<Seq<char>>, x: Json) -> Option<
    Seq<(Seq<char>, Json)>,
>
    decreases keys.len(),
{
    if keys.len() <= 1 {
        Some(insert(entries, keys[0], x))
    } else {
        let k = keys[0];
        let inner = match lookup(entries, k) {
            None => Some(Seq::empty()),
            Some(Json::Object(c)) => Some(c),
            Some(_) => None,
        };
        match inner {
            None => None,
            Some(c) => match set_in(c, keys.drop_first(), x) {
                Some(c2) => Some(insert(entries, k, Json::Object(c2))),
                None => None,
            },
        }
    }
}

/// The tree after writing `x` at the dotted key path `path` (not empty), or
/// `None` where the root or a step on the way is not an object.
pub open spec fn write_path(root: Json, path: Seq<char>, x: Json) -> Option<Json> {
    match root {
        Json::Object(entries) => match set_in(entries, split(path, '.'), x) {
            Some(e2) => Some(Json::Object(e2)),
            None => None,
        },
        _ => None,
    }
}

fn set_entries(entries: &mut Vec<(String, Value)>, keys: &Vec<String>, at: usize, x: Value) -> (r:
    Option<String>)
    requires
        at < keys.len(),
    ensures
        match set_in(view_entries(old(entries)@), views(keys@).skip(at as int), x@) {
            Some(e2) => r is None && view_entries(final(entries)@) == e2,
            None => r is Some && view_entries(final(entries)@) == view_entries(old(entries)@),
        },
    decreases keys.len() - at,
{
    let ghost ks = views(keys@).skip(at as int);
    proof {
        assert(ks[0] == keys@[at as int]@);
        assert(ks.drop_first() =~= views(keys@).skip(at + 1));
    }
    if at + 1 == keys.len() {
        object_insert(entries, keys[at].clone(), x);
        return None;
    }
    proof {
        lemma_view_entries(entries@);
        lemma_key_index(view_entries(entries@), keys@[at as int]@);
    }
    match find_key(entries, keys[at].as_str()) {
        None => {
            let mut child: Vec<(String, Value)> = Vec::new();
            proof {
                assert(view_entries(child@) =~= Seq::<(Seq<char>, Json)>::empty());
            }
            let r = set_entries(&mut child, keys, at + 1, x);
            if r.is_none() {
                object_insert(entries, keys[at].clone(), Value::Object(child));
            }
            r
        },
        Some(i) => {
            let ghost before = entries@;
            let (k, v) = entries.remove(i);
            match v {
                Value::Object(mut c) => {
                    let r = set_entries(&mut c, keys, at + 1, x);
                    entries.insert(i, (k, Value::Object(c)));
                    proof {
                        lemma_view_entries(entries@);
                        lemma_view_entries(before);
                        if r is None {
                            assert(view_entries(entries@) =~= view_entries(before).update(
                                i as int,
                                (ks[0], Json::Object(view_entries(c@))),
                            ));
                        } else {
                            assert(view_entries(entries@) =~= view_entries(before));
                        }
                    }
                    r
                },
                other => {
                    entries.insert(i, (k, other));
                    proof {
                        lemma_view_entries(entries@);
                        lemma_view_entries(before);
                        assert(view_entries(entries@) =~= view_entries(before));
                    }
                    Some(keys[at].clone())
                },
            }
        },
    }
}

/// Writes `x` at the dotted key path `path` in the object `tree`. An empty
/// path is `InvalidPath`; a root or a step that is not an object is
/// `PathConflict`, and then the tree is unchanged.
pub fn set_by_path(tree: &mut Value, path: &str, x: Value) -> (r: Result<(), DataError>)
    ensures
        path@.len() == 0 ==> (r matches Err(DataError::InvalidPath(_))) && final(tree)@ == old(
            tree,
        )@,
        path@.len() > 0 ==> match write_path(old(tree)@, path@, x@) {
            Some(t) => r is Ok && final(tree)@ == t,
            None => (r matches Err(DataError::PathConflict(_))) && final(tree)@ == old(tree)@,
        },
        wf(old(tree)@) && wf(x@) ==> wf(final(tree)@),
{
    proof {
        if path@.len() > 0 && wf(tree@) && wf(x@) {
            if let Json::Object(es) = tree@ {
                lemma_split_nonempty(path@, '.');
                lemma_set_in_wf(es, split(path@, '.'), x@);
            }
        }
    }
    if path.unicode_len() == 0 {
        return Err(DataError::InvalidPath(String::from_str(path)));
    }
    let keys = split_at_char(path, '.');
    proof {
        lemma_split_nonempty(path@, '.');
        assert(views(keys@).skip(0) =~= views(keys@));
    }
    match tree {
        Value::Object(entries) => match set_entries(entries, &keys, 0, x) {
            None => Ok(()),
            Some(k) => Err(DataError::PathConflict(k)),
        },
        _ => Err(DataError::PathConflict(String::from_str(path))),
    }
}

} // verus!
