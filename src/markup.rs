//! Building a value tree from a stream of markup events. Each element
//! becomes an entry of its parent under its tag; a tag that repeats among
//! siblings turns into an array of the elements in order.

use vstd::prelude::*;
use crate::error::DataError;
use crate::text::{is_white, lemma_trim_all_white, trim_white};
use crate::value::{
    find_key, insert, lemma_key_index, lemma_lookup_insert, lemma_view_entries, lemma_view_items,
    lookup, lemma_insert_wf, lemma_lookup_wf, object_insert, view_entries, view_items, wf,
    wf_entries, Json, Value,
};

verus! {

/// One event of a markup stream.
pub enum MarkupEvent {
    /// An element opens, with its tag and its attributes in order.
    Start(String, Vec<(String, String)>),
    /// Character data inside the current element.
    Text(String),
    /// An element closes.
    End(String),
}

/// The model of a `MarkupEvent`.
pub enum EventModel {
    Start(Seq<char>, Seq<(Seq<char>, Seq<char>)>),
    Text(Seq<char>),
    End(Seq<char>),
}

pub open spec fn attr_views(attrs: Seq<(String, String)>) -> Seq<(Seq<char>, Seq<char>)> {
    attrs.map_values(|a: (String, String)| (a.0@, a.1@))
}

impl View for MarkupEvent {
    type V = EventModel;

    open spec fn view(&self) -> EventModel {
        match self {
            MarkupEvent::Start(t, a) => EventModel::Start(t@, attr_views(a@)),
            MarkupEvent::Text(c) => EventModel::Text(c@),
            MarkupEvent::End(t) => EventModel::End(t@),
        }
    }
}

pub open spec fn event_views(v: Seq<MarkupEvent>) -> Seq<EventModel> {
    v.map_values(|e: MarkupEvent| e@)
}

/// Relies on `str::trim`: it removes the leading and trailing characters
/// that have the Unicode `White_Space` property.
#[verifier::external_body]
fn trim(s: &str) -> (r: String)
    ensures
        r@ == trim_white(s@),
{
    s.trim().to_string()
}

/// An element that is open: its tag, its attributes and children so far,
/// and its text so far.
pub struct FrameModel {
    pub tag: Seq<char>,
    pub entries: Seq<(Seq<char>, Json)>,
    pub text: Seq<char>,
}

/// The builder's state: the open elements, innermost last, and the
/// top-level entries built so far.
pub struct BuildState {
    pub stack: Seq<FrameModel>,
    pub result: Seq<(Seq<char>, Json)>,
}

/// `v` placed under `name`: a first occurrence is inserted as it is; a
/// second turns the entry into an array of both; later ones are appended.
pub open spec fn merge(entries: Seq<(Seq<char>, Json)>, name: Seq<char>, v: Json) -> Seq<
    (Seq<char>, Json),
> {
    match lookup(entries, name) {
        None => insert(entries, name, v),
        Some(Json::Array(items)) => insert(entries, name, Json::Array(items.push(v))),
        Some(old) => insert(entries, name, Json::Array(seq![old, v])),
    }
}

/// `entries` after placing `vs` under `name`, one after another.
pub open spec fn merge_each(entries: Seq<(Seq<char>, Json)>, name: Seq<char>, vs: Seq<Json>) -> Seq<
    (Seq<char>, Json),
>
    decreases vs.len(),
{
    if vs.len() == 0 {
        entries
    } else {
        merge(merge_each(entries, name, vs.drop_last()), name, vs.last())
    }
}

/// A name placed n >= 2 times, where it was absent, holds the array of the
/// n values in the order they came (the first value is not itself an
/// array, as no closed element is); other names keep what they held.
pub proof fn repeated_name_becomes_array(
    entries: Seq<(Seq<char>, Json)>,
    name: Seq<char>,
    vs: Seq<Json>,
    other: Seq<char>,
)
    requires
        lookup(entries, name) is None,
        vs.len() >= 2,
        !(vs[0] is Array),
        other != name,
    ensures
        lookup(merge_each(entries, name, vs), name) == Some(Json::Array(vs)),
        lookup(merge_each(entries, name, vs), other) == lookup(entries, other),
    decreases vs.len(),
{
    let init = vs.drop_last();
    let last = vs.last();
    let before = merge_each(entries, name, init);
    if vs.len() == 2 {
        let v1 = vs[0];
        assert(init.drop_last() =~= Seq::<Json>::empty());
        assert(init.last() == v1);
        let e1 = merge(entries, name, v1);
        assert(merge_each(entries, name, init.drop_last()) == entries);
        assert(before == e1);
        lemma_lookup_insert(entries, name, v1, name);
        lemma_lookup_insert(entries, name, v1, other);
        lemma_lookup_insert(e1, name, Json::Array(seq![v1, last]), name);
        lemma_lookup_insert(e1, name, Json::Array(seq![v1, last]), other);
        assert(seq![v1, last] =~= vs);
    } else {
        repeated_name_becomes_array(entries, name, init, other);
        lemma_lookup_insert(before, name, Json::Array(init.push(last)), name);
        lemma_lookup_insert(before, name, Json::Array(init.push(last)), other);
        assert(init.push(last) =~= vs);
    }
}

/// Placing a well-formed value keeps an object well formed.
pub proof fn lemma_merge_wf(entries: Seq<(Seq<char>, Json)>, name: Seq<char>, v: Json)
    requires
        wf_entries(entries),
        wf(v),
    ensures
        wf_entries(merge(entries, name, v)),
{
    lemma_lookup_wf(entries, name);
    match lookup(entries, name) {
        None => lemma_insert_wf(entries, name, v),
        Some(Json::Array(items)) => {
            let a = items.push(v);
            assert forall|i: int| 0 <= i < a.len() implies wf(#[trigger] a[i]) by {
                if i < items.len() {
                    assert(a[i] == items[i]);
                }
            }
            lemma_insert_wf(entries, name, Json::Array(a));
        },
        Some(old) => {
            let a = seq![old, v];
            assert forall|i: int| 0 <= i < a.len() implies wf(#[trigger] a[i]) by {}
            lemma_insert_wf(entries, name, Json::Array(a));
        },
    }
}

proof fn lemma_attr_entries_wf(attrs: Seq<(Seq<char>, Seq<char>)>)
    ensures
        wf_entries(attr_entries(attrs)),
    decreases attrs.len(),
{
    if attrs.len() == 0 {
        assert(wf_entries(Seq::empty()));
    } else {
        lemma_attr_entries_wf(attrs.drop_last());
        lemma_insert_wf(attr_entries(attrs.drop_last()), attrs.last().0, Json::String(attrs.last().1));
    }
}

/// Every open element and the top level hold well-formed entries.
pub open spec fn state_wf(s: BuildState) -> bool {
    &&& wf_entries(s.result)
    &&& forall|i: int| 0 <= i < s.stack.len() ==> wf_entries(#[trigger] s.stack[i].entries)
}

proof fn lemma_next_state_wf(s: BuildState, e: EventModel)
    requires
        state_wf(s),
    ensures
        next_state(s, e) matches Ok(t) ==> state_wf(t),
{
    match e {
        EventModel::Start(tag, attrs) => {
            lemma_attr_entries_wf(attrs);
            let st = s.stack.push(FrameModel { tag, entries: attr_entries(attrs), text: Seq::empty() });
            assert forall|i: int| 0 <= i < st.len() implies wf_entries(#[trigger] st[i].entries) by {
                if i < s.stack.len() {
                    assert(st[i] == s.stack[i]);
                }
            }
        },
        EventModel::Text(c) => {
            if s.stack.len() > 0 {
                let f = s.stack.last();
                let st = s.stack.update(s.stack.len() - 1, FrameModel { text: f.text + trim_white(c), ..f });
                assert forall|i: int| 0 <= i < st.len() implies wf_entries(#[trigger] st[i].entries) by {
                    if i < s.stack.len() - 1 {
                        assert(st[i] == s.stack[i]);
                    } else {
                        assert(s.stack[s.stack.len() - 1] == f);
                    }
                }
            }
        },
        EventModel::End(tag) => {
            if s.stack.len() > 0 && s.stack.last().tag == tag {
                let f = s.stack.last();
                assert(wf_entries(s.stack[s.stack.len() - 1].entries));
                if f.text.len() > 0 {
                    lemma_insert_wf(f.entries, text_key(), Json::String(f.text));
                }
                let v = closed_value(f);
                assert(wf(v));
                let rest = s.stack.drop_last();
                if rest.len() == 0 {
                    lemma_merge_wf(s.result, tag, v);
                } else {
                    let p = rest.last();
                    assert(p == s.stack[rest.len() - 1]);
                    lemma_merge_wf(p.entries, tag, v);
                    let st = rest.update(rest.len() - 1, FrameModel { entries: merge(p.entries, tag, v), ..p });
                    assert forall|i: int| 0 <= i < st.len() implies wf_entries(#[trigger] st[i].entries) by {
                        if i < rest.len() - 1 {
                            assert(st[i] == s.stack[i]);
                        }
                    }
                }
            }
        },
    }
}

/// Every state that a stream reaches is well formed.
proof fn lemma_run_wf(events: Seq<EventModel>)
    ensures
        run(events) matches Ok(s) ==> state_wf(s),
    decreases events.len(),
{
    if events.len() == 0 {
        assert(wf_entries(Seq::empty()));
    } else {
        lemma_run_wf(events.drop_last());
        if let Ok(s) = run(events.drop_last()) {
            lemma_next_state_wf(s, events.last());
        }
    }
}

/// A tree built from markup events is well formed: no object in it has a
/// repeated key.
pub proof fn built_tree_is_well_formed(events: Seq<EventModel>)
    ensures
        built_tree(events) matches Ok(t) ==> wf(t),
{
    lemma_run_wf(events);
}

/// Text made of whitespace alone changes nothing.
pub proof fn white_text_is_ignored(s: BuildState, c: Seq<char>)
    requires
        forall|i: int| 0 <= i < c.len() ==> is_white(#[trigger] c[i]),
    ensures
        next_state(s, EventModel::Text(c)) == Ok::<BuildState, Seq<char>>(s),
{
    lemma_trim_all_white(c);
    if s.stack.len() > 0 {
        let f = s.stack.last();
        assert(f.text + trim_white(c) =~= f.text);
        assert(s.stack.update(s.stack.len() - 1, FrameModel { text: f.text, ..f }) =~= s.stack);
    }
}

/// The value of a closed element is never an array.
pub proof fn closed_value_is_not_array(f: FrameModel)
    ensures
        !(closed_value(f) is Array),
{
}

/// The attributes of a start event as entries with string values; a
/// repeated name keeps its last value.
pub open spec fn attr_entries(attrs: Seq<(Seq<char>, Seq<char>)>) -> Seq<(Seq<char>, Json)>
    decreases attrs.len(),
{
    if attrs.len() == 0 {
        Seq::empty()
    } else {
        insert(attr_entries(attrs.drop_last()), attrs.last().0, Json::String(attrs.last().1))
    }
}

pub open spec fn text_key() -> Seq<char> {
    "_text"@
}

/// The value of a closed element: its text alone where it has only text;
/// otherwise an object of its attributes and children, with its text under
/// `_text` where there is any.
pub open spec fn closed_value(f: FrameModel) -> Json {
    if f.entries.len() == 0 && f.text.len() > 0 {
        Json::String(f.text)
    } else if f.text.len() > 0 {
        Json::Object(insert(f.entries, text_key(), Json::String(f.text)))
    } else {
        Json::Object(f.entries)
    }
}

/// The state after one event, or the offending tag. Text outside any
/// element is passed over.
pub open spec fn next_state(s: BuildState, e: EventModel) -> Result<BuildState, Seq<char>> {
    match e {
        EventModel::Start(tag, attrs) => Ok(
            BuildState {
                stack: s.stack.push(FrameModel { tag, entries: attr_entries(attrs), text: Seq::empty() }),
                ..s
            },
        ),
        EventModel::Text(c) => if s.stack.len() == 0 {
            Ok(s)
        } else {
            let f = s.stack.last();
            Ok(
                BuildState {
                    stack: s.stack.update(
                        s.stack.len() - 1,
                        FrameModel { text: f.text + trim_white(c), ..f },
                    ),
                    ..s
                },
            )
        },
        EventModel::End(tag) => if s.stack.len() == 0 || s.stack.last().tag != tag {
            Err(tag)
        } else {
            let v = closed_value(s.stack.last());
            let rest = s.stack.drop_last();
            if rest.len() == 0 {
                Ok(BuildState { stack: rest, result: merge(s.result, tag, v) })
            } else {
                let p = rest.last();
                Ok(
                    BuildState {
                        stack: rest.update(
                            rest.len() - 1,
                            FrameModel { entries: merge(p.entries, tag, v), ..p },
                        ),
                        result: s.result,
                    },
                )
            }
        },
    }
}

pub open spec fn initial_state() -> BuildState {
    BuildState { stack: Seq::empty(), result: Seq::empty() }
}

/// The state after a whole stream of events, or the first offending tag.
pub open spec fn run(events: Seq<EventModel>) -> Result<BuildState, Seq<char>>
    decreases events.len(),
{
    if events.len() == 0 {
        Ok(initial_state())
    } else {
        match run(events.drop_last()) {
            Ok(s) => next_state(s, events.last()),
            Err(t) => Err(t),
        }
    }
}

/// The tree that a whole stream builds: an object of the top-level
/// elements. An element left open at the end is an error naming it.
pub open spec fn built_tree(events: Seq<EventModel>) -> Result<Json, Seq<char>> {
    match run(events) {
        Err(t) => Err(t),
        Ok(s) => if s.stack.len() > 0 {
            Err(s.stack.last().tag)
        } else {
            Ok(Json::Object(s.result))
        },
    }
}

struct Frame {
    tag: String,
    entries: Vec<(String, Value)>,
    text: String,
}

impl View for Frame {
    type V = FrameModel;

    closed spec fn view(&self) -> FrameModel {
        FrameModel { tag: self.tag@, entries: view_entries(self.entries@), text: self.text@ }
    }
}

/// Builds a tree from markup events fed one at a time.
pub struct TreeBuilder {
    stack: Vec<Frame>,
    result: Vec<(String, Value)>,
}

impl View for TreeBuilder {
    type V = BuildState;

    closed spec fn view(&self) -> BuildState {
        BuildState {
            stack: self.stack@.map_values(|f: Frame| f@),
            result: view_entries(self.result@),
        }
    }
}

/// Places `v` under `name` in `entries`, turning repeats into an array.
pub fn merge_into(entries: &mut Vec<(String, Value)>, name: String, v: Value)
    ensures
        view_entries(final(entries)@) == merge(view_entries(old(entries)@), name@, v@),
{
    proof {
        lemma_view_entries(entries@);
        lemma_key_index(view_entries(entries@), name@);
    }
    match find_key(entries, name.as_str()) {
        None => {
            object_insert(entries, name, v);
        },
        Some(i) => {
            let ghost before = entries@;
            let ghost vv = v@;
            let (k, old) = entries.remove(i);
            let merged = match old {
                Value::Array(mut items) => {
                    let ghost olds = items@;
                    items.push(v);
                    proof {
                        lemma_view_items(items@);
                        lemma_view_items(olds);
                        assert(view_items(items@) =~= view_items(olds).push(vv));
                    }
                    Value::Array(items)
                },
                other => {
                    let items = vec![other, v];
                    proof {
                        lemma_view_items(items@);
                        assert(view_items(items@) =~= seq![view_entries(before)[i as int].1, vv]);
                    }
                    Value::Array(items)
                },
            };
            let ghost mv = merged@;
            entries.insert(i, (k, merged));
            proof {
                lemma_view_entries(entries@);
                lemma_view_entries(before);
                assert(view_entries(entries@) =~= view_entries(before).update(
                    i as int,
                    (name@, mv),
                ));
            }
        },
    }
}

fn attributes_to_entries(attrs: &Vec<(String, String)>) -> (r: Vec<(String, Value)>)
    ensures
        view_entries(r@) == attr_entries(attr_views(attrs@)),
{
    let ghost av = attr_views(attrs@);
    let mut out: Vec<(String, Value)> = Vec::new();
    let mut i: usize = 0;
    proof {
        assert(av.take(0) =~= Seq::<(Seq<char>, Seq<char>)>::empty());
        assert(view_entries(out@) =~= Seq::<(Seq<char>, Json)>::empty());
    }
    while i < attrs.len()
        invariant
            i <= attrs.len(),
            av == attr_views(attrs@),
            view_entries(out@) == attr_entries(av.take(i as int)),
        decreases attrs.len() - i,
    {
        proof {
            assert(av.take(i + 1).drop_last() =~= av.take(i as int));
            assert(av.take(i + 1).last() == (attrs@[i as int].0@, attrs@[i as int].1@));
        }
        object_insert(&mut out, attrs[i].0.clone(), Value::String(attrs[i].1.clone()));
        i += 1;
    }
    proof {
        assert(av.take(i as int) =~= av);
    }
    out
}

fn close_frame(f: Frame) -> (r: Value)
    ensures
        r@ == closed_value(f@),
{
    let Frame { tag, entries, text } = f;
    proof {
        reveal_strlit("_text");
        lemma_view_entries(entries@);
    }
    if text.as_str().is_empty() {
        Value::Object(entries)
    } else if entries.len() == 0 {
        Value::String(text)
    } else {
        let mut es = entries;
        object_insert(&mut es, String::from_str("_text"), Value::String(text));
        Value::Object(es)
    }
}

impl TreeBuilder {
    /// A builder with no open element and nothing built.
    pub fn new() -> (r: TreeBuilder)
        ensures
            r@ == initial_state(),
    {
        let r = TreeBuilder { stack: Vec::new(), result: Vec::new() };
        proof {
            assert(r@.stack =~= Seq::<FrameModel>::empty());
            assert(r@.result =~= Seq::<(Seq<char>, Json)>::empty());
        }
        r
    }

    /// Appends already trimmed text to the innermost open element; outside
    /// any element it is passed over.
    pub fn add_text(&mut self, trimmed_text: &str)
        ensures
            final(self)@ == if old(self)@.stack.len() == 0 {
                old(self)@
            } else {
                let f = old(self)@.stack.last();
                BuildState {
                    stack: old(self)@.stack.update(
                        old(self)@.stack.len() - 1,
                        FrameModel { text: f.text + trimmed_text@, ..f },
                    ),
                    ..old(self)@
                }
            },
    {
        match self.stack.pop() {
            None => {},
            Some(f) => {
                let Frame { tag, entries, mut text } = f;
                text.append(trimmed_text);
                self.stack.push(Frame { tag, entries, text });
                proof {
                    assert(self@.stack =~= old(self)@.stack.update(
                        old(self)@.stack.len() - 1,
                        FrameModel { text: old(self)@.stack.last().text + trimmed_text@, ..old(self)@.stack.last() },
                    ));
                }
            },
        }
    }

    /// Takes one event. An end event that closes no open element, or not the
    /// innermost one, fails with its tag, and the builder is left as it was.
    pub fn feed(&mut self, event: &MarkupEvent) -> (r: Result<(), DataError>)
        ensures
            match next_state(old(self)@, event@) {
                Ok(s) => r is Ok && final(self)@ == s,
                Err(t) => (r matches Err(DataError::MarkupSyntax(m)) && m@ == t) && final(self)@
                    == old(self)@,
            },
    {
        match event {
            MarkupEvent::Start(tag, attrs) => {
                let entries = attributes_to_entries(attrs);
                let f = Frame { tag: tag.clone(), entries, text: String::new() };
                self.stack.push(f);
                proof {
                    assert(self@.stack =~= old(self)@.stack.push(f@));
                }
                Ok(())
            },
            MarkupEvent::Text(c) => {
                let t = trim(c.as_str());
                self.add_text(t.as_str());
                Ok(())
            },
            MarkupEvent::End(tag) => {
                let n = self.stack.len();
                if n == 0 {
                    return Err(DataError::MarkupSyntax(tag.clone()));
                }
                if self.stack[n - 1].tag != *tag {
                    return Err(DataError::MarkupSyntax(tag.clone()));
                }
                let ghost s0 = self@;
                let f = match self.stack.pop() {
                    Some(f) => f,
                    None => {
                        return Err(DataError::MarkupSyntax(tag.clone()));
                    },
                };
                let v = close_frame(f);
                proof {
                    assert(self@.stack =~= s0.stack.drop_last());
                }
                match self.stack.pop() {
                    None => {
                        merge_into(&mut self.result, tag.clone(), v);
                    },
                    Some(p) => {
                        let Frame { tag: ptag, mut entries, text } = p;
                        merge_into(&mut entries, tag.clone(), v);
                        self.stack.push(Frame { tag: ptag, entries, text });
                        proof {
                            assert(self@.stack =~= s0.stack.drop_last().update(
                                s0.stack.len() - 2,
                                FrameModel {
                                    entries: merge(
                                        s0.stack.drop_last().last().entries,
                                        tag@,
                                        v@,
                                    ),
                                    ..s0.stack.drop_last().last()
                                },
                            ));
                        }
                    },
                }
                Ok(())
            },
        }
    }

    /// Ends the stream: the object of the top-level elements, or an error
    /// naming the innermost element still open.
    pub fn finish(self) -> (r: Result<Value, DataError>)
        ensures
            self@.stack.len() > 0 ==> (r matches Err(DataError::MarkupSyntax(m)) && m@
                == self@.stack.last().tag),
            self@.stack.len() == 0 ==> r is Ok && r->Ok_0@ == Json::Object(self@.result),
    {
        let n = self.stack.len();
        if n > 0 {
            return Err(DataError::MarkupSyntax(self.stack[n - 1].tag.clone()));
        }
        Ok(Value::Object(self.result))
    }
}

/// The tree that a whole stream of markup events builds, or the first
/// offending tag: an end event that closes nothing or not the innermost open
/// element, or an element still open at the end.
pub fn build_tree_from_markup(events: &Vec<MarkupEvent>) -> (r: Result<Value, DataError>)
    ensures
        match built_tree(event_views(events@)) {
            Ok(t) => r is Ok && r->Ok_0@ == t,
            Err(tag) => r matches Err(DataError::MarkupSyntax(m)) && m@ == tag,
        },
        r matches Ok(v) ==> wf(v@),
{
    proof {
        built_tree_is_well_formed(event_views(events@));
    }
    let ghost evs = event_views(events@);
    let mut b = TreeBuilder::new();
    let mut i: usize = 0;
    proof {
        assert(evs.take(0) =~= Seq::<EventModel>::empty());
    }
    while i < events.len()
        invariant
            i <= events.len(),
            evs == event_views(events@),
            run(evs.take(i as int)) == Ok::<BuildState, Seq<char>>(b@),
        decreases events.len() - i,
    {
        proof {
            assert(evs.take(i + 1).drop_last() =~= evs.take(i as int));
            assert(evs.take(i + 1).last() == events@[i as int]@);
        }
        match b.feed(&events[i]) {
            Ok(()) => {},
            Err(e) => {
                proof {
                    lemma_stream_failure_persists(evs, i + 1);
                }
                return Err(e);
            },
        }
        i += 1;
    }
    proof {
        assert(evs.take(i as int) =~= evs);
    }
    b.finish()
}

/// A stream that leaves an element open fails; no partial tree comes out.
pub proof fn unclosed_element_fails(events: Seq<EventModel>)
    requires
        run(events) matches Ok(s) && s.stack.len() > 0,
    ensures
        built_tree(events) is Err,
{
}

/// In particular, a stream whose last event opens an element fails.
pub proof fn stream_ending_in_start_fails(
    events: Seq<EventModel>,
    tag: Seq<char>,
    attrs: Seq<(Seq<char>, Seq<char>)>,
)
    ensures
        built_tree(events.push(EventModel::Start(tag, attrs))) is Err,
{
    let all = events.push(EventModel::Start(tag, attrs));
    assert(all.drop_last() =~= events);
}

/// Once a prefix of a stream fails, the whole stream fails with the same tag.
proof fn lemma_stream_failure_persists(events: Seq<EventModel>, n: int)
    requires
        0 <= n <= events.len(),
        run(events.take(n)) is Err,
    ensures
        run(events) == run(events.take(n)),
    decreases events.len(),
{
    if events.len() == n {
        assert(events.take(n) =~= events);
    } else {
        assert(events.drop_last().take(n) =~= events.take(n));
        lemma_stream_failure_persists(events.drop_last(), n);
    }
}

} // verus!
