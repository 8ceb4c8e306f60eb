//! Every path that `extract_paths` lists can be read back, and writing what
//! it reads into a fresh object puts it at the same dotted key path.

use vstd::prelude::*;
use crate::analyzer::{entry_leaf_paths, here, leaf_paths};
use crate::path::{
    index_part, lemma_walk_append, part_index, piece_ok, piece_segments, read_path,
    read_segments, set_in, step, walk, write_path, Segment,
};
use crate::text::{
    all_digits, digit_value, digits_value, dotted, index_text, index_value, lemma_split_extend, lemma_split_new_piece,
    lemma_split_nonempty, lemma_split_whole, saturate, split,
};
use crate::value::{insert, key_index, lemma_key_index, lookup, Json};

verus! {

/// A key that the path grammars read back as itself: not empty, and without
/// `.`, `[` or `]`.
pub open spec fn plain_key(k: Seq<char>) -> bool {
    k.len() > 0 && !k.contains('.') && !k.contains('[') && !k.contains(']')
}

/// Every object in the sampled part of the tree (first elements of arrays)
/// has unique, plain keys.
pub open spec fn plain_tree(v: Json) -> bool
    decreases v,
{
    match v {
        Json::Array(items) => items.len() > 0 ==> plain_tree(items[0]),
        Json::Object(es) => {
            &&& forall|i: int, j: int| 0 <= i < j < es.len() ==> es[i].0 != es[j].0
            &&& forall|i: int|
                #![trigger es[i]]
                0 <= i < es.len() ==> plain_key(es[i].0) && plain_tree(es[i].1)
        },
        _ => true,
    }
}

/// The dotted key path `p` as read steps.
pub open spec fn key_steps(p: Seq<char>) -> Seq<Segment> {
    split(p, '.').map_values(|k: Seq<char>| Segment::Key(k))
}

/// A path as `extract_paths` builds it: the root, or non-empty pieces that
/// each parse.
pub open spec fn prefix_ok(pre: Seq<char>) -> bool {
    pre.len() == 0 || forall|i: int|
        0 <= i < split(pre, '.').len() ==> piece_ok(#[trigger] split(pre, '.')[i])
            && split(pre, '.')[i].len() > 0
}

pub open spec fn first_marker() -> Seq<char> {
    seq!['[', '0', ']']
}

proof fn lemma_has_sep_two_pieces(q: Seq<char>, sep: char)
    requires
        q.contains(sep),
    ensures
        split(q, sep).len() >= 2,
    decreases q.len(),
{
    lemma_split_nonempty(q, sep);
    lemma_split_nonempty(q.drop_last(), sep);
    if q.last() != sep {
        let i = choose|i: int| 0 <= i < q.len() && q[i] == sep;
        assert(q.drop_last()[i] == sep);
        lemma_has_sep_two_pieces(q.drop_last(), sep);
    }
}

proof fn lemma_flatten_push(s: Seq<Seq<Segment>>, x: Seq<Segment>)
    ensures
        s.push(x).flatten() == s.flatten() + x,
{
    s.lemma_flatten_and_flatten_alt_are_equivalent();
    s.push(x).lemma_flatten_and_flatten_alt_are_equivalent();
    assert(s.push(x).drop_last() =~= s);
}

proof fn lemma_flatten_extend_last(s: Seq<Seq<Segment>>, x: Seq<Segment>)
    requires
        s.len() > 0,
    ensures
        s.update(s.len() - 1, s.last() + x).flatten() == s.flatten() + x,
{
    let t = s.update(s.len() - 1, s.last() + x);
    s.lemma_flatten_and_flatten_alt_are_equivalent();
    t.lemma_flatten_and_flatten_alt_are_equivalent();
    assert(t.drop_last() =~= s.drop_last());
    assert(s.drop_last().flatten_alt() + (s.last() + x) =~= s.drop_last().flatten_alt() + s.last()
        + x);
}

proof fn lemma_plain_piece(k: Seq<char>)
    requires
        plain_key(k),
    ensures
        piece_ok(k),
        piece_segments(k) == seq![Segment::Key(k)],
{
    lemma_split_whole(k, '[');
    let parts = split(k, '[');
    assert(parts.drop_first().map_values(|t: Seq<char>| part_index(t)) =~= Seq::<Segment>::empty());
    assert(piece_segments(k) =~= seq![Segment::Key(k)]);
}

proof fn lemma_first_part()
    ensures
        index_part(seq!['0', ']']),
        part_index(seq!['0', ']']) == Segment::Index(0),
{
    let t = seq!['0', ']'];
    assert(t.drop_last() =~= seq!['0']);
    assert(seq!['0'].drop_last() =~= Seq::<char>::empty());
    assert(seq!['0'].last() == '0');
    assert(digit_value('0') == 0);
    assert(digits_value(Seq::<char>::empty()) == 0);
    assert(digits_value(seq!['0']) == 0);
    assert(all_digits(seq!['0']));
    assert(index_text(seq!['0']));
    assert(index_value(seq!['0']) == 0);
}

proof fn lemma_piece_first(q: Seq<char>)
    ensures
        piece_ok(q) ==> piece_ok(q + first_marker()),
        q.len() > 0 ==> piece_segments(q + first_marker()) == piece_segments(q).push(
            Segment::Index(0),
        ),
{
    let z = seq!['0', ']'];
    assert(!z.contains('[')) by {
        if z.contains('[') {
            let i = choose|i: int| 0 <= i < z.len() && z[i] == '[';
        }
    }
    assert(q + first_marker() =~= q + seq!['['] + z);
    lemma_split_new_piece(q, z, '[');
    lemma_split_nonempty(q, '[');
    lemma_first_part();
    let parts = split(q, '[');
    let parts2 = parts.push(z);
    assert(parts2[0] == parts[0]);
    assert(parts2.drop_first() =~= parts.drop_first().push(z));
    if piece_ok(q) {
        assert forall|i: int| 1 <= i < parts2.len() implies index_part(#[trigger] parts2[i]) by {
            if i < parts.len() {
                assert(parts2[i] == parts[i]);
            }
        }
    }
    if q.len() > 0 {
        if parts.len() == 1 {
            if q.contains('[') {
                lemma_has_sep_two_pieces(q, '[');
            }
            lemma_split_whole(q, '[');
        }
        let tail = parts.drop_first().map_values(|t: Seq<char>| part_index(t));
        assert(parts2.drop_first().map_values(|t: Seq<char>| part_index(t)) =~= tail.push(
            Segment::Index(0),
        ));
        let head = if parts[0].len() > 0 || parts.len() == 1 {
            seq![Segment::Key(parts[0])]
        } else {
            Seq::empty()
        };
        assert(piece_segments(q + first_marker()) =~= head + tail.push(Segment::Index(0)));
        assert(head + tail.push(Segment::Index(0)) =~= (head + tail).push(Segment::Index(0)));
    }
}

/// Appending a plain key to a path adds one key step.
proof fn lemma_read_dotted(pre: Seq<char>, k: Seq<char>)
    requires
        prefix_ok(pre),
        plain_key(k),
    ensures
        prefix_ok(dotted(pre, k)),
        dotted(pre, k).len() > 0,
        read_segments(pre) is Some,
        read_segments(dotted(pre, k)) == Some(read_segments(pre)->0.push(Segment::Key(k))),
{
    lemma_plain_piece(k);
    lemma_split_whole(k, '.');
    if pre.len() == 0 {
        let per = split(k, '.').map_values(|p: Seq<char>| piece_segments(p));
        assert(per =~= seq![seq![Segment::Key(k)]]);
        per.lemma_flatten_one_element();
        assert(Seq::<Segment>::empty().push(Segment::Key(k)) =~= seq![Segment::Key(k)]);
    } else {
        let d = dotted(pre, k);
        lemma_split_new_piece(pre, k, '.');
        let sp = split(pre, '.');
        assert(split(d, '.') == sp.push(k));
        assert forall|i: int| 0 <= i < split(d, '.').len() implies piece_ok(
            #[trigger] split(d, '.')[i],
        ) && split(d, '.')[i].len() > 0 by {
            if i < sp.len() {
                assert(split(d, '.')[i] == sp[i]);
            }
        }
        let per = sp.map_values(|p: Seq<char>| piece_segments(p));
        assert(split(d, '.').map_values(|p: Seq<char>| piece_segments(p)) =~= per.push(
            seq![Segment::Key(k)],
        ));
        lemma_flatten_push(per, seq![Segment::Key(k)]);
        assert(per.flatten() + seq![Segment::Key(k)] =~= per.flatten().push(Segment::Key(k)));
    }
}

/// Appending `[0]` to a path adds one index step.
proof fn lemma_read_first(pre: Seq<char>)
    requires
        prefix_ok(pre),
    ensures
        prefix_ok(pre + first_marker()),
        read_segments(pre) is Some,
        read_segments(pre + first_marker()) == Some(
            read_segments(pre)->0.push(Segment::Index(0)),
        ),
{
    let m = first_marker();
    assert(!m.contains('.')) by {
        if m.contains('.') {
            let i = choose|i: int| 0 <= i < m.len() && m[i] == '.';
        }
    }
    lemma_first_part();
    if pre.len() == 0 {
        assert(pre + m =~= m);
        lemma_split_whole(m, '.');
        let z = seq!['0', ']'];
        assert(!z.contains('[')) by {
            if z.contains('[') {
                let i = choose|i: int| 0 <= i < z.len() && z[i] == '[';
            }
        }
        assert(m =~= Seq::<char>::empty() + seq!['['] + z);
        lemma_split_new_piece(Seq::empty(), z, '[');
        assert(split(m, '[') =~= seq![Seq::<char>::empty(), z]);
        assert(split(m, '[').drop_first() =~= seq![z]);
        assert(split(m, '[').drop_first().map_values(|t: Seq<char>| part_index(t)) =~= seq![
            Segment::Index(0),
        ]);
        assert(piece_ok(m));
        assert(piece_segments(m) =~= seq![Segment::Index(0)]);
        let per = split(m, '.').map_values(|p: Seq<char>| piece_segments(p));
        assert(per =~= seq![seq![Segment::Index(0)]]);
        per.lemma_flatten_one_element();
        assert(Seq::<Segment>::empty().push(Segment::Index(0)) =~= seq![Segment::Index(0)]);
    } else {
        let sp = split(pre, '.');
        lemma_split_nonempty(pre, '.');
        lemma_split_extend(pre, m, '.');
        let q = sp.last();
        assert(q == sp[sp.len() - 1]);
        lemma_piece_first(q);
        let sp2 = split(pre + m, '.');
        assert(sp2 == sp.update(sp.len() - 1, q + m));
        assert forall|i: int| 0 <= i < sp2.len() implies piece_ok(#[trigger] sp2[i]) && sp2[i].len()
            > 0 by {
            if i < sp.len() - 1 {
                assert(sp2[i] == sp[i]);
            }
        }
        let per = sp.map_values(|p: Seq<char>| piece_segments(p));
        assert(q.len() > 0);
        assert(piece_segments(q + m) =~= per.last() + seq![Segment::Index(0)]);
        assert(sp2.map_values(|p: Seq<char>| piece_segments(p)) =~= per.update(
            per.len() - 1,
            per.last() + seq![Segment::Index(0)],
        ));
        lemma_flatten_extend_last(per, seq![Segment::Index(0)]);
        assert(per.flatten() + seq![Segment::Index(0)] =~= per.flatten().push(Segment::Index(0)));
    }
}

proof fn lemma_concat_contains<A>(a: Seq<A>, b: Seq<A>, x: A)
    requires
        (a + b).contains(x),
    ensures
        a.contains(x) || b.contains(x),
{
    let i = choose|i: int| 0 <= i < (a + b).len() && (a + b)[i] == x;
    if i < a.len() {
        assert(a[i] == x);
    } else {
        assert(b[i - a.len()] == x);
    }
}

/// In an object with unique keys, each entry is what its key looks up.
proof fn lemma_unique_lookup(es: Seq<(Seq<char>, Json)>, i: int)
    requires
        0 <= i < es.len(),
        forall|a: int, b: int| 0 <= a < b < es.len() ==> es[a].0 != es[b].0,
    ensures
        lookup(es, es[i].0) == Some(es[i].1),
{
    lemma_key_index(es, es[i].0);
    let ki = key_index(es, es[i].0);
    if ki != i {
        assert(es[ki].0 == es[i].0);
    }
}

/// Every path listed below `pre`, where `pre` reads `v` from `root`, reads
/// something from `root`.
proof fn lemma_leaf_reads(root: Json, v: Json, pre: Seq<char>, p: Seq<char>)
    requires
        prefix_ok(pre),
        read_path(root, pre) == Some(v),
        plain_tree(v),
        leaf_paths(v, pre).contains(p),
    ensures
        read_path(root, p) is Some,
    decreases v,
{
    match v {
        Json::Array(items) => {
            if items.len() > 0 {
                lemma_read_first(pre);
                let segs = read_segments(pre)->0;
                lemma_walk_append(root, segs, seq![Segment::Index(0)]);
                assert(segs.push(Segment::Index(0)) =~= segs + seq![Segment::Index(0)]);
                assert(seq![Segment::Index(0)].drop_first() =~= Seq::<Segment>::empty());
                assert(step(v, Segment::Index(0)) == Some(items[0]));
                assert(walk(items[0], Seq::<Segment>::empty()) == Some(items[0]));
                assert(walk(v, seq![Segment::Index(0)]) == Some(items[0]));
                lemma_leaf_reads(root, items[0], pre + first_marker(), p);
            } else {
                assert(here(pre)[0] == pre);
            }
        },
        Json::Object(es) => {
            if es.len() > 0 {
                assert forall|i: int| 0 <= i < es.len() implies read_path(
                    root,
                    dotted(pre, (#[trigger] es[i]).0),
                ) == Some(es[i].1) by {
                    lemma_read_dotted(pre, es[i].0);
                    let segs = read_segments(pre)->0;
                    let k = es[i].0;
                    lemma_walk_append(root, segs, seq![Segment::Key(k)]);
                    assert(segs.push(Segment::Key(k)) =~= segs + seq![Segment::Key(k)]);
                    assert(seq![Segment::Key(k)].drop_first() =~= Seq::<Segment>::empty());
                    lemma_unique_lookup(es, i);
                    assert(step(v, Segment::Key(k)) == Some(es[i].1));
                    assert(walk(es[i].1, Seq::<Segment>::empty()) == Some(es[i].1));
                    assert(walk(v, seq![Segment::Key(k)]) == Some(es[i].1));
                }
                lemma_entry_reads(root, es, pre, p);
            } else {
                assert(here(pre)[0] == pre);
            }
        },
        _ => {
            assert(here(pre)[0] == pre);
        },
    }
}

proof fn lemma_entry_reads(root: Json, es: Seq<(Seq<char>, Json)>, pre: Seq<char>, p: Seq<char>)
    requires
        prefix_ok(pre),
        forall|i: int|
            #![trigger es[i]]
            0 <= i < es.len() ==> plain_key(es[i].0) && plain_tree(es[i].1) && read_path(
                root,
                dotted(pre, es[i].0),
            ) == Some(es[i].1),
        entry_leaf_paths(es, pre).contains(p),
    ensures
        read_path(root, p) is Some,
    decreases es,
{
    if es.len() > 0 {
        let e = es.last();
        assert(e == es[es.len() - 1]);
        lemma_concat_contains(
            entry_leaf_paths(es.drop_last(), pre),
            leaf_paths(e.1, dotted(pre, e.0)),
            p,
        );
        if entry_leaf_paths(es.drop_last(), pre).contains(p) {
            assert forall|i: int| 0 <= i < es.drop_last().len() implies #[trigger] es.drop_last()[i]
                == es[i] by {}
            lemma_entry_reads(root, es.drop_last(), pre, p);
        } else {
            lemma_read_dotted(pre, e.0);
            lemma_leaf_reads(root, e.1, dotted(pre, e.0), p);
        }
    }
}

/// Writing into a fresh object creates the whole key path, and reading it
/// back gives what was written.
proof fn lemma_fresh_write(keys: Seq<Seq<char>>, x: Json)
    requires
        keys.len() >= 1,
    ensures
        set_in(Seq::empty(), keys, x) is Some,
        walk(
            Json::Object(set_in(Seq::empty(), keys, x)->0),
            keys.map_values(|k: Seq<char>| Segment::Key(k)),
        ) == Some(x),
    decreases keys.len(),
{
    let steps = keys.map_values(|k: Seq<char>| Segment::Key(k));
    let k = keys[0];
    let empty = Seq::<(Seq<char>, Json)>::empty();
    assert(key_index(empty, k) == -1);
    if keys.len() == 1 {
        let e = insert(empty, k, x);
        assert(e =~= seq![(k, x)]);
        assert(e.drop_last() =~= empty);
        assert(key_index(e, k) == 0);
        assert(steps.drop_first() =~= Seq::<Segment>::empty());
        assert(steps[0] == Segment::Key(k));
        assert(lookup(e, k) == Some(x));
        assert(walk(x, Seq::<Segment>::empty()) == Some(x));
    } else {
        lemma_fresh_write(keys.drop_first(), x);
        let c2 = set_in(empty, keys.drop_first(), x)->0;
        let e = insert(empty, k, Json::Object(c2));
        assert(e =~= seq![(k, Json::Object(c2))]);
        assert(e.drop_last() =~= empty);
        assert(key_index(e, k) == 0);
        assert(steps.drop_first() =~= keys.drop_first().map_values(
            |k: Seq<char>| Segment::Key(k),
        ));
        assert(steps[0] == Segment::Key(k));
        assert(lookup(e, k) == Some(Json::Object(c2)));
    }
}

/// Every path that `extract_paths` lists for `v` from the root reads a value
/// of `v`, and writing that value at the same path of a fresh object puts it
/// where the dotted key path reads it back. This holds where the sampled
/// objects of `v` have unique keys that are non-empty and hold no `.`, `[`
/// or `]`.
pub proof fn extracted_paths_round_trip(v: Json, p: Seq<char>)
    requires
        plain_tree(v),
        leaf_paths(v, Seq::empty()).contains(p),
    ensures
        read_path(v, p) is Some,
        write_path(Json::Object(Seq::empty()), p, read_path(v, p)->0) is Some,
        walk(write_path(Json::Object(Seq::empty()), p, read_path(v, p)->0)->0, key_steps(p))
            == read_path(v, p),
{
    assert(read_path(v, Seq::empty()) == Some(v));
    lemma_leaf_reads(v, v, Seq::empty(), p);
    let x = read_path(v, p)->0;
    lemma_split_nonempty(p, '.');
    lemma_fresh_write(split(p, '.'), x);
}

} // verus!
