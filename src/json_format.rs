//! Re-indenting pretty-printed JSON text. Lines are separated by `\n` and
//! indented with spaces, as serde_json's pretty printer writes them; the
//! whitespace handled here is the space character.

use vstd::prelude::*;
use crate::text::{split, split_at_char, views};

verus! {

/// The number of spaces that `l` starts with.
pub open spec fn lead_spaces(l: Seq<char>) -> nat
    decreases l.len(),
{
    if l.len() > 0 && l[0] == ' ' {
        1 + lead_spaces(l.drop_first())
    } else {
        0
    }
}

/// The number of spaces that `l` ends with.
pub open spec fn trail_spaces(l: Seq<char>) -> nat
    decreases l.len(),
{
    if l.len() > 0 && l.last() == ' ' {
        1 + trail_spaces(l.drop_last())
    } else {
        0
    }
}

/// `l` without its leading and trailing spaces.
pub open spec fn strip(l: Seq<char>) -> Seq<char> {
    let body = l.skip(lead_spaces(l) as int);
    body.take(body.len() - trail_spaces(body))
}

pub open spec fn spaces(n: nat) -> Seq<char> {
    Seq::new(n, |i: int| ' ')
}

/// The level a line is written at: half its indentation, one less for a
/// line that starts with a closing bracket.
pub open spec fn out_level(l: Seq<char>) -> nat {
    let level = lead_spaces(l) / 2;
    let t = strip(l);
    if t.len() > 0 && (t[0] == '}' || t[0] == ']') {
        if level > 0 {
            (level - 1) as nat
        } else {
            0
        }
    } else {
        level
    }
}

/// Each non-blank line at its level, `width` spaces per level, each followed
/// by a newline.
pub open spec fn adjusted_lines(lines: Seq<Seq<char>>, width: nat) -> Seq<char>
    decreases lines.len(),
{
    if lines.len() == 0 {
        Seq::empty()
    } else {
        let l = lines.last();
        adjusted_lines(lines.drop_last(), width) + if strip(l).len() == 0 {
            Seq::empty()
        } else {
            spaces(width * out_level(l)) + strip(l) + seq!['\n']
        }
    }
}

/// `s` with every pair of spaces, taken from the left, removed.
pub open spec fn drop_double_spaces(s: Seq<char>) -> Seq<char>
    decreases s.len(),
{
    if s.len() >= 2 && s[0] == ' ' && s[1] == ' ' {
        drop_double_spaces(s.skip(2))
    } else if s.len() > 0 {
        seq![s[0]] + drop_double_spaces(s.drop_first())
    } else {
        Seq::empty()
    }
}

pub open spec fn drop_final_newline(s: Seq<char>) -> Seq<char> {
    if s.len() > 0 && s.last() == '\n' {
        s.drop_last()
    } else {
        s
    }
}

/// Pretty-printed JSON re-indented to `width` spaces per level; with width
/// zero, pairs of spaces are removed instead.
pub open spec fn adjusted(json: Seq<char>, width: nat) -> Seq<char> {
    if width == 0 {
        drop_double_spaces(json)
    } else {
        drop_final_newline(adjusted_lines(split(json, '\n'), width))
    }
}

/// A line re-indented to `width` spaces for each two spaces it had; a blank
/// line is kept as it is.
pub open spec fn reindented_line(l: Seq<char>, width: nat) -> Seq<char> {
    if strip(l).len() == 0 {
        l
    } else {
        spaces(width * (lead_spaces(l) / 2)) + l.skip(lead_spaces(l) as int)
    }
}

/// Lines joined with newlines.
pub open spec fn joined(lines: Seq<Seq<char>>) -> Seq<char>
    decreases lines.len(),
{
    if lines.len() == 0 {
        Seq::empty()
    } else if lines.len() == 1 {
        lines[0]
    } else {
        joined(lines.drop_last()) + seq!['\n'] + lines.last()
    }
}

pub open spec fn reindented(text: Seq<char>, width: nat) -> Seq<char> {
    joined(split(text, '\n').map_values(|l: Seq<char>| reindented_line(l, width)))
}

proof fn lemma_lead_spaces(l: Seq<char>, i: int)
    requires
        0 <= i <= l.len(),
        forall|j: int| 0 <= j < i ==> l[j] == ' ',
        i == l.len() || l[i] != ' ',
    ensures
        lead_spaces(l) == i,
    decreases i,
{
    if i > 0 {
        lemma_lead_spaces(l.drop_first(), i - 1);
    }
}

proof fn lemma_trail_spaces(l: Seq<char>, k: int)
    requires
        0 <= k <= l.len(),
        forall|j: int| l.len() - k <= j < l.len() ==> l[j] == ' ',
        k == l.len() || l[l.len() - k - 1] != ' ',
    ensures
        trail_spaces(l) == k,
    decreases k,
{
    if k > 0 {
        lemma_trail_spaces(l.drop_last(), k - 1);
    }
}

fn count_lead_spaces(l: &str) -> (r: usize)
    ensures
        r == lead_spaces(l@),
        r <= l@.len(),
{
    let n = l.unicode_len();
    let mut i: usize = 0;
    while i < n && l.get_char(i) == ' '
        invariant
            n == l@.len(),
            i <= n,
            forall|j: int| 0 <= j < i ==> l@[j] == ' ',
        decreases n - i,
    {
        i += 1;
    }
    proof {
        lemma_lead_spaces(l@, i as int);
    }
    i
}

fn count_trail_spaces(l: &str) -> (r: usize)
    ensures
        r == trail_spaces(l@),
        r <= l@.len(),
{
    let n = l.unicode_len();
    let mut k: usize = 0;
    while k < n && l.get_char(n - k - 1) == ' '
        invariant
            n == l@.len(),
            k <= n,
            forall|j: int| n - k <= j < n ==> l@[j] == ' ',
        decreases n - k,
    {
        k += 1;
    }
    proof {
        lemma_trail_spaces(l@, k as int);
    }
    k
}

/// `l` without leading and trailing spaces.
fn strip_spaces(l: &str) -> (r: &str)
    ensures
        r@ == strip(l@),
{
    let n = l.unicode_len();
    let a = count_lead_spaces(l);
    let body = l.substring_char(a, n);
    let b = count_trail_spaces(body);
    let m = body.unicode_len();
    body.substring_char(0, m - b)
}

/// Appends `width * level` spaces.
fn push_indent(out: &mut String, width: usize, level: usize)
    ensures
        final(out)@ == old(out)@ + spaces((width * level) as nat),
{
    proof {
        reveal_strlit(" ");
        assert(" "@ =~= seq![' ']);
    }
    let mut k: usize = 0;
    while k < level
        invariant
            k <= level,
            " "@ == seq![' '],
            out@ == old(out)@ + spaces((width * k) as nat),
        decreases level - k,
    {
        let mut j: usize = 0;
        let ghost base = out@;
        while j < width
            invariant
                j <= width,
                " "@ == seq![' '],
                out@ == base + spaces(j as nat),
            decreases width - j,
        {
            out.append(" ");
            proof {
                assert(spaces(j as nat) + seq![' '] =~= spaces((j + 1) as nat));
            }
            j += 1;
        }
        proof {
            assert(width * (k + 1) == width * k + width) by (nonlinear_arith);
            assert(spaces((width * k) as nat) + spaces(width as nat) =~= spaces(
                (width * (k + 1)) as nat,
            ));
        }
        k += 1;
    }
}

fn drop_pairs(s: &str) -> (r: String)
    ensures
        r@ == drop_double_spaces(s@),
{
    let n = s.unicode_len();
    let mut out = String::new();
    let mut i: usize = 0;
    proof {
        assert(s@.skip(0) =~= s@);
        assert(out@ + drop_double_spaces(s@) =~= drop_double_spaces(s@));
    }
    while i < n
        invariant
            n == s@.len(),
            i <= n,
            out@ + drop_double_spaces(s@.skip(i as int)) == drop_double_spaces(s@),
        decreases n - i,
    {
        let ghost rest = s@.skip(i as int);
        if i + 1 < n && s.get_char(i) == ' ' && s.get_char(i + 1) == ' ' {
            proof {
                assert(rest.skip(2) =~= s@.skip(i + 2));
            }
            i += 2;
        } else {
            out.append(s.substring_char(i, i + 1));
            proof {
                assert(rest.drop_first() =~= s@.skip(i + 1));
                assert(s@.subrange(i as int, i + 1) =~= seq![rest[0]]);
                assert(out@ + drop_double_spaces(s@.skip(i + 1)) =~= drop_double_spaces(s@));
            }
            i += 1;
        }
    }
    proof {
        assert(s@.skip(i as int) =~= Seq::<char>::empty());
        assert(out@ + Seq::<char>::empty() =~= out@);
    }
    out
}

/// Re-indents pretty-printed JSON to `target_indent` spaces per level.
/// Blank lines are dropped, and a line that starts with a closing bracket
/// goes one level out. With no indentation, pairs of spaces are removed.
pub fn adjust_indent(json: &str, target_indent: usize) -> (r: String)
    ensures
        r@ == adjusted(json@, target_indent as nat),
{
    if target_indent == 0 {
        return drop_pairs(json);
    }
    let lines = split_at_char(json, '\n');
    let ghost ls = split(json@, '\n');
    let mut out = String::new();
    let mut i: usize = 0;
    proof {
        reveal_strlit("\n");
        assert("\n"@ =~= seq!['\n']);
        assert(ls.take(0) =~= Seq::<Seq<char>>::empty());
    }
    while i < lines.len()
        invariant
            i <= lines.len(),
            ls == views(lines@),
            ls.len() == lines.len(),
            "\n"@ == seq!['\n'],
            out@ == adjusted_lines(ls.take(i as int), target_indent as nat),
        decreases lines.len() - i,
    {
        let line = lines[i].as_str();
        proof {
            assert(ls[i as int] == lines@[i as int]@);
            assert(ls.take(i + 1).drop_last() =~= ls.take(i as int));
            assert(ls.take(i + 1).last() == ls[i as int]);
        }
        let t = strip_spaces(line);
        if t.unicode_len() > 0 {
            let level = count_lead_spaces(line) / 2;
            let first = t.get_char(0);
            let out_lv = if first == '}' || first == ']' {
                if level > 0 {
                    level - 1
                } else {
                    0
                }
            } else {
                level
            };
            let ghost before = out@;
            push_indent(&mut out, target_indent, out_lv);
            out.append(t);
            out.append("\n");
            proof {
                assert(out@ =~= before + (spaces((target_indent * out_lv) as nat) + t@ + seq!['\n']));
            }
        } else {
            proof {
                assert(out@ =~= out@ + Seq::<char>::empty());
            }
        }
        i += 1;
    }
    proof {
        assert(ls.take(i as int) =~= ls);
    }
    let n = out.as_str().unicode_len();
    if n > 0 && out.as_str().get_char(n - 1) == '\n' {
        let s = out.as_str().substring_char(0, n - 1);
        proof {
            assert(s@ =~= out@.drop_last());
        }
        String::from_str(s)
    } else {
        out
    }
}

/// Re-indents each line of `text` to `indent` spaces for every two spaces
/// it had; blank lines are kept, and lines are joined with newlines.
pub fn reindent(text: &str, indent: usize) -> (r: String)
    ensures
        r@ == reindented(text@, indent as nat),
{
    let lines = split_at_char(text, '\n');
    let ghost ls = split(text@, '\n');
    let ghost mapped = ls.map_values(|l: Seq<char>| reindented_line(l, indent as nat));
    let mut out = String::new();
    let mut i: usize = 0;
    proof {
        reveal_strlit("\n");
        assert("\n"@ =~= seq!['\n']);
        assert(mapped.take(0) =~= Seq::<Seq<char>>::empty());
    }
    while i < lines.len()
        invariant
            i <= lines.len(),
            ls == views(lines@),
            ls.len() == lines.len(),
            mapped == ls.map_values(|l: Seq<char>| reindented_line(l, indent as nat)),
            "\n"@ == seq!['\n'],
            out@ == joined(mapped.take(i as int)),
        decreases lines.len() - i,
    {
        let line = lines[i].as_str();
        proof {
            assert(ls[i as int] == lines@[i as int]@);
            assert(mapped.take(i + 1).drop_last() =~= mapped.take(i as int));
            assert(mapped.take(i + 1).last() == mapped[i as int]);
        }
        let ghost before = out@;
        if i > 0 {
            out.append("\n");
        }
        let t = strip_spaces(line);
        if t.unicode_len() == 0 {
            out.append(line);
        } else {
            let lead = count_lead_spaces(line);
            push_indent(&mut out, indent, lead / 2);
            out.append(line.substring_char(lead, line.unicode_len()));
        }
        proof {
            if i == 0 {
                assert(mapped.take(1) =~= seq![mapped[0]]);
                assert(out@ =~= mapped[0]);
            } else {
                assert(out@ =~= before + seq!['\n'] + mapped[i as int]);
            }
        }
        i += 1;
    }
    proof {
        assert(mapped.take(i as int) =~= mapped);
    }
    out
}

} // verus!
