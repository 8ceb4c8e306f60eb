//! Small facts about character sequences: splitting at a separator and
//! reading a decimal index.

use vstd::prelude::*;

verus! {

/// The pieces of `s` between occurrences of `sep`, as `str::split` gives them:
/// there is always at least one piece, and pieces may be empty.
pub open spec fn split(s: Seq<char>, sep: char) -> Seq<Seq<char>>
    decreases s.len(),
{
    if s.len() == 0 {
        seq![Seq::empty()]
    } else {
        let p = split(s.drop_last(), sep);
        if s.last() == sep {
            p.push(Seq::empty())
        } else {
            p.update(p.len() - 1, p.last().push(s.last()))
        }
    }
}

pub proof fn lemma_split_nonempty(s: Seq<char>, sep: char)
    ensures
        split(s, sep).len() >= 1,
    decreases s.len(),
{
    if s.len() > 0 {
        lemma_split_nonempty(s.drop_last(), sep);
    }
}

/// Appending text without the separator extends the last piece.
pub proof fn lemma_split_extend(a: Seq<char>, b: Seq<char>, sep: char)
    requires
        !b.contains(sep),
    ensures
        split(a + b, sep) == split(a, sep).update(
            split(a, sep).len() - 1,
            split(a, sep).last() + b,
        ),
    decreases b.len(),
{
    lemma_split_nonempty(a, sep);
    if b.len() == 0 {
        assert(a + b =~= a);
        assert(split(a, sep).last() + b =~= split(a, sep).last());
        assert(split(a, sep).update(split(a, sep).len() - 1, split(a, sep).last()) =~= split(
            a,
            sep,
        ));
    } else {
        let b0 = b.drop_last();
        assert(!b0.contains(sep)) by {
            if b0.contains(sep) {
                let i = choose|i: int| 0 <= i < b0.len() && b0[i] == sep;
                assert(b[i] == sep);
            }
        }
        assert(b.last() != sep) by {
            assert(b[b.len() - 1] == b.last());
        }
        lemma_split_extend(a, b0, sep);
        assert((a + b).drop_last() =~= a + b0);
        assert((a + b).last() == b.last());
        lemma_split_nonempty(a + b0, sep);
        let p = split(a + b0, sep);
        let q = split(a, sep);
        assert(split(a + b, sep) == p.update(p.len() - 1, p.last().push(b.last())));
        assert(p.len() == q.len());
        assert(p.last() == q.last() + b0);
        assert(q.last() + b0 + seq![b.last()] =~= q.last() + b);
        assert(p.last().push(b.last()) =~= q.last() + b);
        assert(split(a + b, sep) =~= split(a, sep).update(
            split(a, sep).len() - 1,
            split(a, sep).last() + b,
        ));
    }
}

/// Text without the separator is a single piece.
pub proof fn lemma_split_whole(b: Seq<char>, sep: char)
    requires
        !b.contains(sep),
    ensures
        split(b, sep) == seq![b],
{
    lemma_split_extend(Seq::empty(), b, sep);
    assert(Seq::<char>::empty() + b =~= b);
    assert(seq![Seq::<char>::empty()].update(0, Seq::<char>::empty() + b) =~= seq![b]);
}

/// A separator followed by text without it starts a new last piece.
pub proof fn lemma_split_new_piece(a: Seq<char>, b: Seq<char>, sep: char)
    requires
        !b.contains(sep),
    ensures
        split(a + seq![sep] + b, sep) == split(a, sep).push(b),
{
    let a1 = a + seq![sep];
    assert(a1.drop_last() =~= a);
    assert(a1.last() == sep);
    assert(split(a1, sep) == split(a, sep).push(Seq::empty()));
    lemma_split_extend(a1, b, sep);
    assert(Seq::<char>::empty() + b =~= b);
    assert(split(a, sep).push(Seq::empty()).update(split(a, sep).len() as int, Seq::empty() + b)
        =~= split(a, sep).push(b));
}

/// A character with the Unicode `White_Space` property, which is what
/// `char::is_whitespace` tests.
pub open spec fn is_white(c: char) -> bool {
    ||| '\t' <= c <= '\r'
    ||| c == ' '
    ||| c == '\u{85}'
    ||| c == '\u{A0}'
    ||| c == '\u{1680}'
    ||| '\u{2000}' <= c <= '\u{200A}'
    ||| c == '\u{2028}'
    ||| c == '\u{2029}'
    ||| c == '\u{202F}'
    ||| c == '\u{205F}'
    ||| c == '\u{3000}'
}

/// The number of whitespace characters that `s` starts with.
pub open spec fn lead_white(s: Seq<char>) -> nat
    decreases s.len(),
{
    if s.len() > 0 && is_white(s[0]) {
        1 + lead_white(s.drop_first())
    } else {
        0
    }
}

/// The number of whitespace characters that `s` ends with.
pub open spec fn trail_white(s: Seq<char>) -> nat
    decreases s.len(),
{
    if s.len() > 0 && is_white(s.last()) {
        1 + trail_white(s.drop_last())
    } else {
        0
    }
}

/// `s` without leading and trailing whitespace.
pub open spec fn trim_white(s: Seq<char>) -> Seq<char> {
    let body = s.skip(lead_white(s) as int);
    body.take(body.len() - trail_white(body))
}

pub proof fn lemma_lead_white_bound(s: Seq<char>)
    ensures
        lead_white(s) <= s.len(),
        (forall|i: int| 0 <= i < s.len() ==> is_white(#[trigger] s[i])) ==> lead_white(s)
            == s.len(),
    decreases s.len(),
{
    if s.len() > 0 {
        lemma_lead_white_bound(s.drop_first());
        if forall|i: int| 0 <= i < s.len() ==> is_white(#[trigger] s[i]) {
            assert forall|i: int| 0 <= i < s.drop_first().len() implies is_white(
                #[trigger] s.drop_first()[i],
            ) by {
                assert(s.drop_first()[i] == s[i + 1]);
            }
            assert(is_white(s[0]));
        }
    }
}

pub proof fn lemma_trail_white_bound(s: Seq<char>)
    ensures
        trail_white(s) <= s.len(),
    decreases s.len(),
{
    if s.len() > 0 {
        lemma_trail_white_bound(s.drop_last());
    }
}

/// Text made of whitespace alone trims to nothing.
pub proof fn lemma_trim_all_white(s: Seq<char>)
    requires
        forall|i: int| 0 <= i < s.len() ==> is_white(#[trigger] s[i]),
    ensures
        trim_white(s).len() == 0,
{
    lemma_lead_white_bound(s);
    let body = s.skip(lead_white(s) as int);
    assert(body.len() == 0);
    lemma_trail_white_bound(body);
}

pub open spec fn is_digit(c: char) -> bool {
    '0' <= c && c <= '9'
}

/// A non-empty run of decimal digits.
pub open spec fn all_digits(s: Seq<char>) -> bool {
    s.len() > 0 && forall|i: int| 0 <= i < s.len() ==> is_digit(#[trigger] s[i])
}

pub open spec fn digit_value(c: char) -> nat {
    (c as u32 - '0' as u32) as nat
}

/// The number that a run of decimal digits denotes.
pub open spec fn digits_value(s: Seq<char>) -> nat
    decreases s.len(),
{
    if s.len() == 0 {
        0
    } else {
        10 * digits_value(s.drop_last()) + digit_value(s.last())
    }
}

pub open spec fn saturate(n: nat) -> usize {
    if n <= usize::MAX {
        n as usize
    } else {
        usize::MAX
    }
}

/// The views of a vector of strings.
pub open spec fn views(v: Seq<String>) -> Seq<Seq<char>> {
    v.map_values(|x: String| x@)
}

/// Splits `s` at every `sep`.
pub fn split_at_char(s: &str, sep: char) -> (r: Vec<String>)
    ensures
        views(r@) == split(s@, sep),
{
    let n = s.unicode_len();
    let mut pieces: Vec<String> = Vec::new();
    let mut start: usize = 0;
    let mut i: usize = 0;
    proof {
        assert(s@.take(0) =~= Seq::<char>::empty());
        assert(views(pieces@) =~= Seq::<Seq<char>>::empty());
    }
    while i < n
        invariant
            n == s@.len(),
            start <= i <= n,
            split(s@.take(i as int), sep) == views(pieces@).push(s@.subrange(start as int, i as int)),
        decreases n - i,
    {
        let c = s.get_char(i);
        let ghost t = s@.take(i + 1);
        let ghost prev = views(pieces@);
        let ghost cur = s@.subrange(start as int, i as int);
        proof {
            assert(t.drop_last() =~= s@.take(i as int));
            assert(t.last() == c);
            assert(split(t, sep) == if c == sep {
                prev.push(cur).push(Seq::empty())
            } else {
                prev.push(cur).update(prev.len() as int, cur.push(c))
            });
        }
        if c == sep {
            let piece = String::from_str(s.substring_char(start, i));
            pieces.push(piece);
            start = i + 1;
            proof {
                assert(views(pieces@) =~= prev.push(cur));
                assert(s@.subrange(start as int, start as int) =~= Seq::<char>::empty());
            }
        } else {
            proof {
                assert(s@.subrange(start as int, i + 1) =~= cur.push(c));
            }
        }
        i += 1;
        proof {
            assert(split(t, sep) =~= views(pieces@).push(s@.subrange(start as int, i as int)));
        }
    }
    let last = String::from_str(s.substring_char(start, n));
    let ghost before = pieces@;
    pieces.push(last);
    proof {
        assert(s@.take(n as int) =~= s@);
        assert(views(pieces@) =~= views(before).push(last@));
    }
    pieces
}

/// A decimal index as `str::parse::<usize>` reads it: digits, optionally
/// after one `+`.
pub open spec fn index_text(s: Seq<char>) -> bool {
    all_digits(s) || (s.len() > 0 && s[0] == '+' && all_digits(s.drop_first()))
}

/// The number that an index text denotes.
pub open spec fn index_value(s: Seq<char>) -> nat {
    if s.len() > 0 && s[0] == '+' {
        digits_value(s.drop_first())
    } else {
        digits_value(s)
    }
}

/// Reads `s` as a decimal index; an index too large for `usize` reads as
/// `usize::MAX`, which no vector reaches.
pub fn parse_index(s: &str) -> (r: Option<usize>)
    ensures
        r is Some <==> index_text(s@),
        r is Some ==> r->0 == saturate(index_value(s@)),
{
    let n = s.unicode_len();
    if n > 0 && s.get_char(0) == '+' {
        let rest = s.substring_char(1, n);
        proof {
            assert(rest@ =~= s@.drop_first());
            assert(!all_digits(s@)) by {
                assert(!is_digit(s@[0]));
            }
        }
        parse_digits(rest)
    } else {
        parse_digits(s)
    }
}

fn parse_digits(s: &str) -> (r: Option<usize>)
    ensures
        r is Some <==> all_digits(s@),
        r is Some ==> r->0 == saturate(digits_value(s@)),
{
    let n = s.unicode_len();
    if n == 0 {
        return None;
    }
    let mut acc: usize = 0;
    let mut i: usize = 0;
    proof {
        assert(s@.take(0) =~= Seq::<char>::empty());
    }
    while i < n
        invariant
            n == s@.len(),
            i <= n,
            forall|j: int| 0 <= j < i ==> is_digit(#[trigger] s@[j]),
            acc == saturate(digits_value(s@.take(i as int))),
        decreases n - i,
    {
        let c = s.get_char(i);
        if c < '0' || c > '9' {
            return None;
        }
        let d: usize = (c as u32 - '0' as u32) as usize;
        let ghost v = digits_value(s@.take(i as int));
        proof {
            assert(s@.take(i + 1).drop_last() =~= s@.take(i as int));
            assert(digits_value(s@.take(i + 1)) == 10 * v + d);
        }
        if acc > (usize::MAX - d) / 10 {
            proof {
                if v <= usize::MAX {
                    assert(10 * v + d > usize::MAX) by (nonlinear_arith)
                        requires
                            v > (usize::MAX - d) / 10,
                            d <= 9,
                    ;
                } else {
                    assert(10 * v + d > usize::MAX) by (nonlinear_arith)
                        requires
                            v > usize::MAX,
                    ;
                }
            }
            acc = usize::MAX;
        } else {
            proof {
                assert(v <= usize::MAX);
                assert(10 * v + d <= usize::MAX) by (nonlinear_arith)
                    requires
                        v <= (usize::MAX - d) / 10,
                        d <= 9,
                ;
            }
            acc = acc * 10 + d;
        }
        i += 1;
    }
    proof {
        assert(s@.take(n as int) =~= s@);
    }
    Some(acc)
}

/// `a` followed by `b`.
pub fn concat(a: &str, b: &str) -> (r: String)
    ensures
        r@ == a@ + b@,
{
    let mut s = String::from_str(a);
    s.append(b);
    s
}

/// A key appended to a dotted path; at the root the key alone.
pub open spec fn dotted(prefix: Seq<char>, k: Seq<char>) -> Seq<char> {
    if prefix.len() == 0 {
        k
    } else {
        prefix + seq!['.'] + k
    }
}

pub fn join_dotted(prefix: &str, k: &str) -> (r: String)
    ensures
        r@ == dotted(prefix@, k@),
{
    if prefix.unicode_len() == 0 {
        String::from_str(k)
    } else {
        let mut s = String::from_str(prefix);
        s.append(".");
        s.append(k);
        proof {
            reveal_strlit(".");
        }
        s
    }
}

} // verus!
