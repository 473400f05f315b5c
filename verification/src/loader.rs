//! Verified loader: a textual fixture, taken as bytes, becomes a
//! `TridiagonalSystem`.
//!
//! The format is line-oriented: the first line holds the four boundary
//! tokens `kappa1 kappa2 mu1 mu2`, each further line the four row tokens
//! `a b c d`. Tokens are decimals (optional sign, digits, at most one
//! point); each denotes an exact rational, so arbitrarily long tokens
//! lose nothing. A line with fewer than four tokens, or with an
//! unparsable token among its first four, fails the load; tokens past
//! the fourth are ignored, as is one trailing newline. Reading the
//! resource itself is the caller's job; it reports `Unreadable`.

use vstd::prelude::*;
use crate::bignum::{int_of, int_from_i64, int_add, int_sub, int_mul};
use crate::rat::{Rat, RatV};
use crate::tridiagonal_system::{Row, RowV, rowv_wf, SysV, TridiagonalSystem, right_at};

verus! {

/// Why a text cannot be loaded.
#[derive(Clone, Copy, Debug, PartialEq, Eq, Structural)]
pub enum LoadError {
    /// The resource could not be read; reported by the caller that does
    /// the reading.
    Unreadable,
    /// A line has fewer than four tokens or a token is not a decimal.
    Malformed,
}

pub open spec fn is_digit(b: u8) -> bool {
    48 <= b && b <= 57
}

/// Space, tab or carriage return separate tokens within a line.
pub open spec fn is_space(b: u8) -> bool {
    b == 32 || b == 9 || b == 13
}

/// The unsigned part of a token: digits and at most one point, with at
/// least one digit.
pub open spec fn unsigned_ok(t: Seq<u8>) -> bool {
    (forall|i: int| 0 <= i < t.len() ==> (is_digit(#[trigger] t[i]) || t[i] == 46)) && (exists|
        i: int|
        0 <= i < t.len() && is_digit(t[i])) && (forall|i: int, j: int|
        0 <= i < j < t.len() && t[i] == 46 ==> t[j] != 46)
}

/// A token: an optional sign before the unsigned part.
pub open spec fn token_ok(t: Seq<u8>) -> bool {
    if t.len() > 0 && (t[0] == 43 || t[0] == 45) {
        unsigned_ok(t.drop_first())
    } else {
        unsigned_ok(t)
    }
}

/// The integer spelled by the digits of `t`, the point ignored.
pub open spec fn mantissa_of(t: Seq<u8>) -> int
    decreases t.len(),
{
    if t.len() == 0 {
        0
    } else if is_digit(t.last()) {
        mantissa_of(t.drop_last()) * 10 + (t.last() - 48)
    } else {
        mantissa_of(t.drop_last())
    }
}

pub open spec fn has_dot(t: Seq<u8>) -> bool {
    exists|i: int| 0 <= i < t.len() && t[i] == 46
}

/// Ten to the number of digits after the point; one when there is none.
pub open spec fn scale_of(t: Seq<u8>) -> int
    decreases t.len(),
{
    if t.len() == 0 {
        1
    } else if t.last() == 46 {
        1
    } else if has_dot(t.drop_last()) {
        10 * scale_of(t.drop_last())
    } else {
        scale_of(t.drop_last())
    }
}

/// The exact rational a token denotes.
pub open spec fn token_rat(t: Seq<u8>) -> RatV {
    if t.len() > 0 && t[0] == 45 {
        RatV { n: -mantissa_of(t.drop_first()), d: scale_of(t.drop_first()) }
    } else if t.len() > 0 && t[0] == 43 {
        RatV { n: mantissa_of(t.drop_first()), d: scale_of(t.drop_first()) }
    } else {
        RatV { n: mantissa_of(t), d: scale_of(t) }
    }
}

pub proof fn lemma_scale_pos(t: Seq<u8>)
    ensures
        scale_of(t) >= 1,
    decreases t.len(),
{
    if t.len() > 0 {
        lemma_scale_pos(t.drop_last());
    }
}

proof fn lemma_scale_nodot(t: Seq<u8>)
    requires
        !has_dot(t),
    ensures
        scale_of(t) == 1,
    decreases t.len(),
{
    if t.len() > 0 {
        assert(!has_dot(t.drop_last())) by {
            if has_dot(t.drop_last()) {
                let i = choose|i: int| 0 <= i < t.drop_last().len() && t.drop_last()[i] == 46;
                assert(t[i] == 46);
            }
        }
        lemma_scale_nodot(t.drop_last());
    }
}

/// The text split at newlines; the empty text gives one empty line.
pub open spec fn split_nl(t: Seq<u8>) -> Seq<Seq<u8>>
    decreases t.len(),
{
    if t.len() == 0 {
        seq![Seq::<u8>::empty()]
    } else if t[0] == 10 {
        seq![Seq::<u8>::empty()] + split_nl(t.drop_first())
    } else {
        let rest = split_nl(t.drop_first());
        seq![seq![t[0]] + rest[0]] + rest.drop_first()
    }
}

pub proof fn lemma_split_nl_len(t: Seq<u8>)
    ensures
        1 <= split_nl(t).len() <= t.len() + 1,
    decreases t.len(),
{
    if t.len() > 0 {
        lemma_split_nl_len(t.drop_first());
    }
}

/// The lines of the text: the split, with one final empty line (from a
/// trailing newline) dropped. The empty text has no lines.
pub open spec fn lines_of(t: Seq<u8>) -> Seq<Seq<u8>> {
    let s = split_nl(t);
    if s.last().len() == 0 {
        s.drop_last()
    } else {
        s
    }
}

/// A line split at every whitespace byte; empty pieces kept.
pub open spec fn split_ws(t: Seq<u8>) -> Seq<Seq<u8>>
    decreases t.len(),
{
    if t.len() == 0 {
        seq![Seq::<u8>::empty()]
    } else if is_space(t[0]) {
        seq![Seq::<u8>::empty()] + split_ws(t.drop_first())
    } else {
        let rest = split_ws(t.drop_first());
        seq![seq![t[0]] + rest[0]] + rest.drop_first()
    }
}

/// The nonempty pieces, in order.
pub open spec fn nonempty_of(s: Seq<Seq<u8>>) -> Seq<Seq<u8>>
    decreases s.len(),
{
    if s.len() == 0 {
        Seq::empty()
    } else if s.last().len() == 0 {
        nonempty_of(s.drop_last())
    } else {
        nonempty_of(s.drop_last()).push(s.last())
    }
}

/// The whitespace-separated tokens of one line.
pub open spec fn tokens_of(line: Seq<u8>) -> Seq<Seq<u8>> {
    nonempty_of(split_ws(line))
}

/// A loadable line: at least four tokens, the first four decimals.
pub open spec fn line_ok(line: Seq<u8>) -> bool {
    tokens_of(line).len() >= 4 && forall|i: int| 0 <= i < 4 ==> token_ok(#[trigger] tokens_of(
        line,
    )[i])
}

/// A loadable text: at least the boundary line, every line loadable.
pub open spec fn text_ok(t: Seq<u8>) -> bool {
    lines_of(t).len() >= 1 && forall|i: int|
        0 <= i < lines_of(t).len() ==> line_ok(#[trigger] lines_of(t)[i])
}

/// The interior row a line denotes.
pub open spec fn row_of_line(line: Seq<u8>) -> RowV {
    RowV {
        a: token_rat(tokens_of(line)[0]),
        b: token_rat(tokens_of(line)[1]),
        c: token_rat(tokens_of(line)[2]),
        d: token_rat(tokens_of(line)[3]),
    }
}

/// The system a loadable text denotes: the boundary tokens from the
/// first line, one interior row per further line.
pub open spec fn system_of_text(t: Seq<u8>) -> SysV {
    SysV {
        k1: token_rat(tokens_of(lines_of(t)[0])[0]),
        k2: token_rat(tokens_of(lines_of(t)[0])[1]),
        m1: token_rat(tokens_of(lines_of(t)[0])[2]),
        m2: token_rat(tokens_of(lines_of(t)[0])[3]),
        rows: lines_of(t).drop_first().map_values(|l: Seq<u8>| row_of_line(l)),
    }
}

/// Parses one token into the exact rational it denotes.
pub fn parse_rat(tok: &[u8]) -> (r: Option<Rat>)
    ensures
        r is Some <==> token_ok(tok@),
        r matches Some(x) ==> x.wf() && x@ == token_rat(tok@),
{
    let n = tok.len();
    let mut start: usize = 0;
    let mut neg = false;
    if n > 0 && (tok[0] == 43 || tok[0] == 45) {
        neg = tok[0] == 45;
        start = 1;
    }
    let ghost body = tok@.skip(start as int);
    let mut man = int_from_i64(0);
    let mut scale = int_from_i64(1);
    let ten = int_from_i64(10);
    let mut seen_digit = false;
    let mut seen_dot = false;
    let mut i = start;
    proof {
        assert(tok@.subrange(start as int, start as int) =~= Seq::<u8>::empty());
    }
    while i < n
        invariant
            start <= i <= n,
            n == tok@.len(),
            start == 0 || start == 1,
            start == 1 ==> n > 0 && (tok@[0] == 43 || tok@[0] == 45),
            start == 0 ==> !(n > 0 && (tok@[0] == 43 || tok@[0] == 45)),
            neg == (start == 1 && tok@[0] == 45),
            body == tok@.skip(start as int),
            int_of(ten) == 10,
            forall|k: int| start <= k < i ==> (is_digit(#[trigger] tok@[k]) || tok@[k] == 46),
            seen_digit == exists|k: int| start <= k < i && is_digit(tok@[k]),
            seen_dot == has_dot(tok@.subrange(start as int, i as int)),
            forall|k: int, l: int| start <= k < l < i && tok@[k] == 46 ==> tok@[l] != 46,
            int_of(man) == mantissa_of(tok@.subrange(start as int, i as int)),
            int_of(scale) == scale_of(tok@.subrange(start as int, i as int)),
        decreases n - i,
    {
        let b = tok[i];
        proof {
            assert(tok@.subrange(start as int, i + 1).drop_last() =~= tok@.subrange(
                start as int,
                i as int,
            ));
            assert(tok@.subrange(start as int, i + 1).last() == tok@[i as int]);
        }
        if 48 <= b && b <= 57 {
            man = int_add(&int_mul(&man, &ten), &int_from_i64((b - 48) as i64));
            if seen_dot {
                scale = int_mul(&scale, &ten);
                proof {
                    let w = choose|w: int|
                        0 <= w < tok@.subrange(start as int, i as int).len() && tok@.subrange(
                            start as int,
                            i as int,
                        )[w] == 46;
                    assert(tok@.subrange(start as int, i + 1)[w] == 46);
                }
            } else {
                proof {
                    assert(!has_dot(tok@.subrange(start as int, i + 1))) by {
                        if has_dot(tok@.subrange(start as int, i + 1)) {
                            let w = choose|w: int|
                                0 <= w < tok@.subrange(start as int, i + 1).len()
                                    && #[trigger] tok@.subrange(start as int, i + 1)[w] == 46;
                            if w < i - start {
                                assert(tok@.subrange(start as int, i as int)[w] == 46);
                            }
                        }
                    }
                    lemma_scale_nodot(tok@.subrange(start as int, i + 1));
                }
            }
            seen_digit = true;
        } else if b == 46 {
            if seen_dot {
                proof {
                    let k = choose|k: int|
                        0 <= k < tok@.subrange(start as int, i as int).len() && tok@.subrange(
                            start as int,
                            i as int,
                        )[k] == 46;
                    assert(tok@[start + k] == 46);
                    assert(!unsigned_ok(body)) by {
                        assert(body[k] == 46 && body[i - start] == 46);
                    }
                    if start == 1 {
                        assert(tok@.drop_first() =~= body);
                    } else {
                        assert(body =~= tok@);
                    }
                }
                return None;
            }
            seen_dot = true;
            proof {
                lemma_scale_nodot(tok@.subrange(start as int, i as int));
                assert(has_dot(tok@.subrange(start as int, i + 1))) by {
                    assert(tok@.subrange(start as int, i + 1)[i - start] == 46);
                }
                assert forall|k: int| start <= k < i implies tok@[k] != 46 by {
                    if tok@[k] == 46 {
                        assert(tok@.subrange(start as int, i as int)[k - start] == 46);
                    }
                }
            }
        } else {
            proof {
                assert(!unsigned_ok(body)) by {
                    assert(body[i - start] == tok@[i as int]);
                }
                if start == 1 {
                    assert(tok@.drop_first() =~= body);
                } else {
                    assert(body =~= tok@);
                }
            }
            return None;
        }
        i = i + 1;
    }
    proof {
        assert(tok@.subrange(start as int, n as int) =~= body);
    }
    if !seen_digit {
        proof {
            assert(!unsigned_ok(body)) by {
                if exists|k: int| 0 <= k < body.len() && is_digit(body[k]) {
                    let k = choose|k: int| 0 <= k < body.len() && is_digit(body[k]);
                    assert(is_digit(tok@[start + k]));
                }
            }
            if start == 1 {
                assert(tok@.drop_first() =~= body);
            } else {
                assert(body =~= tok@);
            }
        }
        return None;
    }
    proof {
        assert(unsigned_ok(body)) by {
            let k = choose|k: int| start <= k < n && is_digit(tok@[k]);
            assert(is_digit(body[k - start]));
            assert forall|p: int| 0 <= p < body.len() implies (is_digit(#[trigger] body[p])
                || body[p] == 46) by {
                assert(body[p] == tok@[start + p]);
            }
            assert forall|p: int, q: int|
                0 <= p < q < body.len() && body[p] == 46 implies body[q] != 46 by {
                assert(body[p] == tok@[start + p] && body[q] == tok@[start + q]);
            }
        }
        if start == 1 {
            assert(tok@.drop_first() =~= body);
        } else {
            assert(body =~= tok@);
        }
        lemma_scale_pos(body);
    }
    if neg {
        let zero = int_from_i64(0);
        let num = int_sub(&zero, &man);
        Some(Rat::from_big(num, scale))
    } else {
        Some(Rat::from_big(man, scale))
    }
}

/// Splits the text at newline bytes; mirrors `split_nl`.
fn split_lines(t: &[u8]) -> (r: Vec<Vec<u8>>)
    ensures
        r@.map_values(|v: Vec<u8>| v@) == split_nl(t@),
        r@.len() >= 1,
{
    let mut r: Vec<Vec<u8>> = Vec::new();
    r.push(Vec::new());
    proof {
        assert(t@.skip(t@.len() as int) =~= Seq::<u8>::empty());
        assert(r@.map_values(|v: Vec<u8>| v@) =~= split_nl(t@.skip(t@.len() as int)));
    }
    let mut i = t.len();
    while i > 0
        invariant
            i <= t@.len(),
            r@.len() >= 1,
            r@.map_values(|v: Vec<u8>| v@) == split_nl(t@.skip(i as int)),
        decreases i,
    {
        i = i - 1;
        let b = t[i];
        proof {
            assert(t@.skip(i as int).drop_first() =~= t@.skip(i + 1));
            assert(t@.skip(i as int)[0] == t@[i as int]);
        }
        if b == 10 {
            r.insert(0, Vec::new());
            proof {
                assert(r@.map_values(|v: Vec<u8>| v@) =~= split_nl(t@.skip(i as int)));
            }
        } else {
            let mut first = r.remove(0);
            first.insert(0, b);
            r.insert(0, first);
            proof {
                let ghost rest = split_nl(t@.skip(i + 1));
                assert(r@.map_values(|v: Vec<u8>| v@)[0] =~= seq![t@[i as int]] + rest[0]);
                assert(r@.map_values(|v: Vec<u8>| v@) =~= split_nl(t@.skip(i as int)));
            }
        }
    }
    proof {
        assert(t@.skip(0) =~= t@);
    }
    r
}

/// Splits a line at whitespace bytes; mirrors `split_ws`.
fn split_spaces(t: &[u8]) -> (r: Vec<Vec<u8>>)
    ensures
        r@.map_values(|v: Vec<u8>| v@) == split_ws(t@),
        r@.len() >= 1,
{
    let mut r: Vec<Vec<u8>> = Vec::new();
    r.push(Vec::new());
    proof {
        assert(t@.skip(t@.len() as int) =~= Seq::<u8>::empty());
        assert(r@.map_values(|v: Vec<u8>| v@) =~= split_ws(t@.skip(t@.len() as int)));
    }
    let mut i = t.len();
    while i > 0
        invariant
            i <= t@.len(),
            r@.len() >= 1,
            r@.map_values(|v: Vec<u8>| v@) == split_ws(t@.skip(i as int)),
        decreases i,
    {
        i = i - 1;
        let b = t[i];
        proof {
            assert(t@.skip(i as int).drop_first() =~= t@.skip(i + 1));
            assert(t@.skip(i as int)[0] == t@[i as int]);
        }
        if b == 32 || b == 9 || b == 13 {
            r.insert(0, Vec::new());
            proof {
                assert(r@.map_values(|v: Vec<u8>| v@) =~= split_ws(t@.skip(i as int)));
            }
        } else {
            let mut first = r.remove(0);
            first.insert(0, b);
            r.insert(0, first);
            proof {
                let ghost rest = split_ws(t@.skip(i + 1));
                assert(r@.map_values(|v: Vec<u8>| v@)[0] =~= seq![t@[i as int]] + rest[0]);
                assert(r@.map_values(|v: Vec<u8>| v@) =~= split_ws(t@.skip(i as int)));
            }
        }
    }
    proof {
        assert(t@.skip(0) =~= t@);
    }
    r
}

/// The tokens of one line; mirrors `tokens_of`.
fn tokens(line: &[u8]) -> (r: Vec<Vec<u8>>)
    ensures
        r@.map_values(|v: Vec<u8>| v@) == tokens_of(line@),
{
    let mut parts = split_spaces(line);
    let ghost whole = parts@.map_values(|v: Vec<u8>| v@);
    let mut r: Vec<Vec<u8>> = Vec::new();
    let mut k: usize = 0;
    let total = parts.len();
    proof {
        assert(whole.take(0) =~= Seq::<Seq<u8>>::empty());
    }
    while k < total
        invariant
            k <= total,
            total == whole.len(),
            parts@.len() == total - k,
            parts@.map_values(|v: Vec<u8>| v@) == whole.skip(k as int),
            r@.map_values(|v: Vec<u8>| v@) == nonempty_of(whole.take(k as int)),
        decreases total - k,
    {
        proof {
            assert(whole.take(k + 1).drop_last() =~= whole.take(k as int));
            assert(whole.take(k + 1).last() == whole[k as int]);
            assert(parts@.map_values(|v: Vec<u8>| v@)[0] == whole.skip(k as int)[0]);
            assert(parts@[0]@ == whole[k as int]);
        }
        let ghost prev = parts@;
        let p = parts.remove(0);
        proof {
            assert(p@ == whole[k as int]);
        }
        if p.len() > 0 {
            r.push(p);
            proof {
                assert(r@.map_values(|v: Vec<u8>| v@) =~= nonempty_of(whole.take(k + 1)));
            }
        }
        proof {
            assert forall|j: int| 0 <= j < parts@.len() implies (#[trigger] parts@[j])@
                == whole.skip(k + 1)[j] by {
                assert(parts@[j] == prev[j + 1]);
                assert(prev.map_values(|v: Vec<u8>| v@)[j + 1] == prev[j + 1]@);
            }
            assert(parts@.map_values(|v: Vec<u8>| v@) =~= whole.skip(k + 1));
        }
        k = k + 1;
    }
    proof {
        assert(whole.take(total as int) =~= whole);
    }
    r
}

/// Parses the first four tokens of a line.
fn parse_four(toks: &Vec<Vec<u8>>) -> (r: Option<(Rat, Rat, Rat, Rat)>)
    ensures
        r is Some <==> (toks@.len() >= 4 && forall|i: int|
            0 <= i < 4 ==> token_ok((#[trigger] toks@[i])@)),
        r matches Some(q) ==> q.0.wf() && q.1.wf() && q.2.wf() && q.3.wf() && q.0@ == token_rat(
            toks@[0]@,
        ) && q.1@ == token_rat(toks@[1]@) && q.2@ == token_rat(toks@[2]@) && q.3@ == token_rat(
            toks@[3]@,
        ),
{
    if toks.len() < 4 {
        return None;
    }
    let a = parse_rat(toks[0].as_slice());
    let b = parse_rat(toks[1].as_slice());
    let c = parse_rat(toks[2].as_slice());
    let d = parse_rat(toks[3].as_slice());
    match (a, b, c, d) {
        (Some(a), Some(b), Some(c), Some(d)) => Some((a, b, c, d)),
        _ => None,
    }
}

/// Parses a whole fixture text into an immutable system. Succeeds if and
/// only if the text is loadable, and then returns exactly the system the
/// text denotes.
pub fn parse_system(text: &[u8]) -> (r: Result<TridiagonalSystem, LoadError>)
    requires
        text@.len() + 2 <= usize::MAX,
    ensures
        r is Ok <==> text_ok(text@),
        r matches Ok(sys) ==> sys.wf() && sys@ == system_of_text(text@),
{
    let mut lines = split_lines(text);
    proof {
        lemma_split_nl_len(text@);
        assert(lines@.map_values(|v: Vec<u8>| v@).last() == lines@[lines@.len() - 1]@);
    }
    if lines[lines.len() - 1].len() == 0 {
        lines.pop();
        proof {
            assert(lines@.map_values(|v: Vec<u8>| v@) =~= lines_of(text@));
        }
    } else {
        proof {
            assert(lines@.map_values(|v: Vec<u8>| v@) =~= lines_of(text@));
        }
    }
    let ghost ls = lines_of(text@);
    proof {
        assert(lines@.map_values(|v: Vec<u8>| v@).len() == lines@.len());
    }
    if lines.len() == 0 {
        return Err(LoadError::Malformed);
    }
    let head = tokens(lines[0].as_slice());
    proof {
        assert(lines@.map_values(|v: Vec<u8>| v@)[0] == lines@[0]@);
        assert(lines@[0]@ == ls[0]);
        assert(head@.map_values(|v: Vec<u8>| v@).len() == head@.len());
    }
    let four = parse_four(&head);
    let (k1, k2, m1, m2) = match four {
        Some(q) => q,
        None => {
            proof {
                let tk = tokens_of(ls[0]);
                assert(tk.len() == head@.len());
                if head@.len() >= 4 {
                    let i = choose|i: int| 0 <= i < 4 && !token_ok((#[trigger] head@[i])@);
                    assert(head@.map_values(|v: Vec<u8>| v@)[i] == head@[i]@);
                    assert(!token_ok(tk[i]));
                }
                assert(!line_ok(ls[0]));
                assert(!text_ok(text@)) by {
                    assert(!line_ok(lines_of(text@)[0]));
                }
            }
            return Err(LoadError::Malformed);
        },
    };
    proof {
        assert forall|i: int| 0 <= i < 4 implies token_ok(#[trigger] tokens_of(ls[0])[i]) by {
            assert(head@.map_values(|v: Vec<u8>| v@)[i] == head@[i]@);
        }
        assert(line_ok(ls[0]));
        assert(head@.map_values(|v: Vec<u8>| v@)[0] == head@[0]@);
        assert(head@.map_values(|v: Vec<u8>| v@)[1] == head@[1]@);
        assert(head@.map_values(|v: Vec<u8>| v@)[2] == head@[2]@);
        assert(head@.map_values(|v: Vec<u8>| v@)[3] == head@[3]@);
    }
    let mut rows: Vec<Row> = Vec::new();
    let mut idx: usize = 1;
    let nlines = lines.len();
    while idx < nlines
        invariant
            1 <= idx <= nlines,
            ls == lines_of(text@),
            text@.len() + 2 <= usize::MAX,
            nlines == ls.len(),
            lines@.map_values(|v: Vec<u8>| v@) == ls,
            rows@.len() == idx - 1,
            forall|t: int| 0 <= t < idx - 1 ==> (#[trigger] rows@[t])@ == row_of_line(ls[t + 1])
                && rowv_wf(rows@[t]@),
            forall|t: int| 1 <= t < idx ==> line_ok(#[trigger] ls[t]),
        decreases nlines - idx,
    {
        let tk = tokens(lines[idx].as_slice());
        proof {
            assert(lines@.map_values(|v: Vec<u8>| v@)[idx as int] == lines@[idx as int]@);
            assert(lines@[idx as int]@ == ls[idx as int]);
            assert(tk@.map_values(|v: Vec<u8>| v@).len() == tk@.len());
        }
        let four = parse_four(&tk);
        match four {
            Some((a, b, c, d)) => {
                proof {
                    assert forall|i: int| 0 <= i < 4 implies token_ok(
                        #[trigger] tokens_of(ls[idx as int])[i],
                    ) by {
                        assert(tk@.map_values(|v: Vec<u8>| v@)[i] == tk@[i]@);
                    }
                    assert(line_ok(ls[idx as int]));
                    assert(tk@.map_values(|v: Vec<u8>| v@)[0] == tk@[0]@);
                    assert(tk@.map_values(|v: Vec<u8>| v@)[1] == tk@[1]@);
                    assert(tk@.map_values(|v: Vec<u8>| v@)[2] == tk@[2]@);
                    assert(tk@.map_values(|v: Vec<u8>| v@)[3] == tk@[3]@);
                }
                rows.push(Row::new(a, b, c, d));
            },
            None => {
                proof {
                    let tkk = tokens_of(ls[idx as int]);
                    assert(tkk.len() == tk@.len());
                    if tk@.len() >= 4 {
                        let i = choose|i: int| 0 <= i < 4 && !token_ok((#[trigger] tk@[i])@);
                        assert(tk@.map_values(|v: Vec<u8>| v@)[i] == tk@[i]@);
                        assert(!token_ok(tkk[i]));
                    }
                    assert(!line_ok(ls[idx as int]));
                    assert(!text_ok(text@)) by {
                        assert(0 <= idx < lines_of(text@).len());
                        assert(!line_ok(lines_of(text@)[idx as int]));
                    }
                }
                return Err(LoadError::Malformed);
            },
        }
        idx = idx + 1;
    }
    proof {
        assert(text_ok(text@));
        assert(ls.len() <= text@.len() + 1);
    }
    let sys = TridiagonalSystem::new(k1, k2, m1, m2, rows);
    proof {
        assert(sys@.rows =~= system_of_text(text@).rows);
        assert(sys@ == system_of_text(text@));
    }
    Ok(sys)
}

/// Round trip: the right-hand side assembled from a loaded system is,
/// entry for entry, exactly the rationals denoted by the text's own
/// tokens — `mu1` and `mu2` from the first line, and the fourth token of
/// each row line.
pub proof fn lemma_loaded_right_side(t: Seq<u8>)
    requires
        text_ok(t),
    ensures
        right_at(system_of_text(t), 0) == token_rat(tokens_of(lines_of(t)[0])[2]),
        forall|j: int| 1 <= j <= system_of_text(t).rows.len() ==> #[trigger] right_at(
            system_of_text(t),
            j,
        ) == token_rat(tokens_of(lines_of(t)[j])[3]),
        right_at(system_of_text(t), system_of_text(t).rows.len() + 1 as int) == token_rat(
            tokens_of(lines_of(t)[0])[3],
        ),
{
    let s = system_of_text(t);
    assert forall|j: int| 1 <= j <= s.rows.len() implies #[trigger] right_at(s, j) == token_rat(
        tokens_of(lines_of(t)[j])[3],
    ) by {
        assert(s.rows[j - 1] == row_of_line(lines_of(t).drop_first()[j - 1]));
        assert(lines_of(t).drop_first()[j - 1] == lines_of(t)[j]);
    }
}

} // verus!
