//! Parsing of whitespace-separated unsigned integers from one line of input.
//!
//! The functions here do the computational part of reading input: they take
//! the raw bytes of a line and produce the numbers on it.  Reading the line
//! itself from a source is left to the caller.

use vstd::prelude::*;

verus! {

/// A byte that separates tokens: space, or any of the ASCII control
/// whitespace characters (tab, line feed, vertical tab, form feed,
/// carriage return).
pub open spec fn is_space(b: u8) -> bool {
    b == 32 || (9 <= b && b <= 13)
}

/// An ASCII decimal digit.
pub open spec fn is_digit(b: u8) -> bool {
    48 <= b && b <= 57
}

/// The numeric value of one ASCII digit.
pub open spec fn digit_val(b: u8) -> int {
    b - 48
}

/// The number denoted by a sequence of ASCII digits, most significant first.
pub open spec fn token_value(t: Seq<u8>) -> int
    decreases t.len(),
{
    if t.len() == 0 {
        0
    } else {
        token_value(t.drop_last()) * 10 + digit_val(t.last())
    }
}

/// Length of the leading run of non-separator bytes.
pub open spec fn token_end(s: Seq<u8>) -> int
    decreases s.len(),
{
    if s.len() == 0 || is_space(s[0]) {
        0
    } else {
        1 + token_end(s.skip(1))
    }
}

pub proof fn lemma_token_end_bounds(s: Seq<u8>)
    ensures
        0 <= token_end(s) <= s.len(),
    decreases s.len(),
{
    if s.len() == 0 || is_space(s[0]) {
    } else {
        lemma_token_end_bounds(s.skip(1));
    }
}

/// The maximal runs of non-separator bytes of a line, in order.
pub open spec fn tokens(s: Seq<u8>) -> Seq<Seq<u8>>
    decreases s.len(),
    via tokens_decreases
{
    if s.len() == 0 {
        Seq::empty()
    } else if is_space(s[0]) {
        tokens(s.skip(1))
    } else {
        seq![s.take(token_end(s))] + tokens(s.skip(token_end(s)))
    }
}

#[via_fn]
proof fn tokens_decreases(s: Seq<u8>) {
    lemma_token_end_bounds(s);
    if s.len() > 0 && !is_space(s[0]) {
        lemma_token_end_bounds(s.skip(1));
    }
}

/// The digits of a token: an optional single leading plus sign is not part
/// of the number.
pub open spec fn digits_part(t: Seq<u8>) -> Seq<u8> {
    if t.len() > 0 && t[0] == 43 {
        t.skip(1)
    } else {
        t
    }
}

/// The number a token denotes.
pub open spec fn token_num(t: Seq<u8>) -> int {
    token_value(digits_part(t))
}

/// A token that denotes a value representable in `usize`: an optional
/// leading plus sign, then one or more digits, with value at most
/// `usize::MAX` — the numbers `usize` itself parses.
pub open spec fn good_token(t: Seq<u8>) -> bool {
    &&& digits_part(t).len() > 0
    &&& forall|k: int| 0 <= k < digits_part(t).len() ==> is_digit(#[trigger] digits_part(t)[k])
    &&& token_num(t) <= usize::MAX
}

/// What a fully successful parse of a line must return: one value per token,
/// each the number the token denotes.
pub open spec fn parses_to(s: Seq<u8>, vals: Seq<usize>) -> bool {
    &&& vals.len() == tokens(s).len()
    &&& forall|k: int| 0 <= k < vals.len() ==> good_token(#[trigger] tokens(s)[k])
    &&& forall|k: int| 0 <= k < vals.len() ==> vals[k] == token_num(#[trigger] tokens(s)[k])
}

proof fn lemma_token_value_nonneg(t: Seq<u8>)
    requires
        forall|k: int| 0 <= k < t.len() ==> is_digit(#[trigger] t[k]),
    ensures
        token_value(t) >= 0,
    decreases t.len(),
{
    if t.len() > 0 {
        lemma_token_value_nonneg(t.drop_last());
    }
}

/// Appending digits to a digit string never decreases its value.
proof fn lemma_token_value_prefix_le(t: Seq<u8>, k: int)
    requires
        forall|m: int| 0 <= m < t.len() ==> is_digit(#[trigger] t[m]),
        0 <= k <= t.len(),
    ensures
        token_value(t.take(k)) <= token_value(t),
    decreases t.len() - k,
{
    if k == t.len() {
        assert(t.take(k) =~= t);
    } else {
        lemma_token_value_prefix_le(t, k + 1);
        assert(t.take(k + 1).drop_last() =~= t.take(k));
        assert(t.take(k + 1).last() == t[k]);
        lemma_token_value_nonneg(t.take(k));
    }
}

/// A line whose first `k` bytes are non-separators has its token end there or later.
proof fn lemma_token_end_ge(s: Seq<u8>, k: int)
    requires
        0 <= k <= s.len(),
        forall|m: int| 0 <= m < k ==> !is_space(#[trigger] s[m]),
    ensures
        token_end(s) >= k,
    decreases k,
{
    lemma_token_end_bounds(s);
    if k > 0 {
        assert(!is_space(s[0]));
        assert(forall|m: int| 0 <= m < k - 1 ==> s.skip(1)[m] == s[m + 1]);
        lemma_token_end_ge(s.skip(1), k - 1);
        assert(token_end(s) == 1 + token_end(s.skip(1)));
    }
}

/// A run of exactly `k` non-separator bytes starts the line.
proof fn lemma_token_run(s: Seq<u8>, k: int)
    requires
        0 <= k <= s.len(),
        forall|m: int| 0 <= m < k ==> !is_space(#[trigger] s[m]),
        k == s.len() || is_space(s[k]),
    ensures
        token_end(s) == k,
    decreases k,
{
    if k == 0 {
    } else {
        assert(forall|m: int| 0 <= m < k - 1 ==> s.skip(1)[m] == s[m + 1]);
        lemma_token_run(s.skip(1), k - 1);
    }
}

/// Find the next token at or after `start`, and parse it.
///
/// Returns `None` when only separators remain.  Otherwise returns the
/// token's half-open byte range and its value — or no value, exactly when
/// the token is not a representable number.
fn next_token(line: &Vec<u8>, start: usize) -> (r: Option<(usize, usize, Option<usize>)>)
    requires
        start <= line@.len(),
    ensures
        match r {
            None => tokens(line@.skip(start as int)) == Seq::<Seq<u8>>::empty(),
            Some((ti, tj, val)) => {
                &&& start <= ti < tj <= line@.len()
                &&& tokens(line@.skip(start as int)) == seq![
                    line@.subrange(ti as int, tj as int),
                ] + tokens(line@.skip(tj as int))
                &&& match val {
                    Some(v) => good_token(line@.subrange(ti as int, tj as int)) && v == token_num(
                        line@.subrange(ti as int, tj as int),
                    ),
                    None => !good_token(line@.subrange(ti as int, tj as int)),
                }
            },
        },
{
    let n: usize = line.len();
    let mut i: usize = start;
    while i < n && (line[i] == 32 || (9 <= line[i] && line[i] <= 13))
        invariant
            n == line@.len(),
            start <= i <= n,
            tokens(line@.skip(start as int)) == tokens(line@.skip(i as int)),
        decreases n - i,
    {
        proof {
            assert(line@.skip(i as int)[0] == line@[i as int]);
            assert(line@.skip(i as int).skip(1) =~= line@.skip(i as int + 1));
        }
        i = i + 1;
    }
    if i == n {
        proof {
            assert(line@.skip(i as int).len() == 0);
        }
        return None;
    }
    let ghost rest = line@.skip(i as int);
    let has_plus: bool = line[i] == 43;
    let dstart: usize = if has_plus {
        i + 1
    } else {
        i
    };
    let mut j: usize = dstart;
    let mut v: usize = 0;
    let mut ok: bool = true;
    proof {
        assert(!is_space(line@[i as int]));
        assert(line@.subrange(dstart as int, dstart as int).len() == 0);
    }
    while j < n && !(line[j] == 32 || (9 <= line[j] && line[j] <= 13))
        invariant
            n == line@.len(),
            start <= i <= dstart <= j <= n,
            has_plus == (line@[i as int] == 43),
            dstart == i + (if has_plus {
                1int
            } else {
                0int
            }),
            rest == line@.skip(i as int),
            i < n && !is_space(line@[i as int]),
            forall|m: int| i <= m < j ==> !is_space(#[trigger] line@[m]),
            ok ==> forall|m: int| dstart <= m < j ==> is_digit(#[trigger] line@[m]),
            ok ==> v == token_value(line@.subrange(dstart as int, j as int)),
            !ok ==> !good_token(line@.subrange(i as int, token_end(rest) + i)),
        decreases n - j,
    {
        let b: u8 = line[j];
        if ok {
            if 48 <= b && b <= 57 {
                let d: usize = (b - 48) as usize;
                if v > (usize::MAX - d) / 10 {
                    // The digits seen so far already exceed the range; whatever
                    // follows, this token is not representable.
                    proof {
                        lemma_token_end_bounds(rest);
                        assert(forall|m: int| 0 <= m < j - i + 1 ==> !is_space(#[trigger] rest[m]));
                        lemma_token_end_ge(rest, j - i + 1);
                        let tk = line@.subrange(i as int, token_end(rest) + i);
                        let dg = digits_part(tk);
                        assert(tk[0] == line@[i as int]);
                        assert(dg =~= line@.subrange(dstart as int, token_end(rest) + i));
                        if forall|m: int| 0 <= m < dg.len() ==> is_digit(#[trigger] dg[m]) {
                            assert(v * 10 + d > usize::MAX) by {
                                assert(v >= (usize::MAX - d) / 10 + 1);
                                assert(((usize::MAX - d) / 10 + 1) * 10 == ((usize::MAX - d) / 10)
                                    * 10 + 10) by (nonlinear_arith);
                                assert(v * 10 >= ((usize::MAX - d) / 10 + 1) * 10)
                                    by (nonlinear_arith)
                                    requires
                                        v >= (usize::MAX - d) / 10 + 1,
                                ;
                                vstd::arithmetic::div_mod::lemma_fundamental_div_mod(
                                    (usize::MAX - d) as int,
                                    10,
                                );
                                vstd::arithmetic::div_mod::lemma_mod_bound(
                                    (usize::MAX - d) as int,
                                    10,
                                );
                            };
                            assert(dg.take(j - dstart + 1) =~= line@.subrange(
                                dstart as int,
                                j as int + 1,
                            ));
                            assert(line@.subrange(dstart as int, j as int + 1).drop_last()
                                =~= line@.subrange(dstart as int, j as int));
                            assert(line@.subrange(dstart as int, j as int + 1).last()
                                == line@[j as int]);
                            lemma_token_value_prefix_le(dg, j - dstart + 1);
                            assert(token_value(dg) > usize::MAX);
                        }
                        assert(!good_token(tk));
                    }
                    ok = false;
                } else {
                    proof {
                        assert(v * 10 + d <= usize::MAX) by {
                            assert(v <= (usize::MAX - d) / 10);
                            assert(v * 10 <= ((usize::MAX - d) / 10) * 10) by (nonlinear_arith)
                                requires
                                    v <= (usize::MAX - d) / 10,
                            ;
                            vstd::arithmetic::div_mod::lemma_fundamental_div_mod(
                                (usize::MAX - d) as int,
                                10,
                            );
                            vstd::arithmetic::div_mod::lemma_mod_bound((usize::MAX - d) as int, 10);
                        };
                        assert(line@.subrange(dstart as int, j as int + 1).drop_last()
                            =~= line@.subrange(dstart as int, j as int));
                        assert(line@.subrange(dstart as int, j as int + 1).last() == line@[j as int]);
                    }
                    v = v * 10 + d;
                }
            } else {
                proof {
                    lemma_token_end_bounds(rest);
                    assert(forall|m: int| 0 <= m < j - i + 1 ==> !is_space(#[trigger] rest[m]));
                    lemma_token_end_ge(rest, j - i + 1);
                    let tk = line@.subrange(i as int, token_end(rest) + i);
                    let dg = digits_part(tk);
                    assert(tk[0] == line@[i as int]);
                    assert(dg =~= line@.subrange(dstart as int, token_end(rest) + i));
                    assert(dg[j - dstart] == line@[j as int]);
                    assert(!is_digit(dg[j - dstart]));
                    assert(!good_token(tk));
                }
                ok = false;
            }
        }
        j = j + 1;
    }
    proof {
        assert(forall|m: int| 0 <= m < j - i ==> rest[m] == line@[m + i]);
        if j < n {
            assert(rest[j - i] == line@[j as int]);
        }
        lemma_token_run(rest, j - i);
        assert(rest.take(j - i) =~= line@.subrange(i as int, j as int));
        assert(rest.skip(j - i) =~= line@.skip(j as int));
        assert(tokens(line@.skip(start as int)) == seq![line@.subrange(i as int, j as int)]
            + tokens(line@.skip(j as int)));
        let tk = line@.subrange(i as int, j as int);
        assert(tk[0] == line@[i as int]);
        if ok {
            assert(digits_part(tk) =~= line@.subrange(dstart as int, j as int));
            if j == dstart {
                // the token is a lone plus sign: no digits
                assert(digits_part(tk).len() == 0);
                assert(!good_token(tk));
            } else {
                assert(good_token(tk) && v == token_num(tk));
            }
        }
    }
        if ok && j > dstart {
        Some((i, j, Some(v)))
    } else {
        Some((i, j, None))
    }
}

/// Parse every token of `line` as an unsigned integer.
///
/// Returns the values of all tokens in order, or `None` exactly when some
/// token is not a representable number (anything besides an optional
/// leading plus sign and digits, or a value above `usize::MAX`).
pub fn input_vec(line: &Vec<u8>) -> (r: Option<Vec<usize>>)
    ensures
        match r {
            Some(vals) => parses_to(line@, vals@),
            None => exists|k: int|
                0 <= k < tokens(line@).len() && !good_token(#[trigger] tokens(line@)[k]),
        },
{
    let mut vals: Vec<usize> = Vec::new();
    let ghost mut done: Seq<Seq<u8>> = Seq::empty();
    let mut i: usize = 0;
    proof {
        assert(line@.skip(0) =~= line@);
    }
    loop
        invariant
            i <= line@.len(),
            tokens(line@) == done + tokens(line@.skip(i as int)),
            vals@.len() == done.len(),
            forall|k: int| 0 <= k < done.len() ==> good_token(#[trigger] done[k]),
            forall|k: int| 0 <= k < done.len() ==> vals@[k] == token_num(#[trigger] done[k]),
        decreases line@.len() - i,
    {
        match next_token(line, i) {
            None => {
                proof {
                    assert(tokens(line@) =~= done);
                }
                return Some(vals);
            },
            Some((ti, tj, val)) => {
                let ghost tk = line@.subrange(ti as int, tj as int);
                match val {
                    None => {
                        proof {
                            let bad = done.len() as int;
                            assert(tokens(line@)[bad] == tk);
                        }
                        return None;
                    },
                    Some(v) => {
                        vals.push(v);
                        proof {
                            done = done + seq![tk];
                            assert(tokens(line@) == done + tokens(line@.skip(tj as int)));
                        }
                        i = tj;
                    },
                }
            },
        }
    }
}

/// Parse the first token of `line` as an unsigned integer.
///
/// Mirrors taking the first element of a full parse: it fails whenever any
/// token of the line fails to parse, or when the line holds no token at all.
pub fn input_val(line: &Vec<u8>) -> (r: Option<usize>)
    ensures
        match r {
            Some(v) => tokens(line@).len() >= 1 && (forall|k: int|
                0 <= k < tokens(line@).len() ==> good_token(#[trigger] tokens(line@)[k])) && v
                == token_num(tokens(line@)[0]),
            None => tokens(line@).len() == 0 || exists|k: int|
                0 <= k < tokens(line@).len() && !good_token(#[trigger] tokens(line@)[k]),
        },
{
    match input_vec(line) {
        None => None,
        Some(vals) => {
            if vals.len() == 0 {
                None
            } else {
                Some(vals[0])
            }
        },
    }
}

/// Parse the first two tokens of `line` as a pair of unsigned integers.
///
/// Only the first two tokens matter: the pair is returned whenever both are
/// representable numbers, whatever follows them.
pub fn input_pair(line: &Vec<u8>) -> (r: Option<(usize, usize)>)
    ensures
        match r {
            Some(p) => {
                &&& tokens(line@).len() >= 2
                &&& good_token(tokens(line@)[0])
                &&& good_token(tokens(line@)[1])
                &&& p.0 == token_num(tokens(line@)[0])
                &&& p.1 == token_num(tokens(line@)[1])
            },
            None => tokens(line@).len() < 2 || !good_token(tokens(line@)[0]) || !good_token(
                tokens(line@)[1],
            ),
        },
{
    proof {
        assert(line@.skip(0) =~= line@);
    }
    match next_token(line, 0) {
        None => None,
        Some((_ti0, tj0, val0)) => {
            match val0 {
                None => None,
                Some(a) => {
                    match next_token(line, tj0) {
                        None => None,
                        Some((_ti1, _tj1, val1)) => {
                            match val1 {
                                None => None,
                                Some(b) => Some((a, b)),
                            }
                        },
                    }
                },
            }
        },
    }
}

} // verus!
