//! Path tokenization and validation.
//!
//! A path string is split on `.` into raw tokens.  A token without `[`
//! is a plain key; a token with `[` must carry a non-negative integer
//! between the first `[` and the `]` that follows it and must end with
//! `]`.  The three bracket checks run in a fixed order, so one invalid
//! token always reports the same error kind.

use vstd::prelude::*;
use vstd::string::*;

use crate::error::Error;

verus! {

/// One parsed path segment: a plain key, or a key followed by one
/// array index.
#[derive(Debug)]
pub enum Step {
    Key(String),
    Indexed(String, usize),
}

/// The mathematical image of a `Step`.
pub enum StepModel {
    Key(Seq<char>),
    Indexed(Seq<char>, int),
}

impl View for Step {
    type V = StepModel;

    open spec fn view(&self) -> StepModel {
        match self {
            Step::Key(name) => StepModel::Key(name@),
            Step::Indexed(name, ix) => StepModel::Indexed(name@, *ix as int),
        }
    }
}

impl DeepView for Step {
    type V = StepModel;

    open spec fn deep_view(&self) -> StepModel {
        self.view()
    }
}

/// Index of the first occurrence of `c` in `s`, or -1 if there is none.
pub open spec fn first_ix(s: Seq<char>, c: char) -> int
    decreases s.len(),
{
    if s.len() == 0 {
        -1
    } else if s[0] == c {
        0
    } else {
        let r = first_ix(s.drop_first(), c);
        if r < 0 {
            -1
        } else {
            r + 1
        }
    }
}

pub proof fn lemma_first_ix(s: Seq<char>, c: char)
    ensures
        first_ix(s, c) == -1 <==> !s.contains(c),
        first_ix(s, c) != -1 ==> 0 <= first_ix(s, c) < s.len() && s[first_ix(s, c)] == c
            && forall|i: int| 0 <= i < first_ix(s, c) ==> s[i] != c,
    decreases s.len(),
{
    if s.len() == 0 {
        assert(!s.contains(c));
    } else if s[0] == c {
        assert(s.contains(c));
    } else {
        lemma_first_ix(s.drop_first(), c);
        let t = s.drop_first();
        assert(forall|i: int| 0 < i < s.len() ==> s[i] == t[i - 1]);
        if first_ix(t, c) == -1 {
            assert(forall|i: int| 0 <= i < s.len() ==> s[i] != c);
            assert(!s.contains(c));
        } else {
            assert(s[first_ix(s, c)] == t[first_ix(t, c)]);
            assert(s.contains(c));
        }
    }
}

/// The pieces of `s` split on the separator `sep`; a separator at an
/// edge or two in a row yield empty pieces.
pub open spec fn split_sep(s: Seq<char>, sep: char) -> Seq<Seq<char>>
    decreases s.len(),
{
    if s.len() == 0 {
        seq![Seq::<char>::empty()]
    } else if s[0] == sep {
        seq![Seq::<char>::empty()] + split_sep(s.drop_first(), sep)
    } else {
        let rest = split_sep(s.drop_first(), sep);
        seq![seq![s[0]] + rest[0]] + rest.drop_first()
    }
}

pub proof fn lemma_split_sep_len(s: Seq<char>, sep: char)
    ensures
        split_sep(s, sep).len() >= 1,
    decreases s.len(),
{
    if s.len() > 0 {
        lemma_split_sep_len(s.drop_first(), sep);
    }
}

/// No piece of a split is longer than the string that was split.
pub proof fn lemma_split_sep_piece_len(s: Seq<char>, sep: char, i: int)
    requires
        0 <= i < split_sep(s, sep).len(),
    ensures
        split_sep(s, sep)[i].len() <= s.len(),
    decreases s.len(),
{
    if s.len() == 0 {
    } else if s[0] == sep {
        if i > 0 {
            lemma_split_sep_piece_len(s.drop_first(), sep, i - 1);
        }
    } else {
        lemma_split_sep_len(s.drop_first(), sep);
        if i == 0 {
            lemma_split_sep_piece_len(s.drop_first(), sep, 0);
        } else {
            lemma_split_sep_piece_len(s.drop_first(), sep, i);
        }
    }
}

pub open spec fn is_digit(c: char) -> bool {
    '0' <= c && c <= '9'
}

pub open spec fn digit_val(c: char) -> int {
    c as int - '0' as int
}

pub open spec fn digits_val(s: Seq<char>) -> int
    decreases s.len(),
{
    if s.len() == 0 {
        0
    } else {
        digits_val(s.drop_last()) * 10 + digit_val(s.last())
    }
}

pub open spec fn all_digits(s: Seq<char>) -> bool {
    forall|i: int| 0 <= i < s.len() ==> is_digit(#[trigger] s[i])
}

/// The value of `s` read as a `usize` literal: an optional leading `+`,
/// then one or more decimal digits, the value fitting in `usize`.
pub open spec fn parse_usize(s: Seq<char>) -> Option<int> {
    let body = if s.len() > 0 && s[0] == '+' {
        s.drop_first()
    } else {
        s
    };
    if body.len() > 0 && all_digits(body) && digits_val(body) <= usize::MAX {
        Some(digits_val(body))
    } else {
        None
    }
}

/// The text strictly between the first `[` of `t` and the `]` that
/// follows it, or everything after the `[` when no `]` follows.
pub open spec fn bracket_content(t: Seq<char>) -> Seq<char>
    recommends
        t.contains('['),
{
    let a = first_ix(t, '[');
    let rest = t.skip(a + 1);
    let b = first_ix(rest, ']');
    if b < 0 {
        rest
    } else {
        rest.take(b)
    }
}

/// Classifies one raw token, applying the bracket checks in their
/// fixed order: unclosed bracket, then non-numeric index, then a token
/// that does not end with `]`.
pub open spec fn step_of_token(t: Seq<char>) -> Result<StepModel, Error> {
    if !t.contains('[') {
        Ok(StepModel::Key(t))
    } else if !t.contains(']') {
        Err(Error::UnclosedBracket)
    } else {
        match parse_usize(bracket_content(t)) {
            None => Err(Error::NotNumInBracket),
            Some(ix) => if t[t.len() - 1] != ']' {
                Err(Error::NotEndWithBracket)
            } else {
                Ok(StepModel::Indexed(t.take(first_ix(t, '[')), ix))
            },
        }
    }
}

/// Classifies a whole token list; the first invalid token decides the
/// error.
pub open spec fn steps_of_tokens(toks: Seq<Seq<char>>) -> Result<Seq<StepModel>, Error>
    decreases toks.len(),
{
    if toks.len() == 0 {
        Ok(Seq::empty())
    } else {
        match step_of_token(toks[0]) {
            Err(e) => Err(e),
            Ok(st) => match steps_of_tokens(toks.drop_first()) {
                Err(e) => Err(e),
                Ok(rest) => Ok(seq![st] + rest),
            },
        }
    }
}

/// The whole contract of tokenization: an empty path, a path starting
/// or ending with `.`, or any invalid token is rejected; otherwise each
/// token becomes one step.
pub open spec fn tokenize_spec(s: Seq<char>) -> Result<Seq<StepModel>, Error> {
    if s.len() == 0 {
        Err(Error::EmptyQuery)
    } else if s[0] == '.' || s[s.len() - 1] == '.' {
        Err(Error::StartOrEndByDot)
    } else {
        steps_of_tokens(split_sep(s, '.'))
    }
}

/// Whether the raw path begins or ends with the separator `.`.
pub fn start_or_end_by_dot(query: &String) -> (r: bool)
    requires
        query@.len() > 0,
    ensures
        r == (query@[0] == '.' || query@[query@.len() - 1] == '.'),
{
    let n = query.as_str().unicode_len();
    query.as_str().get_char(0) == '.' || query.as_str().get_char(n - 1) == '.'
}

/// Index of the first occurrence of `c` in `s`, if any.
pub fn find_char(s: &str, c: char) -> (r: Option<usize>)
    ensures
        match r {
            Some(i) => first_ix(s@, c) == i as int,
            None => first_ix(s@, c) == -1,
        },
{
    let n = s.unicode_len();
    let mut i: usize = 0;
    while i < n
        invariant
            i <= n,
            n == s@.len(),
            forall|m: int| 0 <= m < i ==> s@[m] != c,
        decreases n - i,
    {
        if s.get_char(i) == c {
            proof {
                lemma_first_ix(s@, c);
            }
            return Some(i);
        }
        i += 1;
    }
    proof {
        lemma_first_ix(s@, c);
    }
    None
}

/// Whether a token contains `[`, marking it as an indexed step.
pub fn is_contain_list_ref(token: &str) -> (r: bool)
    ensures
        r == token@.contains('['),
{
    proof {
        lemma_first_ix(token@, '[');
    }
    match find_char(token, '[') {
        Some(_) => true,
        None => false,
    }
}

/// Whether a token with `[` is missing its closing `]`.
pub fn unclosed_bracket(token: &str) -> (r: bool)
    ensures
        r == !token@.contains(']'),
{
    proof {
        lemma_first_ix(token@, ']');
    }
    match find_char(token, ']') {
        Some(_) => false,
        None => true,
    }
}

/// Whether a token does not end with `]`.
pub fn not_ends_with_bracket(token: &str) -> (r: bool)
    requires
        token@.len() > 0,
    ensures
        r == (token@[token@.len() - 1] != ']'),
{
    let n = token.unicode_len();
    token.get_char(n - 1) != ']'
}

/// Reads `s` as a `usize` index, exactly as `parse_usize` describes.
pub fn parse_index(s: &str) -> (r: Option<usize>)
    ensures
        match r {
            Some(v) => parse_usize(s@) == Some(v as int),
            None => parse_usize(s@) is None,
        },
{
    let n = s.unicode_len();
    let start: usize = if n > 0 && s.get_char(0) == '+' {
        1
    } else {
        0
    };
    let ghost body = if s@.len() > 0 && s@[0] == '+' {
        s@.drop_first()
    } else {
        s@
    };
    proof {
        assert(body =~= s@.subrange(start as int, n as int));
    }
    if n == start {
        return None;
    }
    let mut i: usize = start;
    let mut acc: usize = 0;
    while i < n
        invariant
            start <= i <= n,
            n == s@.len(),
            start < n,
            start == (if s@.len() > 0 && s@[0] == '+' {
                1int
            } else {
                0int
            }),
            body == (if s@.len() > 0 && s@[0] == '+' {
                s@.drop_first()
            } else {
                s@
            }),
            body == s@.subrange(start as int, n as int),
            all_digits(s@.subrange(start as int, i as int)),
            acc == digits_val(s@.subrange(start as int, i as int)),
        decreases n - i,
    {
        let c = s.get_char(i);
        let cv = c as u32;
        if cv < 48 || cv > 57 {
            proof {
                assert(body[i - start] == s@[i as int]);
                assert(!is_digit(body[i - start]));
            }
            return None;
        }
        let d = (cv - 48) as usize;
        proof {
            assert(is_digit(s@[i as int]));
            assert(digit_val(s@[i as int]) == d);
        }
        if acc > (usize::MAX - d) / 10 {
            proof {
                let pre = s@.subrange(start as int, i as int + 1);
                assert(pre.drop_last() =~= s@.subrange(start as int, i as int));
                assert(digits_val(pre) == acc * 10 + d);
                assert(acc * 10 + d > usize::MAX) by (nonlinear_arith)
                    requires
                        acc > (usize::MAX - d) / 10,
                        d <= 9,
                        acc >= 0,
                ;
                if all_digits(body) {
                    lemma_digits_val_prefix(body, i as int + 1 - start as int);
                    assert(pre =~= body.take(i as int + 1 - start as int));
                    assert(digits_val(body) >= digits_val(pre));
                }
            }
            return None;
        }
        proof {
            let pre = s@.subrange(start as int, i as int + 1);
            assert(pre.drop_last() =~= s@.subrange(start as int, i as int));
            assert(acc * 10 + d <= usize::MAX) by (nonlinear_arith)
                requires
                    acc <= (usize::MAX - d) / 10,
                    d <= 9,
                    acc >= 0,
            ;
            assert(all_digits(pre));
        }
        acc = acc * 10 + d;
        i += 1;
    }
    proof {
        assert(s@.subrange(start as int, n as int) =~= body);
    }
    Some(acc)
}

/// The digits of a non-empty digit string read left to right never
/// read below any of their prefixes.
proof fn lemma_digits_val_nonneg(s: Seq<char>)
    requires
        all_digits(s),
    ensures
        digits_val(s) >= 0,
    decreases s.len(),
{
    if s.len() > 0 {
        assert(all_digits(s.drop_last()));
        lemma_digits_val_nonneg(s.drop_last());
        assert(digits_val(s.drop_last()) * 10 >= 0) by (nonlinear_arith)
            requires
                digits_val(s.drop_last()) >= 0,
        ;
    }
}

proof fn lemma_digits_val_prefix(s: Seq<char>, j: int)
    requires
        all_digits(s),
        0 <= j <= s.len(),
    ensures
        digits_val(s.take(j)) <= digits_val(s),
    decreases s.len() - j,
{
    if j < s.len() {
        lemma_digits_val_prefix(s, j + 1);
        let pre = s.take(j + 1);
        assert(pre.drop_last() =~= s.take(j));
        assert(all_digits(s.take(j)));
        lemma_digits_val_nonneg(s.take(j));
        assert(digits_val(s.take(j)) * 10 >= digits_val(s.take(j))) by (nonlinear_arith)
            requires
                digits_val(s.take(j)) >= 0,
        ;
        assert(is_digit(pre.last()));
    } else {
        assert(s.take(j) =~= s);
    }
}

/// Whether the text between the brackets of `token` fails to read as a
/// `usize` index.
pub fn not_num_in_bracket(token: &str) -> (r: bool)
    requires
        token@.contains('['),
    ensures
        r == (parse_usize(bracket_content(token@)) is None),
{
    proof {
        lemma_first_ix(token@, '[');
    }
    let n = token.unicode_len();
    let a = match find_char(token, '[') {
        Some(a) => a,
        None => {
            return true;
        },
    };
    let rest = token.substring_char(a + 1, n);
    proof {
        assert(rest@ =~= token@.skip(a + 1));
    }
    let rn = rest.unicode_len();
    proof {
        lemma_first_ix(rest@, ']');
    }
    let content = match find_char(rest, ']') {
        Some(b) => rest.substring_char(0, b),
        None => rest.substring_char(0, rn),
    };
    proof {
        assert(content@ =~= bracket_content(token@));
    }
    match parse_index(content) {
        Some(_) => false,
        None => true,
    }
}

/// Splits a string on a separator character into its raw pieces.
pub fn split_sep_exec(s: &str, sep: char) -> (r: Vec<String>)
    ensures
        r.deep_view() == split_sep(s@, sep),
    decreases s@.len(),
{
    let n = s.unicode_len();
    if n == 0 {
        let mut r: Vec<String> = Vec::new();
        r.push(String::new());
        proof {
            assert(r.deep_view() =~~= split_sep(s@, sep));
        }
        r
    } else {
        let c = s.get_char(0);
        let tail = s.substring_char(1, n);
        proof {
            assert(tail@ =~= s@.drop_first());
        }
        let mut r = split_sep_exec(tail, sep);
        let ghost rest = split_sep(s@.drop_first(), sep);
        proof {
            lemma_split_sep_len(s@.drop_first(), sep);
            assert(r.deep_view().len() == rest.len());
        }
        if c == sep {
            r.insert(0, String::new());
            proof {
                assert(r.deep_view() =~~= split_sep(s@, sep));
            }
            r
        } else {
            let old_first = r.remove(0);
            let mut first = s.substring_char(0, 1).to_owned();
            first.append(old_first.as_str());
            r.insert(0, first);
            proof {
                assert(first@ =~= seq![s@[0]] + rest[0]);
                assert(r.deep_view() =~~= seq![seq![s@[0]] + rest[0]] + rest.drop_first());
                assert(r.deep_view() =~~= split_sep(s@, sep));
            }
            r
        }
    }
}

/// Turns one raw token into a step, reporting the bracket checks in
/// their fixed order.
pub fn token_to_step(token: &str) -> (r: Result<Step, Error>)
    ensures
        match r {
            Ok(st) => step_of_token(token@) == Ok::<StepModel, Error>(st@),
            Err(e) => step_of_token(token@) == Err::<StepModel, Error>(e),
        },
{
    if !is_contain_list_ref(token) {
        return Ok(Step::Key(token.to_owned()));
    }
    if unclosed_bracket(token) {
        return Err(Error::UnclosedBracket);
    }
    if not_num_in_bracket(token) {
        return Err(Error::NotNumInBracket);
    }
    proof {
        lemma_first_ix(token@, '[');
        assert(token@.len() > 0);
    }
    if not_ends_with_bracket(token) {
        return Err(Error::NotEndWithBracket);
    }
    let n = token.unicode_len();
    let a = match find_char(token, '[') {
        Some(a) => a,
        None => {
            proof {
                assert(false);
            }
            return Err(Error::UnclosedBracket);
        },
    };
    let name = token.substring_char(0, a).to_owned();
    let rest = token.substring_char(a + 1, n);
    proof {
        assert(rest@ =~= token@.skip(a + 1));
    }
    let rn = rest.unicode_len();
    proof {
        lemma_first_ix(rest@, ']');
    }
    let content = match find_char(rest, ']') {
        Some(b) => rest.substring_char(0, b),
        None => rest.substring_char(0, rn),
    };
    proof {
        assert(content@ =~= bracket_content(token@));
        assert(name@ =~= token@.take(a as int));
    }
    match parse_index(content) {
        Some(ix) => Ok(Step::Indexed(name, ix)),
        None => {
            proof {
                assert(false);
            }
            Err(Error::NotNumInBracket)
        },
    }
}

/// Turns the token list from position `k` on into steps; the first
/// invalid token decides the error.
pub fn steps_from(toks: &Vec<String>, k: usize) -> (r: Result<Vec<Step>, Error>)
    requires
        k <= toks@.len(),
    ensures
        match r {
            Ok(steps) => steps_of_tokens(toks.deep_view().skip(k as int)) == Ok::<
                Seq<StepModel>,
                Error,
            >(steps.deep_view()),
            Err(e) => steps_of_tokens(toks.deep_view().skip(k as int)) == Err::<
                Seq<StepModel>,
                Error,
            >(e),
        },
    decreases toks@.len() - k,
{
    let ghost rem = toks.deep_view().skip(k as int);
    if k == toks.len() {
        let steps: Vec<Step> = Vec::new();
        proof {
            assert(rem =~= Seq::<Seq<char>>::empty());
            assert(steps.deep_view() =~= Seq::<StepModel>::empty());
        }
        return Ok(steps);
    }
    proof {
        assert(rem[0] == toks.deep_view()[k as int]);
        assert(rem.drop_first() =~= toks.deep_view().skip(k as int + 1));
    }
    match token_to_step(toks[k].as_str()) {
        Err(e) => Err(e),
        Ok(st) => match steps_from(toks, k + 1) {
            Err(e) => Err(e),
            Ok(mut rest) => {
                let ghost tail = rest.deep_view();
                rest.insert(0, st);
                proof {
                    assert(rest.deep_view() =~= seq![st@] + tail);
                }
                Ok(rest)
            },
        },
    }
}

/// Turns a whole token list into steps; the first invalid token
/// decides the error.
pub fn tokens_to_steps(toks: &Vec<String>) -> (r: Result<Vec<Step>, Error>)
    ensures
        match r {
            Ok(steps) => steps_of_tokens(toks.deep_view()) == Ok::<Seq<StepModel>, Error>(
                steps.deep_view(),
            ),
            Err(e) => steps_of_tokens(toks.deep_view()) == Err::<Seq<StepModel>, Error>(e),
        },
{
    proof {
        assert(toks.deep_view().skip(0) =~= toks.deep_view());
    }
    steps_from(toks, 0)
}

/// Splits and validates a whole path string.
pub fn tokenize(path: &String) -> (r: Result<Vec<Step>, Error>)
    ensures
        match r {
            Ok(steps) => tokenize_spec(path@) == Ok::<Seq<StepModel>, Error>(steps.deep_view()),
            Err(e) => tokenize_spec(path@) == Err::<Seq<StepModel>, Error>(e),
        },
{
    let n = path.as_str().unicode_len();
    if n == 0 {
        return Err(Error::EmptyQuery);
    }
    if start_or_end_by_dot(path) {
        return Err(Error::StartOrEndByDot);
    }
    let toks = split_sep_exec(path.as_str(), '.');
    tokens_to_steps(&toks)
}

} // verus!
