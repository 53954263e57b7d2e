//! The chat-command surface: the command set the bot understands, and the
//! verified parsers that turn raw command text into typed arguments.
//!
//! Tokens are separated by runs of ASCII whitespace (space, tab, carriage
//! return, line feed). A score token holds up to three comma-separated
//! numeric fields; the third field takes the rest of the token.

use crate::submission::{Results, Rule, Submission, SubmissionModel, Triple};
use std::collections::VecDeque;
use vstd::prelude::*;

verus! {

/// Why command text was rejected.
#[derive(Clone, Copy, Debug, PartialEq, Eq, Structural)]
pub enum ParseError {
    /// A required part of the command is missing.
    InvalidInput,
    /// A numeric field does not read as a `u32`.
    IncorrectFormat,
}

/// The chat commands the bot understands, already parsed into plain
/// arguments.
pub enum Command {
    Ping,
    Help,
    About,
    Calc { submission: Submission },
    CalcCustom { submission: Submission },
    Submit { level: u32, results: Results },
    Score { level: u32 },
    Query { level: u32 },
    Passed,
    Rank { level: u32 },
    IIDXProfile { version: u32, param: String },
    IIDXMusic { version: u32, title: String },
    IIDXRecent { version: u32, param: String },
}

/// The views of a vector of owned strings.
pub open spec fn str_views(s: Seq<String>) -> Seq<Seq<char>> {
    s.map_values(|t: String| t@)
}

/// ASCII whitespace, the token separator.
pub open spec fn is_space(c: char) -> bool {
    c == ' ' || c == '\t' || c == '\n' || c == '\r'
}

/// One tokenization step: a separator closes the pending token, any other
/// character extends it.
pub open spec fn token_step(
    acc: (Seq<Seq<char>>, Seq<char>),
    c: char,
) -> (Seq<Seq<char>>, Seq<char>) {
    if is_space(c) {
        if acc.1.len() > 0 {
            (acc.0.push(acc.1), Seq::empty())
        } else {
            acc
        }
    } else {
        (acc.0, acc.1.push(c))
    }
}

/// The tokenization state after reading a whole text: the closed tokens
/// and the still-open one.
pub open spec fn token_fold(s: Seq<char>) -> (Seq<Seq<char>>, Seq<char>) {
    s.fold_left(
        (Seq::<Seq<char>>::empty(), Seq::<char>::empty()),
        |acc: (Seq<Seq<char>>, Seq<char>), c: char| token_step(acc, c),
    )
}

/// The ASCII-whitespace-separated tokens of a text, in order.
pub open spec fn tokens_of(s: Seq<char>) -> Seq<Seq<char>> {
    let st = token_fold(s);
    if st.1.len() > 0 {
        st.0.push(st.1)
    } else {
        st.0
    }
}

/// Whether this character separates tokens.
fn is_space_char(c: char) -> (b: bool)
    ensures
        b == is_space(c),
{
    c == ' ' || c == '\t' || c == '\n' || c == '\r'
}

/// Split a text into its ASCII-whitespace-separated tokens.
pub fn split_tokens(input: &str) -> (r: Vec<String>)
    ensures
        str_views(r@) == tokens_of(input@),
{
    let n = input.unicode_len();
    let mut toks: Vec<String> = Vec::new();
    let mut start: usize = 0;
    let mut pending: bool = false;
    proof {
        assert(input@.take(0) =~= Seq::<char>::empty());
        assert(str_views(toks@) =~= Seq::<Seq<char>>::empty());
    }
    for i in 0..n
        invariant
            n == input@.len(),
            pending ==> start < i,
            token_fold(input@.take(i as int)) == (
                str_views(toks@),
                if pending {
                    input@.subrange(start as int, i as int)
                } else {
                    Seq::<char>::empty()
                },
            ),
    {
        let ghost st = token_fold(input@.take(i as int));
        proof {
            assert(input@.take(i as int + 1).drop_last() =~= input@.take(i as int));
            assert(input@.take(i as int + 1).last() == input@[i as int]);
        }
        let c = input.get_char(i);
        if is_space_char(c) {
            if pending {
                let tok = input.substring_char(start, i).to_owned();
                toks.push(tok);
                pending = false;
                proof {
                    assert(str_views(toks@) =~~= st.0.push(st.1));
                }
            }
        } else {
            if !pending {
                start = i;
                pending = true;
            }
            proof {
                assert(input@.subrange(start as int, i as int + 1) =~= input@.subrange(
                    start as int,
                    i as int,
                ).push(input@[i as int]));
            }
        }
    }
    proof {
        assert(input@.take(n as int) =~= input@);
    }
    if pending {
        let tok = input.substring_char(start, n).to_owned();
        toks.push(tok);
        proof {
            assert(str_views(toks@) =~~= token_fold(input@).0.push(token_fold(input@).1));
        }
    }
    toks
}

/// A decimal digit.
pub open spec fn is_digit(c: char) -> bool {
    48 <= c as int && c as int <= 57
}

/// Every character is a decimal digit.
pub open spec fn all_digits(s: Seq<char>) -> bool {
    forall|i: int| 0 <= i < s.len() ==> is_digit(#[trigger] s[i])
}

/// The number a digit string denotes, most significant digit first.
pub open spec fn digits_val(s: Seq<char>) -> int
    decreases s.len(),
{
    if s.len() == 0 {
        0
    } else {
        digits_val(s.drop_last()) * 10 + (s.last() as int - 48)
    }
}

/// How `u32` parsing reads a token: an optional leading plus sign, then
/// at least one decimal digit, denoting a number no larger than
/// `u32::MAX`.
pub open spec fn u32_of_text(s: Seq<char>) -> Option<u32> {
    let body = if s.len() > 0 && s[0] == '+' {
        s.drop_first()
    } else {
        s
    };
    if body.len() > 0 && all_digits(body) && digits_val(body) <= u32::MAX as int {
        Some(digits_val(body) as u32)
    } else {
        None
    }
}

/// A digit string's value is non-negative.
proof fn lemma_digits_val_nonneg(s: Seq<char>)
    requires
        all_digits(s),
    ensures
        digits_val(s) >= 0,
    decreases s.len(),
{
    if s.len() > 0 {
        assert(forall|i: int| 0 <= i < s.drop_last().len() ==> is_digit(#[trigger] s.drop_last()[i]));
        lemma_digits_val_nonneg(s.drop_last());
    }
}

/// A digit string is worth at least any of its prefixes.
proof fn lemma_digits_val_prefix(s: Seq<char>, k: int)
    requires
        all_digits(s),
        0 <= k <= s.len(),
    ensures
        digits_val(s.take(k)) <= digits_val(s),
    decreases s.len() - k,
{
    if k < s.len() {
        lemma_digits_val_prefix(s, k + 1);
        let t = s.take(k + 1);
        assert(t.drop_last() =~= s.take(k));
        assert(t.last() == s[k]);
        assert(is_digit(s[k]));
        assert(forall|i: int| 0 <= i < s.take(k).len() ==> is_digit(#[trigger] s.take(k)[i]));
        lemma_digits_val_nonneg(s.take(k));
        assert(digits_val(t) == digits_val(s.take(k)) * 10 + (s[k] as int - 48));
        assert(digits_val(s.take(k)) * 10 >= digits_val(s.take(k)));
    } else {
        assert(s.take(k) =~= s);
    }
}

/// Read a `u32` from a token.
fn parse_u32_text(s: &str) -> (r: Option<u32>)
    ensures
        r == u32_of_text(s@),
{
    let n = s.unicode_len();
    let mut at: usize = 0;
    if n > 0 && s.get_char(0) == '+' {
        at = 1;
    }
    let ghost body = s@.skip(at as int);
    proof {
        if at == 1 {
            assert(body =~= s@.drop_first());
        } else {
            assert(body =~= s@);
        }
    }
    if at == n {
        return None;
    }
    let start = at;
    let mut val: u64 = 0;
    for i in start..n
        invariant
            n == s@.len(),
            start < n,
            start <= i <= n,
            body == s@.skip(start as int),
            body == (if s@.len() > 0 && s@[0] == '+' {
                s@.drop_first()
            } else {
                s@
            }),
            all_digits(body.take(i - start)),
            val <= u32::MAX,
            val as int == digits_val(body.take(i - start)),
    {
        let c = s.get_char(i);
        let d = c as u32;
        proof {
            assert(body[i - start] == s@[i as int]);
            assert(body.take(i - start + 1).drop_last() =~= body.take(i - start));
            assert(body.take(i - start + 1).last() == body[i - start]);
        }
        if d < 48 || d > 57 {
            proof {
                assert(!is_digit(body[i - start]));
                assert(!all_digits(body));
            }
            return None;
        }
        let dv = (d - 48) as u64;
        let next: u64 = val * 10 + dv;
        if next > u32::MAX as u64 {
            proof {
                assert(all_digits(body.take(i - start + 1)));
                if all_digits(body) {
                    lemma_digits_val_prefix(body, i - start + 1);
                    assert(digits_val(body) > u32::MAX as int);
                }
            }
            return None;
        }
        val = next;
        proof {
            assert(all_digits(body.take(i - start + 1)));
        }
    }
    proof {
        assert(body.take(n - start) =~= body);
    }
    Some(val as u32)
}

/// The first position of `c` in the text, or the text's length.
pub open spec fn first_at(s: Seq<char>, c: char) -> int
    decreases s.len(),
{
    if s.len() == 0 {
        0
    } else if s[0] == c {
        0
    } else {
        1 + first_at(s.drop_first(), c)
    }
}

/// `first_at` lands on the first occurrence, or past the end.
proof fn lemma_first_at(s: Seq<char>, c: char)
    ensures
        0 <= first_at(s, c) <= s.len(),
        first_at(s, c) < s.len() ==> s[first_at(s, c)] == c,
        forall|j: int| 0 <= j < first_at(s, c) ==> s[j] != c,
    decreases s.len(),
{
    if s.len() > 0 && s[0] != c {
        lemma_first_at(s.drop_first(), c);
        assert forall|j: int| 0 <= j < first_at(s, c) implies s[j] != c by {
            if j > 0 {
                assert(s.drop_first()[j - 1] == s[j]);
            }
        }
        if first_at(s, c) < s.len() {
            assert(s.drop_first()[first_at(s, c) - 1] == s[first_at(s, c)]);
        }
    }
}

/// When the first `i` characters miss and character `i` matches, the scan
/// stops exactly there.
proof fn lemma_first_at_found(s: Seq<char>, c: char, i: int)
    requires
        0 <= i <= s.len(),
        forall|j: int| 0 <= j < i ==> s[j] != c,
        i < s.len() ==> s[i] == c,
    ensures
        first_at(s, c) == i,
    decreases i,
{
    if s.len() == 0 {
    } else if i == 0 {
    } else {
        assert forall|j: int| 0 <= j < i - 1 implies s.drop_first()[j] != c by {
            assert(s.drop_first()[j] == s[j + 1]);
        }
        assert(i - 1 < s.drop_first().len() ==> s.drop_first()[i - 1] == s[i]);
        lemma_first_at_found(s.drop_first(), c, i - 1);
    }
}

/// The first position of `c` in the text, or the text's length.
fn find_first(s: &str, c: char) -> (r: usize)
    ensures
        r as int == first_at(s@, c),
{
    let n = s.unicode_len();
    for i in 0..n
        invariant
            n == s@.len(),
            forall|j: int| 0 <= j < i ==> s@[j] != c,
    {
        if s.get_char(i) == c {
            proof {
                lemma_first_at_found(s@, c, i as int);
            }
            return i;
        }
    }
    proof {
        lemma_first_at_found(s@, c, n as int);
    }
    n
}

/// How one score token reads as a judgment triple: up to three
/// comma-separated fields, the third taking the rest of the token, each a
/// `u32`. A missing field is `InvalidInput`, a malformed number
/// `IncorrectFormat`, fields checked left to right.
pub open spec fn triple_of_text(t: Seq<char>) -> Result<Triple, ParseError> {
    let c1 = first_at(t, ',');
    if c1 == t.len() {
        match u32_of_text(t) {
            None => Err(ParseError::IncorrectFormat),
            Some(_) => Err(ParseError::InvalidInput),
        }
    } else {
        let p1 = t.take(c1);
        let rest1 = t.skip(c1 + 1);
        let c2 = first_at(rest1, ',');
        if c2 == rest1.len() {
            match u32_of_text(p1) {
                None => Err(ParseError::IncorrectFormat),
                Some(_) => match u32_of_text(rest1) {
                    None => Err(ParseError::IncorrectFormat),
                    Some(_) => Err(ParseError::InvalidInput),
                },
            }
        } else {
            let p2 = rest1.take(c2);
            let p3 = rest1.skip(c2 + 1);
            match u32_of_text(p1) {
                None => Err(ParseError::IncorrectFormat),
                Some(a) => match u32_of_text(p2) {
                    None => Err(ParseError::IncorrectFormat),
                    Some(b) => match u32_of_text(p3) {
                        None => Err(ParseError::IncorrectFormat),
                        Some(c) => Ok(Triple { great: a, good: b, miss: c }),
                    },
                },
            }
        }
    }
}

/// Read one score token as a judgment triple.
fn parse_triple(t: &str) -> (r: Result<Triple, ParseError>)
    ensures
        r == triple_of_text(t@),
{
    let n = t.unicode_len();
    let c1 = find_first(t, ',');
    proof {
        lemma_first_at(t@, ',');
    }
    if c1 == n {
        match parse_u32_text(t) {
            None => Err(ParseError::IncorrectFormat),
            Some(_) => Err(ParseError::InvalidInput),
        }
    } else {
        let p1 = t.substring_char(0, c1);
        let rest1 = t.substring_char(c1 + 1, n);
        proof {
            assert(p1@ =~= t@.take(c1 as int));
            assert(rest1@ =~= t@.skip(c1 as int + 1));
        }
        let m = rest1.unicode_len();
        let c2 = find_first(rest1, ',');
        proof {
            lemma_first_at(rest1@, ',');
        }
        if c2 == m {
            match parse_u32_text(p1) {
                None => Err(ParseError::IncorrectFormat),
                Some(_) => match parse_u32_text(rest1) {
                    None => Err(ParseError::IncorrectFormat),
                    Some(_) => Err(ParseError::InvalidInput),
                },
            }
        } else {
            let p2 = rest1.substring_char(0, c2);
            let p3 = rest1.substring_char(c2 + 1, m);
            proof {
                assert(p2@ =~= rest1@.take(c2 as int));
                assert(p3@ =~= rest1@.skip(c2 as int + 1));
            }
            match parse_u32_text(p1) {
                None => Err(ParseError::IncorrectFormat),
                Some(a) => match parse_u32_text(p2) {
                    None => Err(ParseError::IncorrectFormat),
                    Some(b) => match parse_u32_text(p3) {
                        None => Err(ParseError::IncorrectFormat),
                        Some(c) => Ok(Triple { great: a, good: b, miss: c }),
                    },
                },
            }
        }
    }
}

/// How a run of score tokens reads as judgment triples, in order; the
/// first bad token's error wins.
pub open spec fn score_of_tokens(toks: Seq<Seq<char>>) -> Result<Seq<Triple>, ParseError>
    decreases toks.len(),
{
    if toks.len() == 0 {
        Ok(Seq::empty())
    } else {
        match triple_of_text(toks[0]) {
            Err(e) => Err(e),
            Ok(t) => match score_of_tokens(toks.drop_first()) {
                Err(e) => Err(e),
                Ok(rest) => Ok(seq![t] + rest),
            },
        }
    }
}

/// The token views from position `from` on; empty when `from` is past the
/// end.
pub open spec fn tokens_from(parts: Seq<String>, from: int) -> Seq<Seq<char>> {
    if from <= parts.len() {
        str_views(parts).skip(from)
    } else {
        Seq::empty()
    }
}

/// Read the tokens from position `from` on as judgment triples, one
/// triple per token, in order.
pub fn parse_score(parts: &Vec<String>, from: usize) -> (r: Result<Results, ParseError>)
    ensures
        match score_of_tokens(tokens_from(parts@, from as int)) {
            Err(e) => r matches Err(e2) && e2 == e,
            Ok(ts) => r matches Ok(v) && v@ == ts,
        },
{
    let mut results: Results = VecDeque::new();
    let n = parts.len();
    if from >= n {
        proof {
            if from as int <= parts@.len() {
                assert(str_views(parts@).skip(from as int) =~= Seq::<Seq<char>>::empty());
            }
        }
        return Ok(results);
    }
    let ghost toks = tokens_from(parts@, from as int);
    proof {
        assert(toks == str_views(parts@).skip(from as int));
    }
    for i in from..n
        invariant
            n == parts@.len(),
            from <= i <= n,
            toks == tokens_from(parts@, from as int),
            toks == str_views(parts@).skip(from as int),
            match score_of_tokens(str_views(parts@).skip(i as int)) {
                Err(e) => score_of_tokens(toks) == Err::<Seq<Triple>, ParseError>(e),
                Ok(rest) => score_of_tokens(toks) matches Ok(all) && all == results@ + rest,
            },
    {
        proof {
            assert(str_views(parts@).skip(i as int)[0] == parts@[i as int]@);
            assert(str_views(parts@).skip(i as int).drop_first() =~= str_views(parts@).skip(
                i as int + 1,
            ));
        }
        let ghost before = results@;
        match parse_triple(parts[i].as_str()) {
            Err(e) => {
                return Err(e);
            },
            Ok(tr) => {
                results.push_back(tr);
                proof {
                    match score_of_tokens(str_views(parts@).skip(i as int + 1)) {
                        Err(_) => {},
                        Ok(rest) => {
                            assert(before + (seq![tr] + rest) =~= results@ + rest);
                        },
                    }
                }
            },
        }
    }
    proof {
        assert(str_views(parts@).skip(n as int) =~= Seq::<Seq<char>>::empty());
        assert(results@ + Seq::<Triple>::empty() =~= results@);
    }
    Ok(results)
}

/// Read the next token as a `u32`; a missing token is `InvalidInput`, a
/// malformed number `IncorrectFormat`.
pub fn next_str_into_u32(from: Option<&str>) -> (r: Result<u32, ParseError>)
    ensures
        match from {
            None => r == Err::<u32, ParseError>(ParseError::InvalidInput),
            Some(s) => match u32_of_text(s@) {
                Some(v) => r == Ok::<u32, ParseError>(v),
                None => r == Err::<u32, ParseError>(ParseError::IncorrectFormat),
            },
        },
{
    match from {
        None => Err(ParseError::InvalidInput),
        Some(s) => match parse_u32_text(s) {
            Some(v) => Ok(v),
            None => Err(ParseError::IncorrectFormat),
        },
    }
}

/// How a calc command's text reads: starting life, heal, then score
/// tokens. When exactly four triples follow, the first is taken as a
/// custom rule and the other three are the results; any other count keeps
/// the default rule of 2, 3, 5.
pub open spec fn calc_of_text(s: Seq<char>) -> Result<SubmissionModel, ParseError> {
    let toks = tokens_of(s);
    if toks.len() == 0 {
        Err(ParseError::InvalidInput)
    } else {
        match u32_of_text(toks[0]) {
            None => Err(ParseError::IncorrectFormat),
            Some(life) => if toks.len() == 1 {
                Err(ParseError::InvalidInput)
            } else {
                match u32_of_text(toks[1]) {
                    None => Err(ParseError::IncorrectFormat),
                    Some(heal) => match score_of_tokens(toks.skip(2)) {
                        Err(e) => Err(e),
                        Ok(rs) => if rs.len() == 4 {
                            Ok(
                                SubmissionModel {
                                    life,
                                    heal,
                                    rule: Rule {
                                        great: rs[0].great,
                                        good: rs[0].good,
                                        miss: rs[0].miss,
                                    },
                                    results: rs.drop_first(),
                                },
                            )
                        } else {
                            Ok(
                                SubmissionModel {
                                    life,
                                    heal,
                                    rule: Rule { great: 2, good: 3, miss: 5 },
                                    results: rs,
                                },
                            )
                        },
                    },
                }
            },
        }
    }
}

/// Parse a calc command: `LIFE HEAL [GREAT,GOOD,MISS ..]`.
pub fn calc_parser(input: String) -> (r: Result<Submission, ParseError>)
    ensures
        match calc_of_text(input@) {
            Err(e) => r matches Err(e2) && e2 == e,
            Ok(m) => r matches Ok(sub) && sub@ == m,
        },
{
    let tokens = split_tokens(input.as_str());
    if tokens.len() == 0 {
        return Err(ParseError::InvalidInput);
    }
    proof {
        assert(str_views(tokens@)[0] == tokens@[0]@);
    }
    let life = match parse_u32_text(tokens[0].as_str()) {
        Some(v) => v,
        None => {
            return Err(ParseError::IncorrectFormat);
        },
    };
    if tokens.len() == 1 {
        return Err(ParseError::InvalidInput);
    }
    proof {
        assert(str_views(tokens@)[1] == tokens@[1]@);
    }
    let heal = match parse_u32_text(tokens[1].as_str()) {
        Some(v) => v,
        None => {
            return Err(ParseError::IncorrectFormat);
        },
    };
    let mut results = match parse_score(&tokens, 2) {
        Ok(v) => v,
        Err(e) => {
            return Err(e);
        },
    };
    let mut rule = Rule { great: 2, good: 3, miss: 5 };
    let ghost parsed = results@;
    if results.len() == 4 {
        let first = results.pop_front().unwrap();
        rule = Rule { great: first.great, good: first.good, miss: first.miss };
        proof {
            assert(results@ =~= parsed.drop_first());
        }
    }
    Ok(Submission { life, heal, rule, results })
}

/// How a submit command's text reads: a course level, then score tokens.
pub open spec fn submit_of_text(s: Seq<char>) -> Result<(u32, Seq<Triple>), ParseError> {
    let toks = tokens_of(s);
    if toks.len() == 0 {
        Err(ParseError::InvalidInput)
    } else {
        match u32_of_text(toks[0]) {
            None => Err(ParseError::IncorrectFormat),
            Some(level) => match score_of_tokens(toks.skip(1)) {
                Err(e) => Err(e),
                Ok(rs) => Ok((level, rs)),
            },
        }
    }
}

/// Parse a submit command: `LEVEL [GREAT,GOOD,MISS ..]`.
pub fn submit_parser(input: String) -> (r: Result<(u32, Results), ParseError>)
    ensures
        match submit_of_text(input@) {
            Err(e) => r matches Err(e2) && e2 == e,
            Ok(p) => r matches Ok(q) && q.0 == p.0 && q.1@ == p.1,
        },
{
    let tokens = split_tokens(input.as_str());
    if tokens.len() == 0 {
        return Err(ParseError::InvalidInput);
    }
    proof {
        assert(str_views(tokens@)[0] == tokens@[0]@);
    }
    let level = match parse_u32_text(tokens[0].as_str()) {
        Some(v) => v,
        None => {
            return Err(ParseError::IncorrectFormat);
        },
    };
    let results = match parse_score(&tokens, 1) {
        Ok(v) => v,
        Err(e) => {
            return Err(e);
        },
    };
    Ok((level, results))
}

/// How a two-part command reads: a `u32` up to the first space, and the
/// rest of the text verbatim (empty when there is no space).
pub open spec fn split_two_of_text(s: Seq<char>) -> Result<(u32, Seq<char>), ParseError> {
    let c = first_at(s, ' ');
    let head = s.take(c);
    let rest = if c < s.len() {
        s.skip(c + 1)
    } else {
        Seq::empty()
    };
    match u32_of_text(head) {
        None => Err(ParseError::IncorrectFormat),
        Some(v) => Ok((v, rest)),
    }
}

/// Split a command into a leading `u32` and the rest of the text.
pub fn split_into_two(input: String) -> (r: Result<(u32, String), ParseError>)
    ensures
        match split_two_of_text(input@) {
            Err(e) => r matches Err(e2) && e2 == e,
            Ok(p) => r matches Ok(q) && q.0 == p.0 && q.1@ == p.1,
        },
{
    let s = input.as_str();
    let n = s.unicode_len();
    let c = find_first(s, ' ');
    proof {
        lemma_first_at(s@, ' ');
    }
    let head = s.substring_char(0, c);
    proof {
        assert(head@ =~= s@.take(c as int));
    }
    let rest = if c < n {
        s.substring_char(c + 1, n).to_owned()
    } else {
        String::new()
    };
    match parse_u32_text(head) {
        None => Err(ParseError::IncorrectFormat),
        Some(v) => Ok((v, rest)),
    }
}

} // verus!
