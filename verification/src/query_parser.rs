use vstd::prelude::*;

use crate::dataset::{SpecValue, Value};
use crate::query::{Aggregation, Condition, Query, SpecAggregation, SpecCondition, SpecQuery};
use crate::text::{chars_of, push_char};

verus! {

// ---------------------------------------------------------------------------------------------
// Characters and numbers, as std treats them
// ---------------------------------------------------------------------------------------------

/// Whether std's `char::is_alphanumeric` holds of `c` (alphabetic or numeric in Unicode).
pub uninterp spec fn char_is_alphanumeric(c: char) -> bool;

/// An ASCII letter or digit.
pub open spec fn is_ascii_alphanumeric(c: char) -> bool {
    ('a' <= c <= 'z') || ('A' <= c <= 'Z') || ('0' <= c <= '9')
}

/// Calls `char::is_alphanumeric`. The contract claims that the result is
/// `char_is_alphanumeric(c)`, the same for the same character, and that among ASCII characters
/// exactly the letters and digits are alphanumeric (std: alphabetic or numeric in Unicode); which
/// other characters the Unicode tables call alphabetic or numeric is left unsaid.
#[verifier::external_body]
fn is_alphanumeric(c: char) -> (res: bool)
    ensures
        res == char_is_alphanumeric(c),
        (c as u32) < 128 ==> (res <==> is_ascii_alphanumeric(c)),
{
    c.is_alphanumeric()
}

/// The number written by the decimal digits `d`.
pub open spec fn decimal_value(d: Seq<char>) -> int
    decreases d.len(),
{
    if d.len() == 0 {
        0
    } else {
        decimal_value(d.drop_last()) * 10 + (d.last() as int - '0' as int)
    }
}

/// `d` is a non-empty run of the digits `0` to `9`.
pub open spec fn is_decimal(d: Seq<char>) -> bool {
    &&& d.len() > 0
    &&& forall|i: int| 0 <= i < d.len() ==> '0' <= #[trigger] d[i] <= '9'
}

/// What `str::parse::<i32>` gives back, as its documentation states it: an optional `+` or
/// `-` sign followed by decimal digits, whose value lies within `i32`; anything else is an
/// error (here `None`).
pub open spec fn spec_parse_i32(s: Seq<char>) -> Option<i32> {
    let signed = s.len() > 0 && (s[0] == '-' || s[0] == '+');
    let digits = if signed {
        s.drop_first()
    } else {
        s
    };
    let v = if s.len() > 0 && s[0] == '-' {
        -decimal_value(digits)
    } else {
        decimal_value(digits)
    };
    if is_decimal(digits) && i32::MIN <= v <= i32::MAX {
        Some(v as i32)
    } else {
        None
    }
}

/// Calls `str::parse::<i32>` and keeps the number, or `None` for an error. The contract claims
/// that the result is `spec_parse_i32(s@)`: the documented grammar of an optional sign followed by
/// decimal digits, with a value within `i32`.
#[verifier::external_body]
fn parse_i32(s: &str) -> (res: Option<i32>)
    ensures
        res == spec_parse_i32(s@),
{
    s.parse::<i32>().ok()
}

// ---------------------------------------------------------------------------------------------
// Tokens
// ---------------------------------------------------------------------------------------------

/// Whether the character at `i` belongs to a word: alphanumeric (as `alnum` records) or `_`.
pub open spec fn word_char(s: Seq<char>, alnum: Seq<bool>, i: int) -> bool {
    alnum[i] || s[i] == '_'
}

/// The end of the run of word characters that starts at `i`.
pub open spec fn word_end(s: Seq<char>, alnum: Seq<bool>, i: int) -> int
    decreases s.len() - i,
{
    if 0 <= i < s.len() && word_char(s, alnum, i) {
        word_end(s, alnum, i + 1)
    } else {
        i
    }
}

/// The position of the first `"` at or after `i` (the length of `s` where there is none).
pub open spec fn quote_end(s: Seq<char>, i: int) -> int
    decreases s.len() - i,
{
    if 0 <= i < s.len() && s[i] != '"' {
        quote_end(s, i + 1)
    } else {
        i
    }
}

pub proof fn lemma_word_end(s: Seq<char>, alnum: Seq<bool>, i: int)
    requires
        0 <= i <= s.len(),
    ensures
        i <= word_end(s, alnum, i) <= s.len(),
    decreases s.len() - i,
{
    if i < s.len() && word_char(s, alnum, i) {
        lemma_word_end(s, alnum, i + 1);
    }
}

pub proof fn lemma_quote_end(s: Seq<char>, i: int)
    requires
        0 <= i <= s.len(),
    ensures
        i <= quote_end(s, i) <= s.len(),
        quote_end(s, i) < s.len() ==> s[quote_end(s, i)] == '"',
    decreases s.len() - i,
{
    if i < s.len() && s[i] != '"' {
        lemma_quote_end(s, i + 1);
    }
}

/// The tokens of `s` from position `i` on. Blanks (space, tab) separate tokens; `(`, `)` and
/// `!` are tokens of their own; `==` is a token, and a lone `=` is skipped; a `"` starts a
/// quoted token that runs to the next `"` (or the end) and keeps its quotes; a run of word
/// characters is a token; any other character is skipped.
pub open spec fn tokens_from(s: Seq<char>, alnum: Seq<bool>, i: int) -> Seq<Seq<char>>
    decreases s.len() - i,
{
    if i < 0 || i >= s.len() {
        Seq::empty()
    } else {
        let c = s[i];
        if c == ' ' || c == '\t' {
            tokens_from(s, alnum, i + 1)
        } else if c == '(' || c == ')' || c == '!' {
            seq![seq![c]] + tokens_from(s, alnum, i + 1)
        } else if c == '=' {
            if i + 1 < s.len() && s[i + 1] == '=' {
                seq![seq!['=', '=']] + tokens_from(s, alnum, i + 2)
            } else {
                tokens_from(s, alnum, i + 1)
            }
        } else if c == '"' {
            proof {
                lemma_quote_end(s, i + 1);
            }
            let e = quote_end(s, i + 1);
            let token = seq!['"'] + s.subrange(i + 1, e) + seq!['"'];
            if e < s.len() {
                seq![token] + tokens_from(s, alnum, e + 1)
            } else {
                seq![token]
            }
        } else if word_char(s, alnum, i) {
            proof {
                lemma_word_end(s, alnum, i + 1);
            }
            let e = word_end(s, alnum, i);
            seq![s.subrange(i, e)] + tokens_from(s, alnum, e)
        } else {
            tokens_from(s, alnum, i + 1)
        }
    }
}

/// Which characters of `s` std calls alphanumeric.
pub open spec fn alnum_classes(s: Seq<char>) -> Seq<bool> {
    s.map_values(|c: char| char_is_alphanumeric(c))
}

/// The tokens of a query string.
pub open spec fn spec_tokenize(s: Seq<char>) -> Seq<Seq<char>> {
    tokens_from(s, alnum_classes(s), 0)
}

/// The mathematical value of a list of tokens.
pub open spec fn tokens_view(t: Seq<String>) -> Seq<Seq<char>> {
    t.map_values(|x: String| x@)
}

/// A string made of the characters `chars[from..to]`.
fn string_of(chars: &Vec<char>, from: usize, to: usize) -> (res: String)
    requires
        from <= to <= chars@.len(),
    ensures
        res@ == chars@.subrange(from as int, to as int),
{
    let mut res = String::new();
    let mut k = from;
    while k < to
        invariant
            from <= k <= to <= chars@.len(),
            res@ == chars@.subrange(from as int, k as int),
        decreases to - k,
    {
        push_char(&mut res, chars[k]);
        assert(chars@.subrange(from as int, k + 1) =~= chars@.subrange(from as int, k as int).push(
            chars@[k as int],
        ));
        k = k + 1;
    }
    res
}

/// Splits the characters `chars` into tokens, where `alnum[i]` says whether `chars[i]` is
/// alphanumeric.
pub fn tokenize_with_classes(chars: &Vec<char>, alnum: &Vec<bool>) -> (tokens: Vec<String>)
    requires
        alnum@.len() == chars@.len(),
    ensures
        tokens_view(tokens@) == tokens_from(chars@, alnum@, 0),
{
    let ghost s = chars@;
    let ghost a = alnum@;
    let n = chars.len();
    let mut tokens: Vec<String> = Vec::new();
    let mut i: usize = 0;
    while i < n
        invariant
            n == s.len(),
            s == chars@,
            a == alnum@,
            a.len() == s.len(),
            i <= n,
            tokens_view(tokens@) + tokens_from(s, a, i as int) == tokens_from(s, a, 0),
        decreases n - i,
    {
        let ghost before = tokens@;
        let c = chars[i];
        if c == ' ' || c == '\t' {
            i = i + 1;
        } else if c == '(' || c == ')' || c == '!' {
            let mut t = String::new();
            push_char(&mut t, c);
            tokens.push(t);
            proof {
                assert(tokens_view(tokens@) =~= tokens_view(before).push(seq![c]));
                assert(tokens_view(before) + tokens_from(s, a, i as int) =~= tokens_view(tokens@)
                    + tokens_from(s, a, i + 1));
            }
            i = i + 1;
        } else if c == '=' {
            if i + 1 < n && chars[i + 1] == '=' {
                let mut t = String::new();
                push_char(&mut t, '=');
                push_char(&mut t, '=');
                tokens.push(t);
                proof {
                    assert(t@ =~= seq!['=', '=']);
                    assert(tokens_view(tokens@) =~= tokens_view(before).push(seq!['=', '=']));
                    assert(tokens_view(before) + tokens_from(s, a, i as int) =~= tokens_view(
                        tokens@,
                    ) + tokens_from(s, a, i + 2));
                }
                i = i + 2;
            } else {
                i = i + 1;
            }
        } else if c == '"' {
            let mut j = i + 1;
            proof {
                lemma_quote_end(s, i + 1);
            }
            while j < n && chars[j] != '"'
                invariant
                    n == s.len(),
                    s == chars@,
                    i < j <= n,
                    quote_end(s, j as int) == quote_end(s, i + 1),
                decreases n - j,
            {
                j = j + 1;
            }
            let mut t = String::new();
            push_char(&mut t, '"');
            let mut k = i + 1;
            while k < j
                invariant
                    i + 1 <= k <= j <= n,
                    n == s.len(),
                    s == chars@,
                    t@ == seq!['"'] + s.subrange(i + 1, k as int),
                decreases j - k,
            {
                push_char(&mut t, chars[k]);
                assert(s.subrange(i + 1, k + 1) =~= s.subrange(i + 1, k as int).push(s[k as int]));
                k = k + 1;
            }
            push_char(&mut t, '"');
            tokens.push(t);
            proof {
                let tok = seq!['"'] + s.subrange(i + 1, j as int) + seq!['"'];
                assert(t@ =~= tok);
                assert(tokens_view(tokens@) =~= tokens_view(before).push(tok));
                if j < n {
                    assert(tokens_view(before) + tokens_from(s, a, i as int) =~= tokens_view(
                        tokens@,
                    ) + tokens_from(s, a, j + 1));
                } else {
                    assert(tokens_view(before) + tokens_from(s, a, i as int) =~= tokens_view(
                        tokens@,
                    ) + tokens_from(s, a, j as int));
                }
            }
            if j < n {
                i = j + 1;
            } else {
                i = j;
            }
        } else if alnum[i] || c == '_' {
            let mut j = i;
            proof {
                lemma_word_end(s, a, i as int);
            }
            while j < n && (alnum[j] || chars[j] == '_')
                invariant
                    n == s.len(),
                    s == chars@,
                    a == alnum@,
                    a.len() == s.len(),
                    i <= j <= n,
                    word_end(s, a, j as int) == word_end(s, a, i as int),
                decreases n - j,
            {
                j = j + 1;
            }
            let t = string_of(chars, i, j);
            tokens.push(t);
            proof {
                assert(tokens_view(tokens@) =~= tokens_view(before).push(s.subrange(i as int, j as int)));
                assert(tokens_view(before) + tokens_from(s, a, i as int) =~= tokens_view(tokens@)
                    + tokens_from(s, a, j as int));
            }
            i = j;
        } else {
            i = i + 1;
        }
    }
    assert(tokens_view(tokens@) =~= tokens_from(s, a, 0));
    tokens
}

/// Breaks a query string into a flat list of tokens. For the ASCII characters of the string,
/// std's classes are known: exactly the letters and digits are alphanumeric.
pub fn tokenize(input: &str) -> (tokens: Vec<String>)
    ensures
        tokens_view(tokens@) == spec_tokenize(input@),
        forall|i: int|
            0 <= i < input@.len() && (input@[i] as u32) < 128 ==> (char_is_alphanumeric(
                #[trigger] input@[i],
            ) <==> is_ascii_alphanumeric(input@[i])),
{
    let chars = chars_of(input);
    let n = chars.len();
    let mut alnum: Vec<bool> = Vec::new();
    for i in 0..n
        invariant
            n == chars@.len(),
            chars@ == input@,
            alnum@ == alnum_classes(input@).take(i as int),
            forall|k: int|
                0 <= k < i && (input@[k] as u32) < 128 ==> (char_is_alphanumeric(
                    #[trigger] input@[k],
                ) <==> is_ascii_alphanumeric(input@[k])),
    {
        alnum.push(is_alphanumeric(chars[i]));
        assert(alnum_classes(input@).take(i + 1) =~= alnum_classes(input@).take(i as int).push(
            char_is_alphanumeric(chars@[i as int]),
        ));
    }
    assert(alnum_classes(input@).take(n as int) =~= alnum_classes(input@));
    tokenize_with_classes(&chars, &alnum)
}


// ---------------------------------------------------------------------------------------------
// Values, conditions and queries
// ---------------------------------------------------------------------------------------------

/// The token starts with a double quote.
pub open spec fn is_quoted(t: Seq<char>) -> bool {
    t.len() > 0 && t[0] == '"'
}

/// Whether the value can be read from the token: a token that starts with a quote loses its
/// first and last character, so it needs at least two characters and a last character of
/// one byte (ASCII).
pub open spec fn value_token_ok(t: Seq<char>) -> bool {
    is_quoted(t) ==> (t.len() >= 2 && (t.last() as u32) < 128)
}

/// The value a token stands for: a quoted token is the string between its quotes, a token that
/// `i32` parses is that integer, and any other token is the string itself.
pub open spec fn token_value(t: Seq<char>) -> SpecValue {
    if is_quoted(t) {
        SpecValue::Str(t.subrange(1, t.len() - 1))
    } else {
        match spec_parse_i32(t) {
            Some(n) => SpecValue::Int(n),
            None => SpecValue::Str(t),
        }
    }
}

/// Whether `t` holds exactly the characters of `expected`.
fn token_is(t: &String, expected: &str) -> (res: bool)
    ensures
        res == (t@ == expected@),
{
    let want = chars_of(expected);
    let chars = chars_of(t.as_str());
    let n = chars.len();
    if n != want.len() {
        return false;
    }
    for i in 0..n
        invariant
            n == chars@.len(),
            n == want@.len(),
            chars@ == t@,
            want@ == expected@,
            forall|j: int| 0 <= j < i ==> chars@[j] == want@[j],
    {
        if chars[i] != want[i] {
            assert(t@[i as int] != expected@[i as int]);
            return false;
        }
    }
    assert(chars@ =~= want@);
    true
}

/// The value that the token stands for, given what `i32` parsing makes of it.
pub fn value_from_token(token: &String, parsed: Option<i32>) -> (v: Value)
    requires
        value_token_ok(token@),
        !is_quoted(token@) ==> parsed == spec_parse_i32(token@),
    ensures
        v@ == token_value(token@),
{
    let chars = chars_of(token.as_str());
    let n = chars.len();
    if n > 0 && chars[0] == '"' {
        return Value::String(string_of(&chars, 1, n - 1));
    }
    match parsed {
        Some(number) => Value::Integer(number),
        None => Value::String(token.clone()),
    }
}

/// Parses the value at `tokens[pos]` (the right-hand side of `column == value`): a quoted token
/// becomes the string between its quotes, a number becomes an integer, and any other word
/// stays a string. Returns the value and the position after it.
pub fn parse_value(tokens: &[String], pos: usize) -> (res: (Value, usize))
    requires
        pos < tokens@.len(),
        value_token_ok(tokens@[pos as int]@),
    ensures
        res.0@ == token_value(tokens@[pos as int]@),
        res.1 == pos + 1,
{
    let token = &tokens[pos];
    let chars = chars_of(token.as_str());
    if chars.len() > 0 && chars[0] == '"' {
        return (value_from_token(token, None), pos + 1);
    }
    let parsed = parse_i32(token.as_str());
    (value_from_token(token, parsed), pos + 1)
}

/// The condition that starts at `tokens[pos]`, with the position after it, or `None` where the
/// tokens there do not form one. The forms are `! ( c )`, `( c AND c )`, `( c OR c )` and
/// `column == value`.
pub open spec fn parse_cond(toks: Seq<Seq<char>>, pos: int) -> Option<(SpecCondition, int)>
    decreases toks.len() - pos,
{
    if pos < 0 || pos >= toks.len() {
        None
    } else if toks[pos] == "!"@ {
        if pos + 1 < toks.len() && toks[pos + 1] == "("@ {
            match parse_cond(toks, pos + 2) {
                Some((inner, p)) => if 0 <= p < toks.len() && toks[p] == ")"@ {
                    Some((SpecCondition::Not(Box::new(inner)), p + 1))
                } else {
                    None
                },
                None => None,
            }
        } else {
            None
        }
    } else if toks[pos] == "("@ {
        match parse_cond(toks, pos + 1) {
            Some((left, p1)) => if pos < p1 < toks.len() {
                match parse_cond(toks, p1 + 1) {
                    Some((right, p2)) => if 0 <= p2 < toks.len() && toks[p2] == ")"@ {
                        if toks[p1] == "AND"@ {
                            Some((SpecCondition::And(Box::new(left), Box::new(right)), p2 + 1))
                        } else if toks[p1] == "OR"@ {
                            Some((SpecCondition::Or(Box::new(left), Box::new(right)), p2 + 1))
                        } else {
                            None
                        }
                    } else {
                        None
                    },
                    None => None,
                }
            } else {
                None
            },
            None => None,
        }
    } else if pos + 2 < toks.len() && toks[pos + 1] == "=="@ && value_token_ok(
        toks[pos + 2],
    ) {
        Some((SpecCondition::Equal(toks[pos], token_value(toks[pos + 2])), pos + 3))
    } else {
        None
    }
}

/// A condition always ends after the position where it starts, within the tokens.
pub proof fn lemma_parse_cond_progress(toks: Seq<Seq<char>>, pos: int)
    ensures
        parse_cond(toks, pos) matches Some((_, p)) ==> pos < p <= toks.len(),
    decreases toks.len() - pos,
{
    if 0 <= pos < toks.len() {
        if toks[pos] == "!"@ {
            if pos + 1 < toks.len() {
                lemma_parse_cond_progress(toks, pos + 2);
            }
        } else if toks[pos] == "("@ {
            lemma_parse_cond_progress(toks, pos + 1);
            if let Some((_, p1)) = parse_cond(toks, pos + 1) {
                if pos < p1 < toks.len() {
                    lemma_parse_cond_progress(toks, p1 + 1);
                }
            }
        }
    }
}

/// Parses the condition that starts at `tokens[pos]`; returns it with the position of the
/// next token, or `None` where the tokens do not form a condition.
pub fn try_parse_condition(tokens: &[String], pos: usize) -> (res: Option<(Condition, usize)>)
    ensures
        match (res, parse_cond(tokens_view(tokens@), pos as int)) {
            (Some((c, p)), Some((sc, sp))) => c@ == sc && p == sp,
            (None, None) => true,
            _ => false,
        },
    decreases tokens@.len() - pos,
{
    let ghost toks = tokens_view(tokens@);
    let n = tokens.len();
    if pos >= n {
        return None;
    }
    assert(toks[pos as int] == tokens@[pos as int]@);
    if token_is(&tokens[pos], "!") {
        if pos + 1 < n && token_is(&tokens[pos + 1], "(") {
            assert(toks[pos + 1] == tokens@[pos + 1]@);
            match try_parse_condition(tokens, pos + 2) {
                Some((inner, p)) => {
                    proof {
                        lemma_parse_cond_progress(toks, pos + 2);
                    }
                    if p < n && token_is(&tokens[p], ")") {
                        assert(toks[p as int] == tokens@[p as int]@);
                        return Some((Condition::Not(Box::new(inner)), p + 1));
                    }
                    assert(p < n ==> toks[p as int] == tokens@[p as int]@);
                    None
                },
                None => None,
            }
        } else {
            assert(pos + 1 < n ==> toks[pos + 1] == tokens@[pos + 1]@);
            None
        }
    } else if token_is(&tokens[pos], "(") {
        match try_parse_condition(tokens, pos + 1) {
            Some((left, p1)) => {
                proof {
                    lemma_parse_cond_progress(toks, pos + 1);
                }
                if p1 < n {
                    match try_parse_condition(tokens, p1 + 1) {
                        Some((right, p2)) => {
                            proof {
                                lemma_parse_cond_progress(toks, p1 + 1);
                            }
                            assert(toks[p1 as int] == tokens@[p1 as int]@);
                            assert(p2 < n ==> toks[p2 as int] == tokens@[p2 as int]@);
                            if p2 < n && token_is(&tokens[p2], ")") {
                                if token_is(&tokens[p1], "AND") {
                                    return Some(
                                        (Condition::And(Box::new(left), Box::new(right)), p2 + 1),
                                    );
                                } else if token_is(&tokens[p1], "OR") {
                                    return Some(
                                        (Condition::Or(Box::new(left), Box::new(right)), p2 + 1),
                                    );
                                }
                            }
                            None
                        },
                        None => None,
                    }
                } else {
                    None
                }
            },
            None => None,
        }
    } else {
        if n - pos > 2 && token_is(&tokens[pos + 1], "==") {
            assert(toks[pos + 1] == tokens@[pos + 1]@);
            assert(toks[pos + 2] == tokens@[pos + 2]@);
            let chars = chars_of(tokens[pos + 2].as_str());
            let m = chars.len();
            if m > 0 && chars[0] == '"' && (m < 2 || (chars[m - 1] as u32) >= 128) {
                return None;
            }
            let (value, next) = parse_value(tokens, pos + 2);
            return Some((Condition::Equal(tokens[pos].clone(), value), next));
        }
        assert(pos + 2 < n ==> toks[pos + 1] == tokens@[pos + 1]@);
        None
    }
}

/// Parses the condition that starts at `tokens[pos]`, where the tokens there form one; returns
/// it with the position of the next unread token. The forms are `!(condition)`,
/// `(condition AND condition)`, `(condition OR condition)` and `column == value`.
pub fn parse_condition(tokens: &[String], pos: usize) -> (res: (Condition, usize))
    requires
        parse_cond(tokens_view(tokens@), pos as int) is Some,
    ensures
        parse_cond(tokens_view(tokens@), pos as int) == Some((res.0@, res.1 as int)),
{
    match try_parse_condition(tokens, pos) {
        Some(res) => res,
        None => (Condition::Equal(String::new(), Value::Integer(0)), pos),
    }
}


/// The aggregation named by `kind` over `column`, if `kind` is `COUNT`, `SUM` or `AVERAGE`.
pub open spec fn aggregation_named(kind: Seq<char>, column: Seq<char>) -> Option<SpecAggregation> {
    if kind == "COUNT"@ {
        Some(SpecAggregation::Count(column))
    } else if kind == "SUM"@ {
        Some(SpecAggregation::Sum(column))
    } else if kind == "AVERAGE"@ {
        Some(SpecAggregation::Average(column))
    } else {
        None
    }
}

/// The query that the tokens spell, or `None` where they spell none:
/// `FILTER <condition> GROUP BY <column> <COUNT|SUM|AVERAGE> <column>` (later tokens are not
/// read).
pub open spec fn parse_query_tokens(toks: Seq<Seq<char>>) -> Option<SpecQuery> {
    if toks.len() > 0 && toks[0] == "FILTER"@ {
        match parse_cond(toks, 1) {
            Some((filter, p)) => if 0 <= p && p + 4 < toks.len() && toks[p] == "GROUP"@ && toks[p
                + 1] == "BY"@ {
                match aggregation_named(toks[p + 3], toks[p + 4]) {
                    Some(aggregate) => Some(
                        SpecQuery { filter, group_by: toks[p + 2], aggregate },
                    ),
                    None => None,
                }
            } else {
                None
            },
            None => None,
        }
    } else {
        None
    }
}

/// The query that a query string spells, or `None` where it spells none.
pub open spec fn spec_parse_query(s: Seq<char>) -> Option<SpecQuery> {
    parse_query_tokens(spec_tokenize(s))
}

/// Reads a query from its tokens, or returns `None` where they do not spell one.
pub fn try_parse_query_tokens(tokens: &[String]) -> (res: Option<Query>)
    ensures
        match (res, parse_query_tokens(tokens_view(tokens@))) {
            (Some(q), Some(sq)) => q@ == sq,
            (None, None) => true,
            _ => false,
        },
{
    let ghost toks = tokens_view(tokens@);
    let n = tokens.len();
    if n == 0 || !token_is(&tokens[0], "FILTER") {
        assert(n > 0 ==> toks[0] == tokens@[0]@);
        return None;
    }
    assert(toks[0] == tokens@[0]@);
    match try_parse_condition(tokens, 1) {
        Some((condition, pos)) => {
            proof {
                lemma_parse_cond_progress(toks, 1);
            }
            if n - pos <= 4 {
                return None;
            }
            assert(toks[pos as int] == tokens@[pos as int]@);
            assert(toks[pos + 1] == tokens@[pos + 1]@);
            assert(toks[pos + 2] == tokens@[pos + 2]@);
            assert(toks[pos + 3] == tokens@[pos + 3]@);
            assert(toks[pos + 4] == tokens@[pos + 4]@);
            if !token_is(&tokens[pos], "GROUP") || !token_is(&tokens[pos + 1], "BY") {
                return None;
            }
            let group_by = tokens[pos + 2].clone();
            let agg_type = &tokens[pos + 3];
            let agg_col = tokens[pos + 4].clone();
            let aggregation = if token_is(agg_type, "COUNT") {
                Aggregation::Count(agg_col)
            } else if token_is(agg_type, "SUM") {
                Aggregation::Sum(agg_col)
            } else if token_is(agg_type, "AVERAGE") {
                Aggregation::Average(agg_col)
            } else {
                return None;
            };
            Some(Query::new(condition, group_by, aggregation))
        },
        None => None,
    }
}

/// Reads a query string, or returns `None` where it does not spell a query.
pub fn try_parse_query_from_string(input: String) -> (res: Option<Query>)
    ensures
        match (res, spec_parse_query(input@)) {
            (Some(q), Some(sq)) => q@ == sq,
            (None, None) => true,
            _ => false,
        },
{
    let tokens = tokenize(input.as_str());
    if try_parse_query_tokens(tokens.as_slice()).is_some() {
        Some(parse_query_from_string(input))
    } else {
        None
    }
}

/// Parses a query string of the form
/// `FILTER <condition> GROUP BY <column> <COUNT|SUM|AVERAGE> <column>`, such as
/// `FILTER (section == "A1" OR section == "B1") GROUP BY section AVERAGE grade`.
pub fn parse_query_from_string(input: String) -> (q: Query)
    requires
        spec_parse_query(input@) is Some,
    ensures
        spec_parse_query(input@) == Some(q@),
{
    let tokens = tokenize(input.as_str());
    match try_parse_query_tokens(tokens.as_slice()) {
        Some(q) => q,
        None => Query::new(
            Condition::Equal(String::new(), Value::Integer(0)),
            String::new(),
            Aggregation::Count(String::new()),
        ),
    }
}

// ---------------------------------------------------------------------------------------------
// Laws
// ---------------------------------------------------------------------------------------------

/// A quoted token stands for the string between its quotes.
pub proof fn law_quoted_token_value(s: Seq<char>)
    ensures
        value_token_ok(seq!['"'] + s + seq!['"']),
        token_value(seq!['"'] + s + seq!['"']) == SpecValue::Str(s),
{
    let t = seq!['"'] + s + seq!['"'];
    assert(t.subrange(1, t.len() - 1) =~= s);
}

proof fn lemma_quote_end_skips(q: Seq<char>, i: int, e: int)
    requires
        0 <= i <= e < q.len(),
        q[e] == '"',
        forall|k: int| i <= k < e ==> q[k] != '"',
    ensures
        quote_end(q, i) == e,
    decreases e - i,
{
    if i < e {
        lemma_quote_end_skips(q, i + 1, e);
    }
}

/// A string written between double quotes, with no double quote inside, comes out of the
/// tokenizer as one token, quotes included, whatever the classes of its characters.
pub proof fn law_quoted_string_is_one_token(s: Seq<char>, alnum: Seq<bool>)
    requires
        forall|k: int| 0 <= k < s.len() ==> s[k] != '"',
    ensures
        tokens_from(seq!['"'] + s + seq!['"'], alnum, 0) == seq![seq!['"'] + s + seq!['"']],
{
    let q = seq!['"'] + s + seq!['"'];
    let e = q.len() - 1;
    assert forall|k: int| 1 <= k < e implies q[k] != '"' by {
        assert(q[k] == s[k - 1]);
    }
    lemma_quote_end_skips(q, 1, e);
    assert(q.subrange(1, e) =~= s);
    assert(seq!['"'] + q.subrange(1, e) + seq!['"'] =~= q);
    assert(tokens_from(q, alnum, e + 1) == Seq::<Seq<char>>::empty());
}

/// The tokens `t[p..p + len]` and `u[q..q + len]` are the same.
pub open spec fn same_tokens(t: Seq<Seq<char>>, p: int, u: Seq<Seq<char>>, q: int, len: int) -> bool {
    &&& 0 <= p && p + len <= t.len()
    &&& 0 <= q && q + len <= u.len()
    &&& forall|i: int| 0 <= i < len ==> #[trigger] u[q + i] == t[p + i]
}

/// A condition read from `t[p..k]` is read the same from any other place that holds the same
/// tokens: the result depends only on the tokens it consumes.
pub proof fn lemma_parse_cond_local(t: Seq<Seq<char>>, p: int, u: Seq<Seq<char>>, q: int)
    requires
        parse_cond(t, p) is Some,
        same_tokens(t, p, u, q, parse_cond(t, p).unwrap().1 - p),
    ensures
        parse_cond(u, q) == Some((parse_cond(t, p).unwrap().0, q + (parse_cond(t, p).unwrap().1 - p))),
    decreases t.len() - p,
{
    lemma_parse_cond_progress(t, p);
    let k = parse_cond(t, p).unwrap().1;
    let d = q - p;
    assert(u[q] == t[p]) by {
        assert(u[q + 0] == t[p + 0]);
    }
    if t[p] == "!"@ {
        let (inner, r) = parse_cond(t, p + 2).unwrap();
        lemma_parse_cond_progress(t, p + 2);
        assert(k == r + 1);
        assert(u[q + 1] == t[p + 1]);
        assert forall|i: int| 0 <= i < r - (p + 2) implies #[trigger] u[q + 2 + i] == t[p + 2 + i] by {
            assert(u[q + (i + 2)] == t[p + (i + 2)]);
        }
        lemma_parse_cond_local(t, p + 2, u, q + 2);
        assert(u[q + (r - p)] == t[p + (r - p)]);
    } else if t[p] == "("@ {
        let (left, p1) = parse_cond(t, p + 1).unwrap();
        lemma_parse_cond_progress(t, p + 1);
        let (right, p2) = parse_cond(t, p1 + 1).unwrap();
        lemma_parse_cond_progress(t, p1 + 1);
        assert forall|i: int| 0 <= i < p1 - (p + 1) implies #[trigger] u[q + 1 + i] == t[p + 1 + i] by {
            assert(u[q + (i + 1)] == t[p + (i + 1)]);
        }
        lemma_parse_cond_local(t, p + 1, u, q + 1);
        assert(k == p2 + 1);
        assert forall|i: int| 0 <= i < p2 - (p1 + 1) implies #[trigger] u[p1 + 1 + d + i]
            == t[p1 + 1 + i] by {
            assert(u[q + (p1 + 1 - p + i)] == t[p + (p1 + 1 - p + i)]);
        }
        assert(same_tokens(t, p1 + 1, u, p1 + 1 + d, p2 - (p1 + 1)));
        lemma_parse_cond_local(t, p1 + 1, u, p1 + 1 + d);
        assert(u[q + (p1 - p)] == t[p + (p1 - p)]);
        assert(u[q + (p2 - p)] == t[p + (p2 - p)]);
    } else {
        assert(u[q + 1] == t[p + 1]);
        assert(u[q + 2] == t[p + 2]);
    }
}

/// What `parse_condition` reads from `t[p..k]` it reads the same from those tokens placed between
/// any others: with `u` before them and `w` after, the same condition comes out, ending where
/// those tokens end.
pub proof fn law_parse_cond_reads_only_its_tokens(
    t: Seq<Seq<char>>,
    p: int,
    u: Seq<Seq<char>>,
    w: Seq<Seq<char>>,
)
    requires
        parse_cond(t, p) is Some,
    ensures
        ({
            let (c, k) = parse_cond(t, p).unwrap();
            &&& p < k <= t.len()
            &&& parse_cond(u + t.subrange(p, k) + w, u.len() as int) == Some(
                (c, u.len() + (k - p)),
            )
        }),
{
    lemma_parse_cond_progress(t, p);
    let k = parse_cond(t, p).unwrap().1;
    let v = u + t.subrange(p, k) + w;
    assert forall|i: int| 0 <= i < k - p implies #[trigger] v[u.len() + i] == t[p + i] by {}
    lemma_parse_cond_local(t, p, v, u.len() as int);
}

/// The digit that writes `d`, for `0 <= d < 10`.
pub open spec fn digit_char(d: int) -> char {
    seq!['0', '1', '2', '3', '4', '5', '6', '7', '8', '9'][d]
}

/// The decimal digits of `n`, most significant first, without leading zeros.
pub open spec fn decimal_text(n: nat) -> Seq<char>
    decreases n,
{
    if n < 10 {
        seq![digit_char(n as int)]
    } else {
        decimal_text(n / 10).push(digit_char((n % 10) as int))
    }
}

/// How an integer is written: a minus sign where it is negative, then its decimal digits.
pub open spec fn int_text(n: i32) -> Seq<char> {
    if n < 0 {
        seq!['-'] + decimal_text((-n) as nat)
    } else {
        decimal_text(n as nat)
    }
}

/// The token that writes a value: a string between double quotes, an integer in decimal.
pub open spec fn value_text(v: SpecValue) -> Seq<char> {
    match v {
        SpecValue::Str(s) => seq!['"'] + s + seq!['"'],
        SpecValue::Int(n) => int_text(n),
    }
}

/// The tokens that write a condition: `column == value`, `! ( c )`, `( l AND r )`,
/// `( l OR r )`.
pub open spec fn cond_tokens(c: SpecCondition) -> Seq<Seq<char>>
    decreases c,
{
    match c {
        SpecCondition::Equal(name, v) => seq![name, "=="@, value_text(v)],
        SpecCondition::Not(inner) => seq!["!"@, "("@] + cond_tokens(*inner) + seq![")"@],
        SpecCondition::And(l, r) => seq!["("@] + cond_tokens(*l) + seq!["AND"@] + cond_tokens(*r)
            + seq![")"@],
        SpecCondition::Or(l, r) => seq!["("@] + cond_tokens(*l) + seq!["OR"@] + cond_tokens(*r)
            + seq![")"@],
    }
}

/// No column named in the condition is `!` or `(`, the tokens that open a compound condition.
pub open spec fn names_readable(c: SpecCondition) -> bool
    decreases c,
{
    match c {
        SpecCondition::Equal(name, _) => name != "!"@ && name != "("@,
        SpecCondition::Not(inner) => names_readable(*inner),
        SpecCondition::And(l, r) => names_readable(*l) && names_readable(*r),
        SpecCondition::Or(l, r) => names_readable(*l) && names_readable(*r),
    }
}

proof fn lemma_digit_char(d: int)
    requires
        0 <= d < 10,
    ensures
        '0' <= digit_char(d) <= '9',
        digit_char(d) as int - '0' as int == d,
{
    let t = seq!['0', '1', '2', '3', '4', '5', '6', '7', '8', '9'];
    assert(t[0] == '0' && t[1] == '1' && t[2] == '2' && t[3] == '3' && t[4] == '4');
    assert(t[5] == '5' && t[6] == '6' && t[7] == '7' && t[8] == '8' && t[9] == '9');
}

proof fn lemma_decimal_text(n: nat)
    ensures
        is_decimal(decimal_text(n)),
        decimal_value(decimal_text(n)) == n,
    decreases n,
{
    let t = decimal_text(n);
    if n < 10 {
        lemma_digit_char(n as int);
        assert(t.drop_last() =~= Seq::<char>::empty());
        assert(decimal_value(Seq::<char>::empty()) == 0);
    } else {
        assert((n / 10) * 10 + n % 10 == n);
        let h = decimal_text(n / 10);
        lemma_decimal_text(n / 10);
        lemma_digit_char((n % 10) as int);
        assert(t.drop_last() =~= h);
        assert forall|i: int| 0 <= i < t.len() implies '0' <= #[trigger] t[i] <= '9' by {
            if i < h.len() {
                assert(t[i] == h[i]);
            }
        }
    }
}

/// An integer written in decimal reads back as itself, and its token is not quoted.
proof fn lemma_int_text(n: i32)
    ensures
        !is_quoted(int_text(n)),
        spec_parse_i32(int_text(n)) == Some(n),
{
    let t = int_text(n);
    if n < 0 {
        let d = decimal_text((-n) as nat);
        lemma_decimal_text((-n) as nat);
        assert(t.drop_first() =~= d);
        assert(t[0] == '-');
    } else {
        lemma_decimal_text(n as nat);
        assert('0' <= t[0] <= '9');
    }
}

/// The token that writes a value reads back as that value.
proof fn lemma_value_text(v: SpecValue)
    ensures
        value_token_ok(value_text(v)),
        token_value(value_text(v)) == v,
{
    match v {
        SpecValue::Str(s) => law_quoted_token_value(s),
        SpecValue::Int(n) => lemma_int_text(n),
    }
}

/// The tokens `t[p..]` begin with the tokens `x`.
pub open spec fn tokens_at(t: Seq<Seq<char>>, p: int, x: Seq<Seq<char>>) -> bool {
    &&& 0 <= p && p + x.len() <= t.len()
    &&& forall|i: int| 0 <= i < x.len() ==> #[trigger] t[p + i] == x[i]
}

proof fn lemma_tokens_at_part(t: Seq<Seq<char>>, p: int, x: Seq<Seq<char>>, a: int, y: Seq<Seq<char>>)
    requires
        tokens_at(t, p, x),
        0 <= a,
        a + y.len() <= x.len(),
        forall|i: int| 0 <= i < y.len() ==> #[trigger] x[a + i] == y[i],
    ensures
        tokens_at(t, p + a, y),
{
    assert forall|i: int| 0 <= i < y.len() implies #[trigger] t[p + a + i] == y[i] by {
        assert(t[p + (a + i)] == x[a + i]);
    }
}

proof fn lemma_parse_pair_step(
    t: Seq<Seq<char>>,
    p: int,
    l: SpecCondition,
    r: SpecCondition,
    p1: int,
    p2: int,
    and: bool,
)
    requires
        0 <= p < p1 < p2 < t.len(),
        t[p] == "("@,
        t[p1] == (if and { "AND"@ } else { "OR"@ }),
        t[p2] == ")"@,
        parse_cond(t, p + 1) == Some((l, p1)),
        parse_cond(t, p1 + 1) == Some((r, p2)),
    ensures
        parse_cond(t, p) == Some(
            (
                if and {
                    SpecCondition::And(Box::new(l), Box::new(r))
                } else {
                    SpecCondition::Or(Box::new(l), Box::new(r))
                },
                p2 + 1,
            ),
        ),
{
    reveal_strlit("!");
    reveal_strlit("(");
    reveal_strlit("AND");
    reveal_strlit("OR");
    assert("("@ != "!"@) by {
        assert("("@[0] != "!"@[0]);
    }
    assert("OR"@ != "AND"@) by {
        assert("OR"@.len() != "AND"@.len());
    }
}

proof fn lemma_parse_not_step(t: Seq<Seq<char>>, p: int, inner: SpecCondition, q: int)
    requires
        0 <= p && p + 2 <= q < t.len(),
        t[p] == "!"@,
        t[p + 1] == "("@,
        t[q] == ")"@,
        parse_cond(t, p + 2) == Some((inner, q)),
    ensures
        parse_cond(t, p) == Some((SpecCondition::Not(Box::new(inner)), q + 1)),
{
}

proof fn lemma_parse_written(c: SpecCondition, t: Seq<Seq<char>>, p: int)
    requires
        names_readable(c),
        tokens_at(t, p, cond_tokens(c)),
    ensures
        parse_cond(t, p) == Some((c, p + cond_tokens(c).len())),
    decreases c,
{
    let x = cond_tokens(c);
    assert(t[p + 0] == x[0]);
    match c {
        SpecCondition::Equal(name, v) => {
            reveal_strlit("==");
            lemma_value_text(v);
            assert(t[p + 1] == x[1]);
            assert(t[p + 2] == x[2]);
        },
        SpecCondition::Not(inner) => {
            let ti = cond_tokens(*inner);
            let a = ti.len() as int;
            assert(t[p + 1] == x[1]);
            lemma_tokens_at_part(t, p, x, 2, ti);
            lemma_parse_written(*inner, t, p + 2);
            assert(t[p + (2 + a)] == x[2 + a]);
            lemma_parse_not_step(t, p, *inner, p + 2 + a);
        },
        SpecCondition::And(l, r) => {
            let tl = cond_tokens(*l);
            let tr = cond_tokens(*r);
            let a = tl.len() as int;
            let b = tr.len() as int;
            lemma_tokens_at_part(t, p, x, 1, tl);
            lemma_parse_written(*l, t, p + 1);
            lemma_tokens_at_part(t, p, x, 2 + a, tr);
            lemma_parse_written(*r, t, p + 2 + a);
            assert(t[p + (1 + a)] == x[1 + a]);
            assert(t[p + (2 + a + b)] == x[2 + a + b]);
            lemma_parse_pair_step(t, p, *l, *r, p + 1 + a, p + 2 + a + b, true);
        },
        SpecCondition::Or(l, r) => {
            let tl = cond_tokens(*l);
            let tr = cond_tokens(*r);
            let a = tl.len() as int;
            let b = tr.len() as int;
            lemma_tokens_at_part(t, p, x, 1, tl);
            lemma_parse_written(*l, t, p + 1);
            lemma_tokens_at_part(t, p, x, 2 + a, tr);
            lemma_parse_written(*r, t, p + 2 + a);
            assert(t[p + (1 + a)] == x[1 + a]);
            assert(t[p + (2 + a + b)] == x[2 + a + b]);
            lemma_parse_pair_step(t, p, *l, *r, p + 1 + a, p + 2 + a + b, false);
        },
    }
}

/// Parsing the tokens that write a condition gives that condition back, and ends right after
/// them, whatever tokens stand before and after (where no column is named `!` or `(`).
pub proof fn law_parse_written_condition(c: SpecCondition, u: Seq<Seq<char>>, w: Seq<Seq<char>>)
    requires
        names_readable(c),
    ensures
        parse_cond(u + cond_tokens(c) + w, u.len() as int) == Some(
            (c, u.len() + cond_tokens(c).len() as int),
        ),
{
    let t = u + cond_tokens(c) + w;
    assert forall|i: int| 0 <= i < cond_tokens(c).len() implies #[trigger] t[u.len() + i]
        == cond_tokens(c)[i] by {}
    lemma_parse_written(c, t, u.len() as int);
}

/// The tokens that write an aggregation: its kind, then its column.
pub open spec fn aggregation_tokens(a: SpecAggregation) -> Seq<Seq<char>> {
    match a {
        SpecAggregation::Count(c) => seq!["COUNT"@, c],
        SpecAggregation::Sum(c) => seq!["SUM"@, c],
        SpecAggregation::Average(c) => seq!["AVERAGE"@, c],
    }
}

/// The tokens that write a query: `FILTER <condition> GROUP BY <column> <kind> <column>`.
pub open spec fn query_tokens(q: SpecQuery) -> Seq<Seq<char>> {
    seq!["FILTER"@] + cond_tokens(q.filter) + seq!["GROUP"@, "BY"@, q.group_by] + aggregation_tokens(
        q.aggregate,
    )
}

/// Parsing the tokens that write a query gives that query back (where no column of its filter
/// is named `!` or `(`).
pub proof fn law_parse_written_query(q: SpecQuery)
    requires
        names_readable(q.filter),
    ensures
        parse_query_tokens(query_tokens(q)) == Some(q),
{
    reveal_strlit("COUNT");
    reveal_strlit("SUM");
    reveal_strlit("AVERAGE");
    let t = query_tokens(q);
    let x = cond_tokens(q.filter);
    let p = 1 + x.len() as int;
    assert forall|i: int| 0 <= i < x.len() implies #[trigger] t[1 + i] == x[i] by {}
    lemma_parse_written(q.filter, t, 1);
    assert(t[0] == "FILTER"@);
    assert(t[p] == "GROUP"@);
    assert(t[p + 1] == "BY"@);
    assert(t[p + 2] == q.group_by);
    assert(t[p + 3] == aggregation_tokens(q.aggregate)[0]);
    assert(t[p + 4] == aggregation_tokens(q.aggregate)[1]);
    assert("SUM"@ != "COUNT"@) by {
        assert("SUM"@.len() != "COUNT"@.len());
    }
    assert("AVERAGE"@ != "COUNT"@) by {
        assert("AVERAGE"@.len() != "COUNT"@.len());
    }
    assert("AVERAGE"@ != "SUM"@) by {
        assert("AVERAGE"@.len() != "SUM"@.len());
    }
}

/// The tokens joined by single spaces.
pub open spec fn join_tokens(ts: Seq<Seq<char>>) -> Seq<char>
    decreases ts.len(),
{
    if ts.len() == 0 {
        Seq::empty()
    } else if ts.len() == 1 {
        ts[0]
    } else {
        ts[0] + seq![' '] + join_tokens(ts.drop_first())
    }
}

/// The tokens of `s` when `f` says which characters are alphanumeric.
pub open spec fn tokens_with(s: Seq<char>, f: spec_fn(char) -> bool) -> Seq<Seq<char>> {
    tokens_from(s, s.map_values(f), 0)
}

/// `t` has the shape of a token: one of `(`, `)`, `!`, `==`; a quoted string without a quote
/// inside; or a word whose first character starts no other kind of token.
pub open spec fn token_shape(t: Seq<char>, f: spec_fn(char) -> bool) -> bool {
    ||| t == seq!['('] || t == seq![')'] || t == seq!['!']
    ||| t == seq!['=', '=']
    ||| {
        &&& t.len() >= 2
        &&& t[0] == '"'
        &&& t.last() == '"'
        &&& forall|k: int| 0 < k < t.len() - 1 ==> t[k] != '"'
    }
    ||| {
        &&& t.len() >= 1
        &&& t[0] != ' ' && t[0] != '\t' && t[0] != '(' && t[0] != ')' && t[0] != '!' && t[0] != '='
            && t[0] != '"'
        &&& forall|k: int| 0 <= k < t.len() ==> f(#[trigger] t[k]) || t[k] == '_'
    }
}

proof fn lemma_quote_end_no_quote(s: Seq<char>, i: int, k: int)
    requires
        0 <= i <= k < quote_end(s, i),
        quote_end(s, i) <= s.len(),
    ensures
        s[k] != '"',
    decreases k - i,
{
    if i < k {
        lemma_quote_end_no_quote(s, i + 1, k);
    }
}

proof fn lemma_word_end_chars(s: Seq<char>, a: Seq<bool>, i: int, k: int)
    requires
        0 <= i <= k < word_end(s, a, i),
        word_end(s, a, i) <= s.len(),
    ensures
        word_char(s, a, k),
    decreases k - i,
{
    if i < k {
        lemma_word_end_chars(s, a, i + 1, k);
    }
}

proof fn lemma_word_end_at(s: Seq<char>, a: Seq<bool>, i: int, e: int)
    requires
        0 <= i <= e <= s.len(),
        forall|k: int| i <= k < e ==> word_char(s, a, k),
        e == s.len() || !word_char(s, a, e),
    ensures
        word_end(s, a, i) == e,
    decreases e - i,
{
    if i < e {
        lemma_word_end_at(s, a, i + 1, e);
    }
}

/// Every token of `s` has the shape of a token.
proof fn lemma_tokens_shape(s: Seq<char>, f: spec_fn(char) -> bool, i: int)
    requires
        0 <= i,
    ensures
        forall|k: int|
            0 <= k < tokens_from(s, s.map_values(f), i).len() ==> token_shape(
                #[trigger] tokens_from(s, s.map_values(f), i)[k],
                f,
            ),
    decreases s.len() - i,
{
    let a = s.map_values(f);
    if i < s.len() {
        let c = s[i];
        let ts = tokens_from(s, a, i);
        if c == ' ' || c == '\t' {
            lemma_tokens_shape(s, f, i + 1);
        } else if c == '(' || c == ')' || c == '!' {
            lemma_tokens_shape(s, f, i + 1);
            assert forall|k: int| 0 <= k < ts.len() implies token_shape(#[trigger] ts[k], f) by {
                if k > 0 {
                    assert(ts[k] == tokens_from(s, a, i + 1)[k - 1]);
                }
            }
        } else if c == '=' {
            if i + 1 < s.len() && s[i + 1] == '=' {
                lemma_tokens_shape(s, f, i + 2);
                assert forall|k: int| 0 <= k < ts.len() implies token_shape(#[trigger] ts[k], f) by {
                    if k > 0 {
                        assert(ts[k] == tokens_from(s, a, i + 2)[k - 1]);
                    }
                }
            } else {
                lemma_tokens_shape(s, f, i + 1);
            }
        } else if c == '"' {
            lemma_quote_end(s, i + 1);
            let e = quote_end(s, i + 1);
            let tok = seq!['"'] + s.subrange(i + 1, e) + seq!['"'];
            assert forall|k: int| 0 < k < tok.len() - 1 implies tok[k] != '"' by {
                assert(tok[k] == s[i + k]);
                lemma_quote_end_no_quote(s, i + 1, i + k);
            }
            assert(token_shape(tok, f));
            if e < s.len() {
                lemma_tokens_shape(s, f, e + 1);
                assert forall|k: int| 0 <= k < ts.len() implies token_shape(#[trigger] ts[k], f) by {
                    if k > 0 {
                        assert(ts[k] == tokens_from(s, a, e + 1)[k - 1]);
                    }
                }
            }
        } else if word_char(s, a, i) {
            lemma_word_end(s, a, i);
            let e = word_end(s, a, i);
            let tok = s.subrange(i, e);
            assert forall|k: int| 0 <= k < tok.len() implies f(#[trigger] tok[k]) || tok[k] == '_' by {
                lemma_word_end_chars(s, a, i, i + k);
            }
            assert(token_shape(tok, f));
            lemma_tokens_shape(s, f, e);
            assert forall|k: int| 0 <= k < ts.len() implies token_shape(#[trigger] ts[k], f) by {
                if k > 0 {
                    assert(ts[k] == tokens_from(s, a, e)[k - 1]);
                }
            }
        } else {
            lemma_tokens_shape(s, f, i + 1);
        }
    }
}

/// Tokenizing from inside `x + y` is tokenizing `y` from the same place.
proof fn lemma_tokens_shift(x: Seq<char>, y: Seq<char>, f: spec_fn(char) -> bool, j: int)
    requires
        0 <= j <= y.len(),
    ensures
        tokens_from(x + y, (x + y).map_values(f), x.len() + j) == tokens_from(y, y.map_values(f), j),
    decreases y.len() - j,
{
    let s = x + y;
    let a = s.map_values(f);
    let b = y.map_values(f);
    let o = x.len() as int;
    if j < y.len() {
        let c = y[j];
        assert(s[o + j] == c);
        if c == ' ' || c == '\t' || c == '(' || c == ')' || c == '!' {
            lemma_tokens_shift(x, y, f, j + 1);
        } else if c == '=' {
            if j + 1 < y.len() {
                assert(s[o + j + 1] == y[j + 1]);
            }
            if j + 1 < y.len() && y[j + 1] == '=' {
                lemma_tokens_shift(x, y, f, j + 2);
            } else {
                lemma_tokens_shift(x, y, f, j + 1);
            }
        } else if c == '"' {
            lemma_quote_end(y, j + 1);
            let e = quote_end(y, j + 1);
            lemma_quote_shift(x, y, j + 1);
            assert(s.subrange(o + j + 1, o + e) =~= y.subrange(j + 1, e));
            if e < y.len() {
                lemma_tokens_shift(x, y, f, e + 1);
            }
        } else if word_char(y, b, j) {
            assert(word_char(s, a, o + j));
            lemma_word_end(y, b, j + 1);
            let e = word_end(y, b, j);
            lemma_word_shift(x, y, f, j);
            assert(s.subrange(o + j, o + e) =~= y.subrange(j, e));
            lemma_tokens_shift(x, y, f, e);
        } else {
            assert(!word_char(s, a, o + j));
            lemma_tokens_shift(x, y, f, j + 1);
        }
    }
}

proof fn lemma_quote_shift(x: Seq<char>, y: Seq<char>, j: int)
    requires
        0 <= j <= y.len(),
    ensures
        quote_end(x + y, x.len() + j) == x.len() + quote_end(y, j),
    decreases y.len() - j,
{
    if j < y.len() {
        assert((x + y)[x.len() + j] == y[j]);
        lemma_quote_shift(x, y, j + 1);
    }
}

proof fn lemma_word_shift(x: Seq<char>, y: Seq<char>, f: spec_fn(char) -> bool, j: int)
    requires
        0 <= j <= y.len(),
    ensures
        word_end(x + y, (x + y).map_values(f), x.len() + j) == x.len() + word_end(
            y,
            y.map_values(f),
            j,
        ),
    decreases y.len() - j,
{
    if j < y.len() {
        assert((x + y)[x.len() + j] == y[j]);
        lemma_word_shift(x, y, f, j + 1);
    }
}

/// A string that starts with a token, followed by nothing or by a space, tokenizes into that
/// token and then what follows it.
proof fn lemma_first_token(t: Seq<char>, r: Seq<char>, f: spec_fn(char) -> bool)
    requires
        token_shape(t, f),
        !f(' '),
        r.len() == 0 || r[0] == ' ',
    ensures
        tokens_from(t + r, (t + r).map_values(f), 0) == seq![t] + tokens_from(
            t + r,
            (t + r).map_values(f),
            t.len() as int,
        ),
{
    let y = t + r;
    let b = y.map_values(f);
    let n = t.len() as int;
    assert(y[0] == t[0]);
    if t == seq!['('] || t == seq![')'] || t == seq!['!'] {
        assert(seq![y[0]] =~= t);
    } else if t == seq!['=', '='] {
        assert(y[1] == t[1]);
    } else if t.len() >= 2 && t[0] == '"' && t.last() == '"' && forall|k: int|
        0 < k < t.len() - 1 ==> t[k] != '"' {
        assert forall|k: int| 1 <= k < n - 1 implies y[k] != '"' by {
            assert(y[k] == t[k]);
        }
        assert(y[n - 1] == t[n - 1]);
        lemma_quote_end_skips(y, 1, n - 1);
        assert(seq!['"'] + y.subrange(1, n - 1) + seq!['"'] =~= t);
    } else {
        assert forall|k: int| 0 <= k < n implies word_char(y, b, k) by {
            assert(y[k] == t[k]);
            assert(f(t[k]) || t[k] == '_');
        }
        if n < y.len() {
            assert(y[n] == r[0]);
        }
        lemma_word_end_at(y, b, 0, n);
        assert(y.subrange(0, n) =~= t);
    }
}

/// Tokenizing well-shaped tokens joined by spaces gives them back, where a space is not
/// alphanumeric.
proof fn lemma_join_tokens(ts: Seq<Seq<char>>, f: spec_fn(char) -> bool)
    requires
        !f(' '),
        forall|k: int| 0 <= k < ts.len() ==> token_shape(#[trigger] ts[k], f),
    ensures
        tokens_with(join_tokens(ts), f) == ts,
    decreases ts.len(),
{
    let j = join_tokens(ts);
    if ts.len() == 0 {
    } else if ts.len() == 1 {
        assert(ts[0] == j);
        lemma_first_token(ts[0], Seq::empty(), f);
        assert(ts[0] + Seq::<char>::empty() =~= ts[0]);
        assert(seq![ts[0]] =~= ts);
    } else {
        let t = ts[0];
        let tail = ts.drop_first();
        let r = seq![' '] + join_tokens(tail);
        assert(j =~= t + r);
        lemma_first_token(t, r, f);
        assert(j[t.len() as int] == ' ');
        assert(tokens_from(j, j.map_values(f), t.len() as int) == tokens_from(
            j,
            j.map_values(f),
            t.len() + 1 as int,
        ));
        assert forall|k: int| 0 <= k < tail.len() implies token_shape(#[trigger] tail[k], f) by {
            assert(tail[k] == ts[k + 1]);
        }
        lemma_join_tokens(tail, f);
        let x = t + seq![' '];
        assert(j =~= x + join_tokens(tail));
        lemma_tokens_shift(x, join_tokens(tail), f, 0);
        assert(seq![t] + tail =~= ts);
    }
}

/// Joining the tokens of any string by single spaces and tokenizing again gives the same
/// tokens, whenever a space is not alphanumeric.
pub proof fn law_retokenize_joined(s: Seq<char>, f: spec_fn(char) -> bool)
    requires
        !f(' '),
    ensures
        tokens_with(join_tokens(tokens_with(s, f)), f) == tokens_with(s, f),
{
    lemma_tokens_shape(s, f, 0);
    lemma_join_tokens(tokens_with(s, f), f);
}

/// The same for the tokens of a query string: joining them by spaces and tokenizing again gives
/// them back, since std does not call a space alphanumeric.
pub proof fn law_retokenize_query(s: Seq<char>)
    requires
        !char_is_alphanumeric(' '),
    ensures
        spec_tokenize(join_tokens(spec_tokenize(s))) == spec_tokenize(s),
{
    let f = |c: char| char_is_alphanumeric(c);
    assert(alnum_classes(s) =~= s.map_values(f));
    law_retokenize_joined(s, f);
    let j = join_tokens(spec_tokenize(s));
    assert(alnum_classes(j) =~= j.map_values(f));
}

} // verus!
