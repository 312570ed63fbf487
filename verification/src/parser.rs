//! The prerequisite parser: turns a free-text prerequisite description
//! into a `PrerequisiteTree`.
//!
//! Grammar (after tokenizing): an optional `<word> :` label is skipped;
//! an expression is a list of items combined strictly left-to-right, a
//! comma or the word `and` forming a conjunction and the word `or` a
//! disjunction; an item is a parenthesized expression, a course
//! reference (a subject word followed by a number), or a minimum-credit
//! clause `<N> (course|university) units in <subject-list> [at the
//! <level-list> level]`; a subject of the list may be written as a full
//! name followed by its code in parentheses, and only the code is kept.
//! A trailing period is optional.
use vstd::prelude::*;

use crate::prerequisite_tree::CourseNode;
use crate::prerequisite_tree::LogicNode;
use crate::prerequisite_tree::MinCreditNode;
use crate::prerequisite_tree::PrerequisiteTree;
use crate::prerequisite_tree::TreeView;

verus! {

/// A lexical token of a prerequisite description.
#[derive(Debug)]
pub enum Token {
    Word(String),
    Number(u32),
    Comma,
    LParen,
    RParen,
    Period,
    Colon,
}

/// Mathematical model of a token.
pub ghost enum TokenView {
    Word(Seq<char>),
    Number(u32),
    Comma,
    LParen,
    RParen,
    Period,
    Colon,
}

impl DeepView for Token {
    type V = TokenView;

    open spec fn deep_view(&self) -> TokenView {
        match self {
            Token::Word(w) => TokenView::Word(w@),
            Token::Number(n) => TokenView::Number(*n),
            Token::Comma => TokenView::Comma,
            Token::LParen => TokenView::LParen,
            Token::RParen => TokenView::RParen,
            Token::Period => TokenView::Period,
            Token::Colon => TokenView::Colon,
        }
    }
}

/// An ASCII letter.
pub open spec fn is_letter(c: char) -> bool {
    (('a' as u32) <= (c as u32) && (c as u32) <= ('z' as u32)) || (('A' as u32) <= (c as u32) && (
    c as u32) <= ('Z' as u32))
}

/// An ASCII decimal digit.
pub open spec fn is_digit(c: char) -> bool {
    ('0' as u32) <= (c as u32) && (c as u32) <= ('9' as u32)
}

/// Whitespace skipped between tokens.
pub open spec fn is_space(c: char) -> bool {
    c == ' ' || c == '\t' || c == '\r' || c == '\n'
}

/// The length of the leading run of letters.
pub open spec fn letter_run(s: Seq<char>) -> nat
    decreases s.len(),
{
    if s.len() > 0 && is_letter(s[0]) {
        1 + letter_run(s.drop_first())
    } else {
        0
    }
}

/// The length of the leading run of digits.
pub open spec fn digit_run(s: Seq<char>) -> nat
    decreases s.len(),
{
    if s.len() > 0 && is_digit(s[0]) {
        1 + digit_run(s.drop_first())
    } else {
        0
    }
}

/// The numeric value of a digit sequence, most significant first.
pub open spec fn digits_value(s: Seq<char>) -> int
    decreases s.len(),
{
    if s.len() == 0 {
        0
    } else {
        digits_value(s.drop_last()) * 10 + ((s.last() as u32) - ('0' as u32))
    }
}

/// Tokenizes a description: words, numbers, commas, parentheses,
/// periods and colons, with whitespace skipped; any other character, or
/// a number too large to represent, refuses the whole input.
pub open spec fn spec_tokenize(s: Seq<char>) -> Option<Seq<TokenView>>
    decreases s.len(),
    via spec_tokenize_decreases
{
    if s.len() == 0 {
        Some(Seq::empty())
    } else {
        let c = s[0];
        if is_space(c) {
            spec_tokenize(s.drop_first())
        } else if is_letter(c) {
            let k = letter_run(s) as int;
            match spec_tokenize(s.skip(k)) {
                Some(ts) => Some(seq![TokenView::Word(s.take(k))] + ts),
                None => None,
            }
        } else if is_digit(c) {
            let k = digit_run(s) as int;
            if digits_value(s.take(k)) > u32::MAX {
                None
            } else {
                match spec_tokenize(s.skip(k)) {
                    Some(ts) => Some(
                        seq![TokenView::Number(digits_value(s.take(k)) as u32)] + ts,
                    ),
                    None => None,
                }
            }
        } else {
            let tok = if c == ',' {
                Some(TokenView::Comma)
            } else if c == '(' {
                Some(TokenView::LParen)
            } else if c == ')' {
                Some(TokenView::RParen)
            } else if c == '.' {
                Some(TokenView::Period)
            } else if c == ':' {
                Some(TokenView::Colon)
            } else {
                None
            };
            match tok {
                Some(t) => match spec_tokenize(s.drop_first()) {
                    Some(ts) => Some(seq![t] + ts),
                    None => None,
                },
                None => None,
            }
        }
    }
}

#[via_fn]
proof fn spec_tokenize_decreases(s: Seq<char>) {
    if s.len() > 0 {
        lemma_run_bounds(s);
    }
}

/// A leading run never runs past the end of the sequence.
proof fn lemma_run_bounds(s: Seq<char>)
    ensures
        letter_run(s) <= s.len(),
        digit_run(s) <= s.len(),
    decreases s.len(),
{
    if s.len() > 0 {
        lemma_run_bounds(s.drop_first());
    }
}

/// A run of letters scanned forward ends exactly where the recursive
/// run length says.
proof fn lemma_letter_run_at(s: Seq<char>, i: int, j: int)
    requires
        0 <= i <= j <= s.len(),
        forall|k: int| i <= k < j ==> is_letter(s[k]),
        j < s.len() ==> !is_letter(s[j]),
    ensures
        letter_run(s.skip(i)) == j - i,
    decreases j - i,
{
    if i == j {
        if s.skip(i).len() > 0 {
            assert(s.skip(i)[0] == s[j]);
        }
    } else {
        assert(s.skip(i)[0] == s[i]);
        assert(s.skip(i).drop_first() =~= s.skip(i + 1));
        lemma_letter_run_at(s, i + 1, j);
    }
}

/// A run of digits scanned forward ends exactly where the recursive
/// run length says.
proof fn lemma_digit_run_at(s: Seq<char>, i: int, j: int)
    requires
        0 <= i <= j <= s.len(),
        forall|k: int| i <= k < j ==> is_digit(s[k]),
        j < s.len() ==> !is_digit(s[j]),
    ensures
        digit_run(s.skip(i)) == j - i,
    decreases j - i,
{
    if i == j {
        if s.skip(i).len() > 0 {
            assert(s.skip(i)[0] == s[j]);
        }
    } else {
        assert(s.skip(i)[0] == s[i]);
        assert(s.skip(i).drop_first() =~= s.skip(i + 1));
        lemma_digit_run_at(s, i + 1, j);
    }
}

/// Prepending tokens distributes over the optional tail.
pub open spec fn opt_prepend(ts: Seq<TokenView>, rest: Option<Seq<TokenView>>) -> Option<
    Seq<TokenView>,
> {
    match rest {
        Some(r) => Some(ts + r),
        None => None,
    }
}

/// Tokenizes the input, or reports the character position of the first
/// character no token can start with (or of a number too large). On
/// success the second vector holds where in the text each token starts.
pub(crate) fn tokenize(input: &str) -> (r: Result<(Vec<Token>, Vec<usize>), usize>)
    ensures
        r matches Ok(p) ==> spec_tokenize(input@) == Some(p.0.deep_view()) && p.1@.len()
            == p.0@.len() && forall|k: int| 0 <= k < p.1@.len() ==> p.1@[k] <= input@.len(),
        r matches Err(off) ==> spec_tokenize(input@) is None && off <= input@.len(),
{
    let ghost s = input@;
    let n = input.unicode_len();
    let mut tokens: Vec<Token> = Vec::new();
    let mut starts: Vec<usize> = Vec::new();
    let mut i: usize = 0;
    proof {
        assert(tokens.deep_view() =~= Seq::<TokenView>::empty());
        match spec_tokenize(s) {
            Some(ts) => {
                assert(tokens.deep_view() + ts =~= ts);
                assert(s.skip(0) =~= s);
            },
            None => {
                assert(s.skip(0) =~= s);
            },
        }
    }
    while i < n
        invariant
            0 <= i <= n,
            n == s.len(),
            s == input@,
            starts@.len() == tokens@.len(),
            forall|k: int| 0 <= k < starts@.len() ==> starts@[k] <= n,
            spec_tokenize(s) == opt_prepend(tokens.deep_view(), spec_tokenize(s.skip(i as int))),
        decreases n - i,
    {
        let ghost toks_before = tokens.deep_view();
        let c = input.get_char(i);
        proof {
            assert(s.skip(i as int)[0] == s[i as int]);
        }
        let u = c as u32;
        if c == ' ' || c == '\t' || c == '\r' || c == '\n' {
            proof {
                assert(s.skip(i as int).drop_first() =~= s.skip(i as int + 1));
            }
            i += 1;
        } else if (('a' as u32) <= u && u <= ('z' as u32)) || (('A' as u32) <= u && u <= (
        'Z' as u32)) {
            // a word: the maximal run of letters
            let start = i;
            let mut j = i + 1;
            while j < n
                invariant
                    start < j <= n,
                    n == s.len(),
                    s == input@,
                    forall|k: int| start <= k < j ==> is_letter(s[k]),
                ensures
                    start < j <= n,
                    forall|k: int| start <= k < j ==> is_letter(s[k]),
                    j < n ==> !is_letter(s[j as int]),
                decreases n - j,
            {
                let d = input.get_char(j);
                let du = d as u32;
                if (('a' as u32) <= du && du <= ('z' as u32)) || (('A' as u32) <= du && du <= (
                'Z' as u32)) {
                    j += 1;
                } else {
                    break;
                }
            }
            proof {
                lemma_letter_run_at(s, i as int, j as int);
            }
            let word = input.substring_char(start, j).to_owned();
            proof {
                assert(word@ =~= s.skip(i as int).take(j - i));
            }
            tokens.push(Token::Word(word));
            starts.push(start);
            proof {
                let tv = TokenView::Word(s.skip(i as int).take(j - i));
                assert(tokens.deep_view() =~= toks_before.push(tv));
                assert(s.skip(i as int).skip(j - i) =~= s.skip(j as int));
                match spec_tokenize(s.skip(j as int)) {
                    Some(ts) => {
                        assert(toks_before + (seq![tv] + ts) =~= tokens.deep_view() + ts);
                    },
                    None => {},
                }
            }
            i = j;
        } else if ('0' as u32) <= u && u <= ('9' as u32) {
            // a number: the maximal run of digits, refused when it does
            // not fit
            let start = i;
            let mut j = i + 1;
            while j < n
                invariant
                    start < j <= n,
                    n == s.len(),
                    s == input@,
                    forall|k: int| start <= k < j ==> is_digit(s[k]),
                ensures
                    start < j <= n,
                    forall|k: int| start <= k < j ==> is_digit(s[k]),
                    j < n ==> !is_digit(s[j as int]),
                decreases n - j,
            {
                let d = input.get_char(j);
                let du = d as u32;
                if ('0' as u32) <= du && du <= ('9' as u32) {
                    j += 1;
                } else {
                    break;
                }
            }
            proof {
                lemma_digit_run_at(s, i as int, j as int);
            }
            // accumulate the value, bailing out as soon as it no longer
            // fits: the value only grows with more digits
            let mut acc: u64 = 0;
            let mut k = start;
            while k < j
                invariant
                    start <= k <= j <= n,
                    i == start,
                    n == s.len(),
                    s == input@,
                    forall|m: int| start <= m < j ==> is_digit(s[m]),
                    acc <= u32::MAX,
                    acc == digits_value(s.subrange(start as int, k as int)),
                    digit_run(s.skip(i as int)) == j - i,
                    spec_tokenize(s) == opt_prepend(
                        tokens.deep_view(),
                        spec_tokenize(s.skip(i as int)),
                    ),
                decreases j - k,
            {
                let d = input.get_char(k);
                let dv = (d as u32) - ('0' as u32);
                proof {
                    assert(is_digit(s[k as int]));
                    assert(s.subrange(start as int, k as int + 1).drop_last() =~= s.subrange(
                        start as int,
                        k as int,
                    ));
                    assert(s.subrange(start as int, k as int + 1).last() == s[k as int]);
                }
                acc = acc * 10 + (dv as u64);
                if acc > (u32::MAX as u64) {
                    proof {
                        assert(acc == digits_value(s.subrange(start as int, k as int + 1)));
                        lemma_digits_value_monotone(s, start as int, k as int + 1, j as int);
                        assert(digits_value(s.subrange(start as int, j as int)) > u32::MAX);
                        assert(s.skip(start as int).take(j - start) =~= s.subrange(
                            start as int,
                            j as int,
                        ));
                        assert(digits_value(s.skip(i as int).take(j - i)) > u32::MAX);
                        assert(digit_run(s.skip(i as int)) == j - i);
                        assert(s.skip(i as int).len() > 0);
                        assert(s.skip(i as int)[0] == s[i as int]);
                        assert(is_digit(s[i as int]));
                        assert(!is_space(s[i as int]) && !is_letter(s[i as int]));
                        assert(spec_tokenize(s.skip(i as int)) is None);
                    }
                    return Err(start);
                }
                k += 1;
            }
            proof {
                assert(s.skip(start as int).take(j - start) =~= s.subrange(
                    start as int,
                    j as int,
                ));
            }
            tokens.push(Token::Number(acc as u32));
            starts.push(start);
            proof {
                let tv = TokenView::Number(acc as u32);
                assert(tokens.deep_view() =~= toks_before.push(tv));
                assert(s.skip(i as int).skip(j - i) =~= s.skip(j as int));
                match spec_tokenize(s.skip(j as int)) {
                    Some(ts) => {
                        assert(toks_before + (seq![tv] + ts) =~= tokens.deep_view() + ts);
                    },
                    None => {},
                }
            }
            i = j;
        } else if c == ',' || c == '(' || c == ')' || c == '.' || c == ':' {
            let tok = if c == ',' {
                Token::Comma
            } else if c == '(' {
                Token::LParen
            } else if c == ')' {
                Token::RParen
            } else if c == '.' {
                Token::Period
            } else {
                Token::Colon
            };
            let ghost tv = tok.deep_view();
            tokens.push(tok);
            starts.push(i);
            proof {
                assert(tokens.deep_view() =~= toks_before.push(tv));
                assert(s.skip(i as int).drop_first() =~= s.skip(i as int + 1));
                match spec_tokenize(s.skip(i as int + 1)) {
                    Some(ts) => {
                        assert(toks_before + (seq![tv] + ts) =~= tokens.deep_view() + ts);
                    },
                    None => {},
                }
            }
            i += 1;
        } else {
            return Err(i);
        }
    }
    proof {
        assert(s.skip(n as int) =~= Seq::<char>::empty());
        assert(tokens.deep_view() + Seq::<TokenView>::empty() =~= tokens.deep_view());
    }
    Ok((tokens, starts))
}

/// More digits never shrink the value.
proof fn lemma_digits_value_monotone(s: Seq<char>, start: int, k: int, j: int)
    requires
        0 <= start <= k <= j <= s.len(),
        forall|m: int| start <= m < j ==> is_digit(s[m]),
    ensures
        digits_value(s.subrange(start, j)) >= digits_value(s.subrange(start, k)),
        digits_value(s.subrange(start, k)) >= 0,
    decreases j - k,
{
    if k == start {
        assert(s.subrange(start, start) =~= Seq::<char>::empty());
        lemma_digits_value_nonneg(s, start, j);
    } else if k < j {
        lemma_digits_value_monotone(s, start, k + 1, j);
        assert(s.subrange(start, k + 1).drop_last() =~= s.subrange(start, k));
        assert(s.subrange(start, k + 1).last() == s[k]);
        lemma_digits_value_nonneg(s, start, k);
    } else {
        lemma_digits_value_nonneg(s, start, k);
    }
}

/// Whether a token is the given keyword.
pub open spec fn tok_is_word(t: TokenView, w: Seq<char>) -> bool {
    t matches TokenView::Word(x) && x == w
}

/// Words that end a subject name: they belong to the surrounding
/// clause, never to the name itself.
pub open spec fn is_reserved(w: Seq<char>) -> bool {
    w == "or"@ || w == "and"@ || w == "at"@
}

/// How many leading tokens are non-reserved words: the words a subject
/// name may be written with.
pub open spec fn subject_words_len(t: Seq<TokenView>) -> nat
    decreases t.len(),
{
    if t.len() > 0 && (t[0] matches TokenView::Word(w) && !is_reserved(w)) {
        1 + subject_words_len(t.drop_first())
    } else {
        0
    }
}

/// One subject of a subject list: either a single subject code, or a
/// full name followed by its code in parentheses — only the code is
/// kept.
pub open spec fn sp_subject(t: Seq<TokenView>) -> Option<(Seq<char>, Seq<TokenView>)> {
    let k = subject_words_len(t) as int;
    if k == 0 {
        None
    } else if t.len() >= k + 3 && t[k] is LParen && t[k + 1] is Word && t[k + 2] is RParen {
        Some((t[k + 1]->Word_0, t.skip(k + 3)))
    } else if k == 1 {
        Some((t[0]->Word_0, t.skip(1)))
    } else {
        None
    }
}

/// Whether a subject list continues after a separator: the next token
/// starts a subject and does not start a course reference.
pub open spec fn continues_subject(t: Seq<TokenView>) -> bool {
    &&& t.len() > 0
    &&& (t[0] matches TokenView::Word(w) && !is_reserved(w))
    &&& !(t.len() >= 2 && t[1] is Number)
}

/// A comma- or `or`-separated list of subjects.
pub open spec fn sp_subject_list(t: Seq<TokenView>) -> Option<(Seq<Seq<char>>, Seq<TokenView>)>
    decreases t.len(),
{
    match sp_subject(t) {
        None => None,
        Some((code, rest)) => {
            if rest.len() < t.len() && rest.len() > 0 && (rest[0] is Comma || tok_is_word(
                rest[0],
                "or"@,
            )) && continues_subject(rest.skip(1)) {
                match sp_subject_list(rest.skip(1)) {
                    Some((codes, rest2)) => Some((seq![code] + codes, rest2)),
                    None => None,
                }
            } else {
                Some((seq![code], rest))
            }
        },
    }
}

/// A comma- or `or`-separated list of 4-digit level markers.
pub open spec fn sp_level_list(t: Seq<TokenView>) -> Option<(Seq<u32>, Seq<TokenView>)>
    decreases t.len(),
{
    if t.len() > 0 && t[0] is Number {
        let n = t[0]->Number_0;
        let rest = t.skip(1);
        if rest.len() >= 2 && (rest[0] is Comma || tok_is_word(rest[0], "or"@)) && rest[1]
            is Number {
            match sp_level_list(rest.skip(1)) {
                Some((levels, rest2)) => Some((seq![n] + levels, rest2)),
                None => None,
            }
        } else {
            Some((seq![n], rest))
        }
    } else {
        None
    }
}

/// The rest of a minimum-credit clause after its leading number:
/// `(course|university) units in <subject-list> [at the <level-list>
/// level]`.
pub open spec fn sp_min_credit(credits: u32, t: Seq<TokenView>) -> Option<
    (TreeView, Seq<TokenView>),
> {
    if t.len() >= 3 && (tok_is_word(t[0], "course"@) || tok_is_word(t[0], "university"@))
        && tok_is_word(t[1], "units"@) && tok_is_word(t[2], "in"@) {
        match sp_subject_list(t.skip(3)) {
            None => None,
            Some((subjects, rest)) => {
                if rest.len() >= 2 && tok_is_word(rest[0], "at"@) && tok_is_word(rest[1], "the"@) {
                    match sp_level_list(rest.skip(2)) {
                        None => None,
                        Some((levels, rest2)) => {
                            if rest2.len() >= 1 && tok_is_word(rest2[0], "level"@) {
                                Some(
                                    (
                                        TreeView::MinCredit {
                                            credits,
                                            subjects: Some(subjects),
                                            levels: Some(levels),
                                        },
                                        rest2.skip(1),
                                    ),
                                )
                            } else {
                                None
                            }
                        },
                    }
                } else {
                    Some(
                        (
                            TreeView::MinCredit { credits, subjects: Some(subjects), levels: None },
                            rest,
                        ),
                    )
                }
            },
        }
    } else {
        None
    }
}

/// One item of an expression: a parenthesized sub-expression, a course
/// reference, or a minimum-credit clause.
pub open spec fn sp_primary(t: Seq<TokenView>) -> Option<(TreeView, Seq<TokenView>)>
    decreases t.len(), 0nat,
{
    if t.len() == 0 {
        None
    } else {
        match t[0] {
            TokenView::LParen => match sp_expr(t.skip(1)) {
                Some((tree, rest)) => if rest.len() > 0 && rest[0] is RParen {
                    Some((tree, rest.skip(1)))
                } else {
                    None
                },
                None => None,
            },
            TokenView::Word(w) => if t.len() >= 2 && t[1] is Number {
                Some(
                    (
                        TreeView::Course { subject: w, catalog: t[1]->Number_0 },
                        t.skip(2),
                    ),
                )
            } else {
                None
            },
            TokenView::Number(n) => sp_min_credit(n, t.skip(1)),
            _ => None,
        }
    }
}

/// Whether a token separates two items of an expression, and whether it
/// forms a disjunction.
pub open spec fn is_separator(t: TokenView) -> bool {
    t is Comma || tok_is_word(t, "and"@) || tok_is_word(t, "or"@)
}

/// An expression: items combined strictly left-to-right in textual
/// order, a comma or `and` forming a conjunction and `or` a disjunction;
/// precedence beyond explicit grouping is not inferred.
pub open spec fn sp_expr(t: Seq<TokenView>) -> Option<(TreeView, Seq<TokenView>)>
    decreases t.len(), 2nat,
{
    match sp_primary(t) {
        None => None,
        Some((first, rest)) => {
            if rest.len() < t.len() {
                sp_expr_rest(first, rest)
            } else {
                None
            }
        },
    }
}

/// Folds further separated items into the accumulated tree.
pub open spec fn sp_expr_rest(acc: TreeView, t: Seq<TokenView>) -> Option<
    (TreeView, Seq<TokenView>),
>
    decreases t.len(), 1nat,
{
    if t.len() > 0 && is_separator(t[0]) {
        let or_sep = tok_is_word(t[0], "or"@);
        match sp_primary(t.skip(1)) {
            None => None,
            Some((item, rest)) => {
                if rest.len() < t.len() {
                    let combined = if or_sep {
                        TreeView::Or(Box::new(acc), Box::new(item))
                    } else {
                        TreeView::And(Box::new(acc), Box::new(item))
                    };
                    sp_expr_rest(combined, rest)
                } else {
                    None
                }
            },
        }
    } else {
        Some((acc, t))
    }
}

/// A whole description: an optional `<word> :` label is skipped, then
/// one expression, then an optional trailing period, then nothing.
pub open spec fn sp_parse_tokens(t: Seq<TokenView>) -> Option<TreeView> {
    let body = if t.len() >= 2 && t[0] is Word && t[1] is Colon {
        t.skip(2)
    } else {
        t
    };
    match sp_expr(body) {
        None => None,
        Some((tree, rest)) => {
            if rest.len() == 0 {
                Some(tree)
            } else if rest.len() == 1 && rest[0] is Period {
                Some(tree)
            } else {
                None
            }
        },
    }
}

/// What parsing a description yields: the tokens of the text, parsed as
/// one prerequisite expression.
pub open spec fn spec_parse(s: Seq<char>) -> Option<TreeView> {
    match spec_tokenize(s) {
        Some(ts) => sp_parse_tokens(ts),
        None => None,
    }
}

/// Whether a word is exactly the given keyword.
fn word_is(w: &String, lit: &str) -> (r: bool)
    ensures
        r == (w@ == lit@),
{
    let l: String = lit.to_owned();
    *w == l
}

/// Whether a token is the given keyword.
fn tok_word_is(t: &Token, lit: &str) -> (r: bool)
    ensures
        r == tok_is_word(t.deep_view(), lit@),
{
    match t {
        Token::Word(w) => word_is(w, lit),
        _ => false,
    }
}

/// Whether a word ends a subject name.
fn word_reserved(w: &String) -> (r: bool)
    ensures
        r == is_reserved(w@),
{
    word_is(w, "or") || word_is(w, "and") || word_is(w, "at")
}

/// The run of non-reserved words scanned forward ends exactly where the
/// recursive word count says.
proof fn lemma_subject_words_at(t: Seq<TokenView>, i: int, j: int)
    requires
        0 <= i <= j <= t.len(),
        forall|k: int| i <= k < j ==> (#[trigger] t[k] matches TokenView::Word(w) && !is_reserved(w)),
        j < t.len() ==> !(t[j] matches TokenView::Word(w) && !is_reserved(w)),
    ensures
        subject_words_len(t.skip(i)) == j - i,
    decreases j - i,
{
    if i == j {
        if t.skip(i).len() > 0 {
            assert(t.skip(i)[0] == t[j]);
        }
    } else {
        assert(t.skip(i)[0] == t[i]);
        assert(t.skip(i).drop_first() =~= t.skip(i + 1));
        lemma_subject_words_at(t, i + 1, j);
    }
}

/// Parses one subject of a subject list; returns its code and the
/// position after it, or the position of the offending token.
fn parse_subject(toks: &Vec<Token>, pos: usize) -> (r: Result<(String, usize), usize>)
    requires
        pos <= toks@.len(),
    ensures
        r matches Ok(p) ==> pos < p.1 <= toks@.len() && sp_subject(
            toks.deep_view().skip(pos as int),
        ) == Some((p.0@, toks.deep_view().skip(p.1 as int))),
        r matches Err(e) ==> sp_subject(toks.deep_view().skip(pos as int)) is None && e
            <= toks@.len(),
{
    let ghost tv = toks.deep_view();
    let n = toks.len();
    // the run of words the subject name may be written with
    let mut j = pos;
    while j < n
        invariant
            pos <= j <= n,
            n == toks@.len(),
            tv == toks.deep_view(),
            forall|k: int|
                pos <= k < j ==> (#[trigger] tv[k] matches TokenView::Word(w) && !is_reserved(w)),
        ensures
            pos <= j <= n,
            forall|k: int|
                pos <= k < j ==> (#[trigger] tv[k] matches TokenView::Word(w) && !is_reserved(w)),
            j < n ==> !(tv[j as int] matches TokenView::Word(w) && !is_reserved(w)),
        decreases n - j,
    {
        match &toks[j] {
            Token::Word(w) => {
                if word_reserved(w) {
                    break;
                }
            },
            _ => {
                break;
            },
        }
        j += 1;
    }
    proof {
        lemma_subject_words_at(tv, pos as int, j as int);
    }
    let k = j - pos;
    if k == 0 {
        return Err(pos);
    }
    // a parenthesized code after the name: only the code is kept
    if n - j >= 3 {
        let has_parens = match (&toks[j], &toks[j + 2]) {
            (Token::LParen, Token::RParen) => true,
            _ => false,
        };
        if has_parens {
            if let Token::Word(code) = &toks[j + 1] {
                proof {
                    assert(tv.skip(pos as int)[k as int] == tv[j as int]);
                    assert(tv.skip(pos as int)[k as int + 1] == tv[j as int + 1]);
                    assert(tv.skip(pos as int)[k as int + 2] == tv[j as int + 2]);
                    assert(tv.skip(pos as int).skip(k as int + 3) =~= tv.skip(j as int + 3));
                }
                return Ok((code.clone(), j + 3));
            }
        }
    }
    proof {
        if k as int + 3 <= tv.skip(pos as int).len() {
            assert(tv.skip(pos as int)[k as int] == tv[j as int]);
            assert(tv.skip(pos as int)[k as int + 1] == tv[j as int + 1]);
            assert(tv.skip(pos as int)[k as int + 2] == tv[j as int + 2]);
        }
    }
    if k == 1 {
        if let Token::Word(code) = &toks[pos] {
            proof {
                assert(tv.skip(pos as int)[0] == tv[pos as int]);
                assert(tv.skip(pos as int).skip(1) =~= tv.skip(pos as int + 1));
            }
            return Ok((code.clone(), pos + 1));
        }
        proof {
            assert(tv[pos as int] matches TokenView::Word(w) && !is_reserved(w));
        }
        return Err(pos);
    }
    Err(j)
}

/// Whether the subject list continues at this position: a separator
/// followed by a word that does not start a course reference.
fn subject_list_continues(toks: &Vec<Token>, pos: usize) -> (r: bool)
    requires
        pos <= toks@.len(),
    ensures
        ({
            let t = toks.deep_view().skip(pos as int);
            r == (t.len() > 0 && (t[0] is Comma || tok_is_word(t[0], "or"@)) && continues_subject(
                t.skip(1),
            ))
        }),
{
    let ghost tv = toks.deep_view();
    let n = toks.len();
    if pos >= n {
        return false;
    }
    let sep = match &toks[pos] {
        Token::Comma => true,
        Token::Word(w) => word_is(w, "or"),
        _ => false,
    };
    proof {
        assert(tv.skip(pos as int)[0] == tv[pos as int]);
        assert(tv.skip(pos as int).skip(1) =~= tv.skip(pos as int + 1));
    }
    if !sep {
        return false;
    }
    if pos + 1 >= n {
        return false;
    }
    let starts_subject = match &toks[pos + 1] {
        Token::Word(w) => !word_reserved(w),
        _ => false,
    };
    proof {
        assert(tv.skip(pos as int + 1).len() > 0);
        assert(tv.skip(pos as int + 1)[0] == tv[pos as int + 1]);
        if pos as int + 2 <= tv.len() {
            if tv.skip(pos as int + 1).len() >= 2 {
                assert(tv.skip(pos as int + 1)[1] == tv[pos as int + 2]);
            }
        }
    }
    if !starts_subject {
        return false;
    }
    let next_is_number = if pos + 2 < n {
        match &toks[pos + 2] {
            Token::Number(_) => true,
            _ => false,
        }
    } else {
        false
    };
    !next_is_number
}

/// Parses a comma- or `or`-separated subject list.
fn parse_subject_list(toks: &Vec<Token>, pos: usize) -> (r: Result<(Vec<String>, usize), usize>)
    requires
        pos <= toks@.len(),
    ensures
        r matches Ok(p) ==> pos < p.1 <= toks@.len() && sp_subject_list(
            toks.deep_view().skip(pos as int),
        ) == Some((p.0.deep_view(), toks.deep_view().skip(p.1 as int))),
        r matches Err(e) ==> sp_subject_list(toks.deep_view().skip(pos as int)) is None && e
            <= toks@.len(),
    decreases toks@.len() - pos,
{
    let ghost tv = toks.deep_view();
    let n = toks.len();
    match parse_subject(toks, pos) {
        Err(e) => Err(e),
        Ok((code, j)) => {
            if subject_list_continues(toks, j) {
                proof {
                    assert(tv.skip(j as int).len() > 0);
                    assert(j < toks@.len());
                    assert(tv.skip(j as int).len() < tv.skip(pos as int).len());
                    assert(tv.skip(j as int).skip(1) =~= tv.skip(j as int + 1));
                }
                match parse_subject_list(toks, j + 1) {
                    Err(e) => Err(e),
                    Ok((mut codes, end)) => {
                        let ghost rest_codes = codes.deep_view();
                        codes.insert(0, code);
                        proof {
                            assert(codes.deep_view() =~= seq![code@] + rest_codes);
                        }
                        Ok((codes, end))
                    },
                }
            } else {
                let ghost cv = code@;
                let mut codes: Vec<String> = Vec::new();
                codes.push(code);
                proof {
                    assert(codes.deep_view() =~= seq![cv]);
                    if tv.skip(j as int).len() > 0 {
                        assert(tv.skip(j as int).skip(1) =~= tv.skip(j as int + 1));
                    }
                }
                Ok((codes, j))
            }
        },
    }
}

/// Parses a comma- or `or`-separated list of level markers.
fn parse_level_list(toks: &Vec<Token>, pos: usize) -> (r: Result<(Vec<u32>, usize), usize>)
    requires
        pos <= toks@.len(),
    ensures
        r matches Ok(p) ==> pos < p.1 <= toks@.len() && sp_level_list(
            toks.deep_view().skip(pos as int),
        ) == Some((p.0@, toks.deep_view().skip(p.1 as int))),
        r matches Err(e) ==> sp_level_list(toks.deep_view().skip(pos as int)) is None && e
            <= toks@.len(),
    decreases toks@.len() - pos,
{
    let ghost tv = toks.deep_view();
    let n = toks.len();
    if pos >= n {
        return Err(pos);
    }
    proof {
        assert(tv.skip(pos as int)[0] == tv[pos as int]);
    }
    let value = match &toks[pos] {
        Token::Number(v) => *v,
        _ => {
            return Err(pos);
        },
    };
    proof {
        assert(tv.skip(pos as int).skip(1) =~= tv.skip(pos as int + 1));
    }
    // the list continues on a separator followed by another number
    let continues = if n - pos >= 3 {
        let sep = match &toks[pos + 1] {
            Token::Comma => true,
            Token::Word(w) => word_is(w, "or"),
            _ => false,
        };
        let next_number = match &toks[pos + 2] {
            Token::Number(_) => true,
            _ => false,
        };
        proof {
            assert(tv.skip(pos as int + 1)[0] == tv[pos as int + 1]);
            assert(tv.skip(pos as int + 1)[1] == tv[pos as int + 2]);
        }
        sep && next_number
    } else {
        proof {
            if tv.skip(pos as int + 1).len() >= 2 {
                assert(tv.skip(pos as int + 1)[0] == tv[pos as int + 1]);
                assert(tv.skip(pos as int + 1)[1] == tv[pos as int + 2]);
            }
        }
        false
    };
    if continues {
        proof {
            assert(tv.skip(pos as int + 1).skip(1) =~= tv.skip(pos as int + 2));
        }
        match parse_level_list(toks, pos + 2) {
            Err(e) => Err(e),
            Ok((mut levels, end)) => {
                let ghost rest_levels = levels@;
                levels.insert(0, value);
                proof {
                    assert(levels@ =~= seq![value] + rest_levels);
                }
                Ok((levels, end))
            },
        }
    } else {
        let mut levels: Vec<u32> = Vec::new();
        levels.push(value);
        proof {
            assert(levels@ =~= seq![value]);
        }
        Ok((levels, pos + 1))
    }
}

/// Parses the rest of a minimum-credit clause after its leading number.
fn parse_min_credit(credits: u32, toks: &Vec<Token>, pos: usize) -> (r: Result<
    (PrerequisiteTree, usize),
    usize,
>)
    requires
        pos <= toks@.len(),
    ensures
        r matches Ok(p) ==> pos < p.1 <= toks@.len() && sp_min_credit(
            credits,
            toks.deep_view().skip(pos as int),
        ) == Some((p.0.deep_view(), toks.deep_view().skip(p.1 as int))),
        r matches Err(e) ==> sp_min_credit(credits, toks.deep_view().skip(pos as int)) is None && e
            <= toks@.len(),
{
    let ghost tv = toks.deep_view();
    let n = toks.len();
    if n - pos < 3 {
        return Err(pos);
    }
    proof {
        assert(tv.skip(pos as int)[0] == tv[pos as int]);
        assert(tv.skip(pos as int)[1] == tv[pos as int + 1]);
        assert(tv.skip(pos as int)[2] == tv[pos as int + 2]);
    }
    let unit_word = tok_word_is(&toks[pos], "course") || tok_word_is(&toks[pos], "university");
    if !(unit_word && tok_word_is(&toks[pos + 1], "units") && tok_word_is(&toks[pos + 2], "in")) {
        return Err(pos);
    }
    proof {
        assert(tv.skip(pos as int).skip(3) =~= tv.skip(pos as int + 3));
    }
    let (subjects, after_subjects) = match parse_subject_list(toks, pos + 3) {
        Err(e) => {
            return Err(e);
        },
        Ok(p) => p,
    };
    // an optional level clause: `at the <level-list> level`
    let has_level_clause = if n - after_subjects >= 2 {
        proof {
            assert(tv.skip(after_subjects as int)[0] == tv[after_subjects as int]);
            assert(tv.skip(after_subjects as int)[1] == tv[after_subjects as int + 1]);
        }
        tok_word_is(&toks[after_subjects], "at") && tok_word_is(&toks[after_subjects + 1], "the")
    } else {
        proof {
            if tv.skip(after_subjects as int).len() >= 2 {
                assert(tv.skip(after_subjects as int)[0] == tv[after_subjects as int]);
                assert(tv.skip(after_subjects as int)[1] == tv[after_subjects as int + 1]);
            }
        }
        false
    };
    if has_level_clause {
        proof {
            assert(tv.skip(after_subjects as int).skip(2) =~= tv.skip(after_subjects as int + 2));
        }
        let (levels, after_levels) = match parse_level_list(toks, after_subjects + 2) {
            Err(e) => {
                return Err(e);
            },
            Ok(p) => p,
        };
        proof {
            if tv.skip(after_levels as int).len() >= 1 {
                assert(tv.skip(after_levels as int)[0] == tv[after_levels as int]);
            }
        }
        if after_levels < n && tok_word_is(&toks[after_levels], "level") {
            proof {
                assert(tv.skip(after_levels as int).skip(1) =~= tv.skip(after_levels as int + 1));
                assert(levels.deep_view() =~= levels@);
            }
            let tree = PrerequisiteTree::MinCreditNode(
                MinCreditNode {
                    credits,
                    required_subjects: Some(subjects),
                    required_levels: Some(levels),
                },
            );
            Ok((tree, after_levels + 1))
        } else {
            Err(after_levels)
        }
    } else {
        let tree = PrerequisiteTree::MinCreditNode(
            MinCreditNode { credits, required_subjects: Some(subjects), required_levels: None },
        );
        Ok((tree, after_subjects))
    }
}

/// Parses one item of an expression: a parenthesized sub-expression, a
/// course reference, or a minimum-credit clause.
fn parse_primary(toks: &Vec<Token>, pos: usize) -> (r: Result<(PrerequisiteTree, usize), usize>)
    requires
        pos <= toks@.len(),
    ensures
        r matches Ok(p) ==> pos < p.1 <= toks@.len() && sp_primary(
            toks.deep_view().skip(pos as int),
        ) == Some((p.0.deep_view(), toks.deep_view().skip(p.1 as int))),
        r matches Err(e) ==> sp_primary(toks.deep_view().skip(pos as int)) is None && e
            <= toks@.len(),
    decreases toks@.len() - pos, 0nat,
{
    let ghost tv = toks.deep_view();
    let n = toks.len();
    if pos >= n {
        return Err(pos);
    }
    proof {
        assert(tv.skip(pos as int)[0] == tv[pos as int]);
    }
    match &toks[pos] {
        Token::LParen => {
            proof {
                assert(tv.skip(pos as int).skip(1) =~= tv.skip(pos as int + 1));
            }
            let (tree, j) = match parse_expr(toks, pos + 1) {
                Err(e) => {
                    return Err(e);
                },
                Ok(p) => p,
            };
            proof {
                if tv.skip(j as int).len() > 0 {
                    assert(tv.skip(j as int)[0] == tv[j as int]);
                }
            }
            let closes = if j < n {
                match &toks[j] {
                    Token::RParen => true,
                    _ => false,
                }
            } else {
                false
            };
            if closes {
                proof {
                    assert(tv.skip(j as int).skip(1) =~= tv.skip(j as int + 1));
                }
                Ok((tree, j + 1))
            } else {
                Err(j)
            }
        },
        Token::Word(w) => {
            let number = if n - pos >= 2 {
                proof {
                    assert(tv.skip(pos as int)[1] == tv[pos as int + 1]);
                }
                match &toks[pos + 1] {
                    Token::Number(v) => Some(*v),
                    _ => None,
                }
            } else {
                proof {
                    if tv.skip(pos as int).len() >= 2 {
                        assert(tv.skip(pos as int)[1] == tv[pos as int + 1]);
                    }
                }
                None
            };
            match number {
                Some(catalog_code) => {
                    proof {
                        assert(tv.skip(pos as int).skip(2) =~= tv.skip(pos as int + 2));
                    }
                    let tree = PrerequisiteTree::CourseNode(
                        CourseNode { subject_code: w.clone(), catalog_code },
                    );
                    Ok((tree, pos + 2))
                },
                None => Err(pos),
            }
        },
        Token::Number(v) => {
            proof {
                assert(tv.skip(pos as int).skip(1) =~= tv.skip(pos as int + 1));
            }
            parse_min_credit(*v, toks, pos + 1)
        },
        _ => Err(pos),
    }
}

/// Parses an expression: items combined strictly left-to-right, commas
/// and `and` forming conjunctions and `or` disjunctions.
fn parse_expr(toks: &Vec<Token>, pos: usize) -> (r: Result<(PrerequisiteTree, usize), usize>)
    requires
        pos <= toks@.len(),
    ensures
        r matches Ok(p) ==> pos < p.1 <= toks@.len() && sp_expr(toks.deep_view().skip(pos as int))
            == Some((p.0.deep_view(), toks.deep_view().skip(p.1 as int))),
        r matches Err(e) ==> sp_expr(toks.deep_view().skip(pos as int)) is None && e <= toks@.len(),
    decreases toks@.len() - pos, 2nat,
{
    let ghost tv = toks.deep_view();
    let (first, j) = match parse_primary(toks, pos) {
        Err(e) => {
            return Err(e);
        },
        Ok(p) => p,
    };
    proof {
        assert(tv.skip(j as int).len() < tv.skip(pos as int).len());
    }
    parse_expr_rest(first, toks, j)
}

/// Folds further separated items into the accumulated tree.
fn parse_expr_rest(acc: PrerequisiteTree, toks: &Vec<Token>, pos: usize) -> (r: Result<
    (PrerequisiteTree, usize),
    usize,
>)
    requires
        pos <= toks@.len(),
    ensures
        r matches Ok(p) ==> pos <= p.1 <= toks@.len() && sp_expr_rest(
            acc.deep_view(),
            toks.deep_view().skip(pos as int),
        ) == Some((p.0.deep_view(), toks.deep_view().skip(p.1 as int))),
        r matches Err(e) ==> sp_expr_rest(acc.deep_view(), toks.deep_view().skip(pos as int))
            is None && e <= toks@.len(),
    decreases toks@.len() - pos, 1nat,
{
    let ghost tv = toks.deep_view();
    let n = toks.len();
    proof {
        if tv.skip(pos as int).len() > 0 {
            assert(tv.skip(pos as int)[0] == tv[pos as int]);
        }
    }
    let (separator, or_sep) = if pos < n {
        match &toks[pos] {
            Token::Comma => (true, false),
            Token::Word(w) => {
                if word_is(w, "or") {
                    (true, true)
                } else if word_is(w, "and") {
                    (true, false)
                } else {
                    (false, false)
                }
            },
            _ => (false, false),
        }
    } else {
        (false, false)
    };
    if !separator {
        return Ok((acc, pos));
    }
    proof {
        assert(tv.skip(pos as int).skip(1) =~= tv.skip(pos as int + 1));
    }
    let (item, j) = match parse_primary(toks, pos + 1) {
        Err(e) => {
            return Err(e);
        },
        Ok(p) => p,
    };
    proof {
        assert(tv.skip(j as int).len() < tv.skip(pos as int).len());
    }
    let combined = if or_sep {
        PrerequisiteTree::OrNode(LogicNode::new(acc, item))
    } else {
        PrerequisiteTree::AndNode(LogicNode::new(acc, item))
    };
    parse_expr_rest(combined, toks, j)
}

/// A failed parse: the character position of the offending text.
#[derive(Debug, Clone, Copy, PartialEq, Eq, Structural)]
pub struct ParseError {
    pub offset: usize,
}

/// The prerequisite parser.
pub struct PrerequisiteParser {}

impl PrerequisiteParser {
    /// A fresh parser; it holds no state.
    pub fn new() -> (r: Self) {
        PrerequisiteParser {  }
    }

    /// Parses a prerequisite description into a tree, or reports where
    /// in the text the parse failed. The whole text must be one
    /// expression, after an ignored label and before an optional period.
    pub fn parse(&self, input: &str) -> (r: Result<PrerequisiteTree, ParseError>)
        ensures
            (r is Ok) == (spec_parse(input@) is Some),
            r matches Ok(tree) ==> spec_parse(input@) == Some(tree.deep_view()),
            r matches Err(e) ==> e.offset <= input@.len(),
    {
        let (toks, starts) = match tokenize(input) {
            Err(off) => {
                return Err(ParseError { offset: off });
            },
            Ok(p) => p,
        };
        let ghost tv = toks.deep_view();
        let n = toks.len();
        let text_end = input.unicode_len();
        // an optional `<word> :` label is skipped
        let body = if n >= 2 {
            let labelled = match (&toks[0], &toks[1]) {
                (Token::Word(_), Token::Colon) => true,
                _ => false,
            };
            if labelled {
                2
            } else {
                0
            }
        } else {
            0
        };
        proof {
            if body == 0 {
                assert(tv.skip(0) =~= tv);
            }
        }
        let (tree, j) = match parse_expr(&toks, body) {
            Err(e) => {
                let offset = if e < n {
                    starts[e]
                } else {
                    text_end
                };
                return Err(ParseError { offset });
            },
            Ok(p) => p,
        };
        proof {
            if tv.skip(j as int).len() > 0 {
                assert(tv.skip(j as int)[0] == tv[j as int]);
            }
        }
        if j == n {
            return Ok(tree);
        }
        let period_end = match &toks[j] {
            Token::Period => j + 1 == n,
            _ => false,
        };
        if period_end {
            Ok(tree)
        } else {
            let offset = if j < n {
                starts[j]
            } else {
                text_end
            };
            Err(ParseError { offset })
        }
    }
}

/// The value of a digit sequence is never negative.
proof fn lemma_digits_value_nonneg(s: Seq<char>, start: int, k: int)
    requires
        0 <= start <= k <= s.len(),
        forall|m: int| start <= m < k ==> is_digit(s[m]),
    ensures
        digits_value(s.subrange(start, k)) >= 0,
    decreases k - start,
{
    if k > start {
        assert(s.subrange(start, k).drop_last() =~= s.subrange(start, k - 1));
        assert(s.subrange(start, k).last() == s[k - 1]);
        lemma_digits_value_nonneg(s, start, k - 1);
    } else {
        assert(s.subrange(start, start) =~= Seq::<char>::empty());
    }
}

} // verus!
