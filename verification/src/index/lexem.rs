//! The query language: a text is cut into tokens, and the tokens are read
//! into a tree of filters joined by `&`, `|` and `~`.

use vstd::prelude::*;

use crate::index::fprocessing::{Filter, SpecFilter};
use crate::unicode::{
    chars_of, is_alphabetic, is_whitespace, same_chars, string_from_chars, unicode_alphabetic,
    unicode_white_space,
};

verus! {

#[derive(Debug)]
pub enum Lexem {
    Or(Box<Lexem>, Box<Lexem>),
    And(Box<Lexem>, Box<Lexem>),
    Not(Box<Lexem>),
    WithFilter(Filter),
}

/// The model of a `Lexem`: the same tree over the models of its filters.
pub enum SpecLexem {
    Or(Box<SpecLexem>, Box<SpecLexem>),
    And(Box<SpecLexem>, Box<SpecLexem>),
    Not(Box<SpecLexem>),
    WithFilter(SpecFilter),
}

pub open spec fn lexem_model(lx: Lexem) -> SpecLexem
    decreases lx,
{
    match lx {
        Lexem::Or(l, r) => SpecLexem::Or(Box::new(lexem_model(*l)), Box::new(lexem_model(*r))),
        Lexem::And(l, r) => SpecLexem::And(Box::new(lexem_model(*l)), Box::new(lexem_model(*r))),
        Lexem::Not(x) => SpecLexem::Not(Box::new(lexem_model(*x))),
        Lexem::WithFilter(f) => SpecLexem::WithFilter(f@),
    }
}

impl View for Lexem {
    type V = SpecLexem;

    open spec fn view(&self) -> SpecLexem {
        lexem_model(*self)
    }
}

pub open spec fn option_lexem_model(o: Option<Lexem>) -> Option<SpecLexem> {
    match o {
        Some(l) => Some(l@),
        None => None,
    }
}

#[derive(Debug)]
pub enum Token {
    LParen,
    RParen,
    Text(String),
    Or,
    And,
    Not,
}

/// The model of a `Token`: a word token holds the characters of its word.
pub enum SpecToken {
    LParen,
    RParen,
    Text(Seq<char>),
    Or,
    And,
    Not,
}

impl View for Token {
    type V = SpecToken;

    open spec fn view(&self) -> SpecToken {
        match self {
            Token::LParen => SpecToken::LParen,
            Token::RParen => SpecToken::RParen,
            Token::Text(s) => SpecToken::Text(s@),
            Token::Or => SpecToken::Or,
            Token::And => SpecToken::And,
            Token::Not => SpecToken::Not,
        }
    }
}

pub open spec fn token_models(v: Seq<Token>) -> Seq<SpecToken> {
    v.map_values(|t: Token| t@)
}

/// The low 16 bits of a code point: operators are recognised by them alone.
pub open spec fn low16(c: char) -> int {
    (c as u32) as int % 0x10000
}

/// The operator token that a character stands for, if any.
pub open spec fn operator_token(c: char) -> Option<SpecToken> {
    if low16(c) == 0x7C {
        Some(SpecToken::Or)
    } else if low16(c) == 0x26 {
        Some(SpecToken::And)
    } else if low16(c) == 0x7E {
        Some(SpecToken::Not)
    } else if low16(c) == 0x28 {
        Some(SpecToken::LParen)
    } else if low16(c) == 0x29 {
        Some(SpecToken::RParen)
    } else {
        None
    }
}

/// The tokens `toks` with the pending word `word` emitted, if there is one.
pub open spec fn flush(toks: Seq<SpecToken>, word: Seq<char>) -> Seq<SpecToken> {
    if word.len() > 0 {
        toks.push(SpecToken::Text(word))
    } else {
        toks
    }
}

/// The scanner after the characters `s`: the tokens emitted and the word
/// being read. Alphabetic characters extend the word; white space ends it;
/// an operator ends it and is emitted; any other character is skipped.
pub open spec fn scan(s: Seq<char>) -> (Seq<SpecToken>, Seq<char>)
    decreases s.len(),
{
    if s.len() == 0 {
        (seq![], seq![])
    } else {
        let (toks, word) = scan(s.drop_last());
        let c = s.last();
        if unicode_alphabetic(c) {
            (toks, word.push(c))
        } else if unicode_white_space(c) {
            (flush(toks, word), seq![])
        } else {
            match operator_token(c) {
                Some(t) => (flush(toks, word).push(t), seq![]),
                None => (toks, word),
            }
        }
    }
}

/// The tokens of a text. A word still being read at the end of the text is not emitted.
pub open spec fn tokens_of(s: Seq<char>) -> Seq<SpecToken> {
    scan(s).0
}

/// Scanning text that comes after a finished word starts afresh: its tokens
/// follow the tokens already emitted.
pub proof fn lemma_scan_concat(p: Seq<char>, b: Seq<char>)
    requires
        scan(p).1.len() == 0,
    ensures
        scan(p + b) == (scan(p).0 + scan(b).0, scan(b).1),
    decreases b.len(),
{
    let t = scan(p).0;
    if b.len() == 0 {
        assert(p + b =~= p);
        assert(t + Seq::<SpecToken>::empty() =~= t);
        assert(scan(p).1 =~= Seq::<char>::empty());
    } else {
        let b0 = b.drop_last();
        let c = b.last();
        lemma_scan_concat(p, b0);
        assert((p + b).drop_last() =~= p + b0);
        assert((p + b).last() == c);
        let (x, w) = scan(b0);
        assert(flush(t + x, w) =~= t + flush(x, w));
        match operator_token(c) {
            Some(tok) => {
                assert(flush(t + x, w).push(tok) =~= t + flush(x, w).push(tok));
            },
            None => {},
        }
    }
}

/// Text with a space in it cuts into the tokens of the text up to and
/// including the space, followed by the tokens of the rest: the space ends
/// any word, so the rest is cut as if on its own. The space is not a letter,
/// as `char::is_alphabetic` says of it.
pub proof fn lemma_tokens_split(a: Seq<char>, b: Seq<char>)
    requires
        !unicode_alphabetic(' '),
    ensures
        tokens_of(a + seq![' '] + b) == tokens_of(a + seq![' ']) + tokens_of(b),
{
    let p = a + seq![' '];
    assert(p.drop_last() =~= a);
    assert(p.last() == ' ');
    assert(unicode_white_space(' '));
    assert(scan(p).1.len() == 0);
    lemma_scan_concat(p, b);
}

/// Why a token sequence is not a query.
#[derive(Debug, Clone, Copy, PartialEq, Eq)]
pub enum ParseError {
    /// An operator has no operand on one of its sides.
    MissingOperand,
    /// A filter name is the last token.
    MissingFilterWord,
    /// A filter name is followed by something other than a word.
    FilterWordExpected,
    /// A word stands where a filter name is expected, and it is none of them.
    UnknownFilter,
}

/// Where reading goes on after a nested group read up to `p`: `p` itself,
/// which lies between `pos + 1` and `len`.
pub open spec fn resume_at(p: int, pos: int, len: int) -> int {
    if p < pos + 1 {
        pos + 1
    } else if p > len {
        len
    } else {
        p
    }
}

/// Reading tokens from `pos` with `left` read so far: the query read up to
/// the end of the tokens or up to and including a closing parenthesis, and
/// the position after it. A binary operator takes everything that follows,
/// up to such a parenthesis, as its right operand; an opening parenthesis
/// replaces what was read so far with the group it opens.
pub open spec fn parse_seq(toks: Seq<SpecToken>, pos: int, left: Option<SpecLexem>) -> Result<
    (Option<SpecLexem>, int),
    ParseError,
>
    decreases toks.len() - pos,
{
    if pos < 0 || pos >= toks.len() {
        Ok((left, pos))
    } else {
        match toks[pos] {
            SpecToken::RParen => Ok((left, pos + 1)),
            SpecToken::LParen => match parse_seq(toks, pos + 1, None) {
                Err(e) => Err(e),
                Ok((inner, p)) => parse_seq(toks, resume_at(p, pos, toks.len() as int), inner),
            },
            SpecToken::And => match left {
                None => Err(ParseError::MissingOperand),
                Some(l) => match parse_seq(toks, pos + 1, None) {
                    Err(e) => Err(e),
                    Ok((None, _)) => Err(ParseError::MissingOperand),
                    Ok((Some(r), p)) => parse_seq(
                        toks,
                        resume_at(p, pos, toks.len() as int),
                        Some(SpecLexem::And(Box::new(l), Box::new(r))),
                    ),
                },
            },
            SpecToken::Or => match left {
                None => Err(ParseError::MissingOperand),
                Some(l) => match parse_seq(toks, pos + 1, None) {
                    Err(e) => Err(e),
                    Ok((None, _)) => Err(ParseError::MissingOperand),
                    Ok((Some(r), p)) => parse_seq(
                        toks,
                        resume_at(p, pos, toks.len() as int),
                        Some(SpecLexem::Or(Box::new(l), Box::new(r))),
                    ),
                },
            },
            SpecToken::Not => match parse_seq(toks, pos + 1, None) {
                Err(e) => Err(e),
                Ok((None, _)) => Err(ParseError::MissingOperand),
                Ok((Some(x), p)) => parse_seq(
                    toks,
                    resume_at(p, pos, toks.len() as int),
                    Some(SpecLexem::Not(Box::new(x))),
                ),
            },
            SpecToken::Text(name) => if pos + 1 >= toks.len() {
                Err(ParseError::MissingFilterWord)
            } else {
                match toks[pos + 1] {
                    SpecToken::Text(w) => if name == "startswith"@ {
                        parse_seq(toks, pos + 2, Some(SpecLexem::WithFilter(SpecFilter::StartsWith(w))))
                    } else if name == "endswith"@ {
                        parse_seq(toks, pos + 2, Some(SpecLexem::WithFilter(SpecFilter::EndsWith(w))))
                    } else if name == "equals"@ {
                        parse_seq(toks, pos + 2, Some(SpecLexem::WithFilter(SpecFilter::Word(w))))
                    } else {
                        Err(ParseError::UnknownFilter)
                    },
                    _ => Err(ParseError::FilterWordExpected),
                }
            },
        }
    }
}

/// A read outcome with every position moved on by `k`.
pub open spec fn shift_outcome(r: Result<(Option<SpecLexem>, int), ParseError>, k: int) -> Result<
    (Option<SpecLexem>, int),
    ParseError,
> {
    match r {
        Ok((l, p)) => Ok((l, p + k)),
        Err(e) => Err(e),
    }
}

/// Reading does not depend on the tokens before the position it starts
/// from: with tokens `c` put in front, it reads the same query and stops
/// `c.len()` positions later.
pub proof fn lemma_parse_shift(c: Seq<SpecToken>, t: Seq<SpecToken>, pos: int, left: Option<SpecLexem>)
    requires
        0 <= pos <= t.len(),
    ensures
        parse_seq(c + t, pos + c.len(), left) == shift_outcome(parse_seq(t, pos, left), c.len() as int),
    decreases t.len() - pos,
{
    let ct = c + t;
    let k = c.len() as int;
    let n = t.len() as int;
    if pos < n {
        assert(ct[pos + k] == t[pos]);
        match t[pos] {
            SpecToken::RParen => {},
            SpecToken::LParen => {
                lemma_parse_shift(c, t, pos + 1, None);
                match parse_seq(t, pos + 1, None) {
                    Err(_) => {},
                    Ok((inner, p)) => {
                        let q = resume_at(p, pos, n);
                        assert(resume_at(p + k, pos + k, ct.len() as int) == q + k);
                        lemma_parse_shift(c, t, q, inner);
                    },
                }
            },
            SpecToken::And => match left {
                None => {},
                Some(l) => {
                    lemma_parse_shift(c, t, pos + 1, None);
                    match parse_seq(t, pos + 1, None) {
                        Ok((Some(r), p)) => {
                            let q = resume_at(p, pos, n);
                            assert(resume_at(p + k, pos + k, ct.len() as int) == q + k);
                            lemma_parse_shift(c, t, q, Some(SpecLexem::And(Box::new(l), Box::new(r))));
                        },
                        _ => {},
                    }
                },
            },
            SpecToken::Or => match left {
                None => {},
                Some(l) => {
                    lemma_parse_shift(c, t, pos + 1, None);
                    match parse_seq(t, pos + 1, None) {
                        Ok((Some(r), p)) => {
                            let q = resume_at(p, pos, n);
                            assert(resume_at(p + k, pos + k, ct.len() as int) == q + k);
                            lemma_parse_shift(c, t, q, Some(SpecLexem::Or(Box::new(l), Box::new(r))));
                        },
                        _ => {},
                    }
                },
            },
            SpecToken::Not => {
                lemma_parse_shift(c, t, pos + 1, None);
                match parse_seq(t, pos + 1, None) {
                    Ok((Some(x), p)) => {
                        let q = resume_at(p, pos, n);
                        assert(resume_at(p + k, pos + k, ct.len() as int) == q + k);
                        lemma_parse_shift(c, t, q, Some(SpecLexem::Not(Box::new(x))));
                    },
                    _ => {},
                }
            },
            SpecToken::Text(_) => {
                if pos + 1 < n {
                    assert(ct[pos + 1 + k] == t[pos + 1]);
                    match t[pos + 1] {
                        SpecToken::Text(w) => {
                            lemma_parse_shift(c, t, pos + 2, Some(SpecLexem::WithFilter(SpecFilter::StartsWith(w))));
                            lemma_parse_shift(c, t, pos + 2, Some(SpecLexem::WithFilter(SpecFilter::EndsWith(w))));
                            lemma_parse_shift(c, t, pos + 2, Some(SpecLexem::WithFilter(SpecFilter::Word(w))));
                        },
                        _ => {},
                    }
                }
            },
        }
    }
}

/// A `~` negates the whole query that follows it, up to the end of the
/// tokens or of the group it stands in: reading on from the `~` goes on
/// after that query with its negation as the query read so far.
pub proof fn lemma_not_wraps_following(toks: Seq<SpecToken>, pos: int, x: SpecLexem, p: int)
    requires
        0 <= pos < toks.len(),
        toks[pos] == SpecToken::Not,
        parse_seq(toks, pos + 1, None) == Ok::<(Option<SpecLexem>, int), ParseError>((Some(x), p)),
    ensures
        parse_seq(toks, pos, None) == parse_seq(
            toks,
            resume_at(p, pos, toks.len() as int),
            Some(SpecLexem::Not(Box::new(x))),
        ),
{
}

/// Putting `~ ` in front of a text that is read to its end as the query `q`
/// gives the text of the negation of the whole of `q`. Neither `~` nor the
/// space is a letter, as `char::is_alphabetic` says of them.
pub proof fn lemma_negated_text(s: Seq<char>, q: SpecLexem)
    requires
        !unicode_alphabetic('~'),
        !unicode_alphabetic(' '),
        parse_seq(tokens_of(s), 0, None) == Ok::<(Option<SpecLexem>, int), ParseError>(
            (Some(q), tokens_of(s).len() as int),
        ),
    ensures
        parse_query(seq!['~', ' '] + s) == Ok::<Option<SpecLexem>, ParseError>(
            Some(SpecLexem::Not(Box::new(q))),
        ),
{
    let tilde = seq!['~'];
    let p = seq!['~', ' '];
    assert(tilde.drop_last() =~= Seq::<char>::empty());
    assert(operator_token('~') == Some(SpecToken::Not));
    assert(!unicode_white_space('~'));
    assert(scan(Seq::<char>::empty()) == (Seq::<SpecToken>::empty(), Seq::<char>::empty()));
    assert(flush(Seq::<SpecToken>::empty(), Seq::<char>::empty()).push(SpecToken::Not) =~= seq![
        SpecToken::Not,
    ]);
    assert(scan(tilde) == (seq![SpecToken::Not], Seq::<char>::empty()));
    assert(p.drop_last() =~= tilde);
    assert(unicode_white_space(' '));
    assert(scan(p) == (seq![SpecToken::Not], Seq::<char>::empty()));
    lemma_scan_concat(p, s);
    let t = tokens_of(s);
    let ct = seq![SpecToken::Not] + t;
    assert(tokens_of(p + s) == ct);
    lemma_parse_shift(seq![SpecToken::Not], t, 0, None);
    assert(ct[0] == SpecToken::Not);
    assert(parse_seq(ct, 1, None) == Ok::<(Option<SpecLexem>, int), ParseError>(
        (Some(q), ct.len() as int),
    ));
    assert(resume_at(ct.len() as int, 0, ct.len() as int) == ct.len());
    let nq = Some(SpecLexem::Not(Box::new(q)));
    assert(parse_seq(ct, ct.len() as int, nq) == Ok::<(Option<SpecLexem>, int), ParseError>(
        (nq, ct.len() as int),
    ));
    assert(parse_seq(ct, 0, None) == parse_seq(ct, ct.len() as int, nq));
}

/// The query that a text states, or why it states none.
pub open spec fn parse_query(s: Seq<char>) -> Result<Option<SpecLexem>, ParseError> {
    match parse_seq(tokens_of(s), 0, None) {
        Ok((l, _)) => Ok(l),
        Err(e) => Err(e),
    }
}

pub open spec fn parse_outcome_model(r: Result<(Option<Lexem>, usize), ParseError>) -> Result<
    (Option<SpecLexem>, int),
    ParseError,
> {
    match r {
        Ok((l, p)) => Ok((option_lexem_model(l), p as int)),
        Err(e) => Err(e),
    }
}

pub open spec fn query_outcome_model(r: Result<Option<Lexem>, ParseError>) -> Result<
    Option<SpecLexem>,
    ParseError,
> {
    match r {
        Ok(l) => Ok(option_lexem_model(l)),
        Err(e) => Err(e),
    }
}

/// The query of `text`. The text must state one (see `try_parse_to_lexem`).
pub fn parse_to_lexem(text: &str) -> (r: Option<Lexem>)
    requires
        parse_query(text@) is Ok,
    ensures
        parse_query(text@) == Ok::<Option<SpecLexem>, ParseError>(option_lexem_model(r)),
{
    let tokens = get_tokens(text);
    let (l, _) = process_tokens(&tokens, 0);
    l
}

/// The query of `text`, or why the text states none.
pub fn try_parse_to_lexem(text: &str) -> (r: Result<Option<Lexem>, ParseError>)
    ensures
        query_outcome_model(r) == parse_query(text@),
{
    let tokens = get_tokens(text);
    match try_process_tokens(&tokens, 0) {
        Err(e) => Err(e),
        Ok(_) => Ok(parse_to_lexem(text)),
    }
}

/// The query read from the tokens `tokens` from `start` on, and the position
/// after it. The tokens must form one (see `try_process_tokens`).
fn process_tokens(tokens: &Vec<Token>, start: usize) -> (r: (Option<Lexem>, usize))
    requires
        start <= tokens@.len(),
        parse_seq(token_models(tokens@), start as int, None) is Ok,
    ensures
        parse_seq(token_models(tokens@), start as int, None) == Ok::<(Option<SpecLexem>, int), ParseError>(
            (option_lexem_model(r.0), r.1 as int),
        ),
        start <= r.1 <= tokens@.len(),
{
    match try_process_tokens(tokens, start) {
        Ok(read) => read,
        Err(_) => {
            proof {
                assert(false);
            }
            (None, start)
        },
    }
}

/// The query read from the tokens `tokens` from `start` on and the position
/// after it, or why they form none.
fn try_process_tokens(tokens: &Vec<Token>, start: usize) -> (r: Result<(Option<Lexem>, usize), ParseError>)
    requires
        start <= tokens@.len(),
    ensures
        parse_outcome_model(r) == parse_seq(token_models(tokens@), start as int, None),
        r matches Ok((_, p)) ==> start <= p <= tokens@.len(),
    decreases tokens@.len() - start,
{
    let ghost tm = token_models(tokens@);
    let mut left: Option<Lexem> = None;
    let mut pos: usize = start;
    loop
        invariant
            tm == token_models(tokens@),
            start <= pos <= tokens@.len(),
            parse_seq(tm, pos as int, option_lexem_model(left)) == parse_seq(tm, start as int, None),
        decreases tokens@.len() - pos,
    {
        if pos >= tokens.len() {
            return Ok((left, pos));
        }
        assert(tm[pos as int] == tokens@[pos as int]@);
        match &tokens[pos] {
            Token::RParen => {
                return Ok((left, pos + 1));
            },
            Token::LParen => {
                match try_process_tokens(tokens, pos + 1) {
                    Err(e) => {
                        return Err(e);
                    },
                    Ok((inner, p)) => {
                        left = inner;
                        pos = p;
                    },
                }
            },
            Token::And => {
                match left {
                    None => {
                        return Err(ParseError::MissingOperand);
                    },
                    Some(l) => match try_process_tokens(tokens, pos + 1) {
                        Err(e) => {
                            return Err(e);
                        },
                        Ok((None, _)) => {
                            return Err(ParseError::MissingOperand);
                        },
                        Ok((Some(r), p)) => {
                            left = Some(Lexem::And(Box::new(l), Box::new(r)));
                            pos = p;
                        },
                    },
                }
            },
            Token::Or => {
                match left {
                    None => {
                        return Err(ParseError::MissingOperand);
                    },
                    Some(l) => match try_process_tokens(tokens, pos + 1) {
                        Err(e) => {
                            return Err(e);
                        },
                        Ok((None, _)) => {
                            return Err(ParseError::MissingOperand);
                        },
                        Ok((Some(r), p)) => {
                            left = Some(Lexem::Or(Box::new(l), Box::new(r)));
                            pos = p;
                        },
                    },
                }
            },
            Token::Not => {
                match try_process_tokens(tokens, pos + 1) {
                    Err(e) => {
                        return Err(e);
                    },
                    Ok((None, _)) => {
                        return Err(ParseError::MissingOperand);
                    },
                    Ok((Some(x), p)) => {
                        left = Some(Lexem::Not(Box::new(x)));
                        pos = p;
                    },
                }
            },
            Token::Text(word) => {
                if pos + 1 >= tokens.len() {
                    return Err(ParseError::MissingFilterWord);
                }
                assert(tm[pos + 1] == tokens@[pos + 1]@);
                match &tokens[pos + 1] {
                    Token::Text(w) => {
                        let name = chars_of(word.as_str());
                        if same_chars(&name, &chars_of("startswith")) {
                            left = Some(Lexem::WithFilter(Filter::StartsWith(w.clone())));
                        } else if same_chars(&name, &chars_of("endswith")) {
                            left = Some(Lexem::WithFilter(Filter::EndsWith(w.clone())));
                        } else if same_chars(&name, &chars_of("equals")) {
                            left = Some(Lexem::WithFilter(Filter::Word(w.clone())));
                        } else {
                            return Err(ParseError::UnknownFilter);
                        }
                        pos = pos + 2;
                    },
                    _ => {
                        return Err(ParseError::FilterWordExpected);
                    },
                }
            },
        }
    }
}

/// The operator token that `c` stands for, if any.
fn operator_of(c: char) -> (r: Option<Token>)
    ensures
        match r {
            Some(t) => operator_token(c) == Some(t@),
            None => operator_token(c) is None,
        },
{
    let code = (c as u32) % 0x10000;
    if code == 0x7C {
        Some(Token::Or)
    } else if code == 0x26 {
        Some(Token::And)
    } else if code == 0x7E {
        Some(Token::Not)
    } else if code == 0x28 {
        Some(Token::LParen)
    } else if code == 0x29 {
        Some(Token::RParen)
    } else {
        None
    }
}

pub fn get_tokens(text: &str) -> (r: Vec<Token>)
    ensures
        token_models(r@) == tokens_of(text@),
{
    let chars = chars_of(text);
    let mut tokens: Vec<Token> = Vec::new();
    let mut word: Vec<char> = Vec::new();
    let mut i: usize = 0;
    assert(token_models(tokens@) =~= seq![]);
    assert(chars@.take(0) =~= seq![]);
    while i < chars.len()
        invariant
            i <= chars@.len(),
            (token_models(tokens@), word@) == scan(chars@.take(i as int)),
        decreases chars@.len() - i,
    {
        let c = chars[i];
        assert(chars@.take(i + 1).drop_last() =~= chars@.take(i as int));
        assert(chars@.take(i + 1).last() == c);
        let ghost before = tokens@;
        let ghost pending = word@;
        if is_alphabetic(c) {
            word.push(c);
        } else if is_whitespace(c) {
            if word.len() > 0 {
                tokens.push(Token::Text(string_from_chars(&word)));
                word = Vec::new();
                assert(token_models(tokens@) =~= token_models(before).push(SpecToken::Text(pending)));
            }
            assert(word@ =~= seq![]);
        } else {
            match operator_of(c) {
                Some(t) => {
                    if word.len() > 0 {
                        tokens.push(Token::Text(string_from_chars(&word)));
                        word = Vec::new();
                        assert(token_models(tokens@) =~= token_models(before).push(
                            SpecToken::Text(pending),
                        ));
                    }
                    let ghost mid = tokens@;
                    let ghost tv = t@;
                    tokens.push(t);
                    assert(token_models(tokens@) =~= token_models(mid).push(tv));
                    assert(word@ =~= seq![]);
                },
                None => {},
            }
        }
        i = i + 1;
    }
    assert(chars@.take(chars@.len() as int) =~= chars@);
    tokens
}

} // verus!
