//! Tokens of algebraic expressions, line by line.

use crate::rational::{same_value, Rational};
use crate::text::{chars_of, is_digit, number_value, parse_number, slice};
use vstd::prelude::*;

verus! {

/// Why a line could not be cut into tokens.
#[derive(Clone, Copy, Debug, PartialEq, Eq, Structural)]
pub enum LexError {
    /// A `.` is not followed by a digit.
    NoDigitAfterDot,
    /// A character that starts no token.
    InvalidChar(char),
}

/// The kinds of token.
#[derive(Clone, Copy, Debug, PartialEq, Eq, Structural)]
pub enum TokenKind {
    Number,
    Ident,
    Eq,
    Add,
    Sub,
    Mul,
    Div,
    Pow,
    Rem,
    LParen,
    RParen,
}

/// A token: a number, a name, or one of the signs `= + - * / ^ % ( )`.
#[derive(Debug)]
pub enum Token {
    Number(Rational),
    Ident(Vec<char>),
    Eq,
    Add,
    Sub,
    Mul,
    Div,
    Pow,
    Rem,
    LParen,
    RParen,
}

/// The binary operators.
#[derive(Clone, Copy, Debug, PartialEq, Eq, Structural)]
pub enum Operator {
    Add,
    Sub,
    Mul,
    Div,
    Pow,
}

impl Token {
    pub open spec fn kind(&self) -> TokenKind {
        match self {
            Token::Number(_) => TokenKind::Number,
            Token::Ident(_) => TokenKind::Ident,
            Token::Eq => TokenKind::Eq,
            Token::Add => TokenKind::Add,
            Token::Sub => TokenKind::Sub,
            Token::Mul => TokenKind::Mul,
            Token::Div => TokenKind::Div,
            Token::Pow => TokenKind::Pow,
            Token::Rem => TokenKind::Rem,
            Token::LParen => TokenKind::LParen,
            Token::RParen => TokenKind::RParen,
        }
    }
}

impl Operator {
    /// The operator a token stands for, if it is one of `+ - * / ^`.
    pub fn from_token(t: &Token) -> (r: Option<Operator>)
        ensures
            r == operator_of(t.kind()),
    {
        match t {
            Token::Add => Some(Operator::Add),
            Token::Sub => Some(Operator::Sub),
            Token::Mul => Some(Operator::Mul),
            Token::Div => Some(Operator::Div),
            Token::Pow => Some(Operator::Pow),
            _ => None,
        }
    }
}

pub open spec fn operator_of(k: TokenKind) -> Option<Operator> {
    match k {
        TokenKind::Add => Some(Operator::Add),
        TokenKind::Sub => Some(Operator::Sub),
        TokenKind::Mul => Some(Operator::Mul),
        TokenKind::Div => Some(Operator::Div),
        TokenKind::Pow => Some(Operator::Pow),
        _ => None,
    }
}

pub open spec fn is_letter(c: char) -> bool {
    ('a' <= c && c <= 'z') || ('A' <= c && c <= 'Z')
}

pub open spec fn sign_kind(c: char) -> Option<TokenKind> {
    if c == '=' {
        Some(TokenKind::Eq)
    } else if c == '+' {
        Some(TokenKind::Add)
    } else if c == '-' {
        Some(TokenKind::Sub)
    } else if c == '*' {
        Some(TokenKind::Mul)
    } else if c == '/' {
        Some(TokenKind::Div)
    } else if c == '^' {
        Some(TokenKind::Pow)
    } else if c == '%' {
        Some(TokenKind::Rem)
    } else if c == '(' {
        Some(TokenKind::LParen)
    } else if c == ')' {
        Some(TokenKind::RParen)
    } else {
        None
    }
}

/// The end of the run of characters from `i` on that satisfy the kind of run:
/// digits, or letters.
pub open spec fn run_end(s: Seq<char>, i: int, letters: bool) -> int
    decreases s.len() - i,
{
    if i < s.len() && (if letters { is_letter(s[i]) } else { is_digit(s[i]) }) {
        run_end(s, i + 1, letters)
    } else {
        i
    }
}

/// The end of a number starting at `i`: digits, then `.` and digits if a `.`
/// follows; `None` when a `.` has no digit after it.
pub open spec fn number_end(s: Seq<char>, i: int) -> Option<int> {
    let j = run_end(s, i, false);
    if j < s.len() && s[j] == '.' {
        if j + 1 < s.len() && is_digit(s[j + 1]) {
            Some(run_end(s, j + 1, false))
        } else {
            None
        }
    } else {
        Some(j)
    }
}

/// The tokens of `s` from position `i`, each with its kind and its span;
/// blanks are skipped.
pub open spec fn scan(s: Seq<char>, i: int) -> Result<Seq<(TokenKind, int, int)>, LexError>
    decreases s.len() - i,
{
    if i < 0 || i >= s.len() {
        Ok(Seq::empty())
    } else {
        let c = s[i];
        if c == ' ' || c == '\t' || c == '\r' {
            scan(s, i + 1)
        } else if sign_kind(c) is Some {
            match scan(s, i + 1) {
                Ok(rest) => Ok(seq![(sign_kind(c)->Some_0, i, i + 1)] + rest),
                Err(e) => Err(e),
            }
        } else if is_letter(c) {
            let j = run_end(s, i, true);
            if i < j && j <= s.len() {
                match scan(s, j) {
                    Ok(rest) => Ok(seq![(TokenKind::Ident, i, j)] + rest),
                    Err(e) => Err(e),
                }
            } else {
                Ok(Seq::empty())
            }
        } else if is_digit(c) {
            match number_end(s, i) {
                None => Err(LexError::NoDigitAfterDot),
                Some(j) => if i < j && j <= s.len() {
                    match scan(s, j) {
                        Ok(rest) => Ok(seq![(TokenKind::Number, i, j)] + rest),
                        Err(e) => Err(e),
                    }
                } else {
                    Ok(Seq::empty())
                },
            }
        } else if c == '.' {
            Err(LexError::NoDigitAfterDot)
        } else {
            Err(LexError::InvalidChar(c))
        }
    }
}

} // verus!

verus! {

/// The token `t` is the one `span` marks in `s`: same kind; a number has the
/// value of its text, a name is its text.
pub open spec fn token_fits(t: Token, s: Seq<char>, span: (TokenKind, int, int)) -> bool {
    &&& t.kind() == span.0
    &&& 0 <= span.1 <= span.2 <= s.len()
    &&& (t matches Token::Number(q) ==> q.wf() && number_value(s.subrange(span.1, span.2)) is Some
        && same_value(q@, number_value(s.subrange(span.1, span.2))->Some_0))
    &&& (t matches Token::Ident(v) ==> v@ == s.subrange(span.1, span.2))
}

proof fn lemma_run_end(s: Seq<char>, i: int, letters: bool)
    requires
        0 <= i <= s.len(),
    ensures
        i <= run_end(s, i, letters) <= s.len(),
        forall|k: int| i <= k < run_end(s, i, letters) ==> (if letters { is_letter(#[trigger] s[k]) } else { is_digit(s[k]) }),
        run_end(s, i, letters) < s.len() ==> !(if letters { is_letter(s[run_end(s, i, letters)]) } else { is_digit(s[run_end(s, i, letters)]) }),
    decreases s.len() - i,
{
    if i < s.len() && (if letters { is_letter(s[i]) } else { is_digit(s[i]) }) {
        lemma_run_end(s, i + 1, letters);
    }
}

/// The end of the run from `i` on.
fn find_run_end(s: &Vec<char>, i: usize, letters: bool) -> (r: usize)
    requires
        i <= s@.len(),
    ensures
        r == run_end(s@, i as int, letters),
    decreases s@.len() - i,
{
    if i < s.len() && (if letters {
        ('a' <= s[i] && s[i] <= 'z') || ('A' <= s[i] && s[i] <= 'Z')
    } else {
        '0' <= s[i] && s[i] <= '9'
    }) {
        find_run_end(s, i + 1, letters)
    } else {
        i
    }
}

/// The tokens of one line.
pub fn lex(s: &Vec<char>) -> (r: Result<Vec<Token>, LexError>)
    ensures
        match scan(s@, 0) {
            Err(e) => r == Err::<Vec<Token>, LexError>(e),
            Ok(spans) => r matches Ok(ts) && ts@.len() == spans.len() && forall|k: int|
                0 <= k < spans.len() ==> token_fits(#[trigger] ts@[k], s@, spans[k]),
        },
{
    let mut out: Vec<Token> = Vec::new();
    let ghost mut spans: Seq<(TokenKind, int, int)> = Seq::empty();
    let mut i: usize = 0;
    while i < s.len()
        invariant
            i <= s@.len(),
            out@.len() == spans.len(),
            forall|k: int| 0 <= k < spans.len() ==> token_fits(#[trigger] out@[k], s@, spans[k]),
            scan(s@, 0) == match scan(s@, i as int) {
                Ok(rest) => Ok(spans + rest),
                Err(e) => Err::<Seq<(TokenKind, int, int)>, LexError>(e),
            },
        decreases s@.len() - i,
    {
        let c = s[i];
        let ghost at = i as int;
        if c == ' ' || c == '\t' || c == '\r' {
            i = i + 1;
            continue;
        }
        let sign = if c == '=' {
            Some(Token::Eq)
        } else if c == '+' {
            Some(Token::Add)
        } else if c == '-' {
            Some(Token::Sub)
        } else if c == '*' {
            Some(Token::Mul)
        } else if c == '/' {
            Some(Token::Div)
        } else if c == '^' {
            Some(Token::Pow)
        } else if c == '%' {
            Some(Token::Rem)
        } else if c == '(' {
            Some(Token::LParen)
        } else if c == ')' {
            Some(Token::RParen)
        } else {
            None
        };
        match sign {
            Some(t) => {
                proof {
                    let span = (sign_kind(c)->Some_0, at, at + 1);
                    assert(token_fits(t, s@, span));
                    let old_spans = spans;
                    spans = spans.push(span);
                    match scan(s@, at + 1) {
                        Ok(rest) => {
                            assert(old_spans + (seq![span] + rest) =~= spans + rest);
                        },
                        Err(e) => {},
                    }
                }
                out.push(t);
                i = i + 1;
            },
            None => {
                if ('a' <= c && c <= 'z') || ('A' <= c && c <= 'Z') {
                    let j = find_run_end(s, i, true);
                    proof {
                        lemma_run_end(s@, at, true);
                    }
                    let name = slice(s, i, j);
                    proof {
                        let span = (TokenKind::Ident, at, j as int);
                        let old_spans = spans;
                        spans = spans.push(span);
                        match scan(s@, j as int) {
                            Ok(rest) => {
                                assert(old_spans + (seq![span] + rest) =~= spans + rest);
                            },
                            Err(e) => {},
                        }
                    }
                    out.push(Token::Ident(name));
                    i = j;
                } else if '0' <= c && c <= '9' {
                    let j = find_run_end(s, i, false);
                    proof {
                        lemma_run_end(s@, at, false);
                    }
                    let end = if j < s.len() && s[j] == '.' {
                        if j + 1 < s.len() && '0' <= s[j + 1] && s[j + 1] <= '9' {
                            proof {
                                lemma_run_end(s@, j + 1, false);
                            }
                            find_run_end(s, j + 1, false)
                        } else {
                            return Err(LexError::NoDigitAfterDot);
                        }
                    } else {
                        j
                    };
                    let text = slice(s, i, end);
                    proof {
                        assert(number_end(s@, at) == Some(end as int));
                        crate::text::lemma_number_text(s@, at, j as int, end as int);
                    }
                    let value = match parse_number(&text) {
                        Ok(q) => q,
                        Err(_) => {
                            proof {
                                assert(false);
                            }
                            return Err(LexError::NoDigitAfterDot);
                        },
                    };
                    proof {
                        let span = (TokenKind::Number, at, end as int);
                        let old_spans = spans;
                        spans = spans.push(span);
                        match scan(s@, end as int) {
                            Ok(rest) => {
                                assert(old_spans + (seq![span] + rest) =~= spans + rest);
                            },
                            Err(e) => {},
                        }
                    }
                    out.push(Token::Number(value));
                    i = end;
                } else if c == '.' {
                    return Err(LexError::NoDigitAfterDot);
                } else {
                    return Err(LexError::InvalidChar(c));
                }
            },
        }
    }
    proof {
        assert(spans + Seq::<(TokenKind, int, int)>::empty() =~= spans);
    }
    Ok(out)
}

} // verus!

verus! {

/// The text cut at every line break.
pub open spec fn split_lines(s: Seq<char>) -> Seq<Seq<char>>
    decreases s.len(),
{
    if s.len() == 0 {
        seq![Seq::empty()]
    } else {
        let ls = split_lines(s.drop_last());
        if s.last() == '\n' {
            ls.push(Seq::empty())
        } else {
            ls.update(ls.len() - 1, ls.last().push(s.last()))
        }
    }
}

/// A line with nothing to read: empty, or a comment starting with `//`.
pub open spec fn skipped(l: Seq<char>) -> bool {
    l.len() == 0 || (l.len() >= 2 && l[0] == '/' && l[1] == '/')
}

/// Each line that is not skipped, with its tokens; the error of the first
/// line that cannot be read.
pub open spec fn lex_lines(ls: Seq<Seq<char>>) -> Result<Seq<(Seq<char>, Seq<(TokenKind, int, int)>)>, LexError>
    decreases ls.len(),
{
    if ls.len() == 0 {
        Ok(Seq::empty())
    } else {
        match lex_lines(ls.drop_last()) {
            Err(e) => Err(e),
            Ok(done) => if skipped(ls.last()) {
                Ok(done)
            } else {
                match scan(ls.last(), 0) {
                    Err(e) => Err(e),
                    Ok(spans) => Ok(done.push((ls.last(), spans))),
                }
            },
        }
    }
}

proof fn lemma_lex_lines_err(ls: Seq<Seq<char>>, j: int, e: LexError)
    requires
        0 <= j <= ls.len(),
        lex_lines(ls.take(j)) == Err::<Seq<(Seq<char>, Seq<(TokenKind, int, int)>)>, LexError>(e),
    ensures
        lex_lines(ls) == Err::<Seq<(Seq<char>, Seq<(TokenKind, int, int)>)>, LexError>(e),
    decreases ls.len() - j,
{
    if j < ls.len() {
        assert(ls.take(j + 1).drop_last() =~= ls.take(j));
        lemma_lex_lines_err(ls, j + 1, e);
    } else {
        assert(ls.take(j) =~= ls);
    }
}

/// The tokens `ts` are those the spans of a line mark.
pub open spec fn line_fits(ts: Seq<Token>, line: (Seq<char>, Seq<(TokenKind, int, int)>)) -> bool {
    ts.len() == line.1.len() && forall|m: int| 0 <= m < ts.len() ==> token_fits(#[trigger] ts[m], line.0, line.1[m])
}

/// Cuts text into lines.
fn lines_of(body: &Vec<char>) -> (r: Vec<Vec<char>>)
    ensures
        r@.len() == split_lines(body@).len(),
        forall|j: int| 0 <= j < r@.len() ==> #[trigger] r@[j]@ == split_lines(body@)[j],
{
    let mut done: Vec<Vec<char>> = Vec::new();
    let mut cur: Vec<char> = Vec::new();
    let ghost mut pieces: Seq<Seq<char>> = Seq::empty();
    let mut k: usize = 0;
    while k < body.len()
        invariant
            k <= body@.len(),
            done@.len() == pieces.len(),
            forall|j: int| 0 <= j < pieces.len() ==> #[trigger] done@[j]@ == pieces[j],
            pieces.push(cur@) == split_lines(body@.take(k as int)),
        decreases body@.len() - k,
    {
        let c = body[k];
        let ghost prev = body@.take(k as int);
        proof {
            assert(body@.take(k + 1).drop_last() =~= prev);
            assert(body@.take(k + 1).last() == c);
        }
        if c == '\n' {
            let piece = cur;
            done.push(piece);
            cur = Vec::new();
            proof {
                pieces = pieces.push(piece@);
                assert(pieces.push(cur@) =~= split_lines(prev).push(Seq::empty()));
            }
        } else {
            cur.push(c);
            proof {
                let ls = split_lines(prev);
                assert(pieces.push(cur@) =~= ls.update(ls.len() - 1, ls.last().push(c)));
            }
        }
        k = k + 1;
    }
    let ghost last = cur@;
    done.push(cur);
    proof {
        assert(body@.take(body@.len() as int) =~= body@);
        let ls = split_lines(body@);
        assert(ls == pieces.push(last));
        assert forall|j: int| 0 <= j < done@.len() implies #[trigger] done@[j]@ == ls[j] by {
            if j < pieces.len() {
                assert(done@[j]@ == pieces[j]);
            }
        }
    }
    done
}

/// Cuts a text of expressions into tokens, one list per line; empty lines and
/// lines starting with `//` are skipped.
pub struct Lexer {
    contents: Vec<char>,
}

impl Lexer {
    /// The text to read.
    pub closed spec fn text(&self) -> Seq<char> {
        self.contents@
    }

    /// A lexer over the given text.
    pub fn new(contents: &str) -> (r: Lexer)
        ensures
            r.text() == contents@,
    {
        Lexer { contents: chars_of(contents) }
    }

    /// The tokens of each line that is not skipped, or the error of the first
    /// line that cannot be read.
    pub fn tokens(&self) -> (r: Result<Vec<Vec<Token>>, LexError>)
        ensures
            match lex_lines(split_lines(self.text())) {
                Err(e) => r == Err::<Vec<Vec<Token>>, LexError>(e),
                Ok(lines) => r matches Ok(v) && v@.len() == lines.len() && forall|k: int|
                    0 <= k < lines.len() ==> line_fits(#[trigger] v@[k]@, lines[k]),
            },
    {
        let ls = lines_of(&self.contents);
        let ghost lines = split_lines(self.contents@);
        let mut out: Vec<Vec<Token>> = Vec::new();
        let ghost mut done: Seq<(Seq<char>, Seq<(TokenKind, int, int)>)> = Seq::empty();
        let mut j: usize = 0;
        proof {
            assert(lines.take(0) =~= Seq::<Seq<char>>::empty());
        }
        while j < ls.len()
            invariant
                j <= ls@.len(),
                ls@.len() == lines.len(),
                lines == split_lines(self.text()),
                forall|x: int| 0 <= x < lines.len() ==> #[trigger] ls@[x]@ == lines[x],
                lex_lines(lines.take(j as int)) == Ok::<Seq<(Seq<char>, Seq<(TokenKind, int, int)>)>, LexError>(done),
                out@.len() == done.len(),
                forall|k: int| 0 <= k < done.len() ==> line_fits(#[trigger] out@[k]@, done[k]),
            decreases ls@.len() - j,
        {
            let line = &ls[j];
            proof {
                assert(lines.take(j + 1).drop_last() =~= lines.take(j as int));
                assert(lines.take(j + 1).last() == lines[j as int]);
                assert(line@ == lines[j as int]);
            }
            let skip = line.len() == 0 || (line.len() >= 2 && line[0] == '/' && line[1] == '/');
            if !skip {
                match lex(line) {
                    Ok(ts) => {
                        let ghost old_out = out@;
                        let ghost old_done = done;
                        let ghost spans = scan(line@, 0)->Ok_0;
                        let ghost tsv = ts@;
                        proof {
                            done = done.push((line@, spans));
                        }
                        out.push(ts);
                        proof {
                            assert forall|k: int| 0 <= k < done.len() implies line_fits(#[trigger] out@[k]@, done[k]) by {
                                if k < old_done.len() {
                                    assert(out@[k] == old_out[k]);
                                    assert(done[k] == old_done[k]);
                                } else {
                                    assert(out@[k]@ == tsv);
                                    assert(done[k] == (line@, spans));
                                }
                            }
                        }
                    },
                    Err(e) => {
                        proof {
                            lemma_lex_lines_err(lines, j + 1, e);
                        }
                        return Err(e);
                    },
                }
            }
            j = j + 1;
        }
        proof {
            assert(lines.take(lines.len() as int) =~= lines);
        }
        Ok(out)
    }
}

} // verus!
