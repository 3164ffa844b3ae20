//! Reads lines of Jack code and produces a list of tokens.
use vstd::prelude::*;
use vstd::string::StrSliceExecFns;
use vstd::string::StringExecFns;
use crate::line::Line;
use crate::text::{has_prefix, has_suffix, starts_with, ends_with, opt_concat};
use crate::scan::{is_symbol_char, quote_end, word_end, lemma_quote_end_bounds, lemma_word_end_bounds};
use crate::tokens::{Constant, Keyword, Token, TokenV, TokenWrapper, keyword_of};
use crate::xml::{append_token_xml, token_lines, tokens_xml};

verus! {

broadcast use lemma_quote_end_bounds, lemma_word_end_bounds;

pub open spec fn is_digit_char(c: char) -> bool {
    '0' <= c && c <= '9'
}

pub open spec fn all_digits(s: Seq<char>) -> bool {
    forall|i: int| 0 <= i < s.len() ==> is_digit_char(#[trigger] s[i])
}

/// The number that a string of decimal digits denotes.
pub open spec fn digits_value(s: Seq<char>) -> nat
    decreases s.len(),
{
    if s.len() == 0 {
        0
    } else {
        digits_value(s.drop_last()) * 10 + ((s.last() as u32) - ('0' as u32)) as nat
    }
}

/// The token that a lexeme stands for: `None` for a lexeme that starts with a
/// digit but is not an unsigned 16-bit decimal number.
pub open spec fn lex_word(w: Seq<char>) -> Option<TokenV> {
    if is_digit_char(w[0]) {
        if all_digits(w) && digits_value(w) <= 65535 {
            Some(TokenV::IntConst(digits_value(w) as u16))
        } else {
            None
        }
    } else if keyword_of(w) is Some {
        Some(TokenV::Keyword(keyword_of(w)->0))
    } else {
        Some(TokenV::Ident(w))
    }
}

pub open spec fn opt_prepend<T>(t: T, rest: Option<Seq<T>>) -> Option<Seq<T>> {
    match rest {
        Some(r) => Some(seq![t] + r),
        None => None,
    }
}

/// The tokens of `s` from position `i` on, or `None` where a lexeme is a malformed number.
pub open spec fn lex_from(s: Seq<char>, i: int) -> Option<Seq<TokenV>>
    decreases s.len() + 1 - i,
{
    if i < 0 || i >= s.len() {
        Some(Seq::empty())
    } else if is_symbol_char(s[i]) {
        opt_prepend(TokenV::Symbol(s[i]), lex_from(s, i + 1))
    } else if s[i] == ' ' {
        lex_from(s, i + 1)
    } else if s[i] == '"' {
        let j = quote_end(s, i + 1);
        opt_prepend(TokenV::StrConst(s.subrange(i + 1, j)), lex_from(s, j + 1))
    } else {
        let j = word_end(s, i);
        match lex_word(s.subrange(i, j)) {
            Some(t) => opt_prepend(t, lex_from(s, j)),
            None => None,
        }
    }
}

/// The tokens of one line.
pub open spec fn lex_line(s: Seq<char>) -> Option<Seq<TokenV>> {
    lex_from(s, 0)
}

/// How a line moves the block-comment state: the new state, and whether the
/// line's tokens are read.
pub open spec fn comment_step(in_comment: bool, c: Seq<char>) -> (bool, bool) {
    let opens = has_prefix(c, "/*"@);
    let closes = has_suffix(c, "*/"@) || has_prefix(c, "*/"@);
    if opens && has_suffix(c, "*/"@) {
        (in_comment, false)
    } else {
        let state = opens || in_comment;
        if closes {
            (false, false)
        } else {
            (state, !state)
        }
    }
}

/// Each token of a line, paired with the line.
pub open spec fn with_line(ts: Seq<TokenV>, line: Line) -> Seq<(TokenV, Line)> {
    ts.map_values(|t: TokenV| (t, line))
}

/// The tokens of a sequence of lines, each paired with its line, and the
/// block-comment state after the last line.
pub open spec fn lex_lines(lines: Seq<Line>) -> (Option<Seq<(TokenV, Line)>>, bool)
    decreases lines.len(),
{
    if lines.len() == 0 {
        (Some(Seq::empty()), false)
    } else {
        let (prev, state) = lex_lines(lines.drop_last());
        let line = lines.last();
        let (next_state, read) = comment_step(state, line.content@);
        if read {
            (
                opt_concat(
                    prev,
                    match lex_line(line.content@) {
                        Some(ts) => Some(with_line(ts, line)),
                        None => None,
                    },
                ),
                next_state,
            )
        } else {
            (prev, next_state)
        }
    }
}

/// The position of the first line that is read (outside block comments) and
/// whose tokens cannot be formed, if there is one.
pub open spec fn lex_failure(lines: Seq<Line>) -> Option<int>
    decreases lines.len(),
{
    if lines.len() == 0 {
        None
    } else if lex_lines(lines.drop_last()).0 is None {
        lex_failure(lines.drop_last())
    } else if comment_step(lex_lines(lines.drop_last()).1, lines.last().content@).1 && lex_line(
        lines.last().content@,
    ) is None {
        Some(lines.len() - 1)
    } else {
        None
    }
}

proof fn lemma_lex_lines_stays_failed(lines: Seq<Line>, k: int, at: int)
    requires
        0 <= k <= lines.len(),
        lex_lines(lines.subrange(0, k)).0 is None,
        lex_failure(lines.subrange(0, k)) == Some(at),
    ensures
        lex_lines(lines).0 is None,
        lex_failure(lines) == Some(at),
    decreases lines.len() - k,
{
    if k < lines.len() {
        let pre = lines.subrange(0, k + 1);
        assert(pre.drop_last() == lines.subrange(0, k));
        lemma_lex_lines_stays_failed(lines, k + 1, at);
    } else {
        assert(lines.subrange(0, k) == lines);
    }
}

/// The number of maximal lexemes of `s` from position `i` on: each symbol,
/// each quoted string, and each run of other characters up to a symbol or a
/// space counts once; spaces count for nothing.
pub open spec fn lexeme_count(s: Seq<char>, i: int) -> nat
    decreases s.len() + 1 - i,
{
    if i < 0 || i >= s.len() {
        0
    } else if is_symbol_char(s[i]) {
        1 + lexeme_count(s, i + 1)
    } else if s[i] == ' ' {
        lexeme_count(s, i + 1)
    } else if s[i] == '"' {
        1 + lexeme_count(s, quote_end(s, i + 1) + 1)
    } else {
        1 + lexeme_count(s, word_end(s, i))
    }
}

/// A line that lexes has exactly one token per maximal lexeme.
pub proof fn lemma_token_count(s: Seq<char>, i: int)
    requires
        lex_from(s, i) is Some,
    ensures
        lex_from(s, i)->0.len() == lexeme_count(s, i),
    decreases s.len() + 1 - i,
{
    if 0 <= i < s.len() {
        if is_symbol_char(s[i]) {
            lemma_token_count(s, i + 1);
        } else if s[i] == ' ' {
            lemma_token_count(s, i + 1);
        } else if s[i] == '"' {
            lemma_token_count(s, quote_end(s, i + 1) + 1);
        } else {
            lemma_token_count(s, word_end(s, i));
        }
    }
}

/// The number of maximal lexemes of the lines that are read, that is of the
/// lines outside block comments.
pub open spec fn lines_lexeme_count(lines: Seq<Line>) -> nat
    decreases lines.len(),
{
    if lines.len() == 0 {
        0
    } else {
        let state = lex_lines(lines.drop_last()).1;
        let read = comment_step(state, lines.last().content@).1;
        lines_lexeme_count(lines.drop_last()) + if read {
            lexeme_count(lines.last().content@, 0)
        } else {
            0
        }
    }
}

/// Lines that lex give exactly one token per maximal lexeme of the lines
/// outside block comments, and none for spaces or comment lines.
pub proof fn lemma_tokenize_count(lines: Seq<Line>)
    requires
        lex_lines(lines).0 is Some,
    ensures
        lex_lines(lines).0->0.len() == lines_lexeme_count(lines),
    decreases lines.len(),
{
    if lines.len() > 0 {
        let pre = lines.drop_last();
        let line = lines.last();
        let (next_state, read) = comment_step(lex_lines(pre).1, line.content@);
        if lex_lines(pre).0 is None {
            assert(lex_lines(lines).0 is None);
        }
        lemma_tokenize_count(pre);
        if read {
            lemma_token_count(line.content@, 0);
        }
    }
}

/// A lexeme that starts with a digit but is not a 16-bit unsigned number.
pub struct TokenizeError {
    pub line: Line,
}

/// Reads lines of Jack code and produces a list of tokens.
pub struct Tokenizer {}

proof fn lemma_concat_prepend<T>(a: Seq<T>, t: T, rest: Option<Seq<T>>)
    ensures
        opt_concat(Some(a), opt_prepend(t, rest)) == opt_concat(Some(a.push(t)), rest),
{
    if let Some(r) = rest {
        assert(a + (seq![t] + r) == a.push(t) + r);
    }
}

fn is_digit(c: char) -> (r: bool)
    ensures
        r == is_digit_char(c),
{
    '0' <= c && c <= '9'
}

/// The unsigned 16-bit number that `w` spells in decimal, if it does.
fn parse_number(w: &str) -> (r: Option<u16>)
    ensures
        r == (if all_digits(w@) && digits_value(w@) <= 65535 {
            Some(digits_value(w@) as u16)
        } else {
            None
        }),
{
    let n = w.unicode_len();
    let mut value: u32 = 0;
    let mut too_big = false;
    let mut i: usize = 0;
    while i < n
        invariant
            n == w@.len(),
            i <= n,
            all_digits(w@.subrange(0, i as int)),
            !too_big ==> value == digits_value(w@.subrange(0, i as int)) && value <= 65535,
            too_big ==> digits_value(w@.subrange(0, i as int)) > 65535,
        decreases n - i,
    {
        let c = w.get_char(i);
        if !is_digit(c) {
            assert(!all_digits(w@));
            return None;
        }
        let ghost prefix = w@.subrange(0, i + 1);
        assert(prefix.drop_last() == w@.subrange(0, i as int));
        assert(all_digits(prefix));
        let d = (c as u32) - ('0' as u32);
        if !too_big {
            value = value * 10 + d;
            if value > 65535 {
                too_big = true;
            }
        }
        i += 1;
    }
    assert(w@.subrange(0, n as int) == w@);
    if too_big {
        None
    } else {
        Some(value as u16)
    }
}

impl Tokenizer {
    pub fn new() -> (r: Tokenizer) {
        Tokenizer {}
    }

    /// Takes the lines of a Jack file and returns its tokens, each with its line;
    /// fails on the first lexeme that starts with a digit but is not a number.
    pub fn tokenize(&self, lines: Vec<Line>) -> (r: Result<Vec<TokenWrapper>, TokenizeError>)
        ensures
            match r {
                Ok(ts) => lex_lines(lines@).0 == Some(ts@.map_values(|t: TokenWrapper| t@)),
                Err(e) => lex_lines(lines@).0 is None && lex_failure(lines@) is Some && e.line
                    == lines@[lex_failure(lines@)->0],
            },
    {
        let mut tokens: Vec<TokenWrapper> = Vec::new();
        let mut comment = false;
        let mut k: usize = 0;
        while k < lines.len()
            invariant
                k <= lines@.len(),
                lex_lines(lines@.subrange(0, k as int)).0 == Some(
                    tokens@.map_values(|t: TokenWrapper| t@),
                ),
                lex_lines(lines@.subrange(0, k as int)).1 == comment,
            decreases lines.len() - k,
        {
            let line = &lines[k];
            let ghost pre = lines@.subrange(0, k + 1);
            assert(pre.drop_last() == lines@.subrange(0, k as int));
            let opens = starts_with(line.content.as_str(), "/*");
            let ends = ends_with(line.content.as_str(), "*/");
            let closes = ends || starts_with(line.content.as_str(), "*/");
            let mut read = true;
            if opens && ends {
                read = false;
            } else {
                if opens {
                    comment = true;
                }
                if closes {
                    comment = false;
                    read = false;
                } else if comment {
                    read = false;
                }
            }
            if read {
                let ghost before = tokens@.map_values(|t: TokenWrapper| t@);
                let ok = self.tokenize_line(line, &mut tokens);
                if !ok {
                    proof {
                        let pre = lines@.subrange(0, k + 1);
                        assert(pre.drop_last() == lines@.subrange(0, k as int));
                        assert(pre.last() == lines@[k as int]);
                        assert(lex_failure(pre) == Some(k as int));
                        lemma_lex_lines_stays_failed(lines@, k + 1, k as int);
                    }
                    return Err(TokenizeError { line: line.duplicate() });
                }
                proof {
                    let after = tokens@.map_values(|t: TokenWrapper| t@);
                    assert(after == before + with_line(lex_line(line.content@)->0, *line));
                }
            }
            k += 1;
        }
        assert(lines@.subrange(0, lines@.len() as int) == lines@);
        Ok(tokens)
    }

    /// Appends the tokens of one line; false where a lexeme is a malformed number.
    fn tokenize_line(&self, line: &Line, tokens: &mut Vec<TokenWrapper>) -> (ok: bool)
        ensures
            ok == (lex_line(line.content@) is Some),
            ok ==> final(tokens)@.map_values(|t: TokenWrapper| t@) == old(tokens)@.map_values(
                |t: TokenWrapper| t@,
            ) + with_line(lex_line(line.content@)->0, *line),
    {
        let s = line.content.as_str();
        let ghost sv = s@;
        let n = s.unicode_len();
        let ghost start = old(tokens)@.map_values(|t: TokenWrapper| t@);
        let ghost mut acc: Seq<TokenV> = Seq::empty();
        let mut i: usize = 0;
        while i < n
            invariant
                n == sv.len(),
                sv == line.content@,
                s@ == sv,
                i <= n,
                opt_concat(Some(acc), lex_from(sv, i as int)) == lex_from(sv, 0),
                tokens@.map_values(|t: TokenWrapper| t@) == start + with_line(acc, *line),
            decreases n - i,
        {
            let c = s.get_char(i);
            let ghost i0 = i as int;
            let mut tok: Option<Token> = None;
            if Tokenizer::is_symbol(c) {
                tok = Some(Token::Symbol(c));
                i += 1;
            } else if c == ' ' {
                i += 1;
            } else if c == '"' {
                proof { lemma_quote_end_bounds(sv, i + 1); }
                let mut j = i + 1;
                while j < n && s.get_char(j) != '"'
                    invariant
                        i + 1 <= j <= n,
                        n == sv.len(),
                        s@ == sv,
                        quote_end(sv, i + 1) == quote_end(sv, j as int),
                    decreases n - j,
                {
                    j += 1;
                }
                let lit = String::from_str(s.substring_char(i + 1, j));
                tok = Some(Token::Constant(Constant::StringConstant(lit)));
                if j < n {
                    i = j + 1;
                } else {
                    i = n;
                    assert(lex_from(sv, n + 1) == lex_from(sv, n as int));
                }
            } else {
                proof { lemma_word_end_bounds(sv, i as int); }
                let mut j = i;
                while j < n && !Tokenizer::is_symbol(s.get_char(j)) && s.get_char(j) != ' '
                    invariant
                        i <= j <= n,
                        n == sv.len(),
                        s@ == sv,
                        word_end(sv, i as int) == word_end(sv, j as int),
                    decreases n - j,
                {
                    j += 1;
                }
                let word = s.substring_char(i, j);
                if is_digit(c) {
                    match parse_number(word) {
                        Some(v) => {
                            tok = Some(Token::Constant(Constant::IntegerConstant(v)));
                        },
                        None => {
                            return false;
                        },
                    }
                } else {
                    match Keyword::from_text(word) {
                        Some(k) => {
                            tok = Some(Token::Keyword(k));
                        },
                        None => {
                            tok = Some(Token::Identifier(String::from_str(word)));
                        },
                    }
                }
                i = j;
            }
            match tok {
                Some(t) => {
                    let ghost tv = t@;
                    assert(lex_from(sv, i0) == opt_prepend(tv, lex_from(sv, i as int)));
                    let ghost prev = tokens@.map_values(|t: TokenWrapper| t@);
                    proof {
                        lemma_concat_prepend(acc, tv, lex_from(sv, i as int));
                    }
                    tokens.push(TokenWrapper { token: t, line: line.duplicate() });
                    proof {
                        assert(tokens@.map_values(|t: TokenWrapper| t@) =~= prev.push((tv, *line)));
                        assert(with_line(acc.push(tv), *line) =~= with_line(acc, *line).push(
                            (tv, *line),
                        ));
                        acc = acc.push(tv);
                    }
                },
                None => {
                    assert(lex_from(sv, i0) == lex_from(sv, i as int));
                },
            }
        }
        proof {
            assert(acc + Seq::<TokenV>::empty() == acc);
        }
        true
    }

    /// The XML listing of the tokens, as the course writes it.
    pub fn write_xml(&self, tokens: Vec<TokenWrapper>) -> (r: String)
        ensures
            r@ == tokens_xml(tokens@.map_values(|t: TokenWrapper| t.token@)),
    {
        let ghost ts = tokens@.map_values(|t: TokenWrapper| t.token@);
        let mut out = String::from_str("<tokens>\n");
        let n = tokens.len();
        let mut i: usize = 0;
        while i < n
            invariant
                n == tokens@.len(),
                ts == tokens@.map_values(|t: TokenWrapper| t.token@),
                i <= n,
                out@ == "<tokens>\n"@ + token_lines(ts.take(i as int)),
            decreases n - i,
        {
            let ghost pre = ts.take(i + 1);
            assert(pre.drop_last() == ts.take(i as int));
            append_token_xml(&mut out, &tokens[i].token);
            assert(out@ =~= "<tokens>\n"@ + token_lines(ts.take(i + 1)));
            i += 1;
        }
        assert(ts.take(n as int) == ts);
        out.append("</tokens>\n");
        assert(out@ =~= tokens_xml(ts));
        out
    }

    fn is_symbol(c: char) -> (r: bool)
        ensures
            r == is_symbol_char(c),
    {
        c == '(' || c == ')' || c == '[' || c == ']' || c == '{' || c == '}' || c == ','
            || c == ';' || c == '=' || c == '.' || c == '+' || c == '-' || c == '*' || c == '/'
            || c == '&' || c == '|' || c == '~' || c == '<' || c == '>'
    }
}

} // verus!
