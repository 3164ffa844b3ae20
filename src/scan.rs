//! Where the lexemes of a line end.
use vstd::prelude::*;

verus! {

/// The one-character symbols of Jack.
pub open spec fn is_symbol_char(c: char) -> bool {
    c == '(' || c == ')' || c == '[' || c == ']' || c == '{' || c == '}' || c == ','
        || c == ';' || c == '=' || c == '.' || c == '+' || c == '-' || c == '*' || c == '/'
        || c == '&' || c == '|' || c == '~' || c == '<' || c == '>'
}

/// The first position at or after `j` that holds a double quote, or the end of `s`.
pub open spec fn quote_end(s: Seq<char>, j: int) -> int
    decreases s.len() - j,
{
    if j >= s.len() {
        s.len() as int
    } else if s[j] == '"' {
        j
    } else {
        quote_end(s, j + 1)
    }
}

/// The first position at or after `j` that holds a symbol or a space, or the end of `s`.
pub open spec fn word_end(s: Seq<char>, j: int) -> int
    decreases s.len() - j,
{
    if j >= s.len() {
        s.len() as int
    } else if is_symbol_char(s[j]) || s[j] == ' ' {
        j
    } else {
        word_end(s, j + 1)
    }
}

pub broadcast proof fn lemma_quote_end_bounds(s: Seq<char>, j: int)
    requires
        0 <= j,
    ensures
        j <= s.len() ==> j <= #[trigger] quote_end(s, j) <= s.len(),
        forall|k: int| j <= k < quote_end(s, j) ==> s[k] != '"',
        quote_end(s, j) < s.len() ==> s[quote_end(s, j)] == '"',
    decreases s.len() - j,
{
    if j < s.len() && s[j] != '"' {
        lemma_quote_end_bounds(s, j + 1);
    }
}

pub broadcast proof fn lemma_word_end_bounds(s: Seq<char>, j: int)
    requires
        0 <= j,
    ensures
        j <= s.len() ==> j <= #[trigger] word_end(s, j) <= s.len(),
        forall|k: int| j <= k < word_end(s, j) ==> !is_symbol_char(s[k]) && s[k] != ' ',
        word_end(s, j) < s.len() ==> is_symbol_char(s[word_end(s, j)]) || s[word_end(s, j)]
            == ' ',
    decreases s.len() - j,
{
    if j < s.len() && !(is_symbol_char(s[j]) || s[j] == ' ') {
        lemma_word_end_bounds(s, j + 1);
    }
}

/// The first position at or after `i` where `s` holds `c`, or the end of `s`.
pub open spec fn next_index_of(s: Seq<char>, c: char, i: int) -> int
    decreases s.len() - i,
{
    if i >= s.len() {
        s.len() as int
    } else if s[i] == c {
        i
    } else {
        next_index_of(s, c, i + 1)
    }
}

pub broadcast proof fn lemma_next_index_of_bounds(s: Seq<char>, c: char, i: int)
    requires
        0 <= i,
    ensures
        i <= s.len() ==> i <= #[trigger] next_index_of(s, c, i) <= s.len(),
        forall|k: int| i <= k < next_index_of(s, c, i) ==> s[k] != c,
        next_index_of(s, c, i) < s.len() ==> s[next_index_of(s, c, i)] == c,
    decreases s.len() - i,
{
    if i < s.len() && s[i] != c {
        lemma_next_index_of_bounds(s, c, i + 1);
    }
}

} // verus!
