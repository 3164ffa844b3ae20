//! Turns the text of a Jack file into numbered, trimmed, comment-free lines.
use vstd::prelude::*;
use vstd::string::StrSliceExecFns;
use vstd::string::StringExecFns;
use crate::line::Line;
use crate::text::{has_prefix, matches_at, starts_with};
use crate::scan::{next_index_of, lemma_next_index_of_bounds};

verus! {

broadcast use lemma_next_index_of_bounds;

/// Whitespace as `char::is_whitespace` defines it: Unicode `White_Space`.
pub open spec fn is_white(c: char) -> bool {
    c == '\t' || c == '\n' || c == '\u{0B}' || c == '\u{0C}' || c == '\r' || c == ' '
        || c == '\u{85}' || c == '\u{A0}' || c == '\u{1680}' || ('\u{2000}' <= c && c
        <= '\u{200A}') || c == '\u{2028}' || c == '\u{2029}' || c == '\u{202F}' || c
        == '\u{205F}' || c == '\u{3000}'
}

fn is_whitespace(c: char) -> (r: bool)
    ensures
        r == is_white(c),
{
    c == '\t' || c == '\n' || c == '\u{0B}' || c == '\u{0C}' || c == '\r' || c == ' '
        || c == '\u{85}' || c == '\u{A0}' || c == '\u{1680}' || ('\u{2000}' <= c && c
        <= '\u{200A}') || c == '\u{2028}' || c == '\u{2029}' || c == '\u{202F}' || c
        == '\u{205F}' || c == '\u{3000}'
}

/// The first position at or after `i` where `p` occurs in `s`, if any.
pub open spec fn find_from(s: Seq<char>, p: Seq<char>, i: int) -> Option<int>
    decreases s.len() + 1 - i,
{
    if i < 0 || i > s.len() {
        None
    } else if i + p.len() <= s.len() && s.subrange(i, i + p.len()) == p {
        Some(i)
    } else {
        find_from(s, p, i + 1)
    }
}

/// `s` up to the first `//`.
pub open spec fn strip_comment(s: Seq<char>) -> Seq<char> {
    match find_from(s, "//"@, 0) {
        Some(k) => s.subrange(0, k),
        None => s,
    }
}

/// The number of whitespace characters at the start of `s`.
pub open spec fn leading_white(s: Seq<char>, i: int) -> int
    decreases s.len() - i,
{
    if i >= s.len() || !is_white(s[i]) {
        i
    } else {
        leading_white(s, i + 1)
    }
}

/// The end of `s` once whitespace at the end, down to `lo`, is cut off.
pub open spec fn trailing_end(s: Seq<char>, lo: int, j: int) -> int
    decreases j - lo,
{
    if j <= lo || !is_white(s[j - 1]) {
        j
    } else {
        trailing_end(s, lo, j - 1)
    }
}

/// `s` without whitespace at either end.
pub open spec fn trimmed(s: Seq<char>) -> Seq<char> {
    let lo = leading_white(s, 0);
    s.subrange(lo, trailing_end(s, lo, s.len() as int))
}

/// `s` without the characters `c`.
pub open spec fn without(s: Seq<char>, c: char) -> Seq<char>
    decreases s.len(),
{
    if s.len() == 0 {
        s
    } else if s.last() == c {
        without(s.drop_last(), c)
    } else {
        without(s.drop_last(), c).push(s.last())
    }
}

/// The content that a raw line of a file leaves: its comment cut, trimmed,
/// carriage returns dropped.
pub open spec fn clean(raw: Seq<char>) -> Seq<char> {
    without(trimmed(strip_comment(raw)), '\r')
}

/// The lines of `s` from position `i` on, the first numbered `n`: each piece
/// between newlines is cleaned, and results that are empty or begin with `//`
/// are left out.
pub open spec fn lines_from(s: Seq<char>, i: int, n: nat) -> Seq<(Seq<char>, nat)>
    decreases s.len() + 1 - i,
{
    if i < 0 || i > s.len() {
        Seq::empty()
    } else {
        let j = next_index_of(s, '\n', i);
        let c = clean(s.subrange(i, j));
        let rest = if j >= s.len() {
            Seq::empty()
        } else {
            lines_from(s, j + 1, n + 1)
        };
        if c.len() == 0 || has_prefix(c, "//"@) {
            rest
        } else {
            seq![(c, n)] + rest
        }
    }
}

/// The content and number of each line.
pub open spec fn line_values(ls: Seq<Line>) -> Seq<(Seq<char>, nat)> {
    ls.map_values(|l: Line| (l.content@, l.number as nat))
}

/// `s` without whitespace at either end.
pub fn trim(s: &str) -> (r: &str)
    ensures
        r@ == trimmed(s@),
{
    let n = s.unicode_len();
    let mut lo: usize = 0;
    while lo < n && is_whitespace(s.get_char(lo))
        invariant
            n == s@.len(),
            lo <= n,
            leading_white(s@, 0) == leading_white(s@, lo as int),
        decreases n - lo,
    {
        lo += 1;
    }
    let mut hi: usize = n;
    while hi > lo && is_whitespace(s.get_char(hi - 1))
        invariant
            n == s@.len(),
            lo <= hi <= n,
            leading_white(s@, 0) == lo,
            trailing_end(s@, lo as int, n as int) == trailing_end(s@, lo as int, hi as int),
        decreases hi,
    {
        hi -= 1;
    }
    s.substring_char(lo, hi)
}

/// The first position where `p` occurs in `s`.
fn find_first(s: &str, p: &str) -> (r: Option<usize>)
    ensures
        match r {
            Some(k) => find_from(s@, p@, 0) == Some(k as int) && k <= s@.len(),
            None => find_from(s@, p@, 0) is None,
        },
{
    let n = s.unicode_len();
    let mut i: usize = 0;
    loop
        invariant
            n == s@.len(),
            i <= n,
            find_from(s@, p@, 0) == find_from(s@, p@, i as int),
        decreases n - i,
    {
        if matches_at(s, i, p) {
            return Some(i);
        }
        if i == n {
            assert(find_from(s@, p@, n + 1) is None);
            return None;
        }
        i += 1;
    }
}

/// `s` without the character `c`.
fn remove_char(s: &str, c: char) -> (r: String)
    ensures
        r@ == without(s@, c),
{
    let n = s.unicode_len();
    let mut out = String::new();
    let mut i: usize = 0;
    while i < n
        invariant
            n == s@.len(),
            i <= n,
            out@ == without(s@.subrange(0, i as int), c),
        decreases n - i,
    {
        let ghost pre = s@.subrange(0, i + 1);
        assert(pre.drop_last() == s@.subrange(0, i as int));
        if s.get_char(i) != c {
            out.append(s.substring_char(i, i + 1));
        }
        i += 1;
    }
    assert(s@.subrange(0, n as int) == s@);
    out
}

/// What a raw line leaves: its `//` comment cut, trimmed, carriage returns dropped.
pub fn clean_line(raw: &str) -> (r: String)
    ensures
        r@ == clean(raw@),
{
    let code = match find_first(raw, "//") {
        Some(k) => raw.substring_char(0, k),
        None => raw,
    };
    remove_char(trim(code), '\r')
}

/// Splits the text of a Jack file into lines, numbered from 1, each cleaned
/// by `clean_line`; lines left empty or beginning with `//` are dropped.
pub fn split_lines(contents: &str) -> (r: Vec<Line>)
    requires
        contents@.len() < usize::MAX,
    ensures
        line_values(r@) == lines_from(contents@, 0, 1),
{
    let ghost s = contents@;
    let n = contents.unicode_len();
    let mut lines: Vec<Line> = Vec::new();
    let mut i: usize = 0;
    let mut number: usize = 1;
    loop
        invariant
            s == contents@,
            n == s.len(),
            n < usize::MAX,
            i <= n,
            1 <= number <= i + 1,
            lines_from(s, 0, 1) == line_values(lines@) + lines_from(s, i as int, number as nat),
        decreases n - i,
    {
        let mut j = i;
        while j < n && contents.get_char(j) != '\n'
            invariant
                s == contents@,
                n == s.len(),
                i <= j <= n,
                next_index_of(s, '\n', i as int) == next_index_of(s, '\n', j as int),
            decreases n - j,
        {
            j += 1;
        }
        let c = clean_line(contents.substring_char(i, j));
        let ghost before = line_values(lines@);
        let ghost rest = if j >= n {
            Seq::<(Seq<char>, nat)>::empty()
        } else {
            lines_from(s, j + 1, number as nat + 1)
        };
        if c.unicode_len() > 0 && !starts_with(c.as_str(), "//") {
            lines.push(Line { content: c, number });
            proof {
                assert(line_values(lines@) =~= before.push((c@, number as nat)));
                assert(before + (seq![(c@, number as nat)] + rest) =~= line_values(lines@) + rest);
            }
        } else {
            assert(before + rest =~= line_values(lines@) + rest);
        }
        if j >= n {
            assert(line_values(lines@) + rest =~= line_values(lines@));
            return lines;
        }
        i = j + 1;
        number = number + 1;
    }
}

} // verus!
