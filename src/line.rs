//! A line of Jack source with its line number.
use vstd::prelude::*;
use vstd::string::StrSliceExecFns;
use vstd::string::StringExecFns;
use crate::text::matches_at;

verus! {

/// `s` from position `i` on, with each occurrence of `from` replaced by `to`,
/// left to right, as `str::replace` does; an empty `from` matches before each
/// character and at the end.
pub open spec fn replaced_from(s: Seq<char>, from: Seq<char>, to: Seq<char>, i: int) -> Seq<char>
    decreases s.len() + 1 - i,
{
    if i < 0 || i > s.len() {
        Seq::empty()
    } else if from.len() == 0 {
        if i == s.len() {
            to
        } else {
            to + seq![s[i]] + replaced_from(s, from, to, i + 1)
        }
    } else if i + from.len() <= s.len() && s.subrange(i, i + from.len()) == from {
        to + replaced_from(s, from, to, i + from.len())
    } else if i == s.len() {
        Seq::empty()
    } else {
        seq![s[i]] + replaced_from(s, from, to, i + 1)
    }
}

/// Holds a line of Jack code and the corresponding 1-based line number.
pub struct Line {
    pub content: String,
    pub number: usize,
}

impl Line {
    pub fn new(content: &str, number: usize) -> (r: Line)
        ensures
            r.content@ == content@,
            r.number == number,
    {
        Line { content: content.to_string(), number }
    }

    /// This line with each occurrence of `from` in its content replaced by `to`.
    pub fn replace_content(self, from: &str, to: &str) -> (r: Self)
        ensures
            r.content@ == replaced_from(self.content@, from@, to@, 0),
            r.number == self.number,
    {
        let s = self.content.as_str();
        let ghost sv = s@;
        let n = s.unicode_len();
        let m = from.unicode_len();
        let mut out = String::new();
        let mut i: usize = 0;
        while i < n
            invariant
                sv == s@,
                n == sv.len(),
                m == from@.len(),
                i <= n,
                out@ + replaced_from(sv, from@, to@, i as int) == replaced_from(sv, from@, to@, 0),
            decreases n - i,
        {
            let ghost before = out@;
            if m > 0 && matches_at(s, i, from) {
                out.append(to);
                assert(before + replaced_from(sv, from@, to@, i as int) == out@ + replaced_from(
                    sv,
                    from@,
                    to@,
                    i + m,
                ));
                i = i + m;
            } else {
                if m == 0 {
                    out.append(to);
                }
                out.append(s.substring_char(i, i + 1));
                assert(before + replaced_from(sv, from@, to@, i as int) =~= out@ + replaced_from(
                    sv,
                    from@,
                    to@,
                    i + 1,
                ));
                i = i + 1;
            }
        }
        if m == 0 {
            out.append(to);
        }
        assert(out@ =~= replaced_from(sv, from@, to@, 0));
        Line { content: out, number: self.number }
    }

    /// A copy of this line.
    pub fn duplicate(&self) -> (r: Line)
        ensures
            r == *self,
    {
        Line { content: self.content.clone(), number: self.number }
    }
}

} // verus!
