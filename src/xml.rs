//! The course's XML listings of tokens.
use vstd::prelude::*;
use vstd::string::StringExecFns;
use crate::text::{append_decimal, char_text, decimal};
use crate::tokens::{Constant, Token, TokenV, keyword_text};

verus! {

/// The XML text of a symbol: `<`, `>`, `&` and `"` escaped, any other
/// character as it is.
pub open spec fn symbol_xml(c: char) -> Seq<char> {
    if c == '<' {
        "&lt;"@
    } else if c == '>' {
        "&gt;"@
    } else if c == '&' {
        "&amp;"@
    } else if c == '"' {
        "&quot;"@
    } else {
        seq![c]
    }
}

/// The XML element of a token.
pub open spec fn token_xml(t: TokenV) -> Seq<char> {
    match t {
        TokenV::Symbol(c) => "<symbol> "@ + symbol_xml(c) + " </symbol>"@,
        TokenV::Keyword(k) => "<keyword> "@ + keyword_text(k) + " </keyword>"@,
        TokenV::IntConst(v) => "<integerConstant> "@ + decimal(v as nat) + " </integerConstant>"@,
        TokenV::StrConst(s) => "<stringConstant> "@ + s + " </stringConstant>"@,
        TokenV::Ident(s) => "<identifier> "@ + s + " </identifier>"@,
    }
}

/// The elements of tokens, each on a line of its own.
pub open spec fn token_lines(ts: Seq<TokenV>) -> Seq<char>
    decreases ts.len(),
{
    if ts.len() == 0 {
        Seq::empty()
    } else {
        token_lines(ts.drop_last()) + token_xml(ts.last()) + "\n"@
    }
}

/// The XML listing of tokens.
pub open spec fn tokens_xml(ts: Seq<TokenV>) -> Seq<char> {
    "<tokens>\n"@ + token_lines(ts) + "</tokens>\n"@
}

pub(crate) fn symbol_text(c: char) -> (r: String)
    ensures
        r@ == symbol_xml(c),
{
    if c == '<' {
        String::from_str("&lt;")
    } else if c == '>' {
        String::from_str("&gt;")
    } else if c == '&' {
        String::from_str("&amp;")
    } else if c == '"' {
        String::from_str("&quot;")
    } else {
        char_text(c)
    }
}

/// Appends the XML element of a token and a newline.
pub fn append_token_xml(out: &mut String, t: &Token)
    ensures
        final(out)@ == old(out)@ + token_xml(t@) + "\n"@,
{
    match t {
        Token::Symbol(c) => {
            out.append("<symbol> ");
            out.append(symbol_text(*c).as_str());
            out.append(" </symbol>");
        },
        Token::Keyword(k) => {
            out.append("<keyword> ");
            out.append(k.text());
            out.append(" </keyword>");
        },
        Token::Constant(Constant::IntegerConstant(v)) => {
            out.append("<integerConstant> ");
            append_decimal(out, *v as u32);
            out.append(" </integerConstant>");
        },
        Token::Constant(Constant::StringConstant(s)) => {
            out.append("<stringConstant> ");
            out.append(s.as_str());
            out.append(" </stringConstant>");
        },
        Token::Identifier(s) => {
            out.append("<identifier> ");
            out.append(s.as_str());
            out.append(" </identifier>");
        },
    }
    out.append("\n");
}

} // verus!
