//! The tokens of Jack source.
use vstd::prelude::*;
use crate::line::Line;
use crate::text::str_eq;

verus! {

/// The reserved words of Jack.
#[derive(PartialEq, Eq, Structural, Clone, Copy, Debug)]
pub enum Keyword {
    Class,
    Constructor,
    Method,
    Function,
    Int,
    Boolean,
    Char,
    Void,
    Var,
    Static,
    Field,
    Let,
    Do,
    If,
    Else,
    While,
    Return,
    True,
    False,
    Null,
    This,
}

/// The spelling of a keyword.
pub open spec fn keyword_text(k: Keyword) -> Seq<char> {
    match k {
        Keyword::Class => "class"@,
        Keyword::Constructor => "constructor"@,
        Keyword::Method => "method"@,
        Keyword::Function => "function"@,
        Keyword::Int => "int"@,
        Keyword::Boolean => "boolean"@,
        Keyword::Char => "char"@,
        Keyword::Void => "void"@,
        Keyword::Var => "var"@,
        Keyword::Static => "static"@,
        Keyword::Field => "field"@,
        Keyword::Let => "let"@,
        Keyword::Do => "do"@,
        Keyword::If => "if"@,
        Keyword::Else => "else"@,
        Keyword::While => "while"@,
        Keyword::Return => "return"@,
        Keyword::True => "true"@,
        Keyword::False => "false"@,
        Keyword::Null => "null"@,
        Keyword::This => "this"@,
    }
}

/// The keyword spelled `s`, if any.
pub open spec fn keyword_of(s: Seq<char>) -> Option<Keyword> {
    if s == "class"@ { Some(Keyword::Class) }
    else if s == "constructor"@ { Some(Keyword::Constructor) }
    else if s == "method"@ { Some(Keyword::Method) }
    else if s == "function"@ { Some(Keyword::Function) }
    else if s == "int"@ { Some(Keyword::Int) }
    else if s == "boolean"@ { Some(Keyword::Boolean) }
    else if s == "char"@ { Some(Keyword::Char) }
    else if s == "void"@ { Some(Keyword::Void) }
    else if s == "var"@ { Some(Keyword::Var) }
    else if s == "static"@ { Some(Keyword::Static) }
    else if s == "field"@ { Some(Keyword::Field) }
    else if s == "let"@ { Some(Keyword::Let) }
    else if s == "do"@ { Some(Keyword::Do) }
    else if s == "if"@ { Some(Keyword::If) }
    else if s == "else"@ { Some(Keyword::Else) }
    else if s == "while"@ { Some(Keyword::While) }
    else if s == "return"@ { Some(Keyword::Return) }
    else if s == "true"@ { Some(Keyword::True) }
    else if s == "false"@ { Some(Keyword::False) }
    else if s == "null"@ { Some(Keyword::Null) }
    else if s == "this"@ { Some(Keyword::This) }
    else { None }
}

impl Keyword {
    /// The spelling of this keyword.
    pub fn text(&self) -> (r: &'static str)
        ensures
            r@ == keyword_text(*self),
    {
        match self {
            Keyword::Class => "class",
            Keyword::Constructor => "constructor",
            Keyword::Method => "method",
            Keyword::Function => "function",
            Keyword::Int => "int",
            Keyword::Boolean => "boolean",
            Keyword::Char => "char",
            Keyword::Void => "void",
            Keyword::Var => "var",
            Keyword::Static => "static",
            Keyword::Field => "field",
            Keyword::Let => "let",
            Keyword::Do => "do",
            Keyword::If => "if",
            Keyword::Else => "else",
            Keyword::While => "while",
            Keyword::Return => "return",
            Keyword::True => "true",
            Keyword::False => "false",
            Keyword::Null => "null",
            Keyword::This => "this",
        }
    }

    /// The keyword spelled `s`, if `s` is one.
    pub fn from_text(s: &str) -> (r: Option<Keyword>)
        ensures
            r == keyword_of(s@),
    {
        if str_eq(s, "class") { Some(Keyword::Class) }
        else if str_eq(s, "constructor") { Some(Keyword::Constructor) }
        else if str_eq(s, "method") { Some(Keyword::Method) }
        else if str_eq(s, "function") { Some(Keyword::Function) }
        else if str_eq(s, "int") { Some(Keyword::Int) }
        else if str_eq(s, "boolean") { Some(Keyword::Boolean) }
        else if str_eq(s, "char") { Some(Keyword::Char) }
        else if str_eq(s, "void") { Some(Keyword::Void) }
        else if str_eq(s, "var") { Some(Keyword::Var) }
        else if str_eq(s, "static") { Some(Keyword::Static) }
        else if str_eq(s, "field") { Some(Keyword::Field) }
        else if str_eq(s, "let") { Some(Keyword::Let) }
        else if str_eq(s, "do") { Some(Keyword::Do) }
        else if str_eq(s, "if") { Some(Keyword::If) }
        else if str_eq(s, "else") { Some(Keyword::Else) }
        else if str_eq(s, "while") { Some(Keyword::While) }
        else if str_eq(s, "return") { Some(Keyword::Return) }
        else if str_eq(s, "true") { Some(Keyword::True) }
        else if str_eq(s, "false") { Some(Keyword::False) }
        else if str_eq(s, "null") { Some(Keyword::Null) }
        else if str_eq(s, "this") { Some(Keyword::This) }
        else { None }
    }
}

/// A constant token.
pub enum Constant {
    IntegerConstant(u16),
    StringConstant(String),
}

/// A token of Jack source.
pub enum Token {
    Symbol(char),
    Keyword(Keyword),
    Constant(Constant),
    Identifier(String),
}

/// The mathematical value of a token.
pub enum TokenV {
    Symbol(char),
    Keyword(Keyword),
    IntConst(u16),
    StrConst(Seq<char>),
    Ident(Seq<char>),
}

impl View for Token {
    type V = TokenV;

    open spec fn view(&self) -> TokenV {
        match self {
            Token::Symbol(c) => TokenV::Symbol(*c),
            Token::Keyword(k) => TokenV::Keyword(*k),
            Token::Constant(Constant::IntegerConstant(v)) => TokenV::IntConst(*v),
            Token::Constant(Constant::StringConstant(s)) => TokenV::StrConst(s@),
            Token::Identifier(s) => TokenV::Ident(s@),
        }
    }
}

/// A token together with the line it was read from.
pub struct TokenWrapper {
    pub token: Token,
    pub line: Line,
}

impl View for TokenWrapper {
    type V = (TokenV, Line);

    open spec fn view(&self) -> (TokenV, Line) {
        (self.token@, self.line)
    }
}

} // verus!
