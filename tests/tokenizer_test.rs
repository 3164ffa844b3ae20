use jack_compiler::line::Line;
use jack_compiler::reader::{clean_line, split_lines, trim};
use jack_compiler::tokenizer::Tokenizer;
use jack_compiler::tokens::{Constant, Keyword, Token, TokenWrapper};

fn lines(texts: &[&str]) -> Vec<Line> {
    let mut v = Vec::new();
    for (i, t) in texts.iter().enumerate() {
        v.push(Line::new(t, i + 1));
    }
    v
}

fn tokens_of(texts: &[&str]) -> Vec<TokenWrapper> {
    match Tokenizer::new().tokenize(lines(texts)) {
        Ok(t) => t,
        Err(_) => panic!("tokenizing failed"),
    }
}

#[test]
fn symbols_keywords_identifiers_and_constants() {
    let ts = tokens_of(&["let x[i] = \"a b\" + 42;"]);
    assert_eq!(ts.len(), 10);
    assert!(matches!(ts[0].token, Token::Keyword(Keyword::Let)));
    assert!(matches!(&ts[1].token, Token::Identifier(s) if s == "x"));
    assert!(matches!(ts[2].token, Token::Symbol('[')));
    assert!(matches!(&ts[3].token, Token::Identifier(s) if s == "i"));
    assert!(matches!(ts[4].token, Token::Symbol(']')));
    assert!(matches!(ts[5].token, Token::Symbol('=')));
    assert!(matches!(&ts[6].token, Token::Constant(Constant::StringConstant(s)) if s == "a b"));
    assert!(matches!(ts[7].token, Token::Symbol('+')));
    assert!(matches!(ts[8].token, Token::Constant(Constant::IntegerConstant(42))));
    assert!(matches!(ts[9].token, Token::Symbol(';')));
}

#[test]
fn tokens_keep_their_line() {
    let ts = tokens_of(&["class Main {", "}"]);
    assert_eq!(ts.len(), 4);
    assert_eq!(ts[0].line.number, 1);
    assert_eq!(ts[2].line.number, 1);
    assert_eq!(ts[3].line.number, 2);
    assert_eq!(ts[3].line.content, "}");
}

#[test]
fn block_comments_are_skipped() {
    let ts = tokens_of(&["/** Doc", "* more words", "*/", "/* one line */", "class Main {", "}"]);
    assert_eq!(ts.len(), 4);
    assert!(matches!(ts[0].token, Token::Keyword(Keyword::Class)));
}

#[test]
fn largest_sixteen_bit_number_is_accepted() {
    let ts = tokens_of(&["65535"]);
    assert!(matches!(ts[0].token, Token::Constant(Constant::IntegerConstant(65535))));
}

#[test]
fn number_beyond_sixteen_bits_is_an_error() {
    assert!(Tokenizer::new().tokenize(lines(&["let x = 65536;"])).is_err());
}

#[test]
fn identifier_starting_with_digit_is_an_error() {
    match Tokenizer::new().tokenize(lines(&["class Main {", "let 1abc = 2;"])) {
        Ok(_) => panic!("expected an error"),
        Err(e) => assert_eq!(e.line.number, 2),
    }
}

#[test]
fn token_count_matches_lexemes() {
    let ts = tokens_of(&["do Output.printString(\"x, y; z\");"]);
    assert_eq!(ts.len(), 8);
}

#[test]
fn xml_listing_escapes_symbols() {
    let ts = tokens_of(&["let x = a < 5 & \"s\";"]);
    let xml = Tokenizer::new().write_xml(ts);
    let expected = "<tokens>
<keyword> let </keyword>
<identifier> x </identifier>
<symbol> = </symbol>
<identifier> a </identifier>
<symbol> &lt; </symbol>
<integerConstant> 5 </integerConstant>
<symbol> &amp; </symbol>
<stringConstant> s </stringConstant>
<symbol> ; </symbol>
</tokens>
";
    assert_eq!(xml, expected);
}

#[test]
fn xml_listing_of_no_tokens() {
    assert_eq!(Tokenizer::new().write_xml(Vec::new()), "<tokens>\n</tokens>\n");
}

#[test]
fn reader_numbers_cleans_and_drops_lines() {
    let ls = split_lines("  let x = 1; // set x\r\n\n   \n// note\nreturn;");
    assert_eq!(ls.len(), 2);
    assert_eq!(ls[0].content, "let x = 1;");
    assert_eq!(ls[0].number, 1);
    assert_eq!(ls[1].content, "return;");
    assert_eq!(ls[1].number, 5);
}

#[test]
fn reader_of_empty_text() {
    assert_eq!(split_lines("").len(), 0);
}

#[test]
fn trim_and_clean() {
    assert_eq!(trim("\t a b \u{3000}"), "a b");
    assert_eq!(trim("   "), "");
    assert_eq!(clean_line(" x\r; // y"), "x;");
}

#[test]
fn replace_content_replaces_every_occurrence() {
    let l = Line::new("a\rb\r", 7).replace_content("\r", "");
    assert_eq!(l.content, "ab");
    assert_eq!(l.number, 7);
    assert_eq!(Line::new("aaa", 1).replace_content("aa", "b").content, "ba");
    assert_eq!(Line::new("ab", 1).replace_content("", "-").content, "-a-b-");
}

#[test]
fn xml_listing_writes_any_symbol_character() {
    let mut ts = Vec::new();
    ts.push(TokenWrapper { token: Token::Symbol('x'), line: Line::new("x", 1) });
    ts.push(TokenWrapper { token: Token::Symbol('"'), line: Line::new("\"", 2) });
    ts.push(TokenWrapper { token: Token::Symbol('>'), line: Line::new(">", 3) });
    assert_eq!(
        Tokenizer::new().write_xml(ts),
        "<tokens>\n<symbol> x </symbol>\n<symbol> &quot; </symbol>\n<symbol> &gt; </symbol>\n</tokens>\n"
    );
}

#[test]
fn reader_drops_lines_that_become_comments() {
    assert_eq!(split_lines("/\r/x").len(), 0);
    let ls = split_lines("a\n/\r/x\nb");
    assert_eq!(ls.len(), 2);
    assert_eq!(ls[1].content, "b");
    assert_eq!(ls[1].number, 3);
}

#[test]
fn error_names_the_first_failing_line() {
    match Tokenizer::new().tokenize(lines(&["let a = 1;", "/* 9zz", "*/", "let b = 7x;", "let c = 8y;"])) {
        Ok(_) => panic!("expected an error"),
        Err(e) => {
            assert_eq!(e.line.number, 4);
            assert_eq!(e.line.content, "let b = 7x;");
        }
    }
}
