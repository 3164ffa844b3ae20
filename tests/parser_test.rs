use jack_compiler::line::Line;
use jack_compiler::parse_tree::{ExpressionElement, Statement, SubroutineType, TermElement, VarKind, VarType};
use jack_compiler::parser::{file_stem_of, Parser};
use jack_compiler::symbol_table::SymbolTable;
use jack_compiler::tokenizer::Tokenizer;
use jack_compiler::tokens::TokenWrapper;

fn tokens_of(text: &str) -> Vec<TokenWrapper> {
    let mut v = Vec::new();
    for (i, t) in text.lines().enumerate() {
        v.push(Line::new(t.trim(), i + 1));
    }
    match Tokenizer::new().tokenize(v) {
        Ok(t) => t,
        Err(_) => panic!("tokenizing failed"),
    }
}

#[test]
fn file_stems() {
    assert_eq!(file_stem_of("tests/aux_files/Square/Main.jack"), "Main");
    assert_eq!(file_stem_of("Main.jack"), "Main");
    assert_eq!(file_stem_of("Main"), "Main");
    assert_eq!(file_stem_of("a.jack/b/Game.jack"), "Game");
}

#[test]
fn class_structure() {
    let source = "class Ball {
field int x;
static boolean seen;
constructor Ball new(int ax, Ball other) {
var int a, b;
var Array c;
let x = ax;
return this;
}
method void move() {
if (x > 0) { let x = x - 1; } else { let x = 0; }
while (~seen) { do stop(); }
return;
}
}";
    let tree = match Parser::new().parse(tokens_of(source), "dir/Ball.jack") {
        Ok(t) => t,
        Err(e) => panic!("parse failed at {}", e.token_index),
    };
    let c = &tree.class_node;
    assert_eq!(c.name, "Ball");
    assert_eq!(c.variables.len(), 2);
    assert!(matches!(c.variables[0].var_kind, VarKind::Field));
    assert!(matches!(c.variables[1].var_kind, VarKind::Static));
    assert!(matches!(c.variables[1].var_type, VarType::Boolean));
    assert_eq!(c.subroutines.len(), 2);
    let ctor = &c.subroutines[0];
    assert!(matches!(ctor.subroutine_type, SubroutineType::Constructor));
    assert!(matches!(&ctor.return_type, Some(VarType::ClassName(n)) if n == "Ball"));
    assert_eq!(ctor.parameter_list.parameters.len(), 2);
    assert_eq!(ctor.body.variables.len(), 2);
    assert_eq!(ctor.body.variables[0].var_names.len(), 2);
    assert_eq!(ctor.body.statements.len(), 2);
    let m = &c.subroutines[1];
    assert!(m.return_type.is_none());
    assert_eq!(m.body.statements.len(), 3);
    match &m.body.statements[0] {
        Statement::If(n) => {
            assert!(n.else_block.is_some());
            assert_eq!(n.condition.elements.len(), 3);
            assert!(matches!(n.condition.elements[1], ExpressionElement::Operator('>')));
        },
        _ => panic!("expected an if statement"),
    }
    match &m.body.statements[1] {
        Statement::While(w) => match &w.condition.elements[0] {
            ExpressionElement::Term(t) => assert!(matches!(t.element, TermElement::Unary('~', _))),
            _ => panic!("expected a term"),
        },
        _ => panic!("expected a while statement"),
    }
}

#[test]
fn class_name_must_match_file() {
    let r = Parser::new().parse(tokens_of("class Foo {\n}"), "dir/Main.jack");
    assert!(matches!(r, Err(e) if e.token_index == 1));
}

#[test]
fn tokens_after_the_class_are_an_error() {
    assert!(Parser::new().parse(tokens_of("class Main {\n}\n}"), "Main.jack").is_err());
}

#[test]
fn missing_semicolon_is_an_error() {
    let r = Parser::new().parse(tokens_of("class Main {\nfunction void f() {\nreturn\n}\n}"), "Main.jack");
    assert!(r.is_err());
}

#[test]
fn keyword_that_is_no_constant_is_not_a_term() {
    let r = Parser::new().parse(tokens_of("class Main {\nfunction int f() {\nreturn while;\n}\n}"), "Main.jack");
    assert!(r.is_err());
}

#[test]
fn symbol_table_scopes() {
    let mut t = SymbolTable::new();
    t.define(&"x".to_string(), &VarType::Int, &VarKind::Field, 0);
    t.define(&"s".to_string(), &VarType::Char, &VarKind::Static, 0);
    t.define(&"x".to_string(), &VarType::ClassName("Point".to_string()), &VarKind::Var, 3);
    assert!(t.contains("x"));
    assert_eq!(t.get_var_kind("x"), Some("local"));
    assert_eq!(t.get_var_index("x"), Some(3));
    assert!(matches!(t.get_var_type("x"), Some(VarType::ClassName(n)) if n == "Point"));
    assert_eq!(t.get_var_kind("s"), Some("static"));
    t.clear_subroutine_scope();
    assert_eq!(t.get_var_kind("x"), Some("this"));
    assert_eq!(t.get_var_index("x"), Some(0));
    assert!(!t.contains("y"));
    assert_eq!(t.get_var_index("y"), None);
}

#[test]
fn parse_tree_xml() {
    let source = "class Main {
static int n;
function void main(int a, Foo b) {
var int x;
let x = a + 1;
do Output.print(x, -b);
return;
}
}";
    let tree = match Parser::new().parse(tokens_of(source), "Main.jack") {
        Ok(t) => t,
        Err(e) => panic!("parse failed at {}", e.token_index),
    };
    let expected = "<class>
<keyword> class </keyword>
<identifier> Main </identifier>
<symbol> { </symbol>
<classVarDec>
<keyword> static </keyword>
<keyword> int </keyword>
<identifier> n </identifier>
<symbol> ; </symbol>
</classVarDec>
<subroutineDec>
<keyword> function </keyword>
<keyword> void </keyword>
<identifier> main </identifier>
<symbol> ( </symbol>
<parameterList>
<keyword> int </keyword>
<identifier> a </identifier>
<symbol> , </symbol>
<identifier> Foo </identifier>
<identifier> b </identifier>
</parameterList>
<symbol> ) </symbol>
<subroutineBody>
<symbol> { </symbol>
<varDec>
<keyword> var </keyword>
<keyword> int </keyword>
<identifier> x </identifier>
<symbol> ; </symbol>
</varDec>
<statements>
<letStatement>
<keyword> let </keyword>
<identifier> x </identifier>
<symbol> = </symbol>
<expression>
<term>
<identifier> a </identifier>
</term>
<symbol> + </symbol>
<term>
<integerConstant> 1 </integerConstant>
</term>
</expression>
<symbol> ; </symbol>
</letStatement>
<doStatement>
<keyword> do </keyword>
<identifier> Output </identifier>
<symbol> . </symbol>
<identifier> print </identifier>
<symbol> ( </symbol>
<expressionList>
<expression>
<term>
<identifier> x </identifier>
</term>
</expression>
<symbol> , </symbol>
<expression>
<term>
<symbol> - </symbol>
<term>
<identifier> b </identifier>
</term>
</term>
</expression>
</expressionList>
<symbol> ) </symbol>
<symbol> ; </symbol>
</doStatement>
<returnStatement>
<keyword> return </keyword>
<symbol> ; </symbol>
</returnStatement>
</statements>
<symbol> } </symbol>
</subroutineBody>
</subroutineDec>
<symbol> } </symbol>
</class>
";
    assert_eq!(tree.class_node.to_xml(), expected);
}

#[test]
fn kinds_from_keywords() {
    assert!(matches!(VarKind::get("static"), Some(VarKind::Static)));
    assert!(matches!(VarKind::get("field"), Some(VarKind::Field)));
    assert!(matches!(VarKind::get("var"), Some(VarKind::Var)));
    assert!(VarKind::get("let").is_none());
    assert!(matches!(SubroutineType::get("method"), Some(SubroutineType::Method)));
    assert!(matches!(SubroutineType::get("constructor"), Some(SubroutineType::Constructor)));
    assert!(SubroutineType::get("class").is_none());
    assert!(matches!(VarType::get("boolean"), VarType::Boolean));
    assert!(matches!(VarType::get("Square"), VarType::ClassName(n) if n == "Square"));
}
