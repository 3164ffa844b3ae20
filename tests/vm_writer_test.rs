use jack_compiler::parser::Parser;
use jack_compiler::reader::split_lines;
use jack_compiler::tokenizer::Tokenizer;
use jack_compiler::parse_tree::{
    ClassNode, ExpressionElement, ExpressionNode, ParameterListNode, ParseTree,
    ReturnStatementNode, Statement, SubroutineBodyNode, SubroutineNode, SubroutineType,
    TermElement, TermNode, VarType,
};
use jack_compiler::vm_writer::{GenError, VMWriter};

fn compile(source: &str, path: &str) -> String {
    let lines = split_lines(source);
    let tokens = match Tokenizer::new().tokenize(lines) {
        Ok(t) => t,
        Err(_) => panic!("tokenizing failed"),
    };
    let tree = match Parser::new().parse(tokens, path) {
        Ok(t) => t,
        Err(e) => panic!("parsing failed at token {}", e.token_index),
    };
    match VMWriter::new().write(&tree) {
        Ok(code) => code,
        Err(_) => panic!("code generation failed"),
    }
}

const SEVEN_JACK: &str = "// This file is part of www.nand2tetris.org
// and the book \"The Elements of Computing Systems\"
// by Nisan and Schocken, MIT Press.
// File name: projects/11/Seven/Main.jack

/**
 * Computes the value of 1 + (2 * 3) and prints the result
 * at the top-left of the screen.
 */
class Main {

   function void main() {
      do Output.printInt(1 + (2 * 3));
      return;
   }

}
";

const SEVEN_VM: &str = "function Main.main 0
push constant 1
push constant 2
push constant 3
call Math.multiply 2
add
call Output.printInt 1
pop temp 0
push constant 0
return
";

#[test]
fn seven_test() {
    assert_eq!(compile(SEVEN_JACK, "tests/aux_files/Seven/Main.jack"), SEVEN_VM);
}

#[test]
fn constructor_method_and_fields() {
    let source = "class Point {
   field int x, y;
   static int count;
   constructor Point new(int ax, int ay) {
      let x = ax;
      let y = ay;
      let count = count + 1;
      return this;
   }
   method int getX() {
      return x;
   }
   method void move(int dx) {
      do draw(dx);
      let x = x + dx;
      return;
   }
}
";
    let expected = "function Point.new 0
push constant 2
call Memory.alloc 1
pop pointer 0
push argument 0
pop this 0
push argument 1
pop this 1
push static 0
push constant 1
add
pop static 0
push pointer 0
return
function Point.getX 0
push argument 0
pop pointer 0
push this 0
return
function Point.move 0
push argument 0
pop pointer 0
push pointer 0
push argument 1
call Point.draw 2
pop temp 0
push this 0
push argument 1
add
pop this 0
push constant 0
return
";
    assert_eq!(compile(source, "Point.jack"), expected);
}

#[test]
fn arrays_and_while() {
    let source = "class Main {
   function void main() {
      var Array a;
      var int i, sum;
      let a = Array.new(3);
      let i = 0;
      while (i < 3) {
         let a[i] = i * 2;
         let i = i + 1;
      }
      let sum = a[0] + a[2];
      do Output.printInt(sum);
      return;
   }
}
";
    let expected = "function Main.main 3
push constant 3
call Array.new 1
pop local 0
push constant 0
pop local 1
label WHILE_EXP0
push local 1
push constant 3
lt
not
if-goto WHILE_END0
push local 1
push local 0
add
push local 1
push constant 2
call Math.multiply 2
pop temp 0
pop pointer 1
push temp 0
pop that 0
push local 1
push constant 1
add
pop local 1
goto WHILE_EXP0
label WHILE_END0
push constant 0
push local 0
add
pop pointer 1
push that 0
push constant 2
push local 0
add
pop pointer 1
push that 0
add
pop local 2
push local 2
call Output.printInt 1
pop temp 0
push constant 0
return
";
    assert_eq!(compile(source, "dir/Main.jack"), expected);
}

#[test]
fn if_labels_unary_and_strings() {
    let source = "class Main {
   function int f(boolean b) {
      var int x;
      if (b) {
         let x = -1;
         if (~b) {
            let x = 2;
         }
      } else {
         let x = null;
      }
      if (true) {
         let x = \"Hi\";
      }
      return x;
   }
}
";
    let expected = "function Main.f 1
push argument 0
if-goto IF_TRUE0
goto IF_FALSE0
label IF_TRUE0
push constant 1
neg
pop local 0
push argument 0
not
if-goto IF_TRUE1
goto IF_FALSE1
label IF_TRUE1
push constant 2
pop local 0
label IF_FALSE1
goto IF_END0
label IF_FALSE0
push constant 0
pop local 0
label IF_END0
push constant 0
not
if-goto IF_TRUE2
goto IF_FALSE2
label IF_TRUE2
push constant 2
call String.new 1
push constant 72
call String.appendChar 2
push constant 105
call String.appendChar 2
pop local 0
label IF_FALSE2
push local 0
return
";
    assert_eq!(compile(source, "Main.jack"), expected);
}

#[test]
fn method_and_function_calls() {
    let source = "class Game {
   field Square square;
   method void run(Square s, int n) {
      do s.moveUp();
      do square.resize(n, 3);
      do Screen.clearScreen();
      do Game.helper(n);
      return;
   }
}
";
    let expected = "function Game.run 0
push argument 0
pop pointer 0
push argument 1
call Square.moveUp 1
pop temp 0
push this 0
push argument 2
push constant 3
call Square.resize 3
pop temp 0
call Screen.clearScreen 0
pop temp 0
push argument 2
call Game.helper 1
pop temp 0
push constant 0
return
";
    assert_eq!(compile(source, "Game.jack"), expected);
}

#[test]
fn nested_subscripts() {
    let source = "class Main {
   function void main() {
      var Array a, b;
      var int i;
      let a[b[i]] = a[b[i + 1]] - 2;
      return;
   }
}
";
    let expected = "function Main.main 3
push local 2
push local 1
add
pop pointer 1
push that 0
push local 0
add
push local 2
push constant 1
add
push local 1
add
pop pointer 1
push that 0
push local 0
add
pop pointer 1
push that 0
push constant 2
sub
pop temp 0
pop pointer 1
push temp 0
pop that 0
push constant 0
return
";
    assert_eq!(compile(source, "Main.jack"), expected);
}

#[test]
fn expressions_fold_left_without_precedence() {
    let source = "class Main {
   function int f() {
      return 1 + 2 * 3 / 4 - 5 & 6 | 7 = 8 > 9;
   }
}
";
    let expected = "function Main.f 0
push constant 1
push constant 2
add
push constant 3
call Math.multiply 2
push constant 4
call Math.divide 2
push constant 5
sub
push constant 6
and
push constant 7
or
push constant 8
eq
push constant 9
gt
return
";
    assert_eq!(compile(source, "Main.jack"), expected);
}

#[test]
fn empty_class_gives_a_single_newline() {
    assert_eq!(compile("class Main {\n}\n", "Main.jack"), "\n");
}

fn generate(source: &str, path: &str) -> Result<String, GenError> {
    let tokens = match Tokenizer::new().tokenize(split_lines(source)) {
        Ok(t) => t,
        Err(_) => panic!("tokenizing failed"),
    };
    let tree = match Parser::new().parse(tokens, path) {
        Ok(t) => t,
        Err(e) => panic!("parsing failed at token {}", e.token_index),
    };
    VMWriter::new().write(&tree)
}

#[test]
fn unknown_variable_is_an_error() {
    let r = generate("class Main { function void f() { let y = 1; return; } }", "Main.jack");
    assert!(matches!(r, Err(GenError::UnknownVariable(n)) if n == "y"));
}

#[test]
fn method_call_on_a_number_is_an_error() {
    let r = generate(
        "class Main { function void f() { var int n; do n.run(); return; } }",
        "Main.jack",
    );
    assert!(matches!(r, Err(GenError::NotAnObject(n)) if n == "n"));
}

#[test]
fn non_ascii_string_is_an_error() {
    let r = generate(
        "class Main { function void f() { do Output.printString(\"caf\u{e9}\"); return; } }",
        "Main.jack",
    );
    assert!(matches!(r, Err(GenError::NonAsciiString(s)) if s == "caf\u{e9}"));
}

#[test]
fn unknown_operator_is_an_error() {
    let mut elements = Vec::new();
    elements.push(ExpressionElement::Term(TermNode { element: TermElement::IntegerConstant(1) }));
    elements.push(ExpressionElement::Operator('%'));
    elements.push(ExpressionElement::Term(TermNode { element: TermElement::IntegerConstant(2) }));
    let statement = Statement::Return(ReturnStatementNode {
        expression: Some(ExpressionNode { elements }),
    });
    let sub = SubroutineNode {
        name: "f".to_string(),
        subroutine_type: SubroutineType::Function,
        return_type: Some(VarType::Int),
        parameter_list: ParameterListNode { parameters: Vec::new() },
        body: SubroutineBodyNode { variables: Vec::new(), statements: vec![statement] },
    };
    let tree = ParseTree {
        class_node: ClassNode { name: "Main".to_string(), variables: Vec::new(), subroutines: vec![sub] },
    };
    assert!(matches!(VMWriter::new().write(&tree), Err(GenError::UnknownOperator('%'))));
}
