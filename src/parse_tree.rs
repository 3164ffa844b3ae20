//! The parse tree of a Jack class.
use vstd::prelude::*;
use vstd::string::StringExecFns;
use crate::text::str_eq;
use crate::tokens::Keyword;

verus! {

/// The variable kind: `static`, `field`, argument, or local `var`.
#[derive(PartialEq, Eq, Structural, Clone, Copy, Debug)]
pub enum VarKind {
    Static,
    Field,
    Arg,
    Var,
}

impl VarKind {
    /// The kind that a declaration keyword names: `static`, `field` or `var`.
    pub fn get(var_kind: &str) -> (r: Option<VarKind>)
        ensures
            r == (if var_kind@ == "static"@ {
                Some(VarKind::Static)
            } else if var_kind@ == "field"@ {
                Some(VarKind::Field)
            } else if var_kind@ == "var"@ {
                Some(VarKind::Var)
            } else {
                None
            }),
    {
        if str_eq(var_kind, "static") {
            Some(VarKind::Static)
        } else if str_eq(var_kind, "field") {
            Some(VarKind::Field)
        } else if str_eq(var_kind, "var") {
            Some(VarKind::Var)
        } else {
            None
        }
    }
}

/// The variable type: `int`, `char`, `boolean`, or a class name.
pub enum VarType {
    Int,
    Char,
    Boolean,
    ClassName(String),
}

/// The mathematical value of a variable type.
pub enum TypeV {
    Int,
    Char,
    Boolean,
    ClassName(Seq<char>),
}

impl View for VarType {
    type V = TypeV;

    open spec fn view(&self) -> TypeV {
        match self {
            VarType::Int => TypeV::Int,
            VarType::Char => TypeV::Char,
            VarType::Boolean => TypeV::Boolean,
            VarType::ClassName(n) => TypeV::ClassName(n@),
        }
    }
}

/// The type that the word `s` names.
pub open spec fn var_type_named(t: VarType, s: Seq<char>) -> bool {
    match t {
        VarType::Int => s == "int"@,
        VarType::Char => s == "char"@,
        VarType::Boolean => s == "boolean"@,
        VarType::ClassName(n) => n@ == s && s != "int"@ && s != "char"@ && s != "boolean"@,
    }
}

impl VarType {
    /// The type that the word `data_type` names.
    pub fn get(data_type: &str) -> (r: VarType)
        ensures
            var_type_named(r, data_type@),
    {
        if str_eq(data_type, "int") {
            VarType::Int
        } else if str_eq(data_type, "char") {
            VarType::Char
        } else if str_eq(data_type, "boolean") {
            VarType::Boolean
        } else {
            VarType::ClassName(String::from_str(data_type))
        }
    }

    /// A copy of this type.
    pub fn duplicate(&self) -> (r: VarType)
        ensures
            r == *self,
    {
        match self {
            VarType::Int => VarType::Int,
            VarType::Char => VarType::Char,
            VarType::Boolean => VarType::Boolean,
            VarType::ClassName(n) => VarType::ClassName(n.clone()),
        }
    }
}

/// A local variable declaration: `var` type varName (`,` varName)* `;`
pub struct VarNode {
    pub var_names: Vec<String>,
    pub var_kind: VarKind,
    pub var_type: VarType,
    pub class_var: bool,
}

/// A class variable declaration: (`static` | `field`) type varName (`,` varName)* `;`
pub struct ClassVarNode {
    pub names: Vec<String>,
    pub var_kind: VarKind,
    pub var_type: VarType,
}

/// A parameter: type varName
pub struct ParameterNode {
    pub name: String,
    pub var_type: VarType,
}

/// A parameter list: ((type varName) (`,` type varName)*)?
pub struct ParameterListNode {
    pub parameters: Vec<ParameterNode>,
}

/// The subroutine type: `constructor`, `function`, or `method`.
#[derive(PartialEq, Eq, Structural, Clone, Copy, Debug)]
pub enum SubroutineType {
    Constructor,
    Function,
    Method,
}

impl SubroutineType {
    /// The subroutine type that a keyword names.
    pub fn get(subroutine_type: &str) -> (r: Option<SubroutineType>)
        ensures
            r == (if subroutine_type@ == "constructor"@ {
                Some(SubroutineType::Constructor)
            } else if subroutine_type@ == "function"@ {
                Some(SubroutineType::Function)
            } else if subroutine_type@ == "method"@ {
                Some(SubroutineType::Method)
            } else {
                None
            }),
    {
        if str_eq(subroutine_type, "constructor") {
            Some(SubroutineType::Constructor)
        } else if str_eq(subroutine_type, "function") {
            Some(SubroutineType::Function)
        } else if str_eq(subroutine_type, "method") {
            Some(SubroutineType::Method)
        } else {
            None
        }
    }
}

/// A subroutine body: `{` varDec* statement* `}`
pub struct SubroutineBodyNode {
    pub variables: Vec<VarNode>,
    pub statements: Vec<Statement>,
}

/// A subroutine: (`constructor` | `function` | `method`) (`void` | type)
/// subroutineName `(` parameterList `)` subroutineBody
pub struct SubroutineNode {
    pub name: String,
    pub subroutine_type: SubroutineType,
    pub return_type: Option<VarType>,
    pub parameter_list: ParameterListNode,
    pub body: SubroutineBodyNode,
}

/// A class: `class` className `{` classVarDec* subroutineDec* `}`
pub struct ClassNode {
    pub name: String,
    pub variables: Vec<ClassVarNode>,
    pub subroutines: Vec<SubroutineNode>,
}

/// The parse tree of one file.
pub struct ParseTree {
    pub class_node: ClassNode,
}

/// A statement.
pub enum Statement {
    Let(LetStatementNode),
    If(IfStatementNode),
    While(WhileStatementNode),
    Do(DoStatementNode),
    Return(ReturnStatementNode),
}

/// `let` varName (`[` expression `]`)? `=` expression `;`
pub struct LetStatementNode {
    pub var_name: String,
    pub lhs_expression: Option<ExpressionNode>,
    pub rhs_expression: ExpressionNode,
}

/// `if` `(` expression `)` `{` statement* `}` (`else` `{` statement* `}`)?
pub struct IfStatementNode {
    pub condition: ExpressionNode,
    pub if_block: Vec<Statement>,
    pub else_block: Option<Vec<Statement>>,
}

/// `while` `(` expression `)` `{` statement* `}`
pub struct WhileStatementNode {
    pub condition: ExpressionNode,
    pub block: Vec<Statement>,
}

/// `do` subroutineCall `;`
pub struct DoStatementNode {
    pub subroutine_call: SubroutineCallNode,
}

/// `return` expression? `;`
pub struct ReturnStatementNode {
    pub expression: Option<ExpressionNode>,
}

/// An expression: term (op term)*, kept as a flat sequence that alternates
/// terms and operators, term first.
pub struct ExpressionNode {
    pub elements: Vec<ExpressionElement>,
}

/// An element of an expression: a term or a binary operator.
pub enum ExpressionElement {
    Term(TermNode),
    Operator(char),
}

/// A term.
pub struct TermNode {
    pub element: TermElement,
}

/// The forms of a term: integerConstant | stringConstant | keywordConstant |
/// varName | varName `[` expression `]` | `(` expression `)` | unaryOp term |
/// subroutineCall
pub enum TermElement {
    IntegerConstant(u16),
    StringConstant(String),
    KeywordConstant(Keyword),
    Identifier(String),
    IndexedIdentifier(String, ExpressionNode),
    Expression(ExpressionNode),
    Unary(char, Box<TermNode>),
    SubroutineCall(SubroutineCallNode),
}

/// A call: subroutineName `(` expressionList `)` or
/// (className | varName) `.` subroutineName `(` expressionList `)`
pub struct SubroutineCallNode {
    pub subroutine_name: String,
    pub expression_list: Vec<ExpressionNode>,
    pub caller: Option<String>,
}

} // verus!
