//! The course's XML rendering of a parse tree, one element per line.
use vstd::prelude::*;
use vstd::string::StringExecFns;
use crate::parse_tree::{
    ClassNode, ClassVarNode, ExpressionElement, ExpressionNode, IfStatementNode,
    LetStatementNode, ParameterNode, Statement, SubroutineCallNode, SubroutineNode,
    SubroutineType, TermElement, TermNode, VarKind, VarNode, VarType, WhileStatementNode,
};
use crate::text::{append_decimal, decimal};
use crate::tokens::keyword_text;
use crate::xml::{symbol_text, symbol_xml};
use vstd::seq_lib::lemma_concat_associative;

verus! {

pub open spec fn element(tag: Seq<char>, text: Seq<char>) -> Seq<char> {
    "<"@ + tag + "> "@ + text + " </"@ + tag + ">"@
}

pub open spec fn symbol_element(c: char) -> Seq<char> {
    element("symbol"@, seq![c])
}

/// An operator, with `<`, `>` and `&` escaped.
pub open spec fn operator_element(c: char) -> Seq<char> {
    element("symbol"@, symbol_xml(c))
}

/// The sign of a unary operator: `-` for negation, `~` for anything else.
pub open spec fn unary_element(op: char) -> Seq<char> {
    element("symbol"@, if op == '-' { "-"@ } else { "~"@ })
}

/// The element of a type: an identifier for a class name, else a keyword.
pub open spec fn type_element(t: VarType) -> Seq<char> {
    match t {
        VarType::Int => element("keyword"@, "int"@),
        VarType::Char => element("keyword"@, "char"@),
        VarType::Boolean => element("keyword"@, "boolean"@),
        VarType::ClassName(n) => element("identifier"@, n@),
    }
}

pub open spec fn kind_text(k: VarKind) -> Seq<char> {
    match k {
        VarKind::Static => "static"@,
        VarKind::Field => "field"@,
        VarKind::Var => "var"@,
        VarKind::Arg => "arg"@,
    }
}

pub open spec fn subroutine_text(k: SubroutineType) -> Seq<char> {
    match k {
        SubroutineType::Constructor => "constructor"@,
        SubroutineType::Function => "function"@,
        SubroutineType::Method => "method"@,
    }
}

/// The inside of a term element.
pub open spec fn term_inner_xml(t: TermNode) -> Seq<char>
    decreases t, 0int,
{
    match t.element {
        TermElement::IntegerConstant(v) => element("integerConstant"@, decimal(v as nat)),
        TermElement::StringConstant(s) => element("stringConstant"@, s@),
        TermElement::KeywordConstant(k) => element("keyword"@, keyword_text(k)),
        TermElement::Identifier(n) => element("identifier"@, n@),
        TermElement::IndexedIdentifier(n, e) => element("identifier"@, n@) + "\n"@
            + symbol_element('[') + "\n"@ + expression_xml(e) + "\n"@ + symbol_element(']'),
        TermElement::Expression(e) => symbol_element('(') + "\n"@ + expression_xml(e) + "\n"@
            + symbol_element(')'),
        TermElement::Unary(op, inner) => unary_element(op) + "\n"@ + term_xml(*inner),
        TermElement::SubroutineCall(c) => call_xml(c),
    }
}

/// `<term>` ... `</term>`
pub open spec fn term_xml(t: TermNode) -> Seq<char>
    decreases t, 1int,
{
    "<term>\n"@ + term_inner_xml(t) + "\n</term>"@
}

/// The elements of an expression, each followed by a newline.
pub open spec fn elements_xml(es: Seq<ExpressionElement>) -> Seq<char>
    decreases es, 0int,
{
    if es.len() == 0 {
        Seq::empty()
    } else {
        elements_xml(es.subrange(0, es.len() - 1)) + match es[es.len() - 1] {
            ExpressionElement::Term(t) => term_xml(t),
            ExpressionElement::Operator(c) => operator_element(c),
        } + "\n"@
    }
}

/// `<expression>` ... `</expression>`
pub open spec fn expression_xml(e: ExpressionNode) -> Seq<char>
    decreases e, 0int,
{
    if e.elements@.len() == 0 {
        "<expression></expression>"@
    } else {
        "<expression>\n"@ + elements_xml(e.elements@) + "</expression>"@
    }
}

/// Expressions separated by comma elements, each followed by a newline.
pub open spec fn expressions_xml(es: Seq<ExpressionNode>) -> Seq<char>
    decreases es, 0int,
{
    if es.len() == 0 {
        Seq::empty()
    } else if es.len() == 1 {
        expression_xml(es[0]) + "\n"@
    } else {
        expressions_xml(es.subrange(0, es.len() - 1)) + symbol_element(',') + "\n"@
            + expression_xml(es[es.len() - 1]) + "\n"@
    }
}

/// A call: receiver, name, and the bracketed `<expressionList>`.
pub open spec fn call_xml(c: SubroutineCallNode) -> Seq<char>
    decreases c, 0int,
{
    (match c.caller {
        Some(x) => element("identifier"@, x@) + "\n"@ + symbol_element('.') + "\n"@,
        None => Seq::empty(),
    }) + element("identifier"@, c.subroutine_name@) + "\n"@ + symbol_element('(')
        + "\n<expressionList>\n"@ + expressions_xml(c.expression_list@) + "</expressionList>\n"@
        + symbol_element(')')
}

/// `{` `<statements>` ... `</statements>` `}`, each line ended.
pub open spec fn block_xml(ss: Seq<Statement>) -> Seq<char>
    decreases ss, 1int,
{
    symbol_element('{') + "\n<statements>\n"@ + statements_xml(ss) + "</statements>\n"@
        + symbol_element('}') + "\n"@
}

/// A keyword, then `(`, an expression and `)`, each line ended.
pub open spec fn condition_xml(keyword: Seq<char>, e: ExpressionNode) -> Seq<char> {
    element("keyword"@, keyword) + "\n"@ + symbol_element('(') + "\n"@ + expression_xml(e) + "\n"@
        + symbol_element(')') + "\n"@
}

/// A statement element, its last line ended.
pub open spec fn statement_xml(s: Statement) -> Seq<char>
    decreases s, 0int,
{
    match s {
        Statement::Let(l) => "<letStatement>\n"@ + element("keyword"@, "let"@) + "\n"@ + element(
            "identifier"@,
            l.var_name@,
        ) + "\n"@ + match l.lhs_expression {
            Some(e) => symbol_element('[') + "\n"@ + expression_xml(e) + "\n"@ + symbol_element(
                ']',
            ) + "\n"@,
            None => Seq::empty(),
        } + symbol_element('=') + "\n"@ + expression_xml(l.rhs_expression) + "\n"@
            + symbol_element(';') + "\n</letStatement>\n"@,
        Statement::If(n) => "<ifStatement>\n"@ + condition_xml("if"@, n.condition) + block_xml(
            n.if_block@,
        ) + match n.else_block {
            Some(b) => element("keyword"@, "else"@) + "\n"@ + block_xml(b@),
            None => Seq::empty(),
        } + "</ifStatement>\n"@,
        Statement::While(w) => "<whileStatement>\n"@ + condition_xml("while"@, w.condition)
            + block_xml(w.block@) + "</whileStatement>\n"@,
        Statement::Do(d) => "<doStatement>\n"@ + element("keyword"@, "do"@) + "\n"@ + call_xml(
            d.subroutine_call,
        ) + "\n"@ + symbol_element(';') + "\n</doStatement>\n"@,
        Statement::Return(r) => "<returnStatement>\n"@ + element("keyword"@, "return"@) + "\n"@
            + match r.expression {
            Some(e) => expression_xml(e) + "\n"@,
            None => Seq::empty(),
        } + symbol_element(';') + "\n</returnStatement>\n"@,
    }
}

/// Statement elements, in order.
pub open spec fn statements_xml(ss: Seq<Statement>) -> Seq<char>
    decreases ss, 0int,
{
    if ss.len() == 0 {
        Seq::empty()
    } else {
        statements_xml(ss.subrange(0, ss.len() - 1)) + statement_xml(ss[ss.len() - 1])
    }
}

/// Names separated by comma elements, each line ended.
pub open spec fn names_xml(names: Seq<String>) -> Seq<char>
    decreases names.len(),
{
    if names.len() == 0 {
        Seq::empty()
    } else if names.len() == 1 {
        element("identifier"@, names[0]@) + "\n"@
    } else {
        names_xml(names.drop_last()) + symbol_element(',') + "\n"@ + element(
            "identifier"@,
            names.last()@,
        ) + "\n"@
    }
}

/// A local variable declaration; its last line is not ended.
pub open spec fn var_xml(v: VarNode) -> Seq<char> {
    let tag = if v.class_var {
        "classVarDec"@
    } else {
        "varDec"@
    };
    "<"@ + tag + ">\n"@ + element("keyword"@, kind_text(v.var_kind)) + "\n"@ + type_element(
        v.var_type,
    ) + "\n"@ + names_xml(v.var_names@) + symbol_element(';') + "\n</"@ + tag + ">"@
}

/// A class variable declaration; its last line is not ended.
pub open spec fn class_var_xml(v: ClassVarNode) -> Seq<char> {
    "<classVarDec>\n"@ + element("keyword"@, kind_text(v.var_kind)) + "\n"@ + type_element(
        v.var_type,
    ) + "\n"@ + names_xml(v.names@) + symbol_element(';') + "\n</classVarDec>"@
}

/// Parameters separated by comma elements, each line ended.
pub open spec fn params_xml(ps: Seq<ParameterNode>) -> Seq<char>
    decreases ps.len(),
{
    if ps.len() == 0 {
        Seq::empty()
    } else {
        (if ps.len() == 1 {
            Seq::empty()
        } else {
            params_xml(ps.drop_last()) + symbol_element(',') + "\n"@
        }) + type_element(ps.last().var_type) + "\n"@ + element("identifier"@, ps.last().name@)
            + "\n"@
    }
}

/// Local variable declarations, each followed by a newline.
pub open spec fn vars_xml(vs: Seq<VarNode>) -> Seq<char>
    decreases vs.len(),
{
    if vs.len() == 0 {
        Seq::empty()
    } else {
        vars_xml(vs.drop_last()) + var_xml(vs.last()) + "\n"@
    }
}

/// The kind, return type, name and bracketed `<parameterList>` of a
/// subroutine, each line ended.
pub open spec fn subroutine_head_xml(s: SubroutineNode) -> Seq<char> {
    element("keyword"@, subroutine_text(s.subroutine_type)) + "\n"@ + match s.return_type {
        Some(t) => type_element(t),
        None => element("keyword"@, "void"@),
    } + "\n"@ + element("identifier"@, s.name@) + "\n"@ + symbol_element('(')
        + "\n<parameterList>\n"@ + params_xml(s.parameter_list.parameters@) + "</parameterList>\n"@
        + symbol_element(')') + "\n"@
}

/// `<subroutineBody>` ... `</subroutineBody>`, each line ended.
pub open spec fn subroutine_body_xml(s: SubroutineNode) -> Seq<char> {
    "<subroutineBody>\n"@ + symbol_element('{') + "\n"@ + vars_xml(s.body.variables@)
        + "<statements>\n"@ + statements_xml(s.body.statements@) + "</statements>\n"@
        + symbol_element('}') + "\n</subroutineBody>\n"@
}

/// A subroutine declaration, its last line ended.
pub open spec fn subroutine_xml(s: SubroutineNode) -> Seq<char> {
    "<subroutineDec>\n"@ + subroutine_head_xml(s) + subroutine_body_xml(s) + "</subroutineDec>\n"@
}

pub open spec fn class_vars_xml(vs: Seq<ClassVarNode>) -> Seq<char>
    decreases vs.len(),
{
    if vs.len() == 0 {
        Seq::empty()
    } else {
        class_vars_xml(vs.drop_last()) + class_var_xml(vs.last()) + "\n"@
    }
}

pub open spec fn subroutines_xml(ss: Seq<SubroutineNode>) -> Seq<char>
    decreases ss.len(),
{
    if ss.len() == 0 {
        Seq::empty()
    } else {
        subroutines_xml(ss.drop_last()) + subroutine_xml(ss.last())
    }
}

/// A class element, its last line ended.
pub open spec fn class_xml(c: ClassNode) -> Seq<char> {
    "<class>\n"@ + element("keyword"@, "class"@) + "\n"@ + element("identifier"@, c.name@) + "\n"@
        + symbol_element('{') + "\n"@ + class_vars_xml(c.variables@) + subroutines_xml(
        c.subroutines@,
    ) + symbol_element('}') + "\n</class>\n"@
}

#[verifier::rlimit(100)]
fn append_element(out: &mut String, tag: &str, text: &str)
    ensures
        final(out)@ == old(out)@ + element(tag@, text@),
{
    out.append("<");
    out.append(tag);
    out.append("> ");
    out.append(text);
    out.append(" </");
    out.append(tag);
    out.append(">");
    assert(final(out)@ =~= old(out)@ + element(tag@, text@));
}

/// Appends the element of a punctuation symbol.
fn append_symbol(out: &mut String, c: char)
    requires
        c != '<' && c != '>' && c != '&' && c != '"',
    ensures
        final(out)@ == old(out)@ + symbol_element(c),
{
    append_element(out, "symbol", symbol_text(c).as_str());
}

fn append_type(out: &mut String, t: &VarType)
    ensures
        final(out)@ == old(out)@ + type_element(*t),
{
    match t {
        VarType::Int => append_element(out, "keyword", "int"),
        VarType::Char => append_element(out, "keyword", "char"),
        VarType::Boolean => append_element(out, "keyword", "boolean"),
        VarType::ClassName(n) => append_element(out, "identifier", n.as_str()),
    }
}

fn kind_name(k: VarKind) -> (r: &'static str)
    ensures
        r@ == kind_text(k),
{
    match k {
        VarKind::Static => "static",
        VarKind::Field => "field",
        VarKind::Var => "var",
        VarKind::Arg => "arg",
    }
}

fn append_term(out: &mut String, t: &TermNode)
    ensures
        final(out)@ == old(out)@ + term_xml(*t),
    decreases t, 1int,
{
    out.append("<term>\n");
    append_term_inner(out, t);
    out.append("\n</term>");
    assert(out@ =~= old(out)@ + term_xml(*t));
}

#[verifier::rlimit(100)]
fn append_term_inner(out: &mut String, t: &TermNode)
    ensures
        final(out)@ == old(out)@ + term_inner_xml(*t),
    decreases t, 0int,
{
    let ghost start = out@;
    match &t.element {
        TermElement::IntegerConstant(v) => {
            out.append("<");
            out.append("integerConstant");
            out.append("> ");
            append_decimal(out, *v as u32);
            out.append(" </");
            out.append("integerConstant");
            out.append(">");
            assert(out@ =~= start + term_inner_xml(*t));
        },
        TermElement::StringConstant(s) => append_element(out, "stringConstant", s.as_str()),
        TermElement::KeywordConstant(k) => append_element(out, "keyword", k.text()),
        TermElement::Identifier(n) => append_element(out, "identifier", n.as_str()),
        TermElement::IndexedIdentifier(n, e) => {
            append_element(out, "identifier", n.as_str());
            out.append("\n");
            append_symbol(out, '[');
            out.append("\n");
            append_expression(out, e);
            out.append("\n");
            append_symbol(out, ']');
            assert(out@ =~= start + term_inner_xml(*t));
        },
        TermElement::Expression(e) => {
            append_symbol(out, '(');
            out.append("\n");
            append_expression(out, e);
            out.append("\n");
            append_symbol(out, ')');
            assert(out@ =~= start + term_inner_xml(*t));
        },
        TermElement::Unary(op, inner) => {
            if *op == '-' {
                append_element(out, "symbol", "-");
            } else {
                append_element(out, "symbol", "~");
            }
            out.append("\n");
            append_term(out, inner);
            assert(out@ =~= start + term_inner_xml(*t));
        },
        TermElement::SubroutineCall(c) => append_call(out, c),
    }
}

#[verifier::rlimit(100)]
fn append_expression(out: &mut String, e: &ExpressionNode)
    ensures
        final(out)@ == old(out)@ + expression_xml(*e),
    decreases e, 0int,
{
    let n = e.elements.len();
    if n == 0 {
        out.append("<expression></expression>");
        return;
    }
    out.append("<expression>\n");
    let ghost es = e.elements@;
    let ghost start = out@;
    let mut i: usize = 0;
    assert(es.subrange(0, 0) =~= Seq::<ExpressionElement>::empty());
    while i < n
        invariant
            es == e.elements@,
            n == es.len(),
            i <= n,
            out@ == start + elements_xml(es.subrange(0, i as int)),
        decreases n - i,
    {
        let ghost pre = es.subrange(0, i + 1);
        assert(pre.subrange(0, pre.len() - 1) =~= es.subrange(0, i as int));
        assert(pre[pre.len() - 1] == es[i as int]);
        match &e.elements[i] {
            ExpressionElement::Term(t) => append_term(out, t),
            ExpressionElement::Operator(c) => {
                append_element(out, "symbol", symbol_text(*c).as_str());
            },
        }
        out.append("\n");
        assert(out@ =~= start + elements_xml(pre));
        i += 1;
    }
    assert(es.subrange(0, n as int) == es);
    out.append("</expression>");
    assert(out@ =~= old(out)@ + expression_xml(*e));
}

#[verifier::rlimit(100)]
fn append_call(out: &mut String, c: &SubroutineCallNode)
    ensures
        final(out)@ == old(out)@ + call_xml(*c),
    decreases c, 0int,
{
    match &c.caller {
        Some(x) => {
            append_element(out, "identifier", x.as_str());
            out.append("\n");
            append_symbol(out, '.');
            out.append("\n");
        },
        None => {},
    }
    append_element(out, "identifier", c.subroutine_name.as_str());
    out.append("\n");
    append_symbol(out, '(');
    out.append("\n<expressionList>\n");
    let ghost start = out@;
    let ghost es = c.expression_list@;
    let n = c.expression_list.len();
    let mut i: usize = 0;
    assert(es.subrange(0, 0) =~= Seq::<ExpressionNode>::empty());
    while i < n
        invariant
            es == c.expression_list@,
            n == es.len(),
            i <= n,
            out@ == start + expressions_xml(es.subrange(0, i as int)),
        decreases n - i,
    {
        let ghost pre = es.subrange(0, i + 1);
        assert(pre.subrange(0, pre.len() - 1) =~= es.subrange(0, i as int));
        assert(pre[pre.len() - 1] == es[i as int]);
        if i > 0 {
            append_symbol(out, ',');
            out.append("\n");
        } else {
            assert(pre =~= seq![es[0]]);
        }
        append_expression(out, &c.expression_list[i]);
        out.append("\n");
        assert(out@ =~= start + expressions_xml(pre));
        i += 1;
    }
    assert(es.subrange(0, n as int) == es);
    out.append("</expressionList>\n");
    append_symbol(out, ')');
    assert(out@ =~= old(out)@ + call_xml(*c));
}

fn append_block(out: &mut String, ss: &Vec<Statement>)
    ensures
        final(out)@ == old(out)@ + block_xml(ss@),
    decreases ss, 1int,
{
    append_symbol(out, '{');
    out.append("\n<statements>\n");
    append_statements(out, ss);
    out.append("</statements>\n");
    append_symbol(out, '}');
    out.append("\n");
    assert(out@ =~= old(out)@ + block_xml(ss@));
}

fn append_statements(out: &mut String, ss: &Vec<Statement>)
    ensures
        final(out)@ == old(out)@ + statements_xml(ss@),
    decreases ss, 0int,
{
    let ghost v = ss@;
    let ghost start = out@;
    let n = ss.len();
    let mut i: usize = 0;
    assert(v.subrange(0, 0) =~= Seq::<Statement>::empty());
    while i < n
        invariant
            v == ss@,
            n == v.len(),
            i <= n,
            out@ == start + statements_xml(v.subrange(0, i as int)),
        decreases n - i,
    {
        let ghost pre = v.subrange(0, i + 1);
        assert(pre.subrange(0, pre.len() - 1) =~= v.subrange(0, i as int));
        assert(pre[pre.len() - 1] == v[i as int]);
        append_statement(out, &ss[i]);
        assert(out@ =~= start + statements_xml(pre));
        i += 1;
    }
    assert(v.subrange(0, n as int) == v);
}

#[verifier::rlimit(100)]
fn append_statement(out: &mut String, s: &Statement)
    ensures
        final(out)@ == old(out)@ + statement_xml(*s),
    decreases s, 1int,
{
    match s {
        Statement::Let(l) => append_let(out, l),
        Statement::If(n) => append_if(out, n),
        Statement::While(w) => append_while(out, w),
        Statement::Do(d) => {
            let ghost start = out@;
            out.append("<doStatement>\n");
            append_element(out, "keyword", "do");
            out.append("\n");
            append_call(out, &d.subroutine_call);
            out.append("\n");
            append_symbol(out, ';');
            out.append("\n</doStatement>\n");
            assert(out@ =~= start + statement_xml(*s));
        },
        Statement::Return(r) => {
            let ghost start = out@;
            out.append("<returnStatement>\n");
            append_element(out, "keyword", "return");
            out.append("\n");
            let ghost mid = out@;
            match &r.expression {
                Some(e) => {
                    append_expression(out, e);
                    out.append("\n");
                    assert(out@ =~= mid + (expression_xml(*e) + "\n"@));
                },
                None => {
                    assert(out@ =~= mid + Seq::<char>::empty());
                },
            }
            append_symbol(out, ';');
            out.append("\n</returnStatement>\n");
            assert(out@ =~= start + statement_xml(*s));
        },
    }
}

#[verifier::rlimit(100)]
fn append_let(out: &mut String, l: &LetStatementNode)
    ensures
        final(out)@ == old(out)@ + statement_xml(Statement::Let(*l)),
{
    out.append("<letStatement>\n");
    append_element(out, "keyword", "let");
    out.append("\n");
    append_element(out, "identifier", l.var_name.as_str());
    out.append("\n");
    let ghost mid = out@;
    let ghost mut index: Seq<char> = Seq::empty();
    match &l.lhs_expression {
        Some(e) => {
            append_symbol(out, '[');
            out.append("\n");
            append_expression(out, e);
            out.append("\n");
            append_symbol(out, ']');
            out.append("\n");
            proof {
                index = symbol_element('[') + "\n"@ + expression_xml(*e) + "\n"@ + symbol_element(']') + "\n"@;
            }
        },
        None => {},
    }
    assert(out@ =~= mid + index);
    append_symbol(out, '=');
    out.append("\n");
    append_expression(out, &l.rhs_expression);
    out.append("\n");
    append_symbol(out, ';');
    out.append("\n</letStatement>\n");
    assert(out@ =~= old(out)@ + statement_xml(Statement::Let(*l)));
}

#[verifier::rlimit(100)]
fn append_condition(out: &mut String, keyword: &str, e: &ExpressionNode)
    ensures
        final(out)@ == old(out)@ + condition_xml(keyword@, *e),
{
    append_element(out, "keyword", keyword);
    out.append("\n");
    append_symbol(out, '(');
    out.append("\n");
    append_expression(out, e);
    out.append("\n");
    append_symbol(out, ')');
    out.append("\n");
    assert(out@ =~= old(out)@ + condition_xml(keyword@, *e));
}

#[verifier::rlimit(100)]
fn append_if(out: &mut String, n: &IfStatementNode)
    ensures
        final(out)@ == old(out)@ + statement_xml(Statement::If(*n)),
    decreases n, 0int,
{
    out.append("<ifStatement>\n");
    append_condition(out, "if", &n.condition);
    append_block(out, &n.if_block);
    let ghost mid = out@;
    let ghost mut tail: Seq<char> = Seq::empty();
    match &n.else_block {
        Some(b) => {
            append_element(out, "keyword", "else");
            out.append("\n");
            append_block(out, b);
            proof {
                tail = element("keyword"@, "else"@) + "\n"@ + block_xml(b@);
            }
            assert(out@ =~= mid + tail);
        },
        None => {
            assert(out@ =~= mid + tail);
        },
    }
    out.append("</ifStatement>\n");
    assert(out@ =~= old(out)@ + statement_xml(Statement::If(*n)));
}

fn append_while(out: &mut String, w: &WhileStatementNode)
    ensures
        final(out)@ == old(out)@ + statement_xml(Statement::While(*w)),
    decreases w, 0int,
{
    out.append("<whileStatement>\n");
    append_condition(out, "while", &w.condition);
    append_block(out, &w.block);
    out.append("</whileStatement>\n");
    assert(out@ =~= old(out)@ + statement_xml(Statement::While(*w)));
}

#[verifier::rlimit(100)]
fn append_names(out: &mut String, names: &Vec<String>)
    ensures
        final(out)@ == old(out)@ + names_xml(names@),
{
    let ghost v = names@;
    let ghost start = out@;
    let n = names.len();
    let mut i: usize = 0;
    assert(v.take(0) =~= Seq::<String>::empty());
    while i < n
        invariant
            v == names@,
            n == v.len(),
            i <= n,
            out@ == start + names_xml(v.take(i as int)),
        decreases n - i,
    {
        let ghost pre = v.take(i + 1);
        assert(pre.drop_last() =~= v.take(i as int));
        if i > 0 {
            append_symbol(out, ',');
            out.append("\n");
        }
        append_element(out, "identifier", names[i].as_str());
        out.append("\n");
        assert(out@ =~= start + names_xml(pre));
        i += 1;
    }
    assert(v.take(n as int) == v);
}

#[verifier::rlimit(100)]
fn append_var(out: &mut String, v: &VarNode)
    ensures
        final(out)@ == old(out)@ + var_xml(*v),
{
    let tag = if v.class_var {
        "classVarDec"
    } else {
        "varDec"
    };
    out.append("<");
    out.append(tag);
    out.append(">\n");
    append_element(out, "keyword", kind_name(v.var_kind));
    out.append("\n");
    append_type(out, &v.var_type);
    out.append("\n");
    append_names(out, &v.var_names);
    append_symbol(out, ';');
    out.append("\n</");
    out.append(tag);
    out.append(">");
    assert(out@ =~= old(out)@ + var_xml(*v));
}

#[verifier::rlimit(100)]
fn append_class_var(out: &mut String, v: &ClassVarNode)
    ensures
        final(out)@ == old(out)@ + class_var_xml(*v),
{
    out.append("<classVarDec>\n");
    append_element(out, "keyword", kind_name(v.var_kind));
    out.append("\n");
    append_type(out, &v.var_type);
    out.append("\n");
    append_names(out, &v.names);
    append_symbol(out, ';');
    out.append("\n</classVarDec>");
    assert(out@ =~= old(out)@ + class_var_xml(*v));
}

#[verifier::rlimit(100)]
fn append_params(out: &mut String, ps: &Vec<ParameterNode>)
    ensures
        final(out)@ == old(out)@ + params_xml(ps@),
{
    let ghost v = ps@;
    let ghost start = out@;
    let n = ps.len();
    let mut i: usize = 0;
    assert(v.take(0) =~= Seq::<ParameterNode>::empty());
    while i < n
        invariant
            v == ps@,
            n == v.len(),
            i <= n,
            out@ == start + params_xml(v.take(i as int)),
        decreases n - i,
    {
        let ghost pre = v.take(i + 1);
        assert(pre.drop_last() =~= v.take(i as int));
        if i > 0 {
            append_symbol(out, ',');
            out.append("\n");
        }
        append_type(out, &ps[i].var_type);
        out.append("\n");
        append_element(out, "identifier", ps[i].name.as_str());
        out.append("\n");
        assert(out@ =~= start + params_xml(pre));
        i += 1;
    }
    assert(v.take(n as int) == v);
}

fn subroutine_name_text(k: SubroutineType) -> (r: &'static str)
    ensures
        r@ == subroutine_text(k),
{
    match k {
        SubroutineType::Constructor => "constructor",
        SubroutineType::Function => "function",
        SubroutineType::Method => "method",
    }
}

#[verifier::rlimit(100)]
fn append_subroutine_head(out: &mut String, s: &SubroutineNode)
    ensures
        final(out)@ == old(out)@ + subroutine_head_xml(*s),
{
    append_element(out, "keyword", subroutine_name_text(s.subroutine_type));
    out.append("\n");
    match &s.return_type {
        Some(t) => append_type(out, t),
        None => append_element(out, "keyword", "void"),
    }
    out.append("\n");
    append_element(out, "identifier", s.name.as_str());
    out.append("\n");
    append_symbol(out, '(');
    out.append("\n<parameterList>\n");
    append_params(out, &s.parameter_list.parameters);
    out.append("</parameterList>\n");
    append_symbol(out, ')');
    out.append("\n");
    assert(out@ =~= old(out)@ + subroutine_head_xml(*s));
}

#[verifier::rlimit(100)]
fn append_subroutine_body(out: &mut String, s: &SubroutineNode)
    ensures
        final(out)@ == old(out)@ + subroutine_body_xml(*s),
{
    out.append("<subroutineBody>\n");
    append_symbol(out, '{');
    out.append("\n");
    let ghost vs = s.body.variables@;
    let ghost start = out@;
    let n = s.body.variables.len();
    let mut i: usize = 0;
    assert(vs.take(0) =~= Seq::<VarNode>::empty());
    while i < n
        invariant
            vs == s.body.variables@,
            n == vs.len(),
            i <= n,
            out@ == start + vars_xml(vs.take(i as int)),
        decreases n - i,
    {
        let ghost pre = vs.take(i + 1);
        assert(pre.drop_last() =~= vs.take(i as int));
        append_var(out, &s.body.variables[i]);
        out.append("\n");
        assert(out@ =~= start + vars_xml(pre));
        i += 1;
    }
    assert(vs.take(n as int) == vs);
    out.append("<statements>\n");
    append_statements(out, &s.body.statements);
    out.append("</statements>\n");
    append_symbol(out, '}');
    out.append("\n</subroutineBody>\n");
    assert(out@ =~= old(out)@ + subroutine_body_xml(*s));
}

fn append_subroutine(out: &mut String, s: &SubroutineNode)
    ensures
        final(out)@ == old(out)@ + subroutine_xml(*s),
{
    out.append("<subroutineDec>\n");
    append_subroutine_head(out, s);
    append_subroutine_body(out, s);
    out.append("</subroutineDec>\n");
    assert(out@ =~= old(out)@ + subroutine_xml(*s));
}

impl ClassNode {
    /// The XML rendering of this class, one element per line, as the course writes it.
    pub fn to_xml(&self) -> (r: String)
        ensures
            r@ == class_xml(*self),
    {
        let mut out = String::from_str("<class>\n");
        append_element(&mut out, "keyword", "class");
        out.append("\n");
        append_element(&mut out, "identifier", self.name.as_str());
        out.append("\n");
        append_symbol(&mut out, '{');
        out.append("\n");
        let ghost vs = self.variables@;
        let ghost start = out@;
        let n = self.variables.len();
        let mut i: usize = 0;
        assert(vs.take(0) =~= Seq::<ClassVarNode>::empty());
        while i < n
            invariant
                vs == self.variables@,
                n == vs.len(),
                i <= n,
                out@ == start + class_vars_xml(vs.take(i as int)),
            decreases n - i,
        {
            let ghost pre = vs.take(i + 1);
            assert(pre.drop_last() =~= vs.take(i as int));
            append_class_var(&mut out, &self.variables[i]);
            out.append("\n");
            assert(out@ =~= start + class_vars_xml(pre));
            i += 1;
        }
        assert(vs.take(n as int) == vs);
        let ghost ss = self.subroutines@;
        let ghost mid = out@;
        let m = self.subroutines.len();
        let mut j: usize = 0;
        assert(ss.take(0) =~= Seq::<SubroutineNode>::empty());
        while j < m
            invariant
                ss == self.subroutines@,
                m == ss.len(),
                j <= m,
                out@ == mid + subroutines_xml(ss.take(j as int)),
            decreases m - j,
        {
            let ghost pre = ss.take(j + 1);
            assert(pre.drop_last() =~= ss.take(j as int));
            assert(pre.last() == ss[j as int]);
            let ghost before = out@;
            append_subroutine(&mut out, &self.subroutines[j]);
            proof {
                lemma_concat_associative(mid, subroutines_xml(ss.take(j as int)), subroutine_xml(ss[j as int]));
                assert(subroutines_xml(pre) == subroutines_xml(ss.take(j as int)) + subroutine_xml(ss[j as int]));
            }
            assert(out@ == mid + subroutines_xml(pre));
            j += 1;
        }
        assert(ss.take(m as int) == ss);
        append_symbol(&mut out, '}');
        out.append("\n</class>\n");
        assert(out@ =~= class_xml(*self));
        out
    }
}

} // verus!
