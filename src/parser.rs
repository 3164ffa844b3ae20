//! Reads the tokens of a Jack file and builds its parse tree.
use vstd::prelude::*;
use vstd::string::StringExecFns;
use crate::parse_tree::{
    ClassNode, ClassVarNode, DoStatementNode, ExpressionElement, ExpressionNode, IfStatementNode,
    LetStatementNode, ParameterListNode, ParameterNode, ParseTree, ReturnStatementNode, Statement,
    SubroutineBodyNode, SubroutineCallNode, SubroutineNode, SubroutineType, TermElement, TermNode,
    VarKind, VarNode, VarType, WhileStatementNode,
};
use crate::text::{matches_at, str_eq};
use crate::tokens::{Constant, Keyword, Token, TokenV, TokenWrapper};
use vstd::string::StrSliceExecFns;

verus! {

/// The tokens that a list of tokens stands for, without their lines.
pub open spec fn token_values(ts: Seq<TokenWrapper>) -> Seq<TokenV> {
    ts.map_values(|t: TokenWrapper| t.token@)
}

pub open spec fn sym(c: char) -> Seq<TokenV> {
    seq![TokenV::Symbol(c)]
}

pub open spec fn kw(k: Keyword) -> Seq<TokenV> {
    seq![TokenV::Keyword(k)]
}

pub open spec fn ident(s: Seq<char>) -> Seq<TokenV> {
    seq![TokenV::Ident(s)]
}

/// The token of a type.
pub open spec fn type_tokens(t: VarType) -> Seq<TokenV> {
    match t {
        VarType::Int => kw(Keyword::Int),
        VarType::Char => kw(Keyword::Char),
        VarType::Boolean => kw(Keyword::Boolean),
        VarType::ClassName(n) => ident(n@),
    }
}

/// Names separated by commas.
pub open spec fn names_tokens(names: Seq<String>) -> Seq<TokenV>
    decreases names.len(),
{
    if names.len() == 0 {
        Seq::empty()
    } else if names.len() == 1 {
        ident(names[0]@)
    } else {
        names_tokens(names.drop_last()) + sym(',') + ident(names.last()@)
    }
}

/// The tokens of a term.
pub open spec fn term_tokens(t: TermNode) -> Seq<TokenV>
    decreases t,
{
    match t.element {
        TermElement::IntegerConstant(v) => seq![TokenV::IntConst(v)],
        TermElement::StringConstant(s) => seq![TokenV::StrConst(s@)],
        TermElement::KeywordConstant(k) => kw(k),
        TermElement::Identifier(n) => ident(n@),
        TermElement::IndexedIdentifier(n, e) => ident(n@) + sym('[') + expr_tokens(e) + sym(']'),
        TermElement::Expression(e) => sym('(') + expr_tokens(e) + sym(')'),
        TermElement::Unary(op, inner) => sym(op) + term_tokens(*inner),
        TermElement::SubroutineCall(c) => call_tokens(c),
    }
}

/// The tokens of an expression.
pub open spec fn expr_tokens(e: ExpressionNode) -> Seq<TokenV>
    decreases e,
{
    elements_tokens(e.elements@)
}

/// The tokens of the elements of an expression, in order.
pub open spec fn elements_tokens(es: Seq<ExpressionElement>) -> Seq<TokenV>
    decreases es,
{
    if es.len() == 0 {
        Seq::empty()
    } else {
        elements_tokens(es.subrange(0, es.len() - 1)) + match es[es.len() - 1] {
            ExpressionElement::Term(t) => term_tokens(t),
            ExpressionElement::Operator(c) => sym(c),
        }
    }
}

/// Expressions separated by commas.
pub open spec fn exprs_tokens(es: Seq<ExpressionNode>) -> Seq<TokenV>
    decreases es,
{
    if es.len() == 0 {
        Seq::empty()
    } else if es.len() == 1 {
        expr_tokens(es[0])
    } else {
        exprs_tokens(es.subrange(0, es.len() - 1)) + sym(',') + expr_tokens(es[es.len() - 1])
    }
}

/// The tokens of a subroutine call.
pub open spec fn call_tokens(c: SubroutineCallNode) -> Seq<TokenV>
    decreases c,
{
    (match c.caller {
        Some(x) => ident(x@) + sym('.'),
        None => Seq::empty(),
    }) + ident(c.subroutine_name@) + sym('(') + exprs_tokens(c.expression_list@) + sym(')')
}

/// The tokens of a statement.
pub open spec fn stmt_tokens(s: Statement) -> Seq<TokenV>
    decreases s,
{
    match s {
        Statement::Let(l) => kw(Keyword::Let) + ident(l.var_name@) + match l.lhs_expression {
            Some(e) => sym('[') + expr_tokens(e) + sym(']'),
            None => Seq::empty(),
        } + sym('=') + expr_tokens(l.rhs_expression) + sym(';'),
        Statement::If(n) => kw(Keyword::If) + sym('(') + expr_tokens(n.condition) + sym(')')
            + sym('{') + stmts_tokens(n.if_block@) + sym('}') + match n.else_block {
            Some(b) => kw(Keyword::Else) + sym('{') + stmts_tokens(b@) + sym('}'),
            None => Seq::empty(),
        },
        Statement::While(w) => kw(Keyword::While) + sym('(') + expr_tokens(w.condition) + sym(')')
            + sym('{') + stmts_tokens(w.block@) + sym('}'),
        Statement::Do(d) => kw(Keyword::Do) + call_tokens(d.subroutine_call) + sym(';'),
        Statement::Return(r) => kw(Keyword::Return) + match r.expression {
            Some(e) => expr_tokens(e),
            None => Seq::empty(),
        } + sym(';'),
    }
}

/// The tokens of statements, in order.
pub open spec fn stmts_tokens(ss: Seq<Statement>) -> Seq<TokenV>
    decreases ss,
{
    if ss.len() == 0 {
        Seq::empty()
    } else {
        stmts_tokens(ss.subrange(0, ss.len() - 1)) + stmt_tokens(ss[ss.len() - 1])
    }
}

/// The tokens of a local variable declaration.
pub open spec fn var_dec_tokens(v: VarNode) -> Seq<TokenV> {
    kw(Keyword::Var) + type_tokens(v.var_type) + names_tokens(v.var_names@) + sym(';')
}

pub open spec fn var_decs_tokens(vs: Seq<VarNode>) -> Seq<TokenV>
    decreases vs.len(),
{
    if vs.len() == 0 {
        Seq::empty()
    } else {
        var_decs_tokens(vs.drop_last()) + var_dec_tokens(vs.last())
    }
}

/// The tokens of a class variable declaration.
pub open spec fn class_var_tokens(v: ClassVarNode) -> Seq<TokenV> {
    kw(if v.var_kind == VarKind::Static { Keyword::Static } else { Keyword::Field })
        + type_tokens(v.var_type) + names_tokens(v.names@) + sym(';')
}

pub open spec fn class_vars_tokens(vs: Seq<ClassVarNode>) -> Seq<TokenV>
    decreases vs.len(),
{
    if vs.len() == 0 {
        Seq::empty()
    } else {
        class_vars_tokens(vs.drop_last()) + class_var_tokens(vs.last())
    }
}

/// Parameters separated by commas.
pub open spec fn params_tokens(ps: Seq<ParameterNode>) -> Seq<TokenV>
    decreases ps.len(),
{
    if ps.len() == 0 {
        Seq::empty()
    } else if ps.len() == 1 {
        type_tokens(ps[0].var_type) + ident(ps[0].name@)
    } else {
        params_tokens(ps.drop_last()) + sym(',') + type_tokens(ps.last().var_type) + ident(
            ps.last().name@,
        )
    }
}

pub open spec fn subroutine_keyword(k: SubroutineType) -> Keyword {
    match k {
        SubroutineType::Constructor => Keyword::Constructor,
        SubroutineType::Function => Keyword::Function,
        SubroutineType::Method => Keyword::Method,
    }
}

/// The token of a return type: `void` for none.
pub open spec fn return_tokens(t: Option<VarType>) -> Seq<TokenV> {
    match t {
        Some(t) => type_tokens(t),
        None => kw(Keyword::Void),
    }
}

/// The tokens of a subroutine declaration.
pub open spec fn subroutine_tokens(s: SubroutineNode) -> Seq<TokenV> {
    kw(subroutine_keyword(s.subroutine_type)) + return_tokens(s.return_type) + ident(s.name@) + sym('(') + params_tokens(s.parameter_list.parameters@) + sym(')') + sym(
        '{',
    ) + var_decs_tokens(s.body.variables@) + stmts_tokens(s.body.statements@) + sym('}')
}

pub open spec fn subroutines_tokens(ss: Seq<SubroutineNode>) -> Seq<TokenV>
    decreases ss.len(),
{
    if ss.len() == 0 {
        Seq::empty()
    } else {
        subroutines_tokens(ss.drop_last()) + subroutine_tokens(ss.last())
    }
}

/// The tokens of a class.
pub open spec fn class_tokens(c: ClassNode) -> Seq<TokenV> {
    kw(Keyword::Class) + ident(c.name@) + sym('{') + class_vars_tokens(c.variables@)
        + subroutines_tokens(c.subroutines@) + sym('}')
}

/// `p` occurs in `s` at position `i`.
pub open spec fn occurs_at(s: Seq<char>, p: Seq<char>, i: int) -> bool {
    0 <= i && i + p.len() <= s.len() && s.subrange(i, i + p.len()) == p
}

/// The last position before `k` at which `p` occurs in `s`.
pub open spec fn last_occurrence_before(s: Seq<char>, p: Seq<char>, k: int) -> Option<int>
    decreases k,
{
    if k <= 0 {
        None
    } else if occurs_at(s, p, k - 1) {
        Some(k - 1)
    } else {
        last_occurrence_before(s, p, k - 1)
    }
}

/// The last position at which `p` occurs in `s`.
pub open spec fn last_occurrence(s: Seq<char>, p: Seq<char>) -> Option<int> {
    last_occurrence_before(s, p, s.len() + 1int)
}

/// The file name of a path without its directories and its `.jack` ending:
/// the path is cut at the last `.jack`, then what follows the last `/` is kept.
pub open spec fn file_stem(path: Seq<char>) -> Seq<char> {
    let base = match last_occurrence(path, ".jack"@) {
        Some(k) => path.subrange(0, k),
        None => path,
    };
    match last_occurrence(base, "/"@) {
        Some(k) => base.subrange(k + 1, base.len() as int),
        None => base,
    }
}

/// The tokens from `i` up to `j` are `ts`.
pub open spec fn covers(tokens: Seq<TokenWrapper>, i: int, j: int, ts: Seq<TokenV>) -> bool {
    0 <= i <= j <= tokens.len() && token_values(tokens).subrange(i, j) == ts
}

proof fn lemma_join(tokens: Seq<TokenWrapper>, i: int, m: int, j: int, a: Seq<TokenV>, b: Seq<TokenV>)
    requires
        covers(tokens, i, m, a),
        covers(tokens, m, j, b),
    ensures
        covers(tokens, i, j, a + b),
{
    assert(token_values(tokens).subrange(i, j) =~= token_values(tokens).subrange(i, m)
        + token_values(tokens).subrange(m, j));
}

proof fn lemma_one(tokens: Seq<TokenWrapper>, i: int)
    requires
        0 <= i < tokens.len(),
    ensures
        covers(tokens, i, i + 1, seq![token_values(tokens)[i]]),
        token_values(tokens)[i] == tokens[i].token@,
{
    assert(token_values(tokens).subrange(i, i + 1) =~= seq![token_values(tokens)[i]]);
}

proof fn lemma_empty(tokens: Seq<TokenWrapper>, i: int)
    requires
        0 <= i <= tokens.len(),
    ensures
        covers(tokens, i, i, Seq::empty()),
{
    assert(token_values(tokens).subrange(i, i) =~= Seq::<TokenV>::empty());
}

/// The last position at which `p` occurs in `s`.
fn find_last(s: &str, p: &str) -> (r: Option<usize>)
    ensures
        match r {
            Some(k) => last_occurrence(s@, p@) == Some(k as int) && occurs_at(s@, p@, k as int),
            None => last_occurrence(s@, p@) is None,
        },
{
    let n = s.unicode_len();
    let mut k: usize = n;
    loop
        invariant
            n == s@.len(),
            k <= n,
            last_occurrence(s@, p@) == last_occurrence_before(s@, p@, k + 1),
        decreases k,
    {
        if matches_at(s, k, p) {
            return Some(k);
        }
        if k == 0 {
            assert(last_occurrence_before(s@, p@, 0) is None);
            return None;
        }
        k -= 1;
    }
}

/// The file name of `path` without directories and `.jack` ending.
pub fn file_stem_of(path: &str) -> (r: String)
    ensures
        r@ == file_stem(path@),
{
    let base = match find_last(path, ".jack") {
        Some(k) => path.substring_char(0, k),
        None => path,
    };
    proof { reveal_strlit("/"); }
    let len = base.unicode_len();
    match find_last(base, "/") {
        Some(k) => String::from_str(base.substring_char(k + 1, len)),
        None => String::from_str(base),
    }
}

/// The tokens `xs` stand in `tokens` from position `i` on.
pub open spec fn at(tokens: Seq<TokenWrapper>, i: int, xs: Seq<TokenV>) -> bool {
    0 <= i && i + xs.len() <= tokens.len() && token_values(tokens).subrange(i, i + xs.len()) == xs
}

/// A token that may follow an expression: `)`, `]`, `,` or `;`.
pub open spec fn ends_expression(tokens: Seq<TokenWrapper>, p: int) -> bool {
    0 <= p < tokens.len() && {
        let t = token_values(tokens)[p];
        t == TokenV::Symbol(')') || t == TokenV::Symbol(']') || t == TokenV::Symbol(',')
            || t == TokenV::Symbol(';')
    }
}

/// A token that may follow a term: one that may follow an expression, or an operator.
pub open spec fn ends_term(tokens: Seq<TokenWrapper>, p: int) -> bool {
    ends_expression(tokens, p) || (0 <= p < tokens.len() && token_values(tokens)[p] is Symbol
        && is_operator_char(token_values(tokens)[p]->Symbol_0))
}

/// A term that the grammar allows.
pub open spec fn wf_term(t: TermNode) -> bool
    decreases t, 0int,
{
    match t.element {
        TermElement::KeywordConstant(k) => k == Keyword::True || k == Keyword::False || k
            == Keyword::Null || k == Keyword::This,
        TermElement::IndexedIdentifier(_, e) => wf_expr(e),
        TermElement::Expression(e) => wf_expr(e),
        TermElement::Unary(op, inner) => (op == '-' || op == '~') && wf_term(*inner),
        TermElement::SubroutineCall(c) => wf_exprs(c.expression_list@),
        _ => true,
    }
}

/// An expression that the grammar allows: terms and operators alternate,
/// a term first and last.
pub open spec fn wf_expr(e: ExpressionNode) -> bool
    decreases e, 1int,
{
    e.elements@.len() % 2 == 1 && wf_elements(e.elements@)
}

pub open spec fn wf_elements(es: Seq<ExpressionElement>) -> bool
    decreases es, 0int,
{
    if es.len() == 0 {
        true
    } else {
        wf_elements(es.subrange(0, es.len() - 1)) && match es[es.len() - 1] {
            ExpressionElement::Term(t) => (es.len() - 1) % 2 == 0 && wf_term(t),
            ExpressionElement::Operator(c) => (es.len() - 1) % 2 == 1 && is_operator_char(c),
        }
    }
}

pub open spec fn wf_exprs(es: Seq<ExpressionNode>) -> bool
    decreases es, 0int,
{
    if es.len() == 0 {
        true
    } else {
        wf_exprs(es.subrange(0, es.len() - 1)) && wf_expr(es[es.len() - 1])
    }
}

/// `t` is a well-formed term whose tokens stand at `i`, and a token that may
/// follow a term comes after them.
pub open spec fn term_at(tokens: Seq<TokenWrapper>, i: int, t: TermNode) -> bool {
    wf_term(t) && at(tokens, i, term_tokens(t)) && ends_term(tokens, i + term_tokens(t).len())
}

/// `e` is a well-formed expression whose tokens stand at `i`, and a token
/// that may follow an expression comes after them.
pub open spec fn expr_at(tokens: Seq<TokenWrapper>, i: int, e: ExpressionNode) -> bool {
    wf_expr(e) && at(tokens, i, expr_tokens(e)) && ends_expression(tokens, i + expr_tokens(e).len())
}

proof fn lemma_at_part(tokens: Seq<TokenWrapper>, i: int, xs: Seq<TokenV>, a: int, b: int)
    requires
        at(tokens, i, xs),
        0 <= a <= b <= xs.len(),
    ensures
        at(tokens, i + a, xs.subrange(a, b)),
        forall|k: int| a <= k < b ==> token_values(tokens)[i + k] == xs[k],
{
    assert forall|k: int| a <= k < b implies token_values(tokens)[i + k] == xs[k] by {
        assert(token_values(tokens).subrange(i, i + xs.len())[k] == xs[k]);
    }
    assert(token_values(tokens).subrange(i + a, i + b) =~= xs.subrange(a, b));
}

proof fn lemma_elements_prefix(es: Seq<ExpressionElement>, k: int)
    requires
        0 <= k <= es.len(),
    ensures
        elements_tokens(es.take(k)).len() <= elements_tokens(es).len(),
        elements_tokens(es).subrange(0, elements_tokens(es.take(k)).len() as int) == elements_tokens(
            es.take(k),
        ),
    decreases es.len() - k,
{
    if k == es.len() {
        assert(es.take(k) == es);
    } else {
        lemma_elements_prefix(es, k + 1);
        let a = elements_tokens(es.take(k));
        assert(es.take(k + 1).subrange(0, k) == es.take(k));
        let b = elements_tokens(es.take(k + 1));
        assert(b.subrange(0, a.len() as int) =~= a);
        assert(elements_tokens(es).subrange(0, a.len() as int) =~= b.subrange(0, a.len() as int));
    }
}

proof fn lemma_exprs_prefix(es: Seq<ExpressionNode>, k: int)
    requires
        0 <= k <= es.len(),
    ensures
        exprs_tokens(es.take(k)).len() <= exprs_tokens(es).len(),
        exprs_tokens(es).subrange(0, exprs_tokens(es.take(k)).len() as int) == exprs_tokens(
            es.take(k),
        ),
    decreases es.len() - k,
{
    if k == es.len() {
        assert(es.take(k) == es);
    } else {
        lemma_exprs_prefix(es, k + 1);
        let a = exprs_tokens(es.take(k));
        assert(es.take(k + 1).subrange(0, k) == es.take(k));
        let b = exprs_tokens(es.take(k + 1));
        if k == 0 {
            assert(a =~= Seq::<TokenV>::empty());
        }
        assert(b.subrange(0, a.len() as int) =~= a);
        assert(exprs_tokens(es).subrange(0, a.len() as int) =~= b.subrange(0, a.len() as int));
    }
}

proof fn lemma_wf_elements_prefix(es: Seq<ExpressionElement>, k: int)
    requires
        0 <= k <= es.len(),
        wf_elements(es),
    ensures
        wf_elements(es.take(k)),
        forall|m: int| 0 <= m < es.len() ==> match #[trigger] es[m] {
            ExpressionElement::Term(t) => m % 2 == 0 && wf_term(t),
            ExpressionElement::Operator(c) => m % 2 == 1 && is_operator_char(c),
        },
    decreases es.len(),
{
    if es.len() > 0 {
        let pre = es.subrange(0, es.len() - 1);
        lemma_wf_elements_prefix(pre, if k < es.len() { k } else { pre.len() as int });
        if k < es.len() {
            assert(pre.take(k) == es.take(k));
        } else {
            assert(es.take(k) == es);
        }
        assert forall|m: int| 0 <= m < es.len() implies match #[trigger] es[m] {
            ExpressionElement::Term(t) => m % 2 == 0 && wf_term(t),
            ExpressionElement::Operator(c) => m % 2 == 1 && is_operator_char(c),
        } by {
            if m < es.len() - 1 {
                assert(es[m] == pre[m]);
            }
        }
    } else {
        assert(es.take(k) == es);
    }
}

/// A token that can begin a term.
pub open spec fn starts_term(t: TokenV) -> bool {
    match t {
        TokenV::Symbol(c) => c == '(' || c == '-' || c == '~',
        _ => true,
    }
}

proof fn lemma_term_first(t: TermNode)
    requires
        wf_term(t),
    ensures
        term_tokens(t).len() >= 1,
        starts_term(term_tokens(t)[0]),
{
    match t.element {
        TermElement::SubroutineCall(c) => {
            match c.caller {
                Some(x) => assert(call_tokens(c)[0] == TokenV::Ident(x@)),
                None => assert(call_tokens(c)[0] == TokenV::Ident(c.subroutine_name@)),
            }
        },
        TermElement::IndexedIdentifier(n, e) => {
            assert(term_tokens(t)[0] == TokenV::Ident(n@));
        },
        TermElement::Expression(e) => {
            assert(term_tokens(t)[0] == TokenV::Symbol('('));
        },
        TermElement::Unary(op, inner) => {
            assert(term_tokens(t)[0] == TokenV::Symbol(op));
        },
        _ => {},
    }
}

proof fn lemma_expr_first(e: ExpressionNode)
    requires
        wf_expr(e),
    ensures
        expr_tokens(e).len() >= 1,
        starts_term(expr_tokens(e)[0]),
{
    let es = e.elements@;
    lemma_wf_elements_prefix(es, 1);
    lemma_elements_prefix(es, 1);
    let t = es[0]->Term_0;
    assert(es[0] is Term);
    assert(wf_term(t));
    assert(es.take(1).subrange(0, 0) =~= Seq::<ExpressionElement>::empty());
    assert(es.take(1)[0] == es[0]);
    assert(es.take(1).len() == 1);
    assert(elements_tokens(Seq::<ExpressionElement>::empty()) == Seq::<TokenV>::empty());
    assert(elements_tokens(es.take(1)) == elements_tokens(es.take(1).subrange(0, 0)) + term_tokens(t));
    assert(elements_tokens(es.take(1)) =~= term_tokens(t));
    lemma_term_first(t);
    assert(expr_tokens(e)[0] == elements_tokens(es).subrange(0, term_tokens(t).len() as int)[0]);
}

proof fn lemma_exprs_first(es: Seq<ExpressionNode>)
    requires
        es.len() >= 1,
        wf_exprs(es),
    ensures
        exprs_tokens(es).len() >= 1,
        starts_term(exprs_tokens(es)[0]),
{
    lemma_wf_exprs_index(es, 0);
    lemma_expr_first(es[0]);
    lemma_exprs_prefix(es, 1);
    assert(es.take(1) =~= seq![es[0]]);
    assert(exprs_tokens(es.take(1)) == expr_tokens(es[0]));
    assert(exprs_tokens(es)[0] == exprs_tokens(es).subrange(0, expr_tokens(es[0]).len() as int)[0]);
}

proof fn lemma_wf_exprs_index(es: Seq<ExpressionNode>, m: int)
    requires
        0 <= m < es.len(),
        wf_exprs(es),
    ensures
        wf_expr(es[m]),
    decreases es.len(),
{
    if m < es.len() - 1 {
        let pre = es.subrange(0, es.len() - 1);
        lemma_wf_exprs_index(pre, m);
        assert(pre[m] == es[m]);
    }
}

/// The token at `p` is the symbol `c`.
pub open spec fn is_symbol_token(tokens: Seq<TokenWrapper>, p: int, c: char) -> bool {
    0 <= p < tokens.len() && token_values(tokens)[p] == TokenV::Symbol(c)
}

/// In a well-formed expression at `i`, the element at `k` (a term for even
/// `k`, else an operator) and the term after an operator stand where the
/// parser looks for them, each followed by what may follow it.
proof fn lemma_step_tokens(tokens: Seq<TokenWrapper>, i: int, hs: Seq<ExpressionElement>, k: int)
    requires
        wf_elements(hs),
        hs.len() % 2 == 1,
        0 <= k < hs.len(),
        at(tokens, i, elements_tokens(hs)),
        ends_expression(tokens, i + elements_tokens(hs).len()),
    ensures
        k % 2 == 0 ==> term_at(tokens, i + elements_tokens(hs.take(k)).len(), hs[k]->Term_0),
        k % 2 == 1 ==> is_symbol_token(tokens, i + elements_tokens(hs.take(k)).len(), hs[k]->Operator_0)
            && is_operator_char(hs[k]->Operator_0)
            && term_at(tokens, i + elements_tokens(hs.take(k)).len() + 1, hs[k + 1]->Term_0),
    decreases hs.len() - k,
{
    lemma_wf_elements_prefix(hs, hs.len() as int);
    let all = elements_tokens(hs);
    lemma_elements_prefix(hs, k);
    lemma_elements_prefix(hs, k + 1);
    let a = elements_tokens(hs.take(k));
    let b = elements_tokens(hs.take(k + 1));
    assert(hs.take(k + 1).subrange(0, k) == hs.take(k));
    assert(hs.take(k + 1)[k] == hs[k]);
    lemma_at_part(tokens, i, all, a.len() as int, b.len() as int);
    assert(all.subrange(a.len() as int, b.len() as int) =~= b.subrange(a.len() as int, b.len() as int));
    if k % 2 == 0 {
        let t = hs[k]->Term_0;
        assert(b =~= a + term_tokens(t));
        assert(b.subrange(a.len() as int, b.len() as int) =~= term_tokens(t));
        if k + 1 < hs.len() {
            lemma_elements_prefix(hs, k + 2);
            assert(hs.take(k + 2).subrange(0, k + 1) == hs.take(k + 1));
            assert(hs.take(k + 2)[k + 1] == hs[k + 1]);
            let c = elements_tokens(hs.take(k + 2));
            assert(c =~= b + sym(hs[k + 1]->Operator_0));
            lemma_at_part(tokens, i, all, b.len() as int, b.len() + 1int);
            assert(all[b.len() as int] == c[b.len() as int]);
        } else {
            assert(hs.take(k + 1) == hs);
        }
    } else {
        let c = hs[k]->Operator_0;
        assert(b =~= a + sym(c));
        assert(all[a.len() as int] == b[a.len() as int]);
        lemma_step_tokens(tokens, i, hs, k + 1);
        assert(elements_tokens(hs.take(k + 1)).len() == a.len() + 1);
    }
}

/// After the elements up to an odd `k`, the next two elements are an
/// operator and a term.
proof fn lemma_elements_two(hs: Seq<ExpressionElement>, k: int)
    requires
        wf_elements(hs),
        hs.len() % 2 == 1,
        1 <= k < hs.len(),
        k % 2 == 1,
    ensures
        elements_tokens(hs.take(k + 2)).len() == elements_tokens(hs.take(k)).len() + 1
            + term_tokens(hs[k + 1]->Term_0).len(),
{
    lemma_wf_elements_prefix(hs, hs.len() as int);
    assert(hs[k] is Operator);
    assert(hs[k + 1] is Term);
    assert(hs.take(k + 1).subrange(0, k) == hs.take(k));
    assert(hs.take(k + 1)[k] == hs[k]);
    assert(hs.take(k + 2).subrange(0, k + 1) == hs.take(k + 1));
    assert(hs.take(k + 2)[k + 1] == hs[k + 1]);
    assert(elements_tokens(hs.take(k + 1)) == elements_tokens(hs.take(k)) + sym(hs[k]->Operator_0));
    assert(elements_tokens(hs.take(k + 2)) == elements_tokens(hs.take(k + 1)) + term_tokens(
        hs[k + 1]->Term_0,
    ));
}

proof fn lemma_elements_one(hs: Seq<ExpressionElement>)
    requires
        wf_elements(hs),
        hs.len() >= 1,
    ensures
        hs[0] is Term,
        elements_tokens(hs.take(1)) == term_tokens(hs[0]->Term_0),
        elements_tokens(hs.take(0)).len() == 0,
{
    lemma_wf_elements_prefix(hs, hs.len() as int);
    assert(hs[0] is Term);
    assert(hs.take(1).subrange(0, 0) =~= Seq::<ExpressionElement>::empty());
    assert(hs.take(0) =~= Seq::<ExpressionElement>::empty());
    assert(hs.take(1)[0] == hs[0]);
    assert(elements_tokens(Seq::<ExpressionElement>::empty()) == Seq::<TokenV>::empty());
    assert(elements_tokens(hs.take(1)) =~= term_tokens(hs[0]->Term_0));
}

/// The first tokens of a call: receiver and `.`, or the name and `(`.
proof fn lemma_call_shape(c: SubroutineCallNode)
    ensures
        ({
            let xs = call_tokens(c);
            let head: Seq<TokenV> = match c.caller {
                Some(x) => ident(x@) + sym('.'),
                None => Seq::empty(),
            };
            let args = exprs_tokens(c.expression_list@);
            let hl = head.len() as int;
            let al = args.len() as int;
            &&& xs =~= head + ident(c.subroutine_name@) + sym('(') + args + sym(')')
            &&& xs.len() == head.len() + 3 + args.len()
            &&& xs[hl] == TokenV::Ident(c.subroutine_name@)
            &&& xs[hl + 1] == TokenV::Symbol('(')
            &&& xs[hl + 2 + al] == TokenV::Symbol(')')
            &&& xs.subrange(hl + 2, hl + 2 + al) =~= args
            &&& match c.caller {
                Some(x) => xs[0] == TokenV::Ident(x@) && xs[1] == TokenV::Symbol('.') && head.len() == 2,
                None => head.len() == 0,
            }
        }),
{
}

/// In a well-formed list of expressions at `i` followed by `)`, the `k`-th
/// expression stands after the first `k` and their commas, followed by a
/// comma or the `)`.
proof fn lemma_list_step(tokens: Seq<TokenWrapper>, i: int, hs: Seq<ExpressionNode>, k: int)
    requires
        wf_exprs(hs),
        0 <= k < hs.len(),
        at(tokens, i, exprs_tokens(hs)),
        is_symbol_token(tokens, i + exprs_tokens(hs).len(), ')'),
    ensures
        k == 0 ==> expr_at(tokens, i, hs[0]),
        k > 0 ==> is_symbol_token(tokens, i + exprs_tokens(hs.take(k)).len(), ',')
            && expr_at(tokens, i + exprs_tokens(hs.take(k)).len() + 1, hs[k]),
        k > 0 ==> exprs_tokens(hs.take(k + 1)).len() == exprs_tokens(hs.take(k)).len() + 1 + expr_tokens(hs[k]).len(),
        k == 0 ==> exprs_tokens(hs.take(1)).len() == expr_tokens(hs[0]).len(),
{
    let all = exprs_tokens(hs);
    lemma_wf_exprs_index(hs, k);
    lemma_exprs_prefix(hs, k);
    lemma_exprs_prefix(hs, k + 1);
    let a = exprs_tokens(hs.take(k));
    let b = exprs_tokens(hs.take(k + 1));
    assert(hs.take(k + 1).subrange(0, k) == hs.take(k));
    assert(hs.take(k + 1)[k] == hs[k]);
    lemma_at_part(tokens, i, all, 0, b.len() as int);
    assert(all.subrange(0, b.len() as int) == b);
    let e = expr_tokens(hs[k]);
    let start: int = if k == 0 { 0 } else { a.len() + 1int };
    if k == 0 {
        assert(hs.take(1) =~= seq![hs[0]]);
        assert(b == e);
    } else {
        assert(b =~= a + sym(',') + e);
        assert(b[a.len() as int] == TokenV::Symbol(','));
    }
    assert(b.subrange(start, b.len() as int) =~= e);
    lemma_at_part(tokens, i, b, start, b.len() as int);
    if k + 1 < hs.len() {
        lemma_exprs_prefix(hs, k + 2);
        assert(hs.take(k + 2).subrange(0, k + 1) == hs.take(k + 1));
        let c = exprs_tokens(hs.take(k + 2));
        assert(c =~= b + sym(',') + expr_tokens(hs[k + 1]));
        lemma_at_part(tokens, i, all, 0, c.len() as int);
        assert(all.subrange(0, c.len() as int) == c);
        assert(c[b.len() as int] == TokenV::Symbol(','));
    } else {
        assert(hs.take(k + 1) == hs);
    }
}

/// A statement that the grammar allows.
pub open spec fn wf_stmt(s: Statement) -> bool
    decreases s, 0int,
{
    match s {
        Statement::Let(l) => (match l.lhs_expression {
            Some(e) => wf_expr(e),
            None => true,
        }) && wf_expr(l.rhs_expression),
        Statement::If(n) => wf_expr(n.condition) && wf_stmts(n.if_block@) && (match n.else_block {
            Some(b) => wf_stmts(b@),
            None => true,
        }),
        Statement::While(w) => wf_expr(w.condition) && wf_stmts(w.block@),
        Statement::Do(d) => wf_exprs(d.subroutine_call.expression_list@),
        Statement::Return(r) => match r.expression {
            Some(e) => wf_expr(e),
            None => true,
        },
    }
}

pub open spec fn wf_stmts(ss: Seq<Statement>) -> bool
    decreases ss, 0int,
{
    if ss.len() == 0 {
        true
    } else {
        wf_stmts(ss.subrange(0, ss.len() - 1)) && wf_stmt(ss[ss.len() - 1])
    }
}

/// The token at `p` is the keyword `k`.
pub open spec fn is_keyword_token(tokens: Seq<TokenWrapper>, p: int, k: Keyword) -> bool {
    0 <= p < tokens.len() && token_values(tokens)[p] == TokenV::Keyword(k)
}

/// A keyword that begins a statement.
pub open spec fn starts_statement(t: TokenV) -> bool {
    t == TokenV::Keyword(Keyword::Let) || t == TokenV::Keyword(Keyword::If) || t == TokenV::Keyword(
        Keyword::While,
    ) || t == TokenV::Keyword(Keyword::Do) || t == TokenV::Keyword(Keyword::Return)
}

/// `s` is a well-formed statement at `i`, and no `else` follows it.
pub open spec fn stmt_at(tokens: Seq<TokenWrapper>, i: int, s: Statement) -> bool {
    wf_stmt(s) && at(tokens, i, stmt_tokens(s)) && !is_keyword_token(
        tokens,
        i + stmt_tokens(s).len(),
        Keyword::Else,
    )
}

/// `ss` are well-formed statements at `i`, followed by `}`.
pub open spec fn stmts_at(tokens: Seq<TokenWrapper>, i: int, ss: Seq<Statement>) -> bool {
    wf_stmts(ss) && at(tokens, i, stmts_tokens(ss)) && is_symbol_token(
        tokens,
        i + stmts_tokens(ss).len(),
        '}',
    )
}

proof fn lemma_at_concat(tokens: Seq<TokenWrapper>, i: int, a: Seq<TokenV>, b: Seq<TokenV>)
    requires
        at(tokens, i, a + b),
    ensures
        at(tokens, i, a),
        at(tokens, i + a.len(), b),
{
    lemma_at_part(tokens, i, a + b, 0, a.len() as int);
    lemma_at_part(tokens, i, a + b, a.len() as int, (a + b).len() as int);
    assert((a + b).subrange(0, a.len() as int) =~= a);
    assert((a + b).subrange(a.len() as int, (a + b).len() as int) =~= b);
}

proof fn lemma_at_one(tokens: Seq<TokenWrapper>, i: int, t: TokenV)
    requires
        at(tokens, i, seq![t]),
    ensures
        0 <= i < tokens.len() && token_values(tokens)[i] == t,
{
    lemma_at_part(tokens, i, seq![t], 0, 1);
    assert(seq![t][0] == t);
    assert(token_values(tokens)[i + 0] == seq![t][0]);
}

proof fn lemma_stmts_first_token(ss: Seq<Statement>)
    requires
        stmts_tokens(ss).len() > 0,
    ensures
        starts_statement(stmts_tokens(ss)[0]),
{
    lemma_stmts_prefix(ss, 1);
    if ss.len() == 0 {
        assert(false);
    }
    assert(ss.take(1).subrange(0, 0) =~= Seq::<Statement>::empty());
    assert(ss.take(1)[0] == ss[0]);
    assert(ss.take(1).len() == 1);
    assert(stmts_tokens(Seq::<Statement>::empty()) == Seq::<TokenV>::empty());
    lemma_stmt_first(ss[0]);
    assert(stmts_tokens(ss.take(1)) =~= stmt_tokens(ss[0]));
    assert(stmts_tokens(ss)[0] == stmts_tokens(ss).subrange(0, stmt_tokens(ss[0]).len() as int)[0]);
}

proof fn lemma_subroutines_first_token(ss: Seq<SubroutineNode>)
    requires
        subroutines_tokens(ss).len() > 0,
    ensures
        subroutines_tokens(ss)[0] == TokenV::Keyword(Keyword::Constructor) || subroutines_tokens(ss)[0]
            == TokenV::Keyword(Keyword::Function) || subroutines_tokens(ss)[0] == TokenV::Keyword(
            Keyword::Method,
        ),
{
    if ss.len() == 0 {
        assert(false);
    }
    lemma_subroutines_prefix(ss, 0);
    assert(ss.take(0) =~= Seq::<SubroutineNode>::empty());
    let x = subroutine_tokens(ss[0]);
    assert(subroutines_tokens(ss.take(1)) =~= x);
    assert(x[0] == TokenV::Keyword(subroutine_keyword(ss[0].subroutine_type)));
    assert(subroutines_tokens(ss)[0] == subroutines_tokens(ss).subrange(0, x.len() as int)[0]);
}

proof fn lemma_stmt_first(s: Statement)
    ensures
        stmt_tokens(s).len() >= 1,
        starts_statement(stmt_tokens(s)[0]),
{
}

proof fn lemma_stmts_prefix(ss: Seq<Statement>, k: int)
    requires
        0 <= k <= ss.len(),
    ensures
        stmts_tokens(ss.take(k)).len() <= stmts_tokens(ss).len(),
        stmts_tokens(ss).subrange(0, stmts_tokens(ss.take(k)).len() as int) == stmts_tokens(
            ss.take(k),
        ),
    decreases ss.len() - k,
{
    if k == ss.len() {
        assert(ss.take(k) == ss);
    } else {
        lemma_stmts_prefix(ss, k + 1);
        let a = stmts_tokens(ss.take(k));
        assert(ss.take(k + 1).subrange(0, k) == ss.take(k));
        let b = stmts_tokens(ss.take(k + 1));
        assert(b.subrange(0, a.len() as int) =~= a);
        assert(stmts_tokens(ss).subrange(0, a.len() as int) =~= b.subrange(0, a.len() as int));
    }
}

proof fn lemma_wf_stmts_index(ss: Seq<Statement>, m: int)
    requires
        0 <= m < ss.len(),
        wf_stmts(ss),
    ensures
        wf_stmt(ss[m]),
    decreases ss.len(),
{
    if m < ss.len() - 1 {
        let pre = ss.subrange(0, ss.len() - 1);
        lemma_wf_stmts_index(pre, m);
        assert(pre[m] == ss[m]);
    }
}

/// In well-formed statements at `i` followed by `}`, the `k`-th statement
/// stands after the first `k`, followed by the next statement or the `}`.
proof fn lemma_stmts_step(tokens: Seq<TokenWrapper>, i: int, ss: Seq<Statement>, k: int)
    requires
        stmts_at(tokens, i, ss),
        0 <= k <= ss.len(),
    ensures
        k < ss.len() ==> stmt_at(tokens, i + stmts_tokens(ss.take(k)).len(), ss[k])
            && starts_statement(token_values(tokens)[i + stmts_tokens(ss.take(k)).len()])
            && stmts_tokens(ss.take(k + 1)).len() == stmts_tokens(ss.take(k)).len() + stmt_tokens(ss[k]).len(),
        k == ss.len() ==> is_symbol_token(tokens, i + stmts_tokens(ss.take(k)).len(), '}'),
{
    let all = stmts_tokens(ss);
    lemma_stmts_prefix(ss, k);
    if k == ss.len() {
        assert(ss.take(k) == ss);
    } else {
        lemma_wf_stmts_index(ss, k);
        lemma_stmts_prefix(ss, k + 1);
        let a = stmts_tokens(ss.take(k));
        let b = stmts_tokens(ss.take(k + 1));
        assert(ss.take(k + 1).subrange(0, k) == ss.take(k));
        assert(ss.take(k + 1)[k] == ss[k]);
        assert(b =~= a + stmt_tokens(ss[k]));
        lemma_at_part(tokens, i, all, 0, b.len() as int);
        assert(all.subrange(0, b.len() as int) == b);
        assert(b.subrange(a.len() as int, b.len() as int) =~= stmt_tokens(ss[k]));
        lemma_at_part(tokens, i, b, a.len() as int, b.len() as int);
        lemma_stmt_first(ss[k]);
        assert(b[a.len() as int] == stmt_tokens(ss[k])[0]);
        if k + 1 < ss.len() {
            lemma_stmts_prefix(ss, k + 2);
            lemma_stmt_first(ss[k + 1]);
            let c = stmts_tokens(ss.take(k + 2));
            assert(ss.take(k + 2).subrange(0, k + 1) == ss.take(k + 1));
            assert(ss.take(k + 2)[k + 1] == ss[k + 1]);
            assert(c =~= b + stmt_tokens(ss[k + 1]));
            lemma_at_part(tokens, i, all, 0, c.len() as int);
            assert(all.subrange(0, c.len() as int) == c);
            assert(c[b.len() as int] == stmt_tokens(ss[k + 1])[0]);
        } else {
            assert(ss.take(k + 1) == ss);
        }
    }
}

/// A class that the grammar allows: every declaration names at least one
/// variable, and its statements and expressions are well formed.
pub open spec fn wf_class(c: ClassNode) -> bool {
    &&& forall|k: int| 0 <= k < c.variables@.len() ==> (#[trigger] c.variables@[k]).names@.len() >= 1
    &&& forall|k: int| 0 <= k < c.subroutines@.len() ==> wf_subroutine(#[trigger] c.subroutines@[k])
}

pub open spec fn wf_subroutine(s: SubroutineNode) -> bool {
    &&& forall|k: int| 0 <= k < s.body.variables@.len() ==> (#[trigger] s.body.variables@[k]).var_names@.len() >= 1
    &&& wf_stmts(s.body.statements@)
}

proof fn lemma_names_shape(names: Seq<String>)
    requires
        names.len() >= 1,
    ensures
        names_tokens(names).len() == 2 * names.len() - 1,
        forall|m: int| 0 <= m < names.len() ==> names_tokens(names)[2 * m] == TokenV::Ident(#[trigger] names[m]@),
        forall|m: int| 1 <= m < names.len() ==> #[trigger] names_tokens(names)[2 * m - 1] == TokenV::Symbol(','),
    decreases names.len(),
{
    if names.len() > 1 {
        let pre = names.drop_last();
        lemma_names_shape(pre);
        let a = names_tokens(pre);
        assert(names_tokens(names) == a + sym(',') + ident(names.last()@));
        assert forall|m: int| 0 <= m < names.len() implies names_tokens(names)[2 * m] == TokenV::Ident(
            #[trigger] names[m]@,
        ) by {
            if m < names.len() - 1 {
                assert(pre[m] == names[m]);
            }
        }
        assert forall|m: int| 1 <= m < names.len() implies #[trigger] names_tokens(names)[2 * m - 1]
            == TokenV::Symbol(',') by {
            if m < names.len() - 1 {
                assert(names_tokens(names)[2 * m - 1] == a[2 * m - 1]);
            }
        }
    }
}

proof fn lemma_params_shape(ps: Seq<ParameterNode>)
    requires
        ps.len() >= 1,
    ensures
        params_tokens(ps).len() == 3 * ps.len() - 1,
        forall|m: int| 0 <= m < ps.len() ==> params_tokens(ps)[3 * m] == type_tokens((#[trigger] ps[m]).var_type)[0]
            && params_tokens(ps)[3 * m + 1] == TokenV::Ident(ps[m].name@),
        forall|m: int| 1 <= m < ps.len() ==> #[trigger] params_tokens(ps)[3 * m - 1] == TokenV::Symbol(','),
    decreases ps.len(),
{
    if ps.len() > 1 {
        let pre = ps.drop_last();
        lemma_params_shape(pre);
        let a = params_tokens(pre);
        assert(params_tokens(ps) == a + sym(',') + type_tokens(ps.last().var_type) + ident(ps.last().name@));
        assert forall|m: int| 0 <= m < ps.len() implies params_tokens(ps)[3 * m] == type_tokens(
            (#[trigger] ps[m]).var_type,
        )[0] && params_tokens(ps)[3 * m + 1] == TokenV::Ident(ps[m].name@) by {
            if m < ps.len() - 1 {
                assert(pre[m] == ps[m]);
            }
        }
        assert forall|m: int| 1 <= m < ps.len() implies #[trigger] params_tokens(ps)[3 * m - 1]
            == TokenV::Symbol(',') by {
            if m < ps.len() - 1 {
                assert(params_tokens(ps)[3 * m - 1] == a[3 * m - 1]);
            }
        }
    }
}

proof fn lemma_var_decs_prefix(vs: Seq<VarNode>, k: int)
    requires
        0 <= k < vs.len(),
    ensures
        var_decs_tokens(vs.take(k + 1)) == var_decs_tokens(vs.take(k)) + var_dec_tokens(vs[k]),
        var_decs_tokens(vs).len() >= var_decs_tokens(vs.take(k + 1)).len(),
        var_decs_tokens(vs).subrange(0, var_decs_tokens(vs.take(k + 1)).len() as int)
            == var_decs_tokens(vs.take(k + 1)),
    decreases vs.len() - k,
{
    assert(vs.take(k + 1).drop_last() == vs.take(k));
    if k + 1 == vs.len() {
        assert(vs.take(k + 1) == vs);
    } else {
        lemma_var_decs_prefix(vs, k + 1);
        let b = var_decs_tokens(vs.take(k + 1));
        let c = var_decs_tokens(vs.take(k + 2));
        assert(c.subrange(0, b.len() as int) =~= b);
        assert(var_decs_tokens(vs).subrange(0, b.len() as int) =~= c.subrange(0, b.len() as int));
    }
}

proof fn lemma_class_vars_prefix(vs: Seq<ClassVarNode>, k: int)
    requires
        0 <= k < vs.len(),
    ensures
        class_vars_tokens(vs.take(k + 1)) == class_vars_tokens(vs.take(k)) + class_var_tokens(vs[k]),
        class_vars_tokens(vs).len() >= class_vars_tokens(vs.take(k + 1)).len(),
        class_vars_tokens(vs).subrange(0, class_vars_tokens(vs.take(k + 1)).len() as int)
            == class_vars_tokens(vs.take(k + 1)),
    decreases vs.len() - k,
{
    assert(vs.take(k + 1).drop_last() == vs.take(k));
    if k + 1 == vs.len() {
        assert(vs.take(k + 1) == vs);
    } else {
        lemma_class_vars_prefix(vs, k + 1);
        let b = class_vars_tokens(vs.take(k + 1));
        let c = class_vars_tokens(vs.take(k + 2));
        assert(c.subrange(0, b.len() as int) =~= b);
        assert(class_vars_tokens(vs).subrange(0, b.len() as int) =~= c.subrange(0, b.len() as int));
    }
}

proof fn lemma_subroutines_prefix(ss: Seq<SubroutineNode>, k: int)
    requires
        0 <= k < ss.len(),
    ensures
        subroutines_tokens(ss.take(k + 1)) == subroutines_tokens(ss.take(k)) + subroutine_tokens(ss[k]),
        subroutines_tokens(ss).len() >= subroutines_tokens(ss.take(k + 1)).len(),
        subroutines_tokens(ss).subrange(0, subroutines_tokens(ss.take(k + 1)).len() as int)
            == subroutines_tokens(ss.take(k + 1)),
    decreases ss.len() - k,
{
    assert(ss.take(k + 1).drop_last() == ss.take(k));
    if k + 1 == ss.len() {
        assert(ss.take(k + 1) == ss);
    } else {
        lemma_subroutines_prefix(ss, k + 1);
        let b = subroutines_tokens(ss.take(k + 1));
        let c = subroutines_tokens(ss.take(k + 2));
        assert(c.subrange(0, b.len() as int) =~= b);
        assert(subroutines_tokens(ss).subrange(0, b.len() as int) =~= c.subrange(0, b.len() as int));
    }
}

/// Where the tokens of a list stand, the tokens of each item stand after
/// those of the items before it.
proof fn lemma_at_item(tokens: Seq<TokenWrapper>, i: int, all: Seq<TokenV>, before: Seq<TokenV>, upto: Seq<TokenV>, item: Seq<TokenV>)
    requires
        at(tokens, i, all),
        upto == before + item,
        upto.len() <= all.len(),
        all.subrange(0, upto.len() as int) == upto,
    ensures
        at(tokens, i + before.len(), item),
        upto.len() < all.len() ==> token_values(tokens)[i + upto.len()] == all[upto.len() as int],
{
    lemma_at_part(tokens, i, all, 0, all.len() as int);
    lemma_at_part(tokens, i, all, before.len() as int, upto.len() as int);
    assert(all.subrange(before.len() as int, upto.len() as int) =~= item);
}

/// A violation of the grammar, at the token with this index (or at the end).
pub struct ParseError {
    pub token_index: usize,
}

/// Reads the tokens and builds a parse tree.
pub struct Parser {}

fn is_symbol_at(tokens: &Vec<TokenWrapper>, i: usize, c: char) -> (r: bool)
    ensures
        r == (i < tokens@.len() && token_values(tokens@)[i as int] == TokenV::Symbol(c)),
        tokens@.len() <= usize::MAX,
{
    if i < tokens.len() {
        proof { lemma_one(tokens@, i as int); }
        match &tokens[i].token {
            Token::Symbol(s) => *s == c,
            _ => false,
        }
    } else {
        false
    }
}

fn is_keyword_at(tokens: &Vec<TokenWrapper>, i: usize, k: Keyword) -> (r: bool)
    ensures
        r == (i < tokens@.len() && token_values(tokens@)[i as int] == TokenV::Keyword(k)),
        tokens@.len() <= usize::MAX,
{
    if i < tokens.len() {
        proof { lemma_one(tokens@, i as int); }
        match &tokens[i].token {
            Token::Keyword(x) => *x == k,
            _ => false,
        }
    } else {
        false
    }
}

/// The symbol `c` at `i`, and the position after it.
fn expect_symbol(tokens: &Vec<TokenWrapper>, i: usize, c: char) -> (r: Result<usize, ParseError>)
    requires
        i <= tokens@.len(),
    ensures
        r is Ok ==> r->Ok_0 == i + 1 && covers(tokens@, i as int, i + 1, sym(c)),
        is_symbol_token(tokens@, i as int, c) ==> r is Ok,
{
    if is_symbol_at(tokens, i, c) {
        proof { lemma_one(tokens@, i as int); }
        Ok(i + 1)
    } else {
        Err(ParseError { token_index: i })
    }
}

/// The keyword `k` at `i`, and the position after it.
fn expect_keyword(tokens: &Vec<TokenWrapper>, i: usize, k: Keyword) -> (r: Result<usize, ParseError>)
    requires
        i <= tokens@.len(),
    ensures
        r is Ok ==> r->Ok_0 == i + 1 && covers(tokens@, i as int, i + 1, kw(k)),
        i < tokens@.len() && token_values(tokens@)[i as int] == TokenV::Keyword(k) ==> r is Ok,
{
    if is_keyword_at(tokens, i, k) {
        proof { lemma_one(tokens@, i as int); }
        Ok(i + 1)
    } else {
        Err(ParseError { token_index: i })
    }
}

/// The identifier at `i`, and the position after it.
fn identifier_at(tokens: &Vec<TokenWrapper>, i: usize) -> (r: Result<(String, usize), ParseError>)
    requires
        i <= tokens@.len(),
    ensures
        tokens@.len() <= usize::MAX,
        r is Ok ==> r->Ok_0.1 == i + 1 && covers(tokens@, i as int, i + 1, ident(r->Ok_0.0@)),
        i < tokens@.len() && token_values(tokens@)[i as int] is Ident ==> r is Ok,
{
    if i < tokens.len() {
        proof { lemma_one(tokens@, i as int); }
        match &tokens[i].token {
            Token::Identifier(name) => Ok((name.clone(), i + 1)),
            _ => Err(ParseError { token_index: i }),
        }
    } else {
        Err(ParseError { token_index: i })
    }
}

/// A binary operator of Jack.
pub open spec fn is_operator_char(c: char) -> bool {
    c == '+' || c == '-' || c == '*' || c == '/' || c == '&' || c == '|' || c == '<' || c == '>'
        || c == '='
}

impl Parser {
    pub fn new() -> (r: Parser) {
        Parser {}
    }

    fn is_operator(&self, c: char) -> (r: bool)
        ensures
            r == is_operator_char(c),
    {
        c == '+' || c == '-' || c == '*' || c == '/' || c == '&' || c == '|' || c == '<' || c
            == '>' || c == '='
    }

    /// The binary operator at `i`, if there is one.
    fn operator_at(&self, tokens: &Vec<TokenWrapper>, i: usize) -> (r: Option<char>)
        ensures
            tokens@.len() <= usize::MAX,
            match r {
                Some(c) => i < tokens@.len() && token_values(tokens@)[i as int] == TokenV::Symbol(c)
                    && is_operator_char(c),
                None => !(i < tokens@.len() && token_values(tokens@)[i as int] is Symbol
                    && is_operator_char(token_values(tokens@)[i as int]->Symbol_0)),
            },
    {
        if i < tokens.len() {
            proof { lemma_one(tokens@, i as int); }
            match &tokens[i].token {
                Token::Symbol(c) => if self.is_operator(*c) {
                    Some(*c)
                } else {
                    None
                },
                _ => None,
            }
        } else {
            None
        }
    }

    fn parse_term(&self, tokens: &Vec<TokenWrapper>, i: usize, hint: Ghost<Option<TermNode>>) -> (r: Result<(TermNode, usize), ParseError>)
        requires
            i <= tokens@.len(),
        ensures
            r is Ok ==> wf_term(r->Ok_0.0),
            r is Ok ==> i < r->Ok_0.1 && covers(tokens@, i as int, r->Ok_0.1 as int, term_tokens(r->Ok_0.0)),
            hint@ is Some && term_at(tokens@, i as int, hint@->0) ==> r is Ok && r->Ok_0.1 == i
                + term_tokens(hint@->0).len(),
        decreases tokens@.len() - i, 1int,
    {
        let ghost hinted = hint@ is Some && term_at(tokens@, i as int, hint@->0);
        let ghost t = hint@->0;
        let ghost xs = term_tokens(t);
        proof {
            if hinted {
                lemma_at_part(tokens@, i as int, xs, 0, xs.len() as int);
                lemma_term_first(t);
            }
        }
        if i >= tokens.len() {
            return Err(ParseError { token_index: i });
        }
        proof { lemma_one(tokens@, i as int); }
        match &tokens[i].token {
            Token::Constant(Constant::IntegerConstant(v)) => {
                Ok((TermNode { element: TermElement::IntegerConstant(*v) }, i + 1))
            },
            Token::Constant(Constant::StringConstant(s)) => {
                Ok((TermNode { element: TermElement::StringConstant(s.clone()) }, i + 1))
            },
            Token::Keyword(k) => {
                if *k == Keyword::True || *k == Keyword::False || *k == Keyword::Null || *k
                    == Keyword::This {
                    Ok((TermNode { element: TermElement::KeywordConstant(*k) }, i + 1))
                } else {
                    proof {
                        if hinted {
                            match t.element {
                                TermElement::SubroutineCall(c) => {
                                    lemma_call_shape(c);
                                    assert(xs == call_tokens(c));
                                },
                                _ => {},
                            }
                        }
                    }
                    Err(ParseError { token_index: i })
                }
            },
            Token::Identifier(name) => {
                if is_symbol_at(tokens, i + 1, '[') {
                    proof { lemma_one(tokens@, i + 1); }
                    let ghost sub: Option<ExpressionNode> = match t.element {
                        TermElement::IndexedIdentifier(_, e) => Some(e),
                        _ => None,
                    };
                    proof {
                        if hinted {
                            match t.element {
                                TermElement::IndexedIdentifier(n, e) => {
                                    let el = expr_tokens(e).len() as int;
                                    assert(xs =~= ident(n@) + sym('[') + expr_tokens(e) + sym(']'));
                                    assert(xs.subrange(2, 2 + el) =~= expr_tokens(e));
                                    lemma_at_part(tokens@, i as int, xs, 2, 2 + el);
                                    assert(xs[2 + el] == TokenV::Symbol(']'));
                                    assert(token_values(tokens@)[i + 2 + el] == TokenV::Symbol(']'));
                                    assert(expr_at(tokens@, i + 2, e));
                                },
                                TermElement::SubroutineCall(c) => {
                                    lemma_call_shape(c);
                                    assert(xs == call_tokens(c));
                                },
                                _ => {},
                            }
                        }
                    }
                    let (e, j) = self.parse_expression(tokens, i + 2, Ghost(sub))?;
                    let k = expect_symbol(tokens, j, ']')?;
                    proof {
                        lemma_join(tokens@, i as int, i + 1, i + 2, ident(name@), sym('['));
                        lemma_join(tokens@, i as int, i + 2, j as int, ident(name@) + sym('['), expr_tokens(e));
                        lemma_join(tokens@, i as int, j as int, k as int, ident(name@) + sym('[') + expr_tokens(e), sym(']'));
                    }
                    Ok((TermNode { element: TermElement::IndexedIdentifier(name.clone(), e) }, k))
                } else if is_symbol_at(tokens, i + 1, '(') || is_symbol_at(tokens, i + 1, '.') {
                    let ghost sub: Option<SubroutineCallNode> = match t.element {
                        TermElement::SubroutineCall(c) => Some(c),
                        _ => None,
                    };
                    proof {
                        if hinted {
                            match t.element {
                                TermElement::IndexedIdentifier(n, e) => {
                                    assert(xs[1] == TokenV::Symbol('['));
                                },
                                _ => {},
                            }
                        }
                    }
                    let (c, j) = self.parse_subroutine_call(tokens, i, Ghost(sub))?;
                    Ok((TermNode { element: TermElement::SubroutineCall(c) }, j))
                } else {
                    proof {
                        if hinted {
                            match t.element {
                                TermElement::IndexedIdentifier(n, e) => {
                                    assert(xs[1] == TokenV::Symbol('['));
                                },
                                TermElement::SubroutineCall(c) => {
                                    lemma_call_shape(c);
                                    assert(xs == call_tokens(c));
                                },
                                _ => {},
                            }
                        }
                    }
                    Ok((TermNode { element: TermElement::Identifier(name.clone()) }, i + 1))
                }
            },
            Token::Symbol(c) => {
                if *c == '(' {
                    let ghost sub: Option<ExpressionNode> = match t.element {
                        TermElement::Expression(e) => Some(e),
                        _ => None,
                    };
                    proof {
                        if hinted {
                            match t.element {
                                TermElement::Expression(e) => {
                                    let el = expr_tokens(e).len() as int;
                                    assert(xs =~= sym('(') + expr_tokens(e) + sym(')'));
                                    assert(xs.subrange(1, 1 + el) =~= expr_tokens(e));
                                    lemma_at_part(tokens@, i as int, xs, 1, 1 + el);
                                    assert(xs[1 + el] == TokenV::Symbol(')'));
                                    assert(token_values(tokens@)[i + 1 + el] == TokenV::Symbol(')'));
                                    assert(expr_at(tokens@, i + 1, e));
                                },
                                TermElement::Unary(op, inner) => {
                                    assert(xs[0] == TokenV::Symbol(op));
                                },
                                _ => {},
                            }
                        }
                    }
                    let (e, j) = self.parse_expression(tokens, i + 1, Ghost(sub))?;
                    let k = expect_symbol(tokens, j, ')')?;
                    proof {
                        lemma_join(tokens@, i as int, i + 1, j as int, sym('('), expr_tokens(e));
                        lemma_join(tokens@, i as int, j as int, k as int, sym('(') + expr_tokens(e), sym(')'));
                    }
                    Ok((TermNode { element: TermElement::Expression(e) }, k))
                } else if *c == '-' || *c == '~' {
                    let ghost sub: Option<TermNode> = match t.element {
                        TermElement::Unary(_, inner) => Some(*inner),
                        _ => None,
                    };
                    proof {
                        if hinted {
                            match t.element {
                                TermElement::Unary(op, inner) => {
                                    let il = term_tokens(*inner).len() as int;
                                    assert(xs.subrange(1, 1 + il) =~= term_tokens(*inner));
                                    lemma_at_part(tokens@, i as int, xs, 1, 1 + il);
                                },
                                TermElement::Expression(e) => {
                                    assert(xs[0] == TokenV::Symbol('('));
                                },
                                _ => {},
                            }
                        }
                    }
                    let (inner, j) = self.parse_term(tokens, i + 1, Ghost(sub))?;
                    proof {
                        lemma_join(tokens@, i as int, i + 1, j as int, sym(*c), term_tokens(inner));
                    }
                    Ok((TermNode { element: TermElement::Unary(*c, Box::new(inner)) }, j))
                } else {
                    proof {
                        if hinted {
                            match t.element {
                                TermElement::Expression(e) => {
                                    assert(xs[0] == TokenV::Symbol('('));
                                },
                                TermElement::Unary(op, inner) => {
                                    assert(xs[0] == TokenV::Symbol(op));
                                },
                                TermElement::IndexedIdentifier(n, e) => {
                                    assert(xs[0] == TokenV::Ident(n@));
                                },
                                TermElement::SubroutineCall(cl) => {
                                    lemma_call_shape(cl);
                                    assert(xs == call_tokens(cl));
                                },
                                _ => {},
                            }
                        }
                    }
                    Err(ParseError { token_index: i })
                }
            },
        }
    }

    fn parse_expression(&self, tokens: &Vec<TokenWrapper>, i: usize, hint: Ghost<Option<ExpressionNode>>) -> (r: Result<(ExpressionNode, usize), ParseError>)
        requires
            i <= tokens@.len(),
        ensures
            r is Ok ==> wf_expr(r->Ok_0.0),
            r is Ok ==> i < r->Ok_0.1 && covers(tokens@, i as int, r->Ok_0.1 as int, expr_tokens(r->Ok_0.0)),
            hint@ is Some && expr_at(tokens@, i as int, hint@->0) ==> r is Ok && r->Ok_0.1 == i
                + expr_tokens(hint@->0).len(),
        decreases tokens@.len() - i, 2int,
    {
        let ghost hinted = hint@ is Some && expr_at(tokens@, i as int, hint@->0);
        let ghost he = hint@->0;
        let ghost hs = he.elements@;
        let ghost all = expr_tokens(he);
        proof {
            if hinted {
                lemma_wf_elements_prefix(hs, hs.len() as int);
                lemma_elements_one(hs);
                lemma_step_tokens(tokens@, i as int, hs, 0);
            }
        }
        let ghost first: Option<TermNode> = if hinted { Some(hs[0]->Term_0) } else { None };
        let (t, mut j) = self.parse_term(tokens, i, Ghost(first))?;
        let ghost t0 = t;
        let mut elements: Vec<ExpressionElement> = Vec::new();
        elements.push(ExpressionElement::Term(t));
        proof {
            assert(elements@.subrange(0, 0) =~= Seq::<ExpressionElement>::empty());
            assert(elements@[0] == ExpressionElement::Term(t0));
            assert(elements_tokens(elements@.subrange(0, 0)) == Seq::<TokenV>::empty());
            assert(elements_tokens(elements@) =~= term_tokens(t0));
            assert(wf_elements(elements@.subrange(0, 0)));
        }
        let ghost mut k: int = 1;
        loop
            invariant
                i < j <= tokens@.len(),
                covers(tokens@, i as int, j as int, elements_tokens(elements@)),
                hinted ==> 1 <= k <= hs.len() && k % 2 == 1 && j == i + elements_tokens(hs.take(k)).len(),
                hinted == (hint@ is Some && expr_at(tokens@, i as int, hint@->0)),
                he == hint@->0,
                hs == he.elements@,
                hinted ==> wf_elements(hs) && hs.len() % 2 == 1,
                wf_elements(elements@) && elements@.len() % 2 == 1,
            ensures
                i < j <= tokens@.len(),
                covers(tokens@, i as int, j as int, elements_tokens(elements@)),
                wf_elements(elements@) && elements@.len() % 2 == 1,
                hinted ==> j == i + expr_tokens(he).len(),
            decreases tokens@.len() - j,
        {
            proof {
                if hinted {
                    lemma_wf_elements_prefix(hs, hs.len() as int);
                    lemma_elements_prefix(hs, k);
                    if k < hs.len() {
                        lemma_step_tokens(tokens@, i as int, hs, k);
                    } else {
                        assert(hs.take(k) == hs);
                    }
                }
            }
            match self.operator_at(tokens, j) {
                Some(op) => {
                    let ghost next: Option<TermNode> = if hinted { Some(hs[k + 1]->Term_0) } else { None };
                    let (t, m) = self.parse_term(tokens, j + 1, Ghost(next))?;
                    let ghost before = elements@;
                    let ghost tt = t;
                    elements.push(ExpressionElement::Operator(op));
                    let ghost mid = elements@;
                    elements.push(ExpressionElement::Term(t));
                    proof {
                        lemma_one(tokens@, j as int);
                        assert(mid.subrange(0, mid.len() - 1) == before);
                        assert(elements@.subrange(0, elements@.len() - 1) == mid);
                        assert(mid[mid.len() - 1] == ExpressionElement::Operator(op));
                        assert(elements@[elements@.len() - 1] == ExpressionElement::Term(tt));
                        assert(elements_tokens(mid) == elements_tokens(before) + sym(op));
                        assert(elements_tokens(elements@) == elements_tokens(mid) + term_tokens(tt));
                        assert(wf_elements(mid));
                        assert(wf_elements(elements@));
                        lemma_join(tokens@, i as int, j as int, j + 1, elements_tokens(before), sym(op));
                        lemma_join(tokens@, i as int, j + 1, m as int, elements_tokens(before) + sym(op), term_tokens(tt));
                        if hinted {
                            lemma_elements_two(hs, k);
                            k = k + 2;
                        }
                    }
                    j = m;
                },
                None => {
                    proof {
                        if hinted {
                            assert(k == hs.len());
                            assert(hs.take(k) =~= hs);
                        }
                    }
                    break;
                },
            }
        }
        Ok((ExpressionNode { elements }, j))
    }

    /// Expressions separated by commas, up to (not including) the closing bracket.
    fn parse_expression_list(&self, tokens: &Vec<TokenWrapper>, i: usize, hint: Ghost<Option<Seq<ExpressionNode>>>) -> (r: Result<(Vec<ExpressionNode>, usize), ParseError>)
        requires
            i <= tokens@.len(),
        ensures
            r is Ok ==> wf_exprs(r->Ok_0.0@),
            r is Ok ==> covers(tokens@, i as int, r->Ok_0.1 as int, exprs_tokens(r->Ok_0.0@)),
            hint@ is Some && wf_exprs(hint@->0) && at(tokens@, i as int, exprs_tokens(hint@->0))
                && is_symbol_token(tokens@, i + exprs_tokens(hint@->0).len(), ')') ==> r is Ok
                && r->Ok_0.1 == i + exprs_tokens(hint@->0).len(),
        decreases tokens@.len() - i, 3int,
    {
        let ghost hinted = hint@ is Some && wf_exprs(hint@->0) && at(tokens@, i as int, exprs_tokens(hint@->0))
            && is_symbol_token(tokens@, i + exprs_tokens(hint@->0).len(), ')');
        let ghost hs = hint@->0;
        let mut list: Vec<ExpressionNode> = Vec::new();
        if is_symbol_at(tokens, i, ')') {
            proof {
                lemma_empty(tokens@, i as int);
                if hinted && hs.len() > 0 {
                    lemma_exprs_first(hs);
                    lemma_at_part(tokens@, i as int, exprs_tokens(hs), 0, 1);
                }
            }
            return Ok((list, i));
        }
        proof {
            if hinted {
                if hs.len() == 0 {
                    assert(exprs_tokens(hs).len() == 0);
                }
                lemma_list_step(tokens@, i as int, hs, 0);
            }
        }
        let ghost first: Option<ExpressionNode> = if hinted { Some(hs[0]) } else { None };
        let (e, mut j) = self.parse_expression(tokens, i, Ghost(first))?;
        list.push(e);
        assert(exprs_tokens(list@) == expr_tokens(list@[0]));
        assert(list@.subrange(0, 0) =~= Seq::<ExpressionNode>::empty());
        assert(wf_exprs(list@.subrange(0, 0)));
        assert(wf_expr(list@[0]));
        assert(wf_exprs(list@));
        let ghost mut k: int = 1;
        proof {
            if hinted {
                assert(hs.take(1) =~= seq![hs[0]]);
            }
        }
        while is_symbol_at(tokens, j, ',')
            invariant
                i < j <= tokens@.len(),
                list@.len() >= 1,
                covers(tokens@, i as int, j as int, exprs_tokens(list@)),
                hinted == (hint@ is Some && wf_exprs(hint@->0) && at(tokens@, i as int, exprs_tokens(hint@->0))
                    && is_symbol_token(tokens@, i + exprs_tokens(hint@->0).len(), ')')),
                hs == hint@->0,
                hinted ==> 1 <= k <= hs.len() && j == i + exprs_tokens(hs.take(k)).len(),
                wf_exprs(list@),
            decreases tokens@.len() - j,
        {
            proof {
                if hinted {
                    if k < hs.len() {
                        lemma_list_step(tokens@, i as int, hs, k);
                    } else {
                        assert(hs.take(k) == hs);
                    }
                }
            }
            let ghost next: Option<ExpressionNode> = if hinted { Some(hs[k]) } else { None };
            let (e, m) = self.parse_expression(tokens, j + 1, Ghost(next))?;
            let ghost before = list@;
            let ghost ee = e;
            list.push(e);
            proof {
                lemma_one(tokens@, j as int);
                assert(list@.subrange(0, list@.len() - 1) == before);
                assert(wf_exprs(list@));
                lemma_join(tokens@, i as int, j as int, j + 1, exprs_tokens(before), sym(','));
                lemma_join(tokens@, i as int, j + 1, m as int, exprs_tokens(before) + sym(','), expr_tokens(ee));
                if hinted {
                    assert(hs.take(k + 1).subrange(0, k) == hs.take(k));
                    k = k + 1;
                }
            }
            j = m;
        }
        proof {
            if hinted && k < hs.len() {
                lemma_list_step(tokens@, i as int, hs, k);
            }
            if hinted {
                assert(hs.take(k) == hs);
            }
        }
        Ok((list, j))
    }

    /// name `(` expressionList `)` or caller `.` name `(` expressionList `)`
    fn parse_subroutine_call(&self, tokens: &Vec<TokenWrapper>, i: usize, hint: Ghost<Option<SubroutineCallNode>>) -> (r: Result<(SubroutineCallNode, usize), ParseError>)
        requires
            i <= tokens@.len(),
        ensures
            r is Ok ==> wf_exprs(r->Ok_0.0.expression_list@),
            r is Ok ==> i < r->Ok_0.1 && covers(tokens@, i as int, r->Ok_0.1 as int, call_tokens(r->Ok_0.0)),
            hint@ is Some && wf_exprs(hint@->0.expression_list@) && at(tokens@, i as int, call_tokens(hint@->0))
                ==> r is Ok && r->Ok_0.1 == i + call_tokens(hint@->0).len(),
        decreases tokens@.len() - i, 0int,
    {
        let ghost hinted = hint@ is Some && wf_exprs(hint@->0.expression_list@) && at(tokens@, i as int, call_tokens(hint@->0));
        let ghost hc = hint@->0;
        let ghost xs = call_tokens(hc);
        let ghost head: Seq<TokenV> = match hc.caller {
            Some(x) => ident(x@) + sym('.'),
            None => Seq::empty(),
        };
        let ghost args = exprs_tokens(hc.expression_list@);
        proof {
            if hinted {
                lemma_call_shape(hc);
                lemma_at_part(tokens@, i as int, xs, 0, xs.len() as int);
                let hl = head.len() as int;
                lemma_at_part(tokens@, i as int, xs, hl + 2, hl + 2 + args.len());
            }
        }
        let (first, j) = identifier_at(tokens, i)?;
        let caller: Option<String>;
        let name: String;
        let mut p = j;
        let ghost mut head_parsed: Seq<TokenV> = Seq::empty();
        if is_symbol_at(tokens, j, '.') {
            proof { lemma_one(tokens@, j as int); }
            let (second, k) = identifier_at(tokens, j + 1)?;
            proof {
                lemma_join(tokens@, i as int, j as int, j + 1, ident(first@), sym('.'));
                lemma_join(tokens@, i as int, j + 1, k as int, ident(first@) + sym('.'), ident(second@));
                head_parsed = ident(first@) + sym('.');
            }
            caller = Some(first);
            name = second;
            p = k;
        } else {
            caller = None;
            name = first;
            proof {
                assert(head_parsed + ident(name@) =~= ident(name@));
            }
        }
        assert(covers(tokens@, i as int, p as int, head_parsed + ident(name@)));
        assert(hinted ==> p == i + head.len() + 1);
        let q = expect_symbol(tokens, p, '(')?;
        let ghost sub: Option<Seq<ExpressionNode>> = if hinted { Some(hc.expression_list@) } else { None };
        let (args_parsed, e) = self.parse_expression_list(tokens, q, Ghost(sub))?;
        let f = expect_symbol(tokens, e, ')')?;
        proof {
            lemma_join(tokens@, i as int, p as int, q as int, head_parsed + ident(name@), sym('('));
            lemma_join(tokens@, i as int, q as int, e as int, head_parsed + ident(name@) + sym('('), exprs_tokens(args_parsed@));
            lemma_join(tokens@, i as int, e as int, f as int, head_parsed + ident(name@) + sym('(') + exprs_tokens(args_parsed@), sym(')'));
        }
        let c = SubroutineCallNode { subroutine_name: name, expression_list: args_parsed, caller };
        assert(call_tokens(c) == head_parsed + ident(name@) + sym('(') + exprs_tokens(args_parsed@) + sym(')'));
        Ok((c, f))
    }

    /// A type: `int`, `char`, `boolean` or a class name.
    fn parse_type(&self, tokens: &Vec<TokenWrapper>, i: usize) -> (r: Result<(VarType, usize), ParseError>)
        requires
            i <= tokens@.len(),
        ensures
            r is Ok ==> r->Ok_0.1 == i + 1 && covers(tokens@, i as int, i + 1, type_tokens(r->Ok_0.0)),
            forall|t: VarType| #[trigger] at(tokens@, i as int, type_tokens(t)) ==> r is Ok,
    {
        if i >= tokens.len() {
            proof {
                assert forall|t: VarType| #[trigger] at(tokens@, i as int, type_tokens(t)) implies false by {
                    assert(type_tokens(t).len() == 1);
                }
            }
            return Err(ParseError { token_index: i });
        }
        proof { lemma_one(tokens@, i as int); }
        match &tokens[i].token {
            Token::Keyword(Keyword::Int) => Ok((VarType::Int, i + 1)),
            Token::Keyword(Keyword::Char) => Ok((VarType::Char, i + 1)),
            Token::Keyword(Keyword::Boolean) => Ok((VarType::Boolean, i + 1)),
            Token::Identifier(name) => Ok((VarType::ClassName(name.clone()), i + 1)),
            _ => {
                proof {
                    assert forall|t: VarType| #[trigger] at(tokens@, i as int, type_tokens(t)) implies false by {
                        lemma_at_one(tokens@, i as int, type_tokens(t)[0]);
                        assert(type_tokens(t) =~= seq![type_tokens(t)[0]]);
                    }
                }
                Err(ParseError { token_index: i })
            },
        }
    }

    /// Names separated by commas.
    fn parse_names(&self, tokens: &Vec<TokenWrapper>, i: usize, hint: Ghost<Option<Seq<String>>>) -> (r: Result<(Vec<String>, usize), ParseError>)
        requires
            i <= tokens@.len(),
        ensures
            r is Ok ==> r->Ok_0.0@.len() >= 1,
            r is Ok ==> i < r->Ok_0.1 && covers(tokens@, i as int, r->Ok_0.1 as int, names_tokens(r->Ok_0.0@)),
            hint@ is Some && hint@->0.len() >= 1 && at(tokens@, i as int, names_tokens(hint@->0))
                && !is_symbol_token(tokens@, i + names_tokens(hint@->0).len(), ',') ==> r is Ok
                && r->Ok_0.1 == i + names_tokens(hint@->0).len(),
    {
        let ghost hinted = hint@ is Some && hint@->0.len() >= 1 && at(tokens@, i as int, names_tokens(hint@->0))
            && !is_symbol_token(tokens@, i + names_tokens(hint@->0).len(), ',');
        let ghost hn = hint@->0;
        proof {
            if hinted {
                lemma_names_shape(hn);
                lemma_at_part(tokens@, i as int, names_tokens(hn), 0, names_tokens(hn).len() as int);
                assert(names_tokens(hn)[0] == TokenV::Ident(hn[0]@));
            }
        }
        let (first, mut j) = identifier_at(tokens, i)?;
        let mut names: Vec<String> = Vec::new();
        names.push(first);
        let ghost mut k: int = 1;
        while is_symbol_at(tokens, j, ',')
            invariant
                i < j <= tokens@.len(),
                names@.len() >= 1,
                covers(tokens@, i as int, j as int, names_tokens(names@)),
                hinted == (hint@ is Some && hint@->0.len() >= 1 && at(tokens@, i as int, names_tokens(hint@->0))
                    && !is_symbol_token(tokens@, i + names_tokens(hint@->0).len(), ',')),
                hn == hint@->0,
                hinted ==> 1 <= k <= hn.len() && j == i + 2 * k - 1,
                hinted ==> names_tokens(hn).len() == 2 * hn.len() - 1,
                hinted ==> forall|m: int| 0 <= m < names_tokens(hn).len() ==> token_values(tokens@)[i + m] == names_tokens(hn)[m],
            decreases tokens@.len() - j,
        {
            proof {
                if hinted {
                    lemma_names_shape(hn);
                    assert(names_tokens(hn)[2 * k] == TokenV::Ident(hn[k]@));
                }
            }
            let (name, m) = identifier_at(tokens, j + 1)?;
            let ghost before = names@;
            names.push(name);
            proof {
                lemma_one(tokens@, j as int);
                assert(names@.drop_last() == before);
                lemma_join(tokens@, i as int, j as int, j + 1, names_tokens(before), sym(','));
                lemma_join(tokens@, i as int, j + 1, m as int, names_tokens(before) + sym(','), ident(names@.last()@));
                if hinted {
                    k = k + 1;
                }
            }
            j = m;
        }
        proof {
            if hinted && k < hn.len() {
                lemma_names_shape(hn);
                assert(names_tokens(hn)[2 * k - 1] == TokenV::Symbol(','));
            }
        }
        Ok((names, j))
    }

    /// `var` type varName (`,` varName)* `;`
    fn parse_variable_declaration(&self, tokens: &Vec<TokenWrapper>, i: usize, hint: Ghost<Option<VarNode>>) -> (r: Result<(VarNode, usize), ParseError>)
        requires
            i <= tokens@.len(),
        ensures
            r is Ok ==> r->Ok_0.0.var_names@.len() >= 1,
            r is Ok ==> i < r->Ok_0.1 && covers(tokens@, i as int, r->Ok_0.1 as int, var_dec_tokens(r->Ok_0.0))
                && r->Ok_0.0.var_kind == VarKind::Var,
            hint@ is Some && hint@->0.var_names@.len() >= 1 && at(tokens@, i as int, var_dec_tokens(hint@->0))
                ==> r is Ok && r->Ok_0.1 == i + var_dec_tokens(hint@->0).len(),
    {
        let ghost hinted = hint@ is Some && hint@->0.var_names@.len() >= 1 && at(tokens@, i as int, var_dec_tokens(hint@->0));
        let ghost hv = hint@->0;
        let ghost nt = names_tokens(hv.var_names@);
        proof {
            if hinted {
                let tt = type_tokens(hv.var_type);
                assert(tt.len() == 1);
                lemma_at_concat(tokens@, i as int, kw(Keyword::Var) + tt + nt, sym(';'));
                lemma_at_concat(tokens@, i as int, kw(Keyword::Var) + tt, nt);
                lemma_at_concat(tokens@, i as int, kw(Keyword::Var), tt);
                lemma_at_one(tokens@, i as int, TokenV::Keyword(Keyword::Var));
                lemma_at_one(tokens@, i + 2 + nt.len(), TokenV::Symbol(';'));
            }
        }
        let j = expect_keyword(tokens, i, Keyword::Var)?;
        let (var_type, k) = self.parse_type(tokens, j)?;
        let ghost sn = if hinted { Some(hv.var_names@) } else { None };
        let (var_names, m) = self.parse_names(tokens, k, Ghost(sn))?;
        let e = expect_symbol(tokens, m, ';')?;
        proof {
            lemma_join(tokens@, i as int, j as int, k as int, kw(Keyword::Var), type_tokens(var_type));
            lemma_join(tokens@, i as int, k as int, m as int, kw(Keyword::Var) + type_tokens(var_type), names_tokens(var_names@));
            lemma_join(tokens@, i as int, m as int, e as int, kw(Keyword::Var) + type_tokens(var_type) + names_tokens(var_names@), sym(';'));
        }
        Ok((VarNode { var_names, var_kind: VarKind::Var, var_type, class_var: false }, e))
    }

    /// (`static` | `field`) type varName (`,` varName)* `;`
    fn parse_class_variable_declaration(&self, tokens: &Vec<TokenWrapper>, i: usize, hint: Ghost<Option<ClassVarNode>>) -> (r: Result<(ClassVarNode, usize), ParseError>)
        requires
            i <= tokens@.len(),
        ensures
            r is Ok ==> r->Ok_0.0.names@.len() >= 1,
            r is Ok ==> i < r->Ok_0.1 && covers(tokens@, i as int, r->Ok_0.1 as int, class_var_tokens(r->Ok_0.0)),
            hint@ is Some && hint@->0.names@.len() >= 1 && at(tokens@, i as int, class_var_tokens(hint@->0))
                ==> r is Ok && r->Ok_0.1 == i + class_var_tokens(hint@->0).len(),
    {
        let ghost hinted = hint@ is Some && hint@->0.names@.len() >= 1 && at(tokens@, i as int, class_var_tokens(hint@->0));
        let ghost hv = hint@->0;
        let ghost nt = names_tokens(hv.names@);
        let ghost hk = if hv.var_kind == VarKind::Static { Keyword::Static } else { Keyword::Field };
        proof {
            if hinted {
                let tt = type_tokens(hv.var_type);
                assert(tt.len() == 1);
                lemma_at_concat(tokens@, i as int, kw(hk) + tt + nt, sym(';'));
                lemma_at_concat(tokens@, i as int, kw(hk) + tt, nt);
                lemma_at_concat(tokens@, i as int, kw(hk), tt);
                lemma_at_one(tokens@, i as int, TokenV::Keyword(hk));
                lemma_at_one(tokens@, i + 2 + nt.len(), TokenV::Symbol(';'));
            }
        }
        let var_kind = if is_keyword_at(tokens, i, Keyword::Static) {
            VarKind::Static
        } else if is_keyword_at(tokens, i, Keyword::Field) {
            VarKind::Field
        } else {
            return Err(ParseError { token_index: i });
        };
        let ghost k0 = if var_kind == VarKind::Static { Keyword::Static } else { Keyword::Field };
        proof { lemma_one(tokens@, i as int); }
        let j = i + 1;
        let (var_type, k) = self.parse_type(tokens, j)?;
        let ghost sn = if hinted { Some(hv.names@) } else { None };
        let (names, m) = self.parse_names(tokens, k, Ghost(sn))?;
        let e = expect_symbol(tokens, m, ';')?;
        proof {
            lemma_join(tokens@, i as int, j as int, k as int, kw(k0), type_tokens(var_type));
            lemma_join(tokens@, i as int, k as int, m as int, kw(k0) + type_tokens(var_type), names_tokens(names@));
            lemma_join(tokens@, i as int, m as int, e as int, kw(k0) + type_tokens(var_type) + names_tokens(names@), sym(';'));
        }
        Ok((ClassVarNode { names, var_kind, var_type }, e))
    }

    /// ((type varName) (`,` type varName)*)?, up to the closing bracket.
    fn parse_parameter_list(&self, tokens: &Vec<TokenWrapper>, i: usize, hint: Ghost<Option<Seq<ParameterNode>>>) -> (r: Result<(ParameterListNode, usize), ParseError>)
        requires
            i <= tokens@.len(),
        ensures
            r is Ok ==> covers(tokens@, i as int, r->Ok_0.1 as int, params_tokens(r->Ok_0.0.parameters@)),
            hint@ is Some && at(tokens@, i as int, params_tokens(hint@->0))
                && is_symbol_token(tokens@, i + params_tokens(hint@->0).len(), ')') ==> r is Ok
                && r->Ok_0.1 == i + params_tokens(hint@->0).len(),
    {
        let ghost hinted = hint@ is Some && at(tokens@, i as int, params_tokens(hint@->0))
            && is_symbol_token(tokens@, i + params_tokens(hint@->0).len(), ')');
        let ghost hp = hint@->0;
        let ghost pt = params_tokens(hp);
        proof {
            if hinted && hp.len() >= 1 {
                lemma_params_shape(hp);
                lemma_at_part(tokens@, i as int, pt, 0, pt.len() as int);
                assert(pt[0] == type_tokens(hp[0].var_type)[0]);
                assert(pt[1] == TokenV::Ident(hp[0].name@));
                assert(type_tokens(hp[0].var_type) =~= seq![pt[0]]);
                assert(at(tokens@, i as int, type_tokens(hp[0].var_type))) by {
                    lemma_at_part(tokens@, i as int, pt, 0, 1);
                    assert(pt.subrange(0, 1) =~= seq![pt[0]]);
                }
                assert(token_values(tokens@)[i + 1] == pt[1]);
            }
        }
        let mut parameters: Vec<ParameterNode> = Vec::new();
        if is_symbol_at(tokens, i, ')') {
            proof { lemma_empty(tokens@, i as int); }
            return Ok((ParameterListNode { parameters }, i));
        }
        let (var_type, j) = self.parse_type(tokens, i)?;
        let (name, mut k) = identifier_at(tokens, j)?;
        proof {
            lemma_join(tokens@, i as int, j as int, k as int, type_tokens(var_type), ident(name@));
        }
        parameters.push(ParameterNode { name, var_type });
        let ghost mut n: int = 1;
        while is_symbol_at(tokens, k, ',')
            invariant
                i < k <= tokens@.len(),
                parameters@.len() >= 1,
                covers(tokens@, i as int, k as int, params_tokens(parameters@)),
                hinted == (hint@ is Some && at(tokens@, i as int, params_tokens(hint@->0))
                    && is_symbol_token(tokens@, i + params_tokens(hint@->0).len(), ')')),
                hp == hint@->0,
                pt == params_tokens(hp),
                hinted ==> 1 <= n <= hp.len() && k == i + 3 * n - 1 && pt.len() == 3 * hp.len() - 1,
                hinted ==> forall|m: int| 0 <= m < pt.len() ==> token_values(tokens@)[i + m] == pt[m],
            decreases tokens@.len() - k,
        {
            proof {
                if hinted {
                    lemma_params_shape(hp);
                    if n < hp.len() {
                        assert(pt[3 * n] == type_tokens(hp[n].var_type)[0]);
                        assert(pt[3 * n + 1] == TokenV::Ident(hp[n].name@));
                        assert(type_tokens(hp[n].var_type) =~= seq![pt[3 * n]]);
                        assert(token_values(tokens@)[i + 3 * n] == pt[3 * n]);
                        assert(token_values(tokens@)[i + 3 * n + 1] == pt[3 * n + 1]);
                        assert(token_values(tokens@).subrange(k + 1, k + 2) =~= seq![pt[3 * n]]);
                        assert(at(tokens@, k + 1, type_tokens(hp[n].var_type)));
                    }
                }
            }
            let (var_type, m) = self.parse_type(tokens, k + 1)?;
            let (name, e) = identifier_at(tokens, m)?;
            let ghost before = parameters@;
            proof {
                lemma_one(tokens@, k as int);
                lemma_join(tokens@, i as int, k as int, k + 1, params_tokens(before), sym(','));
                lemma_join(tokens@, i as int, k + 1, m as int, params_tokens(before) + sym(','), type_tokens(var_type));
                lemma_join(tokens@, i as int, m as int, e as int, params_tokens(before) + sym(',') + type_tokens(var_type), ident(name@));
            }
            parameters.push(ParameterNode { name, var_type });
            assert(parameters@.drop_last() == before);
            proof {
                if hinted {
                    n = n + 1;
                }
            }
            k = e;
        }
        proof {
            if hinted && n < hp.len() {
                lemma_params_shape(hp);
                assert(pt[3 * n - 1] == TokenV::Symbol(','));
            }
        }
        Ok((ParameterListNode { parameters }, k))
    }

    fn is_statement(&self, tokens: &Vec<TokenWrapper>, i: usize) -> (r: bool)
        ensures
            r == (i < tokens@.len() && (token_values(tokens@)[i as int] == TokenV::Keyword(Keyword::Let)
                || token_values(tokens@)[i as int] == TokenV::Keyword(Keyword::If)
                || token_values(tokens@)[i as int] == TokenV::Keyword(Keyword::While)
                || token_values(tokens@)[i as int] == TokenV::Keyword(Keyword::Do)
                || token_values(tokens@)[i as int] == TokenV::Keyword(Keyword::Return))),
    {
        is_keyword_at(tokens, i, Keyword::Let) || is_keyword_at(tokens, i, Keyword::If)
            || is_keyword_at(tokens, i, Keyword::While) || is_keyword_at(tokens, i, Keyword::Do)
            || is_keyword_at(tokens, i, Keyword::Return)
    }

    /// The statements from `i` on, up to the first token that cannot begin one.
    fn parse_statements(&self, tokens: &Vec<TokenWrapper>, i: usize, hint: Ghost<Option<Seq<Statement>>>) -> (r: Result<(Vec<Statement>, usize), ParseError>)
        requires
            i <= tokens@.len(),
        ensures
            r is Ok ==> wf_stmts(r->Ok_0.0@),
            r is Ok ==> covers(tokens@, i as int, r->Ok_0.1 as int, stmts_tokens(r->Ok_0.0@)),
            hint@ is Some && stmts_at(tokens@, i as int, hint@->0) ==> r is Ok && r->Ok_0.1 == i
                + stmts_tokens(hint@->0).len(),
        decreases tokens@.len() - i, 5int,
    {
        let ghost hinted = hint@ is Some && stmts_at(tokens@, i as int, hint@->0);
        let ghost hs = hint@->0;
        let mut statements: Vec<Statement> = Vec::new();
        let mut j = i;
        let ghost mut k: int = 0;
        proof {
            lemma_empty(tokens@, i as int);
            assert(wf_stmts(statements@));
            if hinted {
                assert(hs.take(0) =~= Seq::<Statement>::empty());
            }
        }
        while self.is_statement(tokens, j)
            invariant
                i <= j <= tokens@.len(),
                covers(tokens@, i as int, j as int, stmts_tokens(statements@)),
                hinted == (hint@ is Some && stmts_at(tokens@, i as int, hint@->0)),
                hs == hint@->0,
                hinted ==> 0 <= k <= hs.len() && j == i + stmts_tokens(hs.take(k)).len(),
                wf_stmts(statements@),
            decreases tokens@.len() - j,
        {
            proof {
                if hinted {
                    lemma_stmts_step(tokens@, i as int, hs, k);
                }
            }
            let ghost next: Option<Statement> = if hinted { Some(hs[k]) } else { None };
            let (st, m) = self.parse_statement(tokens, j, Ghost(next))?;
            let ghost before = statements@;
            let ghost sv = st;
            statements.push(st);
            proof {
                assert(statements@.subrange(0, statements@.len() - 1) == before);
                assert(statements@[statements@.len() - 1] == sv);
                assert(wf_stmts(statements@));
                lemma_join(tokens@, i as int, j as int, m as int, stmts_tokens(before), stmt_tokens(sv));
                if hinted {
                    k = k + 1;
                }
            }
            j = m;
        }
        proof {
            if hinted {
                lemma_stmts_step(tokens@, i as int, hs, k);
                if k == hs.len() {
                    assert(hs.take(k) == hs);
                }
            }
        }
        Ok((statements, j))
    }

    /// `{` statement* `}`: the statements and the position after the closing bracket.
    fn parse_block(&self, tokens: &Vec<TokenWrapper>, i: usize, hint: Ghost<Option<Seq<Statement>>>) -> (r: Result<(Vec<Statement>, usize), ParseError>)
        requires
            i <= tokens@.len(),
        ensures
            r is Ok ==> wf_stmts(r->Ok_0.0@),
            r is Ok ==> i < r->Ok_0.1 && covers(tokens@, i as int, r->Ok_0.1 as int, sym('{') + stmts_tokens(r->Ok_0.0@) + sym('}')),
            hint@ is Some && wf_stmts(hint@->0) && at(tokens@, i as int, sym('{') + stmts_tokens(hint@->0) + sym('}'))
                ==> r is Ok && r->Ok_0.1 == i + 2 + stmts_tokens(hint@->0).len(),
        decreases tokens@.len() - i, 6int,
    {
        let ghost hinted = hint@ is Some && wf_stmts(hint@->0) && at(tokens@, i as int, sym('{') + stmts_tokens(hint@->0) + sym('}'));
        let ghost hs = hint@->0;
        proof {
            if hinted {
                let body = stmts_tokens(hs);
                lemma_at_concat(tokens@, i as int, sym('{') + body, sym('}'));
                lemma_at_concat(tokens@, i as int, sym('{'), body);
                lemma_at_one(tokens@, i as int, TokenV::Symbol('{'));
                lemma_at_one(tokens@, i + 1 + body.len(), TokenV::Symbol('}'));
            }
        }
        let j = expect_symbol(tokens, i, '{')?;
        let (statements, k) = self.parse_statements(tokens, j, hint)?;
        let e = expect_symbol(tokens, k, '}')?;
        proof {
            lemma_join(tokens@, i as int, j as int, k as int, sym('{'), stmts_tokens(statements@));
            lemma_join(tokens@, i as int, k as int, e as int, sym('{') + stmts_tokens(statements@), sym('}'));
        }
        Ok((statements, e))
    }

    /// `(` expression `)`
    fn parse_condition(&self, tokens: &Vec<TokenWrapper>, i: usize, hint: Ghost<Option<ExpressionNode>>) -> (r: Result<(ExpressionNode, usize), ParseError>)
        requires
            i <= tokens@.len(),
        ensures
            r is Ok ==> wf_expr(r->Ok_0.0),
            r is Ok ==> i < r->Ok_0.1 && covers(tokens@, i as int, r->Ok_0.1 as int, sym('(') + expr_tokens(r->Ok_0.0) + sym(')')),
            hint@ is Some && wf_expr(hint@->0) && at(tokens@, i as int, sym('(') + expr_tokens(hint@->0) + sym(')'))
                ==> r is Ok && r->Ok_0.1 == i + 2 + expr_tokens(hint@->0).len(),
    {
        let ghost hinted = hint@ is Some && wf_expr(hint@->0) && at(tokens@, i as int, sym('(') + expr_tokens(hint@->0) + sym(')'));
        let ghost he = hint@->0;
        proof {
            if hinted {
                let body = expr_tokens(he);
                lemma_at_concat(tokens@, i as int, sym('(') + body, sym(')'));
                lemma_at_concat(tokens@, i as int, sym('('), body);
                lemma_at_one(tokens@, i as int, TokenV::Symbol('('));
                lemma_at_one(tokens@, i + 1 + body.len(), TokenV::Symbol(')'));
            }
        }
        let j = expect_symbol(tokens, i, '(')?;
        let (e, k) = self.parse_expression(tokens, j, hint)?;
        let m = expect_symbol(tokens, k, ')')?;
        proof {
            lemma_join(tokens@, i as int, j as int, k as int, sym('('), expr_tokens(e));
            lemma_join(tokens@, i as int, k as int, m as int, sym('(') + expr_tokens(e), sym(')'));
        }
        Ok((e, m))
    }

    fn parse_statement(&self, tokens: &Vec<TokenWrapper>, i: usize, hint: Ghost<Option<Statement>>) -> (r: Result<(Statement, usize), ParseError>)
        requires
            i <= tokens@.len(),
        ensures
            r is Ok ==> wf_stmt(r->Ok_0.0),
            r is Ok ==> i < r->Ok_0.1 && covers(tokens@, i as int, r->Ok_0.1 as int, stmt_tokens(r->Ok_0.0)),
            hint@ is Some && stmt_at(tokens@, i as int, hint@->0) ==> r is Ok && r->Ok_0.1 == i
                + stmt_tokens(hint@->0).len(),
        decreases tokens@.len() - i, 4int,
    {
        let ghost hinted = hint@ is Some && stmt_at(tokens@, i as int, hint@->0);
        let ghost hst = hint@->0;
        proof {
            if hinted {
                lemma_stmt_first(hst);
                lemma_at_part(tokens@, i as int, stmt_tokens(hst), 0, 1);
            }
        }
        if is_keyword_at(tokens, i, Keyword::Let) {
            let ghost sub = match hst { Statement::Let(l) => Some(l), _ => None };
            let (l, j) = self.parse_let_statement(tokens, i, Ghost(if hinted { sub } else { None }))?;
            Ok((Statement::Let(l), j))
        } else if is_keyword_at(tokens, i, Keyword::If) {
            let ghost sub = match hst { Statement::If(n) => Some(n), _ => None };
            let (n, j) = self.parse_if_statement(tokens, i, Ghost(if hinted { sub } else { None }))?;
            Ok((Statement::If(n), j))
        } else if is_keyword_at(tokens, i, Keyword::While) {
            let ghost sub = match hst { Statement::While(w) => Some(w), _ => None };
            let (w, j) = self.parse_while_statement(tokens, i, Ghost(if hinted { sub } else { None }))?;
            Ok((Statement::While(w), j))
        } else if is_keyword_at(tokens, i, Keyword::Do) {
            let ghost sub = match hst { Statement::Do(d) => Some(d), _ => None };
            let (d, j) = self.parse_do_statement(tokens, i, Ghost(if hinted { sub } else { None }))?;
            Ok((Statement::Do(d), j))
        } else if is_keyword_at(tokens, i, Keyword::Return) {
            let ghost sub = match hst { Statement::Return(x) => Some(x), _ => None };
            let (x, j) = self.parse_return_statement(tokens, i, Ghost(if hinted { sub } else { None }))?;
            Ok((Statement::Return(x), j))
        } else {
            Err(ParseError { token_index: i })
        }
    }

    /// `let` varName (`[` expression `]`)? `=` expression `;`
    fn parse_let_statement(&self, tokens: &Vec<TokenWrapper>, i: usize, hint: Ghost<Option<LetStatementNode>>) -> (r: Result<(LetStatementNode, usize), ParseError>)
        requires
            i <= tokens@.len(),
        ensures
            r is Ok ==> wf_stmt(Statement::Let(r->Ok_0.0)),
            r is Ok ==> i < r->Ok_0.1 && covers(tokens@, i as int, r->Ok_0.1 as int, stmt_tokens(Statement::Let(r->Ok_0.0))),
            hint@ is Some && wf_stmt(Statement::Let(hint@->0)) && at(tokens@, i as int, stmt_tokens(Statement::Let(hint@->0)))
                ==> r is Ok && r->Ok_0.1 == i + stmt_tokens(Statement::Let(hint@->0)).len(),
    {
        let ghost hinted = hint@ is Some && wf_stmt(Statement::Let(hint@->0)) && at(tokens@, i as int, stmt_tokens(Statement::Let(hint@->0)));
        let ghost hl = hint@->0;
        let ghost hidx: Seq<TokenV> = match hl.lhs_expression {
            Some(e) => sym('[') + expr_tokens(e) + sym(']'),
            None => Seq::empty(),
        };
        let ghost rhs = expr_tokens(hl.rhs_expression);
        proof {
            if hinted {
                let h2 = kw(Keyword::Let) + ident(hl.var_name@);
                assert(stmt_tokens(Statement::Let(hl)) == h2 + hidx + sym('=') + rhs + sym(';'));
                lemma_at_concat(tokens@, i as int, h2 + hidx + sym('=') + rhs, sym(';'));
                lemma_at_concat(tokens@, i as int, h2 + hidx + sym('='), rhs);
                lemma_at_concat(tokens@, i as int, h2 + hidx, sym('='));
                lemma_at_concat(tokens@, i as int, h2, hidx);
                lemma_at_concat(tokens@, i as int, kw(Keyword::Let), ident(hl.var_name@));
                lemma_at_one(tokens@, i as int, TokenV::Keyword(Keyword::Let));
                lemma_at_one(tokens@, i + 1, TokenV::Ident(hl.var_name@));
                lemma_at_one(tokens@, i + 2 + hidx.len(), TokenV::Symbol('='));
                lemma_at_one(tokens@, i + 3 + hidx.len() + rhs.len(), TokenV::Symbol(';'));
                match hl.lhs_expression {
                    Some(e) => {
                        let el = expr_tokens(e);
                        lemma_at_concat(tokens@, i + 2, sym('[') + el, sym(']'));
                        lemma_at_concat(tokens@, i + 2, sym('['), el);
                        lemma_at_one(tokens@, i + 2, TokenV::Symbol('['));
                        lemma_at_one(tokens@, i + 3 + el.len(), TokenV::Symbol(']'));
                    },
                    None => {},
                }
            }
        }
        let j = expect_keyword(tokens, i, Keyword::Let)?;
        let (var_name, mut k) = identifier_at(tokens, j)?;
        let ghost head = kw(Keyword::Let) + ident(var_name@);
        proof { lemma_join(tokens@, i as int, j as int, k as int, kw(Keyword::Let), ident(var_name@)); }
        let mut lhs_expression: Option<ExpressionNode> = None;
        let ghost mut index_part: Seq<TokenV> = Seq::empty();
        if is_symbol_at(tokens, k, '[') {
            proof { lemma_one(tokens@, k as int); }
            let ghost sub = if hinted { hl.lhs_expression } else { None };
            let (e, m) = self.parse_expression(tokens, k + 1, Ghost(sub))?;
            let n = expect_symbol(tokens, m, ']')?;
            proof {
                lemma_join(tokens@, k as int, k + 1, m as int, sym('['), expr_tokens(e));
                lemma_join(tokens@, k as int, m as int, n as int, sym('[') + expr_tokens(e), sym(']'));
                lemma_join(tokens@, i as int, k as int, n as int, head, sym('[') + expr_tokens(e) + sym(']'));
                index_part = sym('[') + expr_tokens(e) + sym(']');
            }
            lhs_expression = Some(e);
            k = n;
        } else {
            assert(head + index_part =~= head);
        }
        assert(hinted ==> k == i + 2 + hidx.len());
        let p = expect_symbol(tokens, k, '=')?;
        let ghost sub = if hinted { Some(hl.rhs_expression) } else { None };
        let (rhs_expression, q) = self.parse_expression(tokens, p, Ghost(sub))?;
        let e = expect_symbol(tokens, q, ';')?;
        proof {
            lemma_join(tokens@, i as int, k as int, p as int, head + index_part, sym('='));
            lemma_join(tokens@, i as int, p as int, q as int, head + index_part + sym('='), expr_tokens(rhs_expression));
            lemma_join(tokens@, i as int, q as int, e as int, head + index_part + sym('=') + expr_tokens(rhs_expression), sym(';'));
        }
        let l = LetStatementNode { var_name, lhs_expression, rhs_expression };
        assert(stmt_tokens(Statement::Let(l)) == head + index_part + sym('=') + expr_tokens(l.rhs_expression) + sym(';'));
        Ok((l, e))
    }

    /// `if` `(` expression `)` `{` statement* `}` (`else` `{` statement* `}`)?
    #[verifier::rlimit(60)]
    fn parse_if_statement(&self, tokens: &Vec<TokenWrapper>, i: usize, hint: Ghost<Option<IfStatementNode>>) -> (r: Result<(IfStatementNode, usize), ParseError>)
        requires
            i <= tokens@.len(),
        ensures
            r is Ok ==> wf_stmt(Statement::If(r->Ok_0.0)),
            r is Ok ==> i < r->Ok_0.1 && covers(tokens@, i as int, r->Ok_0.1 as int, stmt_tokens(Statement::If(r->Ok_0.0))),
            hint@ is Some && stmt_at(tokens@, i as int, Statement::If(hint@->0))
                ==> r is Ok && r->Ok_0.1 == i + stmt_tokens(Statement::If(hint@->0)).len(),
        decreases tokens@.len() - i, 3int,
    {
        let ghost hinted = hint@ is Some && stmt_at(tokens@, i as int, Statement::If(hint@->0));
        let ghost hn = hint@->0;
        let ghost cond = sym('(') + expr_tokens(hn.condition) + sym(')');
        let ghost block = sym('{') + stmts_tokens(hn.if_block@) + sym('}');
        let ghost tail: Seq<TokenV> = match hn.else_block {
            Some(b) => kw(Keyword::Else) + (sym('{') + stmts_tokens(b@) + sym('}')),
            None => Seq::empty(),
        };
        proof {
            if hinted {
                assert(stmt_tokens(Statement::If(hn)) =~= kw(Keyword::If) + cond + block + tail);
                lemma_at_concat(tokens@, i as int, kw(Keyword::If) + cond + block, tail);
                lemma_at_concat(tokens@, i as int, kw(Keyword::If) + cond, block);
                lemma_at_concat(tokens@, i as int, kw(Keyword::If), cond);
                lemma_at_one(tokens@, i as int, TokenV::Keyword(Keyword::If));
                match hn.else_block {
                    Some(b) => {
                        let p = i + 1 + cond.len() + block.len();
                        lemma_at_concat(tokens@, p, kw(Keyword::Else), sym('{') + stmts_tokens(b@) + sym('}'));
                        lemma_at_one(tokens@, p, TokenV::Keyword(Keyword::Else));
                    },
                    None => {},
                }
            }
        }
        let j = expect_keyword(tokens, i, Keyword::If)?;
        let ghost sc = if hinted { Some(hn.condition) } else { None };
        let (condition, k) = self.parse_condition(tokens, j, Ghost(sc))?;
        let ghost sb = if hinted { Some(hn.if_block@) } else { None };
        let (if_block, m) = self.parse_block(tokens, k, Ghost(sb))?;
        let ghost head = kw(Keyword::If) + (sym('(') + expr_tokens(condition) + sym(')')) + (sym('{') + stmts_tokens(if_block@) + sym('}'));
        proof {
            lemma_join(tokens@, i as int, j as int, k as int, kw(Keyword::If), sym('(') + expr_tokens(condition) + sym(')'));
            lemma_join(tokens@, i as int, k as int, m as int, kw(Keyword::If) + (sym('(') + expr_tokens(condition) + sym(')')), sym('{') + stmts_tokens(if_block@) + sym('}'));
        }
        assert(hinted ==> m == i + 1 + cond.len() + block.len());
        if is_keyword_at(tokens, m, Keyword::Else) {
            proof { lemma_one(tokens@, m as int); }
            let ghost se = if hinted { match hn.else_block { Some(b) => Some(b@), None => None } } else { None };
            let (else_block, e) = self.parse_block(tokens, m + 1, Ghost(se))?;
            proof {
                lemma_join(tokens@, i as int, m as int, m + 1, head, kw(Keyword::Else));
                lemma_join(tokens@, i as int, m + 1, e as int, head + kw(Keyword::Else), sym('{') + stmts_tokens(else_block@) + sym('}'));
            }
            let n = IfStatementNode { condition, if_block, else_block: Some(else_block) };
            assert(stmt_tokens(Statement::If(n)) =~= head + kw(Keyword::Else) + (sym('{') + stmts_tokens(n.else_block->0@) + sym('}')));
            assert(hinted ==> e == i + stmt_tokens(Statement::If(hn)).len());
            Ok((n, e))
        } else {
            let n = IfStatementNode { condition, if_block, else_block: None };
            assert(stmt_tokens(Statement::If(n)) =~= head);
            assert(hinted ==> m == i + stmt_tokens(Statement::If(hn)).len());
            Ok((n, m))
        }
    }

    /// `while` `(` expression `)` `{` statement* `}`
    fn parse_while_statement(&self, tokens: &Vec<TokenWrapper>, i: usize, hint: Ghost<Option<WhileStatementNode>>) -> (r: Result<(WhileStatementNode, usize), ParseError>)
        requires
            i <= tokens@.len(),
        ensures
            r is Ok ==> wf_stmt(Statement::While(r->Ok_0.0)),
            r is Ok ==> i < r->Ok_0.1 && covers(tokens@, i as int, r->Ok_0.1 as int, stmt_tokens(Statement::While(r->Ok_0.0))),
            hint@ is Some && wf_stmt(Statement::While(hint@->0)) && at(tokens@, i as int, stmt_tokens(Statement::While(hint@->0)))
                ==> r is Ok && r->Ok_0.1 == i + stmt_tokens(Statement::While(hint@->0)).len(),
        decreases tokens@.len() - i, 3int,
    {
        let ghost hinted = hint@ is Some && wf_stmt(Statement::While(hint@->0)) && at(tokens@, i as int, stmt_tokens(Statement::While(hint@->0)));
        let ghost hw = hint@->0;
        let ghost cond = sym('(') + expr_tokens(hw.condition) + sym(')');
        let ghost block = sym('{') + stmts_tokens(hw.block@) + sym('}');
        proof {
            if hinted {
                assert(stmt_tokens(Statement::While(hw)) =~= kw(Keyword::While) + cond + block);
                lemma_at_concat(tokens@, i as int, kw(Keyword::While) + cond, block);
                lemma_at_concat(tokens@, i as int, kw(Keyword::While), cond);
                lemma_at_one(tokens@, i as int, TokenV::Keyword(Keyword::While));
            }
        }
        let j = expect_keyword(tokens, i, Keyword::While)?;
        let ghost sc = if hinted { Some(hw.condition) } else { None };
        let (condition, k) = self.parse_condition(tokens, j, Ghost(sc))?;
        let ghost sb = if hinted { Some(hw.block@) } else { None };
        let (block_parsed, m) = self.parse_block(tokens, k, Ghost(sb))?;
        proof {
            lemma_join(tokens@, i as int, j as int, k as int, kw(Keyword::While), sym('(') + expr_tokens(condition) + sym(')'));
            lemma_join(tokens@, i as int, k as int, m as int, kw(Keyword::While) + (sym('(') + expr_tokens(condition) + sym(')')), sym('{') + stmts_tokens(block_parsed@) + sym('}'));
        }
        let w = WhileStatementNode { condition, block: block_parsed };
        assert(stmt_tokens(Statement::While(w)) =~= kw(Keyword::While) + (sym('(') + expr_tokens(w.condition) + sym(')')) + (sym('{') + stmts_tokens(w.block@) + sym('}')));
        Ok((w, m))
    }

    /// `do` subroutineCall `;`
    fn parse_do_statement(&self, tokens: &Vec<TokenWrapper>, i: usize, hint: Ghost<Option<DoStatementNode>>) -> (r: Result<(DoStatementNode, usize), ParseError>)
        requires
            i <= tokens@.len(),
        ensures
            r is Ok ==> wf_stmt(Statement::Do(r->Ok_0.0)),
            r is Ok ==> i < r->Ok_0.1 && covers(tokens@, i as int, r->Ok_0.1 as int, stmt_tokens(Statement::Do(r->Ok_0.0))),
            hint@ is Some && wf_stmt(Statement::Do(hint@->0)) && at(tokens@, i as int, stmt_tokens(Statement::Do(hint@->0)))
                ==> r is Ok && r->Ok_0.1 == i + stmt_tokens(Statement::Do(hint@->0)).len(),
    {
        let ghost hinted = hint@ is Some && wf_stmt(Statement::Do(hint@->0)) && at(tokens@, i as int, stmt_tokens(Statement::Do(hint@->0)));
        let ghost hd = hint@->0;
        proof {
            if hinted {
                let ct = call_tokens(hd.subroutine_call);
                lemma_at_concat(tokens@, i as int, kw(Keyword::Do) + ct, sym(';'));
                lemma_at_concat(tokens@, i as int, kw(Keyword::Do), ct);
                lemma_at_one(tokens@, i as int, TokenV::Keyword(Keyword::Do));
                lemma_at_one(tokens@, i + 1 + ct.len(), TokenV::Symbol(';'));
            }
        }
        let j = expect_keyword(tokens, i, Keyword::Do)?;
        let ghost sc = if hinted { Some(hd.subroutine_call) } else { None };
        let (subroutine_call, k) = self.parse_subroutine_call(tokens, j, Ghost(sc))?;
        let e = expect_symbol(tokens, k, ';')?;
        proof {
            lemma_join(tokens@, i as int, j as int, k as int, kw(Keyword::Do), call_tokens(subroutine_call));
            lemma_join(tokens@, i as int, k as int, e as int, kw(Keyword::Do) + call_tokens(subroutine_call), sym(';'));
        }
        Ok((DoStatementNode { subroutine_call }, e))
    }

    /// `return` expression? `;`
    fn parse_return_statement(&self, tokens: &Vec<TokenWrapper>, i: usize, hint: Ghost<Option<ReturnStatementNode>>) -> (r: Result<(ReturnStatementNode, usize), ParseError>)
        requires
            i <= tokens@.len(),
        ensures
            r is Ok ==> wf_stmt(Statement::Return(r->Ok_0.0)),
            r is Ok ==> i < r->Ok_0.1 && covers(tokens@, i as int, r->Ok_0.1 as int, stmt_tokens(Statement::Return(r->Ok_0.0))),
            hint@ is Some && wf_stmt(Statement::Return(hint@->0)) && at(tokens@, i as int, stmt_tokens(Statement::Return(hint@->0)))
                ==> r is Ok && r->Ok_0.1 == i + stmt_tokens(Statement::Return(hint@->0)).len(),
    {
        let ghost hinted = hint@ is Some && wf_stmt(Statement::Return(hint@->0)) && at(tokens@, i as int, stmt_tokens(Statement::Return(hint@->0)));
        let ghost hr = hint@->0;
        let ghost body: Seq<TokenV> = match hr.expression {
            Some(e) => expr_tokens(e),
            None => Seq::empty(),
        };
        proof {
            if hinted {
                lemma_at_concat(tokens@, i as int, kw(Keyword::Return) + body, sym(';'));
                lemma_at_concat(tokens@, i as int, kw(Keyword::Return), body);
                lemma_at_one(tokens@, i as int, TokenV::Keyword(Keyword::Return));
                lemma_at_one(tokens@, i + 1 + body.len(), TokenV::Symbol(';'));
                match hr.expression {
                    Some(e) => {
                        lemma_expr_first(e);
                        lemma_at_part(tokens@, i + 1, body, 0, 1);
                    },
                    None => {},
                }
            }
        }
        let j = expect_keyword(tokens, i, Keyword::Return)?;
        if is_symbol_at(tokens, j, ';') {
            proof {
                lemma_one(tokens@, j as int);
                lemma_join(tokens@, i as int, j as int, j + 1, kw(Keyword::Return), sym(';'));
            }
            let x = ReturnStatementNode { expression: None };
            assert(stmt_tokens(Statement::Return(x)) =~= kw(Keyword::Return) + sym(';'));
            Ok((x, j + 1))
        } else {
            let ghost se = if hinted { hr.expression } else { None };
            let (e, k) = self.parse_expression(tokens, j, Ghost(se))?;
            let m = expect_symbol(tokens, k, ';')?;
            proof {
                lemma_join(tokens@, i as int, j as int, k as int, kw(Keyword::Return), expr_tokens(e));
                lemma_join(tokens@, i as int, k as int, m as int, kw(Keyword::Return) + expr_tokens(e), sym(';'));
            }
            let x = ReturnStatementNode { expression: Some(e) };
            assert(stmt_tokens(Statement::Return(x)) =~= kw(Keyword::Return) + expr_tokens(x.expression->0) + sym(';'));
            Ok((x, m))
        }
    }

    fn is_subroutine(&self, tokens: &Vec<TokenWrapper>, i: usize) -> (r: bool)
        ensures
            r == (i < tokens@.len() && (token_values(tokens@)[i as int] == TokenV::Keyword(Keyword::Constructor)
                || token_values(tokens@)[i as int] == TokenV::Keyword(Keyword::Function)
                || token_values(tokens@)[i as int] == TokenV::Keyword(Keyword::Method))),
    {
        is_keyword_at(tokens, i, Keyword::Constructor) || is_keyword_at(tokens, i, Keyword::Function)
            || is_keyword_at(tokens, i, Keyword::Method)
    }

    /// (`constructor` | `function` | `method`) (`void` | type) subroutineName
    /// `(` parameterList `)` `{` varDec* statement* `}`
    #[verifier::rlimit(80)]
    fn parse_subroutine(&self, tokens: &Vec<TokenWrapper>, i: usize, hint: Ghost<Option<SubroutineNode>>) -> (r: Result<(SubroutineNode, usize), ParseError>)
        requires
            i <= tokens@.len(),
        ensures
            r is Ok ==> wf_subroutine(r->Ok_0.0),
            r is Ok ==> i < r->Ok_0.1 && covers(tokens@, i as int, r->Ok_0.1 as int, subroutine_tokens(r->Ok_0.0)),
            hint@ is Some && wf_subroutine(hint@->0) && at(tokens@, i as int, subroutine_tokens(hint@->0))
                ==> r is Ok && r->Ok_0.1 == i + subroutine_tokens(hint@->0).len(),
    {
        let ghost hinted = hint@ is Some && wf_subroutine(hint@->0) && at(tokens@, i as int, subroutine_tokens(hint@->0));
        let ghost hs = hint@->0;
        let ghost h0 = kw(subroutine_keyword(hs.subroutine_type));
        let ghost rt = return_tokens(hs.return_type);
        let ghost pt = params_tokens(hs.parameter_list.parameters@);
        let ghost vt = var_decs_tokens(hs.body.variables@);
        let ghost st = stmts_tokens(hs.body.statements@);
        let ghost hh5 = h0 + rt + ident(hs.name@) + sym('(') + pt + sym(')');
        let ghost hh = hh5 + sym('{');
        proof {
            if hinted {
                assert(rt.len() == 1);
                lemma_at_concat(tokens@, i as int, hh + vt + st, sym('}'));
                lemma_at_concat(tokens@, i as int, hh + vt, st);
                lemma_at_concat(tokens@, i as int, hh, vt);
                lemma_at_concat(tokens@, i as int, hh5, sym('{'));
                lemma_at_concat(tokens@, i as int, h0 + rt + ident(hs.name@) + sym('(') + pt, sym(')'));
                lemma_at_concat(tokens@, i as int, h0 + rt + ident(hs.name@) + sym('('), pt);
                lemma_at_concat(tokens@, i as int, h0 + rt + ident(hs.name@), sym('('));
                lemma_at_concat(tokens@, i as int, h0 + rt, ident(hs.name@));
                lemma_at_concat(tokens@, i as int, h0, rt);
                lemma_at_one(tokens@, i as int, TokenV::Keyword(subroutine_keyword(hs.subroutine_type)));
                lemma_at_one(tokens@, i + 1, rt[0]);
                assert(rt =~= seq![rt[0]]);
                lemma_at_one(tokens@, i + 2, TokenV::Ident(hs.name@));
                lemma_at_one(tokens@, i + 3, TokenV::Symbol('('));
                lemma_at_one(tokens@, i + 4 + pt.len(), TokenV::Symbol(')'));
                lemma_at_one(tokens@, i + 5 + pt.len(), TokenV::Symbol('{'));
                lemma_at_one(tokens@, i + 6 + pt.len() + vt.len() + st.len(), TokenV::Symbol('}'));
            }
        }
        let subroutine_type = if is_keyword_at(tokens, i, Keyword::Constructor) {
            SubroutineType::Constructor
        } else if is_keyword_at(tokens, i, Keyword::Function) {
            SubroutineType::Function
        } else if is_keyword_at(tokens, i, Keyword::Method) {
            SubroutineType::Method
        } else {
            return Err(ParseError { token_index: i });
        };
        proof { lemma_one(tokens@, i as int); }
        let j = i + 1;
        let return_type: Option<VarType>;
        let k: usize;
        if is_keyword_at(tokens, j, Keyword::Void) {
            proof { lemma_one(tokens@, j as int); }
            return_type = None;
            k = j + 1;
        } else {
            proof {
                if hinted {
                    match hs.return_type {
                        Some(t) => {},
                        None => {},
                    }
                }
            }
            let (t, m) = self.parse_type(tokens, j)?;
            return_type = Some(t);
            k = m;
        }
        let ghost ret = return_tokens(return_type);
        let ghost h0p = kw(subroutine_keyword(subroutine_type));
        proof { lemma_join(tokens@, i as int, j as int, k as int, h0p, ret); }
        let (name, m) = identifier_at(tokens, k)?;
        let p = expect_symbol(tokens, m, '(')?;
        let ghost sp = if hinted { Some(hs.parameter_list.parameters@) } else { None };
        let (parameter_list, q) = self.parse_parameter_list(tokens, p, Ghost(sp))?;
        let e = expect_symbol(tokens, q, ')')?;
        let f = expect_symbol(tokens, e, '{')?;
        let ghost h1 = h0p + ret + ident(name@) + sym('(') + params_tokens(parameter_list.parameters@) + sym(')') + sym('{');
        proof {
            lemma_join(tokens@, i as int, k as int, m as int, h0p + ret, ident(name@));
            lemma_join(tokens@, i as int, m as int, p as int, h0p + ret + ident(name@), sym('('));
            lemma_join(tokens@, i as int, p as int, q as int, h0p + ret + ident(name@) + sym('('), params_tokens(parameter_list.parameters@));
            lemma_join(tokens@, i as int, q as int, e as int, h0p + ret + ident(name@) + sym('(') + params_tokens(parameter_list.parameters@), sym(')'));
            lemma_join(tokens@, i as int, e as int, f as int, h0p + ret + ident(name@) + sym('(') + params_tokens(parameter_list.parameters@) + sym(')'), sym('{'));
        }
        assert(hinted ==> f == i + hh.len());
        let mut variables: Vec<VarNode> = Vec::new();
        let mut g = f;
        let ghost hv = hs.body.variables@;
        let ghost mut n: int = 0;
        proof {
            lemma_empty(tokens@, f as int);
            assert(h1 + var_decs_tokens(variables@) =~= h1);
            assert(hv.take(0) =~= Seq::<VarNode>::empty());
        }
        while is_keyword_at(tokens, g, Keyword::Var)
            invariant
                i < f <= g <= tokens@.len(),
                covers(tokens@, i as int, g as int, h1 + var_decs_tokens(variables@)),
                hinted ==> wf_subroutine(hs) && at(tokens@, i as int, subroutine_tokens(hs)),
                hinted ==> f == i + hh.len() && at(tokens@, f as int, vt) && at(tokens@, f + vt.len(), st)
                    && is_symbol_token(tokens@, f + vt.len() + st.len(), '}'),
                hv == hs.body.variables@,
                vt == var_decs_tokens(hv),
                st == stmts_tokens(hs.body.statements@),
                forall|x: int| 0 <= x < variables@.len() ==> (#[trigger] variables@[x]).var_names@.len() >= 1,
                hs == hint@->0,
                hinted == (hint@ is Some && wf_subroutine(hint@->0) && at(tokens@, i as int, subroutine_tokens(hint@->0))),
                hinted ==> 0 <= n <= hv.len() && g == f + var_decs_tokens(hv.take(n)).len(),
            decreases tokens@.len() - g,
        {
            proof {
                if hinted {
                    if n < hv.len() {
                        lemma_var_decs_prefix(hv, n);
                        lemma_at_item(tokens@, f as int, vt, var_decs_tokens(hv.take(n)), var_decs_tokens(hv.take(n + 1)), var_dec_tokens(hv[n]));
                        assert(hv[n].var_names@.len() >= 1);
                    } else {
                        assert(hv.take(n) == hv);
                        if st.len() > 0 {
                            lemma_at_part(tokens@, f + vt.len(), st, 0, 1);
                            lemma_stmts_first_token(hs.body.statements@);
                        }
                    }
                }
            }
            let ghost sv = if hinted { Some(hv[n]) } else { None };
            let (v, nn) = self.parse_variable_declaration(tokens, g, Ghost(sv))?;
            let ghost before = variables@;
            let ghost vv = v;
            variables.push(v);
            proof {
                assert forall|x: int| 0 <= x < variables@.len() implies (#[trigger] variables@[x]).var_names@.len() >= 1 by {
                    if x < before.len() {
                        assert(variables@[x] == before[x]);
                    }
                }
                assert(variables@.drop_last() == before);
                assert(variables@.last() == vv);
                lemma_join(tokens@, i as int, g as int, nn as int, h1 + var_decs_tokens(before), var_dec_tokens(vv));
                assert(h1 + var_decs_tokens(variables@) =~= h1 + var_decs_tokens(before) + var_dec_tokens(vv));
                if hinted {
                    n = n + 1;
                }
            }
            g = nn;
        }
        proof {
            if hinted {
                if n < hv.len() {
                    lemma_var_decs_prefix(hv, n);
                    lemma_at_item(tokens@, f as int, vt, var_decs_tokens(hv.take(n)), var_decs_tokens(hv.take(n + 1)), var_dec_tokens(hv[n]));
                    lemma_at_part(tokens@, g as int, var_dec_tokens(hv[n]), 0, 1);
                    assert(var_dec_tokens(hv[n])[0] == TokenV::Keyword(Keyword::Var));
                    assert(token_values(tokens@)[g + 0] == var_dec_tokens(hv[n])[0]);
                }
                assert(hv.take(n) =~= hv);
            }
        }
        let ghost ss = if hinted { Some(hs.body.statements@) } else { None };
        let (statements, x) = self.parse_statements(tokens, g, Ghost(ss))?;
        let y = expect_symbol(tokens, x, '}')?;
        proof {
            lemma_join(tokens@, i as int, g as int, x as int, h1 + var_decs_tokens(variables@), stmts_tokens(statements@));
            lemma_join(tokens@, i as int, x as int, y as int, h1 + var_decs_tokens(variables@) + stmts_tokens(statements@), sym('}'));
        }
        let sub = SubroutineNode {
            name,
            subroutine_type,
            return_type,
            parameter_list,
            body: SubroutineBodyNode { variables, statements },
        };
        assert(subroutine_tokens(sub) == h1 + var_decs_tokens(sub.body.variables@) + stmts_tokens(sub.body.statements@) + sym('}'));
        Ok((sub, y))
    }

    /// `class` className `{` classVarDec* subroutineDec* `}`, where the class
    /// name must be `filename`.
    #[verifier::rlimit(80)]
    fn parse_class(&self, tokens: &Vec<TokenWrapper>, i: usize, filename: &str, hint: Ghost<Option<ClassNode>>) -> (r: Result<(ClassNode, usize), ParseError>)
        requires
            i <= tokens@.len(),
        ensures
            i + 1 < tokens@.len() && token_values(tokens@)[i as int] == TokenV::Keyword(Keyword::Class)
                && token_values(tokens@)[i + 1] is Ident && token_values(tokens@)[i + 1]->Ident_0
                != filename@ ==> r is Err && r->Err_0.token_index == i + 1,
            r is Ok ==> wf_class(r->Ok_0.0),
            r is Ok ==> covers(tokens@, i as int, r->Ok_0.1 as int, class_tokens(r->Ok_0.0))
                && r->Ok_0.0.name@ == filename@,
            hint@ is Some && wf_class(hint@->0) && at(tokens@, i as int, class_tokens(hint@->0))
                && hint@->0.name@ == filename@ ==> r is Ok && r->Ok_0.1 == i + class_tokens(hint@->0).len(),
    {
        let ghost hinted = hint@ is Some && wf_class(hint@->0) && at(tokens@, i as int, class_tokens(hint@->0))
            && hint@->0.name@ == filename@;
        let ghost hc = hint@->0;
        let ghost cv = class_vars_tokens(hc.variables@);
        let ghost sv = subroutines_tokens(hc.subroutines@);
        let ghost hh = kw(Keyword::Class) + ident(hc.name@) + sym('{');
        proof {
            if hinted {
                lemma_at_concat(tokens@, i as int, hh + cv + sv, sym('}'));
                lemma_at_concat(tokens@, i as int, hh + cv, sv);
                lemma_at_concat(tokens@, i as int, hh, cv);
                lemma_at_concat(tokens@, i as int, kw(Keyword::Class) + ident(hc.name@), sym('{'));
                lemma_at_concat(tokens@, i as int, kw(Keyword::Class), ident(hc.name@));
                lemma_at_one(tokens@, i as int, TokenV::Keyword(Keyword::Class));
                lemma_at_one(tokens@, i + 1, TokenV::Ident(hc.name@));
                lemma_at_one(tokens@, i + 2, TokenV::Symbol('{'));
                lemma_at_one(tokens@, i + 3 + cv.len() + sv.len(), TokenV::Symbol('}'));
            }
        }
        let j = expect_keyword(tokens, i, Keyword::Class)?;
        let (name, k) = identifier_at(tokens, j)?;
        proof {
            assert(token_values(tokens@)[j as int] == token_values(tokens@).subrange(j as int, j + 1)[0]);
        }
        if !str_eq(name.as_str(), filename) {
            return Err(ParseError { token_index: j });
        }
        assert(token_values(tokens@)[i + 1] == TokenV::Ident(filename@));
        let m = expect_symbol(tokens, k, '{')?;
        let ghost h = kw(Keyword::Class) + ident(name@) + sym('{');
        proof {
            lemma_join(tokens@, i as int, j as int, k as int, kw(Keyword::Class), ident(name@));
            lemma_join(tokens@, i as int, k as int, m as int, kw(Keyword::Class) + ident(name@), sym('{'));
            assert(h + class_vars_tokens(Seq::<ClassVarNode>::empty()) =~= h);
        }
        let mut variables: Vec<ClassVarNode> = Vec::new();
        let mut g = m;
        let ghost hv = hc.variables@;
        let ghost hs = hc.subroutines@;
        let ghost mut n: int = 0;
        proof {
            assert(hv.take(0) =~= Seq::<ClassVarNode>::empty());
        }
        while is_keyword_at(tokens, g, Keyword::Static) || is_keyword_at(tokens, g, Keyword::Field)
            invariant
                i < m <= g <= tokens@.len(),
                covers(tokens@, i as int, g as int, h + class_vars_tokens(variables@)),
                hinted ==> wf_class(hc) && m == i + 3 && at(tokens@, m as int, cv) && at(tokens@, m + cv.len(), sv)
                    && is_symbol_token(tokens@, m + cv.len() + sv.len(), '}'),
                hv == hc.variables@,
                hs == hc.subroutines@,
                cv == class_vars_tokens(hv),
                sv == subroutines_tokens(hs),
                hinted ==> 0 <= n <= hv.len() && g == m + class_vars_tokens(hv.take(n)).len(),
                hinted == (hint@ is Some && wf_class(hint@->0) && at(tokens@, i as int, class_tokens(hint@->0))
                    && hint@->0.name@ == filename@),
                hc == hint@->0,
                i + 1 < tokens@.len() && token_values(tokens@)[i + 1] == TokenV::Ident(filename@),
                forall|x: int| 0 <= x < variables@.len() ==> (#[trigger] variables@[x]).names@.len() >= 1,
            decreases tokens@.len() - g,
        {
            proof {
                if hinted {
                    if n < hv.len() {
                        lemma_class_vars_prefix(hv, n);
                        lemma_at_item(tokens@, m as int, cv, class_vars_tokens(hv.take(n)), class_vars_tokens(hv.take(n + 1)), class_var_tokens(hv[n]));
                        assert(hv[n].names@.len() >= 1);
                    } else {
                        assert(hv.take(n) == hv);
                        if sv.len() > 0 {
                            lemma_at_part(tokens@, m + cv.len(), sv, 0, 1);
                            lemma_subroutines_first_token(hs);
                        }
                    }
                }
            }
            let ghost shv = if hinted { Some(hv[n]) } else { None };
            let (v, nn) = self.parse_class_variable_declaration(tokens, g, Ghost(shv))?;
            let ghost before = variables@;
            let ghost vv = v;
            variables.push(v);
            proof {
                assert forall|x: int| 0 <= x < variables@.len() implies (#[trigger] variables@[x]).names@.len() >= 1 by {
                    if x < before.len() {
                        assert(variables@[x] == before[x]);
                    }
                }
                assert(variables@.drop_last() == before);
                assert(variables@.last() == vv);
                lemma_join(tokens@, i as int, g as int, nn as int, h + class_vars_tokens(before), class_var_tokens(vv));
                assert(h + class_vars_tokens(variables@) =~= h + class_vars_tokens(before) + class_var_tokens(vv));
                if hinted {
                    n = n + 1;
                }
            }
            g = nn;
        }
        proof {
            if hinted {
                if n < hv.len() {
                    lemma_class_vars_prefix(hv, n);
                    lemma_at_item(tokens@, m as int, cv, class_vars_tokens(hv.take(n)), class_vars_tokens(hv.take(n + 1)), class_var_tokens(hv[n]));
                    lemma_at_part(tokens@, g as int, class_var_tokens(hv[n]), 0, 1);
                    assert(class_var_tokens(hv[n])[0] == TokenV::Keyword(Keyword::Static) || class_var_tokens(hv[n])[0] == TokenV::Keyword(Keyword::Field));
                    assert(token_values(tokens@)[g + 0] == class_var_tokens(hv[n])[0]);
                }
                assert(hv.take(n) =~= hv);
            }
        }
        let ghost h2 = h + class_vars_tokens(variables@);
        let ghost g0 = g;
        let mut subroutines: Vec<SubroutineNode> = Vec::new();
        assert(h2 + subroutines_tokens(subroutines@) =~= h2);
        let ghost mut q: int = 0;
        proof {
            assert(hs.take(0) =~= Seq::<SubroutineNode>::empty());
        }
        while self.is_subroutine(tokens, g)
            invariant
                i < g0 <= g <= tokens@.len(),
                covers(tokens@, i as int, g as int, h2 + subroutines_tokens(subroutines@)),
                hinted ==> wf_class(hc) && at(tokens@, g0 as int, sv) && is_symbol_token(tokens@, g0 + sv.len(), '}'),
                hs == hc.subroutines@,
                sv == subroutines_tokens(hs),
                hinted ==> 0 <= q <= hs.len() && g == g0 + subroutines_tokens(hs.take(q)).len(),
                hinted == (hint@ is Some && wf_class(hint@->0) && at(tokens@, i as int, class_tokens(hint@->0))
                    && hint@->0.name@ == filename@),
                hc == hint@->0,
                i + 1 < tokens@.len() && token_values(tokens@)[i + 1] == TokenV::Ident(filename@),
                forall|x: int| 0 <= x < variables@.len() ==> (#[trigger] variables@[x]).names@.len() >= 1,
                forall|x: int| 0 <= x < subroutines@.len() ==> wf_subroutine(#[trigger] subroutines@[x]),
            decreases tokens@.len() - g,
        {
            proof {
                if hinted {
                    if q < hs.len() {
                        lemma_subroutines_prefix(hs, q);
                        lemma_at_item(tokens@, g0 as int, sv, subroutines_tokens(hs.take(q)), subroutines_tokens(hs.take(q + 1)), subroutine_tokens(hs[q]));
                        assert(wf_subroutine(hs[q]));
                    } else {
                        assert(hs.take(q) == hs);
                    }
                }
            }
            let ghost shs = if hinted { Some(hs[q]) } else { None };
            let (sub, nn) = self.parse_subroutine(tokens, g, Ghost(shs))?;
            let ghost before = subroutines@;
            let ghost svv = sub;
            subroutines.push(sub);
            proof {
                assert forall|x: int| 0 <= x < subroutines@.len() implies wf_subroutine(#[trigger] subroutines@[x]) by {
                    if x < before.len() {
                        assert(subroutines@[x] == before[x]);
                    }
                }
                assert(subroutines@.drop_last() == before);
                assert(subroutines@.last() == svv);
                lemma_join(tokens@, i as int, g as int, nn as int, h2 + subroutines_tokens(before), subroutine_tokens(svv));
                assert(h2 + subroutines_tokens(subroutines@) =~= h2 + subroutines_tokens(before) + subroutine_tokens(svv));
                if hinted {
                    q = q + 1;
                }
            }
            g = nn;
        }
        proof {
            if hinted {
                if q < hs.len() {
                    lemma_subroutines_prefix(hs, q);
                    lemma_at_item(tokens@, g0 as int, sv, subroutines_tokens(hs.take(q)), subroutines_tokens(hs.take(q + 1)), subroutine_tokens(hs[q]));
                    lemma_at_part(tokens@, g as int, subroutine_tokens(hs[q]), 0, 1);
                    assert(subroutine_tokens(hs[q])[0] == TokenV::Keyword(subroutine_keyword(hs[q].subroutine_type)));
                    assert(token_values(tokens@)[g + 0] == subroutine_tokens(hs[q])[0]);
                }
                assert(hs.take(q) =~= hs);
            }
        }
        let e = expect_symbol(tokens, g, '}')?;
        proof {
            lemma_join(tokens@, i as int, g as int, e as int, h2 + subroutines_tokens(subroutines@), sym('}'));
        }
        let c = ClassNode { name, variables, subroutines };
        assert(class_tokens(c) == h2 + subroutines_tokens(c.subroutines@) + sym('}'));
        Ok((c, e))
    }

    /// Takes the tokens of a Jack file and its path, and returns the parse tree
    /// of its class. The tokens must be exactly one class, named as the file is
    /// (see `file_stem`).
    pub fn parse(&self, tokens: Vec<TokenWrapper>, filepath: &str) -> (r: Result<ParseTree, ParseError>)
        ensures
            tokens@.len() >= 2 && token_values(tokens@)[0] == TokenV::Keyword(Keyword::Class)
                && token_values(tokens@)[1] is Ident && token_values(tokens@)[1]->Ident_0
                != file_stem(filepath@) ==> r is Err && r->Err_0.token_index == 1,
            r is Ok ==> wf_class(r->Ok_0.class_node),
            r is Ok ==> token_values(tokens@) == class_tokens(r->Ok_0.class_node)
                && r->Ok_0.class_node.name@ == file_stem(filepath@),
            (exists|c: ClassNode| #[trigger] wf_class(c) && class_tokens(c) == token_values(tokens@)
                && c.name@ == file_stem(filepath@)) ==> r is Ok,
    {
        let filename = file_stem_of(filepath);
        let ghost hint: Option<ClassNode> = if exists|c: ClassNode| #[trigger] wf_class(c) && class_tokens(c)
            == token_values(tokens@) && c.name@ == file_stem(filepath@) {
            Some(choose|c: ClassNode| #[trigger] wf_class(c) && class_tokens(c) == token_values(tokens@)
                && c.name@ == file_stem(filepath@))
        } else {
            None
        };
        proof {
            if hint is Some {
                assert(token_values(tokens@).subrange(0, tokens@.len() as int) =~= token_values(tokens@));
            }
        }
        let (class_node, j) = self.parse_class(&tokens, 0, filename.as_str(), Ghost(hint))?;
        if j != tokens.len() {
            return Err(ParseError { token_index: j });
        }
        assert(token_values(tokens@).subrange(0, tokens@.len() as int) == token_values(tokens@));
        Ok(ParseTree { class_node })
    }
}

} // verus!
