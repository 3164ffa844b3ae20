//! Takes a parse tree and writes the corresponding VM code.
use vstd::prelude::*;
use vstd::string::StringExecFns;
use vstd::string::StrSliceExecFns;
use crate::parse_tree::{
    ClassNode, ClassVarNode, DoStatementNode, ExpressionElement, ExpressionNode, IfStatementNode,
    LetStatementNode, ParameterNode, ParseTree, ReturnStatementNode, Statement, SubroutineBodyNode,
    SubroutineCallNode, SubroutineNode, SubroutineType, TermElement, TermNode, TypeV, VarKind,
    VarNode, VarType, WhileStatementNode,
};
use crate::symbol_table::{Scopes, SymbolTable, SymbolV, segment_of};
use crate::text::{append_decimal, decimal, opt_concat};
use crate::tokens::Keyword;

verus! {

/// What makes code generation fail.
pub enum GenError {
    /// A variable that neither scope defines.
    UnknownVariable(String),
    /// A method call on a variable whose type is not a class.
    NotAnObject(String),
    /// A string constant with a character outside ASCII.
    NonAsciiString(String),
    /// A binary operator that has no VM command.
    UnknownOperator(char),
    /// A count or an index that does not fit 32 bits.
    TooLarge,
}

pub open spec fn fits(n: int) -> bool {
    0 <= n <= 0xffff_ffff
}

/// A VM command with a word and a number, such as `push constant 7`.
pub open spec fn command(op: Seq<char>, arg: Seq<char>, n: nat) -> Seq<char> {
    op + " "@ + arg + " "@ + decimal(n)
}

pub open spec fn push_line(segment: Seq<char>, n: nat) -> Seq<char> {
    command("push"@, segment, n)
}

pub open spec fn pop_line(segment: Seq<char>, n: nat) -> Seq<char> {
    command("pop"@, segment, n)
}

pub open spec fn call_line(name: Seq<char>, n: nat) -> Seq<char> {
    command("call"@, name, n)
}

/// A jump or a label line such as `if-goto IF_TRUE3`.
pub open spec fn label_line(op: Seq<char>, label: Seq<char>, n: nat) -> Seq<char> {
    op + " "@ + label + decimal(n)
}

/// `Class.name`
pub open spec fn qualified(class: Seq<char>, name: Seq<char>) -> Seq<char> {
    class + "."@ + name
}

pub open spec fn is_ascii_text(s: Seq<char>) -> bool {
    forall|i: int| 0 <= i < s.len() ==> (#[trigger] s[i] as u32) < 128
}

/// The calls that append the characters of a string constant, one by one.
pub open spec fn append_char_lines(s: Seq<char>) -> Seq<Seq<char>>
    decreases s.len(),
{
    if s.len() == 0 {
        Seq::empty()
    } else {
        append_char_lines(s.drop_last()) + seq![
            push_line("constant"@, s.last() as u32 as nat),
            call_line("String.appendChar"@, 2),
        ]
    }
}

/// The code of a string constant.
pub open spec fn string_lines(s: Seq<char>) -> Option<Seq<Seq<char>>> {
    if is_ascii_text(s) && fits(s.len() as int) {
        Some(
            seq![push_line("constant"@, s.len()), call_line("String.new"@, 1)]
                + append_char_lines(s),
        )
    } else {
        None
    }
}

/// The code of a keyword constant.
pub open spec fn keyword_lines(k: Keyword) -> Seq<Seq<char>> {
    match k {
        Keyword::True => seq![push_line("constant"@, 0), "not"@],
        Keyword::This => seq![push_line("pointer"@, 0)],
        Keyword::Null | Keyword::False => seq![push_line("constant"@, 0)],
        _ => Seq::empty(),
    }
}

/// The VM command of a binary operator.
pub open spec fn operator_command(op: char) -> Option<Seq<char>> {
    if op == '+' { Some("add"@) }
    else if op == '-' { Some("sub"@) }
    else if op == '=' { Some("eq"@) }
    else if op == '<' { Some("lt"@) }
    else if op == '>' { Some("gt"@) }
    else if op == '&' { Some("and"@) }
    else if op == '|' { Some("or"@) }
    else if op == '*' { Some("call Math.multiply 2"@) }
    else if op == '/' { Some("call Math.divide 2"@) }
    else { None }
}

/// The code that pushes the variable `name`.
pub open spec fn var_push_lines(env: Scopes, name: Seq<char>) -> Option<Seq<Seq<char>>> {
    match env.lookup(name) {
        Some(sym) => Some(seq![push_line(segment_of(sym.var_kind), sym.index)]),
        None => None,
    }
}

/// The code of a term.
pub open spec fn gen_term(t: TermNode, env: Scopes, class: Seq<char>) -> Option<Seq<Seq<char>>>
    decreases t, 0int,
{
    match t.element {
        TermElement::IntegerConstant(v) => Some(seq![push_line("constant"@, v as nat)]),
        TermElement::StringConstant(s) => string_lines(s@),
        TermElement::KeywordConstant(k) => Some(keyword_lines(k)),
        TermElement::Identifier(name) => var_push_lines(env, name@),
        TermElement::IndexedIdentifier(name, e) => opt_concat(
            opt_concat(gen_expr(e, env, class), var_push_lines(env, name@)),
            Some(seq!["add"@, pop_line("pointer"@, 1), push_line("that"@, 0)]),
        ),
        TermElement::Expression(e) => gen_expr(e, env, class),
        TermElement::Unary(op, inner) => opt_concat(
            gen_term(*inner, env, class),
            Some(seq![if op == '-' { "neg"@ } else { "not"@ }]),
        ),
        TermElement::SubroutineCall(c) => gen_call(c, env, class),
    }
}

/// The code of an expression: its terms from left to right, each operator
/// after the term that follows it.
pub open spec fn gen_expr(e: ExpressionNode, env: Scopes, class: Seq<char>) -> Option<
    Seq<Seq<char>>,
>
    decreases e, e.elements@.len() + 1,
{
    if e.elements@.len() == 0 {
        Some(Seq::empty())
    } else {
        opt_concat(
            match e.elements@[0] {
                ExpressionElement::Term(t) => gen_term(t, env, class),
                ExpressionElement::Operator(_) => Some(Seq::empty()),
            },
            gen_expr_from(e, 1, env, class),
        )
    }
}

/// The code of the operator at `i` and the term after it, and of all the pairs that follow.
pub open spec fn gen_expr_from(e: ExpressionNode, i: int, env: Scopes, class: Seq<char>) -> Option<
    Seq<Seq<char>>,
>
    decreases e, e.elements@.len() - i,
{
    if i < 1 || i + 1 >= e.elements@.len() {
        Some(Seq::empty())
    } else {
        opt_concat(
            opt_concat(pair_term(e, i, env, class), pair_operator(e, i)),
            gen_expr_from(e, i + 2, env, class),
        )
    }
}

/// The code of the term at `i + 1`.
pub open spec fn pair_term(e: ExpressionNode, i: int, env: Scopes, class: Seq<char>) -> Option<
    Seq<Seq<char>>,
>
    decreases e, e.elements@.len() - i - 1,
{
    if 0 <= i + 1 < e.elements@.len() {
        match e.elements@[i + 1] {
            ExpressionElement::Term(t) => gen_term(t, env, class),
            ExpressionElement::Operator(_) => Some(Seq::empty()),
        }
    } else {
        Some(Seq::empty())
    }
}

/// The command of the operator at `i`.
pub open spec fn pair_operator(e: ExpressionNode, i: int) -> Option<Seq<Seq<char>>> {
    if 0 <= i < e.elements@.len() {
        match e.elements@[i] {
            ExpressionElement::Operator(op) => match operator_command(op) {
                Some(c) => Some(seq![c]),
                None => None,
            },
            ExpressionElement::Term(_) => Some(Seq::empty()),
        }
    } else {
        Some(Seq::empty())
    }
}

/// The code of a subroutine call.
pub open spec fn gen_call(c: SubroutineCallNode, env: Scopes, class: Seq<char>) -> Option<
    Seq<Seq<char>>,
>
    decreases c, c.expression_list@.len() + 1,
{
    let n = c.expression_list@.len();
    let args = gen_args(c, 0, env, class);
    match c.caller {
        Some(x) => match env.lookup(x@) {
            Some(sym) => match sym.var_type {
                TypeV::ClassName(object_class) => if fits(n + 1int) {
                    opt_concat(
                        opt_concat(
                            Some(seq![push_line(segment_of(sym.var_kind), sym.index)]),
                            args,
                        ),
                        Some(seq![call_line(qualified(object_class, c.subroutine_name@), n + 1)]),
                    )
                } else {
                    None
                },
                _ => None,
            },
            None => if fits(n as int) {
                opt_concat(args, Some(seq![call_line(qualified(x@, c.subroutine_name@), n)]))
            } else {
                None
            },
        },
        None => if fits(n + 1int) {
            opt_concat(
                opt_concat(Some(seq![push_line("pointer"@, 0)]), args),
                Some(seq![call_line(qualified(class, c.subroutine_name@), n + 1)]),
            )
        } else {
            None
        },
    }
}

/// The code of the arguments of a call from the one at `i` on.
pub open spec fn gen_args(c: SubroutineCallNode, i: int, env: Scopes, class: Seq<char>) -> Option<
    Seq<Seq<char>>,
>
    decreases c, c.expression_list@.len() - i,
{
    if i < 0 || i >= c.expression_list@.len() {
        Some(Seq::empty())
    } else {
        opt_concat(gen_expr(c.expression_list@[i], env, class), gen_args(c, i + 1, env, class))
    }
}

/// The code that pops into the variable `name`.
pub open spec fn var_pop_lines(env: Scopes, name: Seq<char>) -> Option<Seq<Seq<char>>> {
    match env.lookup(name) {
        Some(sym) => Some(seq![pop_line(segment_of(sym.var_kind), sym.index)]),
        None => None,
    }
}

/// The code of a `let` statement. For `a[e] = r` the address `a + e` is
/// computed first and put in `pointer 1` only after `r` is in `temp 0`.
pub open spec fn gen_let(l: LetStatementNode, env: Scopes, class: Seq<char>) -> Option<
    Seq<Seq<char>>,
> {
    match l.lhs_expression {
        Some(e) => opt_concat(
            opt_concat(
                opt_concat(gen_expr(e, env, class), var_push_lines(env, l.var_name@)),
                opt_concat(Some(seq!["add"@]), gen_expr(l.rhs_expression, env, class)),
            ),
            Some(
                seq![
                    pop_line("temp"@, 0),
                    pop_line("pointer"@, 1),
                    push_line("temp"@, 0),
                    pop_line("that"@, 0),
                ],
            ),
        ),
        None => opt_concat(
            gen_expr(l.rhs_expression, env, class),
            var_pop_lines(env, l.var_name@),
        ),
    }
}

/// The code of a `do` statement: the call, whose value is then dropped.
pub open spec fn gen_do(d: DoStatementNode, env: Scopes, class: Seq<char>) -> Option<
    Seq<Seq<char>>,
> {
    opt_concat(gen_call(d.subroutine_call, env, class), Some(seq![pop_line("temp"@, 0)]))
}

/// The code of a `return` statement; a bare `return` returns 0.
pub open spec fn gen_return(r: ReturnStatementNode, env: Scopes, class: Seq<char>) -> Option<
    Seq<Seq<char>>,
> {
    opt_concat(
        match r.expression {
            Some(e) => gen_expr(e, env, class),
            None => Some(seq![push_line("constant"@, 0)]),
        },
        Some(seq!["return"@]),
    )
}

/// Code together with the `if` and `while` counters after it.
pub type Lowered = Option<(Seq<Seq<char>>, nat, nat)>;

pub open spec fn with_counters(l: Option<Seq<Seq<char>>>, ifc: nat, whc: nat) -> Lowered {
    match l {
        Some(x) => Some((x, ifc, whc)),
        None => None,
    }
}

/// The code of a statement, with the `if` counter at `ifc` and the `while`
/// counter at `whc`, and the counters after it.
pub open spec fn gen_stmt(s: Statement, env: Scopes, class: Seq<char>, ifc: nat, whc: nat) -> Lowered
    decreases s, 0int,
{
    match s {
        Statement::Let(l) => with_counters(gen_let(l, env, class), ifc, whc),
        Statement::Do(d) => with_counters(gen_do(d, env, class), ifc, whc),
        Statement::Return(r) => with_counters(gen_return(r, env, class), ifc, whc),
        Statement::If(n) => gen_if(n, env, class, ifc, whc),
        Statement::While(w) => gen_while(w, env, class, ifc, whc),
    }
}

/// The code of an `if` statement. Its label number is the `if` counter at entry;
/// the counter goes up by one before the blocks are lowered.
pub open spec fn gen_if(n: IfStatementNode, env: Scopes, class: Seq<char>, ifc: nat, whc: nat) -> Lowered
    decreases n, 0int,
{
    if !fits(ifc + 1int) {
        None
    } else {
        match (gen_expr(n.condition, env, class), gen_block(n.if_block, 0, env, class, ifc + 1, whc)) {
            (Some(cond), Some((then_lines, i1, w1))) => {
                let head = cond + seq![
                    label_line("if-goto"@, "IF_TRUE"@, ifc),
                    label_line("goto"@, "IF_FALSE"@, ifc),
                    label_line("label"@, "IF_TRUE"@, ifc),
                ] + then_lines;
                match n.else_block {
                    Some(b) => match gen_block(b, 0, env, class, i1, w1) {
                        Some((else_lines, i2, w2)) => Some(
                            (
                                head + seq![
                                    label_line("goto"@, "IF_END"@, ifc),
                                    label_line("label"@, "IF_FALSE"@, ifc),
                                ] + else_lines + seq![label_line("label"@, "IF_END"@, ifc)],
                                i2,
                                w2,
                            ),
                        ),
                        None => None,
                    },
                    None => Some((head + seq![label_line("label"@, "IF_FALSE"@, ifc)], i1, w1)),
                }
            },
            _ => None,
        }
    }
}

/// The code of a `while` statement. Its label number is the `while` counter at
/// entry; the counter goes up by one before the body is lowered.
pub open spec fn gen_while(w: WhileStatementNode, env: Scopes, class: Seq<char>, ifc: nat, whc: nat) -> Lowered
    decreases w, 0int,
{
    if !fits(whc + 1int) {
        None
    } else {
        match (gen_expr(w.condition, env, class), gen_block(w.block, 0, env, class, ifc, whc + 1)) {
            (Some(cond), Some((body, i1, w1))) => Some(
                (
                    seq![label_line("label"@, "WHILE_EXP"@, whc)] + cond + seq![
                        "not"@,
                        label_line("if-goto"@, "WHILE_END"@, whc),
                    ] + body + seq![
                        label_line("goto"@, "WHILE_EXP"@, whc),
                        label_line("label"@, "WHILE_END"@, whc),
                    ],
                    i1,
                    w1,
                ),
            ),
            _ => None,
        }
    }
}

/// The code of the statements of `v` from the one at `i` on, in order.
pub open spec fn gen_block(v: Vec<Statement>, i: int, env: Scopes, class: Seq<char>, ifc: nat, whc: nat) -> Lowered
    decreases v, v@.len() - i,
{
    if i < 0 || i >= v@.len() {
        Some((Seq::empty(), ifc, whc))
    } else {
        match gen_stmt(v@[i], env, class, ifc, whc) {
            Some((l, i1, w1)) => match gen_block(v, i + 1, env, class, i1, w1) {
                Some((rest, i2, w2)) => Some((l + rest, i2, w2)),
                None => None,
            },
            None => None,
        }
    }
}

/// Symbols for `names`, all of one type and kind, numbered from `first`.
pub open spec fn name_symbols(names: Seq<String>, t: TypeV, k: VarKind, first: nat) -> Seq<SymbolV>
    decreases names.len(),
{
    if names.len() == 0 {
        Seq::empty()
    } else {
        name_symbols(names.drop_last(), t, k, first).push(
            SymbolV { name: names.last()@, var_type: t, var_kind: k, index: (first + names.len() - 1) as nat },
        )
    }
}

/// The symbols of parameters, numbered from `first`.
pub open spec fn param_symbols(ps: Seq<ParameterNode>, first: nat) -> Seq<SymbolV>
    decreases ps.len(),
{
    if ps.len() == 0 {
        Seq::empty()
    } else {
        param_symbols(ps.drop_last(), first).push(
            SymbolV {
                name: ps.last().name@,
                var_type: ps.last().var_type@,
                var_kind: VarKind::Arg,
                index: (first + ps.len() - 1) as nat,
            },
        )
    }
}

/// The symbols of local variable declarations, numbered densely from 0.
pub open spec fn local_symbols(vs: Seq<VarNode>) -> Seq<SymbolV>
    decreases vs.len(),
{
    if vs.len() == 0 {
        Seq::empty()
    } else {
        let prev = local_symbols(vs.drop_last());
        prev + name_symbols(vs.last().var_names@, vs.last().var_type@, VarKind::Var, prev.len())
    }
}

/// The class-scope symbols of class variable declarations, with the number of
/// statics and of fields: `static` ones count in one sequence, all others are
/// fields and count in another.
pub open spec fn class_symbols(vs: Seq<ClassVarNode>) -> (Seq<SymbolV>, nat, nat)
    decreases vs.len(),
{
    if vs.len() == 0 {
        (Seq::empty(), 0, 0)
    } else {
        let (prev, statics, fields) = class_symbols(vs.drop_last());
        let d = vs.last();
        if d.var_kind == VarKind::Static {
            (
                prev + name_symbols(d.names@, d.var_type@, VarKind::Static, statics),
                statics + d.names@.len(),
                fields,
            )
        } else {
            (
                prev + name_symbols(d.names@, d.var_type@, VarKind::Field, fields),
                statics,
                fields + d.names@.len(),
            )
        }
    }
}

/// The arguments of a subroutine: `this` first for a method, then the parameters.
pub open spec fn argument_symbols(sub: SubroutineNode, class: Seq<char>) -> Seq<SymbolV> {
    let this = if sub.subroutine_type == SubroutineType::Method {
        seq![
            SymbolV {
                name: "this"@,
                var_type: TypeV::ClassName(class),
                var_kind: VarKind::Arg,
                index: 0,
            },
        ]
    } else {
        Seq::empty()
    };
    this + param_symbols(sub.parameter_list.parameters@, this.len())
}

/// What a subroutine does before its statements.
pub open spec fn prologue(kind: SubroutineType, num_fields: nat) -> Seq<Seq<char>> {
    match kind {
        SubroutineType::Constructor => seq![
            push_line("constant"@, num_fields),
            call_line("Memory.alloc"@, 1),
            pop_line("pointer"@, 0),
        ],
        SubroutineType::Method => seq![push_line("argument"@, 0), pop_line("pointer"@, 0)],
        SubroutineType::Function => Seq::empty(),
    }
}

/// The code of a subroutine body, given the class scope and the arguments:
/// the `function` line with the number of locals, the prologue, the statements.
pub open spec fn gen_body(
    body: SubroutineBodyNode,
    class_scope: Seq<SymbolV>,
    args: Seq<SymbolV>,
    class: Seq<char>,
    name: Seq<char>,
    kind: SubroutineType,
    num_fields: nat,
) -> Option<Seq<Seq<char>>> {
    let locals = local_symbols(body.variables@);
    if !fits(locals.len() as int) {
        None
    } else {
        let env = Scopes { class_scope, subroutine_scope: args + locals };
        match gen_block(body.statements, 0, env, class, 0, 0) {
            Some((code, _, _)) => Some(
                seq![command("function"@, qualified(class, name), locals.len())] + prologue(
                    kind,
                    num_fields,
                ) + code,
            ),
            None => None,
        }
    }
}

/// The code of a subroutine, given the class scope.
pub open spec fn gen_subroutine(
    sub: SubroutineNode,
    class_scope: Seq<SymbolV>,
    class: Seq<char>,
    num_fields: nat,
) -> Option<Seq<Seq<char>>> {
    let args = argument_symbols(sub, class);
    if !fits(args.len() as int) {
        None
    } else {
        gen_body(sub.body, class_scope, args, class, sub.name@, sub.subroutine_type, num_fields)
    }
}

/// The code of subroutines, one after another.
pub open spec fn gen_subroutines(
    subs: Seq<SubroutineNode>,
    class_scope: Seq<SymbolV>,
    class: Seq<char>,
    num_fields: nat,
) -> Option<Seq<Seq<char>>>
    decreases subs.len(),
{
    if subs.len() == 0 {
        Some(Seq::empty())
    } else {
        opt_concat(
            gen_subroutines(subs.drop_last(), class_scope, class, num_fields),
            gen_subroutine(subs.last(), class_scope, class, num_fields),
        )
    }
}

/// The code of a class.
pub open spec fn gen_class(c: ClassNode) -> Option<Seq<Seq<char>>> {
    let (scope, statics, fields) = class_symbols(c.variables@);
    if fits(statics as int) && fits(fields as int) {
        gen_subroutines(c.subroutines@, scope, c.name@, fields)
    } else {
        None
    }
}

/// Lines joined by newlines.
pub open spec fn joined(ls: Seq<Seq<char>>) -> Seq<char>
    decreases ls.len(),
{
    if ls.len() == 0 {
        Seq::empty()
    } else if ls.len() == 1 {
        ls[0]
    } else {
        joined(ls.drop_last()) + "\n"@ + ls.last()
    }
}

/// The text of a VM file: the lines joined by newlines, and a final newline.
pub open spec fn vm_text(ls: Seq<Seq<char>>) -> Seq<char> {
    joined(ls) + "\n"@
}

proof fn lemma_name_symbols_len(names: Seq<String>, t: TypeV, k: VarKind, first: nat)
    ensures
        name_symbols(names, t, k, first).len() == names.len(),
    decreases names.len(),
{
    if names.len() > 0 {
        lemma_name_symbols_len(names.drop_last(), t, k, first);
    }
}

proof fn lemma_param_symbols_len(ps: Seq<ParameterNode>, first: nat)
    ensures
        param_symbols(ps, first).len() == ps.len(),
    decreases ps.len(),
{
    if ps.len() > 0 {
        lemma_param_symbols_len(ps.drop_last(), first);
    }
}

proof fn lemma_local_symbols_grow(vs: Seq<VarNode>, k: int)
    requires
        0 <= k < vs.len(),
    ensures
        local_symbols(vs.take(k + 1)).len() <= local_symbols(vs).len(),
        local_symbols(vs.take(k + 1)).len() == local_symbols(vs.take(k)).len()
            + vs[k].var_names@.len(),
    decreases vs.len() - k,
{
    let pre = vs.take(k + 1);
    assert(pre.drop_last() == vs.take(k));
    lemma_name_symbols_len(
        vs[k].var_names@,
        vs[k].var_type@,
        VarKind::Var,
        local_symbols(vs.take(k)).len(),
    );
    if k + 1 < vs.len() {
        lemma_local_symbols_grow(vs, k + 1);
    } else {
        assert(vs.take(k + 1) == vs);
    }
}

proof fn lemma_class_counts_grow(vs: Seq<ClassVarNode>, k: int)
    requires
        0 <= k < vs.len(),
    ensures
        class_symbols(vs.take(k + 1)).1 <= class_symbols(vs).1,
        class_symbols(vs.take(k + 1)).2 <= class_symbols(vs).2,
        vs[k].var_kind == VarKind::Static ==> class_symbols(vs.take(k + 1)).1 == class_symbols(
            vs.take(k),
        ).1 + vs[k].names@.len(),
        vs[k].var_kind != VarKind::Static ==> class_symbols(vs.take(k + 1)).2 == class_symbols(
            vs.take(k),
        ).2 + vs[k].names@.len(),
        vs[k].var_kind == VarKind::Static ==> class_symbols(vs.take(k + 1)).2 == class_symbols(
            vs.take(k),
        ).2,
        vs[k].var_kind != VarKind::Static ==> class_symbols(vs.take(k + 1)).1 == class_symbols(
            vs.take(k),
        ).1,
    decreases vs.len() - k,
{
    let pre = vs.take(k + 1);
    assert(pre.drop_last() == vs.take(k));
    if k + 1 < vs.len() {
        lemma_class_counts_grow(vs, k + 1);
    } else {
        assert(vs.take(k + 1) == vs);
    }
}

proof fn lemma_subroutines_stay_failed(
    subs: Seq<SubroutineNode>,
    k: int,
    cs: Seq<SymbolV>,
    class: Seq<char>,
    nf: nat,
)
    requires
        0 <= k <= subs.len(),
        gen_subroutines(subs.take(k), cs, class, nf) is None,
    ensures
        gen_subroutines(subs, cs, class, nf) is None,
    decreases subs.len() - k,
{
    if k < subs.len() {
        assert(subs.take(k + 1).drop_last() == subs.take(k));
        lemma_subroutines_stay_failed(subs, k + 1, cs, class, nf);
    } else {
        assert(subs.take(k) == subs);
    }
}

/// The lines joined by newlines, with a final newline.
fn join_lines(lines: &Vec<String>) -> (r: String)
    ensures
        r@ == vm_text(lines_of(lines@)),
{
    let mut out = String::new();
    let n = lines.len();
    let mut i: usize = 0;
    while i < n
        invariant
            n == lines@.len(),
            i <= n,
            out@ == joined(lines_of(lines@.take(i as int))),
        decreases n - i,
    {
        let ghost pre = lines_of(lines@.take(i + 1));
        assert(pre.drop_last() =~= lines_of(lines@.take(i as int)));
        if i > 0 {
            out.append("\n");
        }
        out.append(lines[i].as_str());
        proof {
            if i == 0 {
                assert(out@ =~= pre[0]);
            }
        }
        i += 1;
    }
    assert(lines@.take(n as int) == lines@);
    out.append("\n");
    out
}

/// The number of names that local variable declarations declare.
pub open spec fn var_count(vs: Seq<VarNode>) -> nat
    decreases vs.len(),
{
    if vs.len() == 0 {
        0
    } else {
        var_count(vs.drop_last()) + vs.last().var_names@.len()
    }
}

proof fn lemma_local_symbols_len(vs: Seq<VarNode>)
    ensures
        local_symbols(vs).len() == var_count(vs),
    decreases vs.len(),
{
    if vs.len() > 0 {
        lemma_local_symbols_len(vs.drop_last());
        lemma_name_symbols_len(
            vs.last().var_names@,
            vs.last().var_type@,
            VarKind::Var,
            local_symbols(vs.drop_last()).len(),
        );
    }
}

/// The names that local variable declarations declare, in declaration order.
pub open spec fn local_names(vs: Seq<VarNode>) -> Seq<Seq<char>>
    decreases vs.len(),
{
    if vs.len() == 0 {
        Seq::empty()
    } else {
        local_names(vs.drop_last()) + vs.last().var_names@.map_values(|n: String| n@)
    }
}

proof fn lemma_name_symbols_at(names: Seq<String>, t: TypeV, k: VarKind, first: nat, m: int)
    requires
        0 <= m < names.len(),
    ensures
        name_symbols(names, t, k, first)[m] == (SymbolV {
            name: names[m]@,
            var_type: t,
            var_kind: k,
            index: first + m as nat,
        }),
    decreases names.len(),
{
    lemma_name_symbols_len(names.drop_last(), t, k, first);
    if m < names.len() - 1 {
        lemma_name_symbols_at(names.drop_last(), t, k, first, m);
    }
}

/// The `j`-th local variable that the `var` declarations of a subroutine
/// name, counting from 0 in declaration order, is `local j`.
pub proof fn lemma_local_numbering(vs: Seq<VarNode>, j: int)
    requires
        0 <= j < var_count(vs),
    ensures
        local_symbols(vs).len() == var_count(vs),
        local_names(vs).len() == var_count(vs),
        local_symbols(vs)[j].name == local_names(vs)[j],
        local_symbols(vs)[j].var_kind == VarKind::Var,
        local_symbols(vs)[j].index == j,
    decreases vs.len(),
{
    lemma_local_symbols_len(vs);
    lemma_local_names_len(vs);
    let pre = vs.drop_last();
    let last = vs.last();
    lemma_local_symbols_len(pre);
    lemma_local_names_len(pre);
    let p = var_count(pre) as int;
    lemma_name_symbols_len(last.var_names@, last.var_type@, VarKind::Var, p as nat);
    if j < p {
        lemma_local_numbering(pre, j);
    } else {
        lemma_name_symbols_at(last.var_names@, last.var_type@, VarKind::Var, p as nat, j - p);
    }
}

proof fn lemma_local_names_len(vs: Seq<VarNode>)
    ensures
        local_names(vs).len() == var_count(vs),
    decreases vs.len(),
{
    if vs.len() > 0 {
        lemma_local_names_len(vs.drop_last());
    }
}

/// The code of a subroutine opens with `function Class.name n`, where `n` is
/// the number of local variables its `var` declarations name.
pub proof fn lemma_function_line_counts_locals(
    sub: SubroutineNode,
    class_scope: Seq<SymbolV>,
    class: Seq<char>,
    num_fields: nat,
)
    requires
        gen_subroutine(sub, class_scope, class, num_fields) is Some,
    ensures
        gen_subroutine(sub, class_scope, class, num_fields)->0[0] == command(
            "function"@,
            qualified(class, sub.name@),
            var_count(sub.body.variables@),
        ),
{
    lemma_local_symbols_len(sub.body.variables@);
}

/// The number of `if` statements in a statement, nested ones included.
pub open spec fn if_count(s: Statement) -> nat
    decreases s, 0int,
{
    match s {
        Statement::If(n) => 1 + block_if_count(n.if_block, 0) + match n.else_block {
            Some(b) => block_if_count(b, 0),
            None => 0,
        },
        Statement::While(w) => block_if_count(w.block, 0),
        _ => 0,
    }
}

/// The number of `if` statements in the statements of `v` from `i` on.
pub open spec fn block_if_count(v: Vec<Statement>, i: int) -> nat
    decreases v, v@.len() - i,
{
    if i < 0 || i >= v@.len() {
        0
    } else {
        if_count(v@[i]) + block_if_count(v, i + 1)
    }
}

/// The number of `while` statements in a statement, nested ones included.
pub open spec fn while_count(s: Statement) -> nat
    decreases s, 0int,
{
    match s {
        Statement::If(n) => block_while_count(n.if_block, 0) + match n.else_block {
            Some(b) => block_while_count(b, 0),
            None => 0,
        },
        Statement::While(w) => 1 + block_while_count(w.block, 0),
        _ => 0,
    }
}

/// The number of `while` statements in the statements of `v` from `i` on.
pub open spec fn block_while_count(v: Vec<Statement>, i: int) -> nat
    decreases v, v@.len() - i,
{
    if i < 0 || i >= v@.len() {
        0
    } else {
        while_count(v@[i]) + block_while_count(v, i + 1)
    }
}

/// Lowering a statement never moves the `if` or `while` counter back: it moves
/// each by the number of `if` and `while` statements it holds. Together with
/// `lemma_if_labels` (an `if` takes the counter at entry, its blocks follow
/// from the next number on), the `if`s of a subroutine are numbered from 0 in
/// source pre-order, each number used once.
pub proof fn lemma_counters_grow(s: Statement, env: Scopes, class: Seq<char>, ifc: nat, whc: nat)
    requires
        gen_stmt(s, env, class, ifc, whc) is Some,
    ensures
        ifc <= (gen_stmt(s, env, class, ifc, whc)->0).1,
        whc <= (gen_stmt(s, env, class, ifc, whc)->0).2,
        (gen_stmt(s, env, class, ifc, whc)->0).1 == ifc + if_count(s),
        (gen_stmt(s, env, class, ifc, whc)->0).2 == whc + while_count(s),
    decreases s, 0int,
{
    match s {
        Statement::If(n) => {
            lemma_block_counters_grow(n.if_block, 0, env, class, ifc + 1, whc);
            let (_, i1, w1) = gen_block(n.if_block, 0, env, class, ifc + 1, whc)->0;
            if let Some(b) = n.else_block {
                lemma_block_counters_grow(b, 0, env, class, i1, w1);
            }
        },
        Statement::While(w) => {
            lemma_block_counters_grow(w.block, 0, env, class, ifc, whc + 1);
        },
        _ => {},
    }
}

/// As `lemma_counters_grow`, for the statements of a block from `i` on.
pub proof fn lemma_block_counters_grow(
    v: Vec<Statement>,
    i: int,
    env: Scopes,
    class: Seq<char>,
    ifc: nat,
    whc: nat,
)
    requires
        gen_block(v, i, env, class, ifc, whc) is Some,
    ensures
        ifc <= (gen_block(v, i, env, class, ifc, whc)->0).1,
        whc <= (gen_block(v, i, env, class, ifc, whc)->0).2,
        (gen_block(v, i, env, class, ifc, whc)->0).1 == ifc + block_if_count(v, i),
        (gen_block(v, i, env, class, ifc, whc)->0).2 == whc + block_while_count(v, i),
    decreases v, v@.len() - i,
{
    if 0 <= i < v@.len() {
        lemma_counters_grow(v@[i], env, class, ifc, whc);
        let (_, i1, w1) = gen_stmt(v@[i], env, class, ifc, whc)->0;
        lemma_block_counters_grow(v, i + 1, env, class, i1, w1);
    }
}

/// An `if` numbered `k` (the counter at entry) jumps to `IF_TRUE{k}` right
/// after its condition, then to `IF_FALSE{k}`, then places `label IF_TRUE{k}`;
/// `label IF_FALSE{k}` comes later in its code. The counter then stands past
/// `k`, so each later `if` of the subroutine gets a larger number.
pub proof fn lemma_if_labels(n: IfStatementNode, env: Scopes, class: Seq<char>, ifc: nat, whc: nat)
    requires
        gen_if(n, env, class, ifc, whc) is Some,
    ensures
        ({
            let (code, next_if, _) = gen_if(n, env, class, ifc, whc)->0;
            let c = gen_expr(n.condition, env, class)->0.len() as int;
            &&& code[c] == label_line("if-goto"@, "IF_TRUE"@, ifc)
            &&& code[c + 1] == label_line("goto"@, "IF_FALSE"@, ifc)
            &&& code[c + 2] == label_line("label"@, "IF_TRUE"@, ifc)
            &&& exists|j: int| c + 2 < j < code.len() && code[j] == label_line("label"@, "IF_FALSE"@, ifc)
            &&& ifc < next_if
        }),
{
    let cond = gen_expr(n.condition, env, class)->0;
    let (then_lines, i1, w1) = gen_block(n.if_block, 0, env, class, ifc + 1, whc)->0;
    lemma_block_counters_grow(n.if_block, 0, env, class, ifc + 1, whc);
    let (code, next_if, _) = gen_if(n, env, class, ifc, whc)->0;
    let c = cond.len() as int;
    match n.else_block {
        Some(b) => {
            lemma_block_counters_grow(b, 0, env, class, i1, w1);
            let j = c + 3 + then_lines.len() + 1;
            assert(code[j] == label_line("label"@, "IF_FALSE"@, ifc));
        },
        None => {
            let j = c + 3 + then_lines.len();
            assert(code[j] == label_line("label"@, "IF_FALSE"@, ifc));
        },
    }
}

/// Reading or writing a variable uses the segment and index of the symbol that
/// its name resolves to in the current scopes; a name that resolves to nothing
/// gives no code.
pub proof fn lemma_variable_access(env: Scopes, name: Seq<char>)
    ensures
        var_push_lines(env, name) is Some <==> env.lookup(name) is Some,
        var_pop_lines(env, name) is Some <==> env.lookup(name) is Some,
        env.lookup(name) is Some ==> var_push_lines(env, name)->0 == seq![
            push_line(segment_of(env.lookup(name)->0.var_kind), env.lookup(name)->0.index),
        ] && var_pop_lines(env, name)->0 == seq![
            pop_line(segment_of(env.lookup(name)->0.var_kind), env.lookup(name)->0.index),
        ],
{
}

proof fn lemma_append_char_lines_len(s: Seq<char>)
    ensures
        append_char_lines(s).len() == 2 * s.len(),
    decreases s.len(),
{
    if s.len() > 0 {
        lemma_append_char_lines_len(s.drop_last());
    }
}

proof fn lemma_append_char_line_at(s: Seq<char>, k: int)
    requires
        0 <= k < s.len(),
    ensures
        append_char_lines(s)[2 * k] == push_line("constant"@, s[k] as u32 as nat),
        append_char_lines(s)[2 * k + 1] == call_line("String.appendChar"@, 2),
    decreases s.len(),
{
    let prev = append_char_lines(s.drop_last());
    lemma_append_char_lines_len(s.drop_last());
    if k < s.len() - 1 {
        lemma_append_char_line_at(s.drop_last(), k);
        assert(s.drop_last()[k] == s[k]);
    }
}

/// A string constant `s` makes `1 + |s|` calls: `String.new` once, then
/// `String.appendChar` once per character, each after the push of that
/// character's code.
pub proof fn lemma_string_calls(s: Seq<char>)
    requires
        string_lines(s) is Some,
    ensures
        string_lines(s)->0.len() == 2 + 2 * s.len(),
        string_lines(s)->0[0] == push_line("constant"@, s.len()),
        string_lines(s)->0[1] == call_line("String.new"@, 1),
        forall|k: int|
            0 <= k < s.len() ==> (#[trigger] string_lines(s)->0[2 + 2 * k]) == push_line(
                "constant"@,
                s[k] as u32 as nat,
            ),
        forall|k: int|
            0 <= k < s.len() ==> (#[trigger] string_lines(s)->0[3 + 2 * k]) == call_line(
                "String.appendChar"@,
                2,
            ),
{
    lemma_append_char_lines_len(s);
    let code = string_lines(s)->0;
    let head = seq![push_line("constant"@, s.len()), call_line("String.new"@, 1)];
    let tail = append_char_lines(s);
    assert(code == head + tail);
    assert forall|k: int| 0 <= k < s.len() implies (#[trigger] string_lines(s)->0[2 + 2 * k])
        == push_line("constant"@, s[k] as u32 as nat) by {
        lemma_append_char_line_at(s, k);
        assert(code[2 + 2 * k] == tail[2 * k]);
    }
    assert forall|k: int| 0 <= k < s.len() implies (#[trigger] string_lines(s)->0[3 + 2 * k])
        == call_line("String.appendChar"@, 2) by {
        lemma_append_char_line_at(s, k);
        assert(code[3 + 2 * k] == tail[2 * k + 1]);
    }
}

/// `let a[e] = r` computes `a + e`, then `r`, and ends with `pop temp 0`,
/// `pop pointer 1`, `push temp 0`, `pop that 0`: the address is taken only
/// after the value is in `temp 0`.
pub proof fn lemma_indexed_let(l: LetStatementNode, env: Scopes, class: Seq<char>)
    requires
        l.lhs_expression is Some,
        gen_let(l, env, class) is Some,
    ensures
        ({
            let code = gen_let(l, env, class)->0;
            let address = gen_expr(l.lhs_expression->0, env, class)->0 + var_push_lines(
                env,
                l.var_name@,
            )->0 + seq!["add"@];
            let value = gen_expr(l.rhs_expression, env, class)->0;
            code == address + value + seq![
                pop_line("temp"@, 0),
                pop_line("pointer"@, 1),
                push_line("temp"@, 0),
                pop_line("that"@, 0),
            ]
        }),
{
    let a = gen_expr(l.lhs_expression->0, env, class)->0;
    let b = var_push_lines(env, l.var_name@)->0;
    let v = gen_expr(l.rhs_expression, env, class)->0;
    let tail = seq![
        pop_line("temp"@, 0),
        pop_line("pointer"@, 1),
        push_line("temp"@, 0),
        pop_line("that"@, 0),
    ];
    assert((a + b) + (seq!["add"@] + v) + tail =~= a + b + seq!["add"@] + v + tail);
}

/// Whether a call passes the object it is called on: an unqualified call, or
/// one whose receiver is a variable in scope.
pub open spec fn is_method_call(c: SubroutineCallNode, env: Scopes) -> bool {
    match c.caller {
        Some(x) => env.lookup(x@) is Some,
        None => true,
    }
}

/// The subroutine that a call names: `T.f` for a method of a variable of class
/// `T`, `X.f` for a function or constructor of class `X`, and `C.f` in class `C`
/// for an unqualified call.
pub open spec fn callee(c: SubroutineCallNode, env: Scopes, class: Seq<char>) -> Seq<char> {
    match c.caller {
        Some(x) => match env.lookup(x@) {
            Some(sym) => qualified(sym.var_type->ClassName_0, c.subroutine_name@),
            None => qualified(x@, c.subroutine_name@),
        },
        None => qualified(class, c.subroutine_name@),
    }
}

/// A call ends with `call C.f n`, where `n` is the number of arguments written
/// plus one for a method call, and the number written for a function or
/// constructor call.
pub proof fn lemma_call_argument_count(c: SubroutineCallNode, env: Scopes, class: Seq<char>)
    requires
        gen_call(c, env, class) is Some,
    ensures
        gen_call(c, env, class)->0.last() == call_line(
            callee(c, env, class),
            if is_method_call(c, env) {
                c.expression_list@.len() + 1
            } else {
                c.expression_list@.len() as nat
            },
        ),
{
    let n = c.expression_list@.len();
    let code = gen_call(c, env, class)->0;
    match c.caller {
        Some(x) => match env.lookup(x@) {
            Some(sym) => {
                let callee = qualified(sym.var_type->ClassName_0, c.subroutine_name@);
                assert(code.last() == call_line(callee, n + 1));
            },
            None => {
                let callee = qualified(x@, c.subroutine_name@);
                assert(code.last() == call_line(callee, n));
            },
        },
        None => {
            let callee = qualified(class, c.subroutine_name@);
            assert(code.last() == call_line(callee, n + 1));
        },
    }
}

pub open spec fn lines_of(v: Seq<String>) -> Seq<Seq<char>> {
    v.map_values(|s: String| s@)
}

/// `after` is `before` followed by the lines of `spec`, where `spec` has lines;
/// otherwise the result is an error.
pub open spec fn appended(
    spec: Option<Seq<Seq<char>>>,
    before: Seq<String>,
    after: Seq<String>,
    r: Result<(), GenError>,
) -> bool {
    match spec {
        Some(l) => r is Ok && lines_of(after) == lines_of(before) + l,
        None => r is Err,
    }
}

/// `r` with the code `acc` in front of its code.
pub open spec fn prefixed(acc: Seq<Seq<char>>, r: Lowered) -> Lowered {
    match r {
        Some((l, i, w)) => Some((acc + l, i, w)),
        None => None,
    }
}

/// As `appended`, and the counters end where `spec` says.
pub open spec fn lowered(
    spec: Lowered,
    before: Seq<String>,
    after: Seq<String>,
    ifc: u32,
    whc: u32,
    r: Result<(), GenError>,
) -> bool {
    match spec {
        Some((l, i, w)) => r is Ok && lines_of(after) == lines_of(before) + l && ifc as nat == i
            && whc as nat == w,
        None => r is Err,
    }
}

/// Takes a parse tree and writes the corresponding VM code.
pub struct VMWriter {}

fn emit(vm_code: &mut Vec<String>, line: &str)
    ensures
        lines_of(final(vm_code)@) == lines_of(old(vm_code)@).push(line@),
{
    vm_code.push(String::from_str(line));
    assert(lines_of(vm_code@) =~= lines_of(old(vm_code)@).push(line@));
}

fn emit_command(vm_code: &mut Vec<String>, op: &str, arg: &str, n: u32)
    ensures
        lines_of(final(vm_code)@) == lines_of(old(vm_code)@).push(command(op@, arg@, n as nat)),
{
    let mut s = String::from_str(op);
    s.append(" ");
    s.append(arg);
    s.append(" ");
    append_decimal(&mut s, n);
    proof { reveal_strlit(" "); }
    vm_code.push(s);
    assert(lines_of(vm_code@) =~= lines_of(old(vm_code)@).push(command(op@, arg@, n as nat)));
}

fn emit_label(vm_code: &mut Vec<String>, op: &str, label: &str, n: u32)
    ensures
        lines_of(final(vm_code)@) == lines_of(old(vm_code)@).push(label_line(op@, label@, n as nat)),
{
    let mut s = String::from_str(op);
    s.append(" ");
    s.append(label);
    append_decimal(&mut s, n);
    vm_code.push(s);
    assert(lines_of(vm_code@) =~= lines_of(old(vm_code)@).push(label_line(op@, label@, n as nat)));
}

fn qualified_name(class: &str, name: &str) -> (r: String)
    ensures
        r@ == qualified(class@, name@),
{
    let mut s = String::from_str(class);
    s.append(".");
    s.append(name);
    s
}

impl VMWriter {
    fn push(&self, segment: &str, index: u32, vm_code: &mut Vec<String>)
        ensures
            lines_of(final(vm_code)@) == lines_of(old(vm_code)@).push(
                push_line(segment@, index as nat),
            ),
    {
        emit_command(vm_code, "push", segment, index);
    }

    fn pop(&self, segment: &str, index: u32, vm_code: &mut Vec<String>)
        ensures
            lines_of(final(vm_code)@) == lines_of(old(vm_code)@).push(
                pop_line(segment@, index as nat),
            ),
    {
        emit_command(vm_code, "pop", segment, index);
    }

    fn call(&self, subroutine_name: &str, num_args: u32, vm_code: &mut Vec<String>)
        ensures
            lines_of(final(vm_code)@) == lines_of(old(vm_code)@).push(
                call_line(subroutine_name@, num_args as nat),
            ),
    {
        emit_command(vm_code, "call", subroutine_name, num_args);
    }

    /// Pushes the variable `name`.
    fn push_variable(&self, name: &String, vm_code: &mut Vec<String>, symbol_table: &SymbolTable)
        -> (r: Result<(), GenError>)
        ensures
            appended(var_push_lines(symbol_table@, name@), old(vm_code)@, final(vm_code)@, r),
    {
        match (symbol_table.get_var_kind(name.as_str()), symbol_table.get_var_index(name.as_str())) {
            (Some(segment), Some(index)) => {
                self.push(segment, index, vm_code);
                assert(lines_of(vm_code@) =~= lines_of(old(vm_code)@) + var_push_lines(
                    symbol_table@,
                    name@,
                )->0);
                Ok(())
            },
            _ => Err(GenError::UnknownVariable(name.clone())),
        }
    }

    fn write_string_constant(&self, s: &String, vm_code: &mut Vec<String>) -> (r: Result<
        (),
        GenError,
    >)
        ensures
            appended(string_lines(s@), old(vm_code)@, final(vm_code)@, r),
            !is_ascii_text(s@) && fits(s@.len() as int) ==> r is Err && r->Err_0 is NonAsciiString
                && r->Err_0->NonAsciiString_0@ == s@,
    {
        let n = s.as_str().unicode_len();
        if n > 0xffff_ffff {
            return Err(GenError::TooLarge);
        }
        let ghost head = seq![push_line("constant"@, n as nat), call_line("String.new"@, 1)];
        self.push("constant", n as u32, vm_code);
        self.call("String.new", 1, vm_code);
        let ghost start = lines_of(vm_code@);
        assert(start =~= lines_of(old(vm_code)@) + head);
        assert(append_char_lines(s@.subrange(0, 0)) =~= Seq::empty());
        let mut i: usize = 0;
        while i < n
            invariant
                n == s@.len(),
                n <= 0xffff_ffff,
                i <= n,
                is_ascii_text(s@.subrange(0, i as int)),
                lines_of(vm_code@) == start + append_char_lines(s@.subrange(0, i as int)),
            decreases n - i,
        {
            let c = s.as_str().get_char(i);
            if (c as u32) >= 128 {
                return Err(GenError::NonAsciiString(s.clone()));
            }
            self.push("constant", c as u32, vm_code);
            self.call("String.appendChar", 2, vm_code);
            proof {
                let pre = s@.subrange(0, i + 1);
                assert(pre.drop_last() == s@.subrange(0, i as int));
                assert(is_ascii_text(pre)) by {
                    assert forall|k: int| 0 <= k < pre.len() implies (#[trigger] pre[k] as u32)
                        < 128 by {
                        if k < i {
                            assert(pre[k] == s@.subrange(0, i as int)[k]);
                        }
                    }
                }
            }
            i += 1;
        }
        assert(s@.subrange(0, n as int) == s@);
        assert(lines_of(vm_code@) =~= lines_of(old(vm_code)@) + (head + append_char_lines(s@)));
        Ok(())
    }

    fn write_keyword_constant(&self, k: Keyword, vm_code: &mut Vec<String>)
        ensures
            lines_of(final(vm_code)@) == lines_of(old(vm_code)@) + keyword_lines(k),
    {
        let ghost start = lines_of(vm_code@);
        match k {
            Keyword::True => {
                self.push("constant", 0, vm_code);
                emit(vm_code, "not");
            },
            Keyword::This => {
                self.push("pointer", 0, vm_code);
            },
            Keyword::Null | Keyword::False => {
                self.push("constant", 0, vm_code);
            },
            _ => {},
        }
        assert(lines_of(vm_code@) =~= start + keyword_lines(k));
    }

    fn write_binary_operator(&self, op: char, vm_code: &mut Vec<String>) -> (r: Result<
        (),
        GenError,
    >)
        ensures
            appended(
                match operator_command(op) {
                    Some(c) => Some(seq![c]),
                    None => None,
                },
                old(vm_code)@,
                final(vm_code)@,
                r,
            ),
    {
        let ghost start = lines_of(vm_code@);
        if op == '+' {
            emit(vm_code, "add");
        } else if op == '-' {
            emit(vm_code, "sub");
        } else if op == '=' {
            emit(vm_code, "eq");
        } else if op == '<' {
            emit(vm_code, "lt");
        } else if op == '>' {
            emit(vm_code, "gt");
        } else if op == '&' {
            emit(vm_code, "and");
        } else if op == '|' {
            emit(vm_code, "or");
        } else if op == '*' {
            emit(vm_code, "call Math.multiply 2");
        } else if op == '/' {
            emit(vm_code, "call Math.divide 2");
        } else {
            return Err(GenError::UnknownOperator(op));
        }
        assert(lines_of(vm_code@) =~= start + seq![operator_command(op)->0]);
        Ok(())
    }

    fn write_term_node(
        &self,
        term_node: &TermNode,
        class_name: &str,
        vm_code: &mut Vec<String>,
        symbol_table: &SymbolTable,
    ) -> (r: Result<(), GenError>)
        ensures
            appended(
                gen_term(*term_node, symbol_table@, class_name@),
                old(vm_code)@,
                final(vm_code)@,
                r,
            ),
        decreases term_node, 0int,
    {
        let ghost start = lines_of(vm_code@);
        match &term_node.element {
            TermElement::IntegerConstant(v) => {
                self.push("constant", *v as u32, vm_code);
                assert(lines_of(vm_code@) =~= start + seq![push_line("constant"@, *v as nat)]);
                Ok(())
            },
            TermElement::StringConstant(s) => self.write_string_constant(s, vm_code),
            TermElement::KeywordConstant(k) => {
                self.write_keyword_constant(*k, vm_code);
                Ok(())
            },
            TermElement::Identifier(name) => {
                let r = self.push_variable(name, vm_code, symbol_table);
                r
            },
            TermElement::IndexedIdentifier(name, e) => {
                self.evaluate_array_index(name, e, class_name, vm_code, symbol_table)
            },
            TermElement::Expression(e) => {
                self.write_expression(e, class_name, vm_code, symbol_table)
            },
            TermElement::Unary(op, inner) => {
                self.evaluate_unary_operator(*op, inner, class_name, vm_code, symbol_table)
            },
            TermElement::SubroutineCall(c) => {
                self.write_subroutine_call(c, class_name, vm_code, symbol_table)
            },
        }
    }

    /// `a[e]`: the address `a + e` goes to `pointer 1`, and `that 0` is pushed.
    fn evaluate_array_index(
        &self,
        name: &String,
        index: &ExpressionNode,
        class_name: &str,
        vm_code: &mut Vec<String>,
        symbol_table: &SymbolTable,
    ) -> (r: Result<(), GenError>)
        ensures
            appended(
                opt_concat(
                    opt_concat(
                        gen_expr(*index, symbol_table@, class_name@),
                        var_push_lines(symbol_table@, name@),
                    ),
                    Some(seq!["add"@, pop_line("pointer"@, 1), push_line("that"@, 0)]),
                ),
                old(vm_code)@,
                final(vm_code)@,
                r,
            ),
        decreases index, 3int,
    {
        let ghost start = lines_of(vm_code@);
        self.write_expression(index, class_name, vm_code, symbol_table)?;
        let ghost a = gen_expr(*index, symbol_table@, class_name@)->0;
        self.push_variable(name, vm_code, symbol_table)?;
        let ghost b = var_push_lines(symbol_table@, name@)->0;
        let ghost mid2 = lines_of(vm_code@);
        emit(vm_code, "add");
        self.pop("pointer", 1, vm_code);
        self.push("that", 0, vm_code);
        let ghost tail = seq!["add"@, pop_line("pointer"@, 1), push_line("that"@, 0)];
        assert(lines_of(vm_code@) =~= mid2 + tail);
        assert(lines_of(vm_code@) =~= start + (a + b + tail));
        Ok(())
    }

    /// `-t` and `~t`: the term, then `neg` or `not`.
    fn evaluate_unary_operator(
        &self,
        op: char,
        inner: &TermNode,
        class_name: &str,
        vm_code: &mut Vec<String>,
        symbol_table: &SymbolTable,
    ) -> (r: Result<(), GenError>)
        ensures
            appended(
                opt_concat(
                    gen_term(*inner, symbol_table@, class_name@),
                    Some(seq![if op == '-' { "neg"@ } else { "not"@ }]),
                ),
                old(vm_code)@,
                final(vm_code)@,
                r,
            ),
        decreases inner, 1int,
    {
        let ghost start = lines_of(vm_code@);
        self.write_term_node(inner, class_name, vm_code, symbol_table)?;
        let ghost a = gen_term(*inner, symbol_table@, class_name@)->0;
        if op == '-' {
            emit(vm_code, "neg");
        } else {
            emit(vm_code, "not");
        }
        assert(lines_of(vm_code@) =~= start + (a + seq![
            if op == '-' { "neg"@ } else { "not"@ },
        ]));
        Ok(())
    }

    fn write_expression(
        &self,
        expression_node: &ExpressionNode,
        class_name: &str,
        vm_code: &mut Vec<String>,
        symbol_table: &SymbolTable,
    ) -> (r: Result<(), GenError>)
        ensures
            appended(
                gen_expr(*expression_node, symbol_table@, class_name@),
                old(vm_code)@,
                final(vm_code)@,
                r,
            ),
        decreases expression_node, 2int,
    {
        let ghost e = *expression_node;
        let ghost env = symbol_table@;
        let ghost cls = class_name@;
        let n = expression_node.elements.len();
        if n == 0 {
            assert(lines_of(vm_code@) =~= lines_of(old(vm_code)@) + Seq::empty());
            return Ok(());
        }
        let ghost start = lines_of(vm_code@);
        let ghost mut acc: Seq<Seq<char>> = Seq::empty();
        match &expression_node.elements[0] {
            ExpressionElement::Term(t) => {
                self.write_term_node(t, class_name, vm_code, symbol_table)?;
                proof {
                    acc = gen_term(*t, env, cls)->0;
                }
            },
            ExpressionElement::Operator(_) => {},
        }
        assert(lines_of(vm_code@) =~= start + acc);
        let mut i: usize = 1;
        while i < n - 1
            invariant
                e == *expression_node,
                env == symbol_table@,
                cls == class_name@,
                n == e.elements@.len(),
                n >= 1,
                1 <= i,
                lines_of(vm_code@) == start + acc,
                gen_expr(e, env, cls) == opt_concat(Some(acc), gen_expr_from(e, i as int, env, cls)),
            decreases n - i,
        {
            self.write_operation(expression_node, i, class_name, vm_code, symbol_table)?;
            proof {
                let step = opt_concat(pair_term(e, i as int, env, cls), pair_operator(e, i as int))->0;
                let rest = gen_expr_from(e, i + 2, env, cls);
                if let Some(x) = rest {
                    assert(acc + (step + x) == (acc + step) + x);
                }
                assert(lines_of(vm_code@) =~= start + (acc + step));
                acc = acc + step;
            }
            i += 2;
        }
        proof {
            assert(acc + Seq::<Seq<char>>::empty() == acc);
        }
        Ok(())
    }

    /// The term at `i + 1`, then the operator at `i`.
    fn write_operation(
        &self,
        expression_node: &ExpressionNode,
        i: usize,
        class_name: &str,
        vm_code: &mut Vec<String>,
        symbol_table: &SymbolTable,
    ) -> (r: Result<(), GenError>)
        requires
            1 <= i,
            i + 1 < expression_node.elements@.len(),
        ensures
            appended(
                opt_concat(
                    pair_term(*expression_node, i as int, symbol_table@, class_name@),
                    pair_operator(*expression_node, i as int),
                ),
                old(vm_code)@,
                final(vm_code)@,
                r,
            ),
        decreases expression_node, 1int,
    {
        let ghost start = lines_of(vm_code@);
        let ghost mut step: Seq<Seq<char>> = Seq::empty();
        let n = expression_node.elements.len();
        assert(i < n - 1);
        match &expression_node.elements[i + 1] {
            ExpressionElement::Term(t) => {
                self.write_term_node(t, class_name, vm_code, symbol_table)?;
                proof {
                    step = gen_term(*t, symbol_table@, class_name@)->0;
                }
            },
            ExpressionElement::Operator(_) => {},
        }
        assert(lines_of(vm_code@) =~= start + step);
        match &expression_node.elements[i] {
            ExpressionElement::Operator(op) => {
                self.write_binary_operator(*op, vm_code)?;
                proof {
                    step = step + seq![operator_command(*op)->0];
                }
            },
            ExpressionElement::Term(_) => {},
        }
        assert(lines_of(vm_code@) =~= start + step);
        Ok(())
    }

    fn write_subroutine_call(
        &self,
        subroutine_call: &SubroutineCallNode,
        class_name: &str,
        vm_code: &mut Vec<String>,
        symbol_table: &SymbolTable,
    ) -> (r: Result<(), GenError>)
        ensures
            appended(
                gen_call(*subroutine_call, symbol_table@, class_name@),
                old(vm_code)@,
                final(vm_code)@,
                r,
            ),
            ({
                let c = *subroutine_call;
                c.caller is Some && symbol_table@.lookup(c.caller->0@) is Some && !(symbol_table@.lookup(
                    c.caller->0@,
                )->0.var_type is ClassName) ==> r is Err && r->Err_0 is NotAnObject
                    && r->Err_0->NotAnObject_0@ == c.caller->0@
            }),
        decreases subroutine_call, 0int,
    {
        let ghost env = symbol_table@;
        let ghost cls = class_name@;
        let ghost c = *subroutine_call;
        let n = subroutine_call.expression_list.len();
        let ghost start = lines_of(vm_code@);
        let ghost mut prefix: Seq<Seq<char>> = Seq::empty();
        let callee: String;
        let count: u32;
        match &subroutine_call.caller {
            Some(x) => {
                match symbol_table.get_var_type(x.as_str()) {
                    Some(VarType::ClassName(object_class)) => {
                        if n >= 0xffff_ffff {
                            return Err(GenError::TooLarge);
                        }
                        let segment = symbol_table.get_var_kind(x.as_str()).unwrap();
                        let index = symbol_table.get_var_index(x.as_str()).unwrap();
                        self.push(segment, index, vm_code);
                        proof {
                            prefix = seq![push_line(segment@, index as nat)];
                        }
                        callee = qualified_name(object_class.as_str(), subroutine_call.subroutine_name.as_str());
                        count = n as u32 + 1;
                    },
                    Some(_) => {
                        return Err(GenError::NotAnObject(x.clone()));
                    },
                    None => {
                        if n > 0xffff_ffff {
                            return Err(GenError::TooLarge);
                        }
                        callee = qualified_name(x.as_str(), subroutine_call.subroutine_name.as_str());
                        count = n as u32;
                    },
                }
            },
            None => {
                if n >= 0xffff_ffff {
                    return Err(GenError::TooLarge);
                }
                self.push("pointer", 0, vm_code);
                proof {
                    prefix = seq![push_line("pointer"@, 0)];
                }
                callee = qualified_name(class_name, subroutine_call.subroutine_name.as_str());
                count = n as u32 + 1;
            },
        }
        assert(lines_of(vm_code@) =~= start + prefix);
        let ghost mut acc: Seq<Seq<char>> = Seq::empty();
        let mut i: usize = 0;
        while i < n
            invariant
                c == *subroutine_call,
                env == symbol_table@,
                cls == class_name@,
                n == c.expression_list@.len(),
                i <= n,
                !(c.caller is Some && env.lookup(c.caller->0@) is Some && !(env.lookup(
                    c.caller->0@,
                )->0.var_type is ClassName)),
                lines_of(vm_code@) == start + prefix + acc,
                gen_args(c, 0, env, cls) == opt_concat(Some(acc), gen_args(c, i as int, env, cls)),
            decreases n - i,
        {
            self.write_expression(&subroutine_call.expression_list[i], class_name, vm_code, symbol_table)?;
            proof {
                let step = gen_expr(c.expression_list@[i as int], env, cls)->0;
                let rest = gen_args(c, i + 1, env, cls);
                if let Some(x) = rest {
                    assert(acc + (step + x) == (acc + step) + x);
                }
                assert(lines_of(vm_code@) =~= start + prefix + (acc + step));
                acc = acc + step;
            }
            i += 1;
        }
        assert(acc + Seq::<Seq<char>>::empty() == acc);
        self.call(callee.as_str(), count, vm_code);
        assert(lines_of(vm_code@) =~= start + (prefix + acc + seq![call_line(callee@, count as nat)]));
        Ok(())
    }

    fn pop_variable(&self, name: &String, vm_code: &mut Vec<String>, symbol_table: &SymbolTable)
        -> (r: Result<(), GenError>)
        ensures
            appended(var_pop_lines(symbol_table@, name@), old(vm_code)@, final(vm_code)@, r),
    {
        match (symbol_table.get_var_kind(name.as_str()), symbol_table.get_var_index(name.as_str())) {
            (Some(segment), Some(index)) => {
                self.pop(segment, index, vm_code);
                assert(lines_of(vm_code@) =~= lines_of(old(vm_code)@) + var_pop_lines(
                    symbol_table@,
                    name@,
                )->0);
                Ok(())
            },
            _ => Err(GenError::UnknownVariable(name.clone())),
        }
    }

    fn write_let_statement(
        &self,
        let_statement: &LetStatementNode,
        class_name: &str,
        vm_code: &mut Vec<String>,
        symbol_table: &SymbolTable,
    ) -> (r: Result<(), GenError>)
        ensures
            appended(
                gen_let(*let_statement, symbol_table@, class_name@),
                old(vm_code)@,
                final(vm_code)@,
                r,
            ),
    {
        let ghost env = symbol_table@;
        let ghost cls = class_name@;
        let ghost start = lines_of(vm_code@);
        match &let_statement.lhs_expression {
            Some(e) => {
                self.write_expression(e, class_name, vm_code, symbol_table)?;
                let ghost a = gen_expr(*e, env, cls)->0;
                self.push_variable(&let_statement.var_name, vm_code, symbol_table)?;
                let ghost b = var_push_lines(env, let_statement.var_name@)->0;
                emit(vm_code, "add");
                self.write_expression(&let_statement.rhs_expression, class_name, vm_code, symbol_table)?;
                let ghost c = gen_expr(let_statement.rhs_expression, env, cls)->0;
                let ghost mid = lines_of(vm_code@);
                self.pop("temp", 0, vm_code);
                self.pop("pointer", 1, vm_code);
                self.push("temp", 0, vm_code);
                self.pop("that", 0, vm_code);
                let ghost tail = seq![
                    pop_line("temp"@, 0),
                    pop_line("pointer"@, 1),
                    push_line("temp"@, 0),
                    pop_line("that"@, 0),
                ];
                assert(mid =~= start + ((a + b) + (seq!["add"@] + c)));
                assert(lines_of(vm_code@) =~= mid + tail);
                assert(lines_of(vm_code@) =~= start + (((a + b) + (seq!["add"@] + c)) + tail));
                Ok(())
            },
            None => {
                self.write_expression(&let_statement.rhs_expression, class_name, vm_code, symbol_table)?;
                let ghost c = gen_expr(let_statement.rhs_expression, env, cls)->0;
                self.pop_variable(&let_statement.var_name, vm_code, symbol_table)?;
                let ghost d = var_pop_lines(env, let_statement.var_name@)->0;
                assert(lines_of(vm_code@) =~= start + (c + d));
                Ok(())
            },
        }
    }

    fn write_do_statement(
        &self,
        do_statement: &DoStatementNode,
        class_name: &str,
        vm_code: &mut Vec<String>,
        symbol_table: &SymbolTable,
    ) -> (r: Result<(), GenError>)
        ensures
            appended(
                gen_do(*do_statement, symbol_table@, class_name@),
                old(vm_code)@,
                final(vm_code)@,
                r,
            ),
    {
        let ghost start = lines_of(vm_code@);
        self.write_subroutine_call(&do_statement.subroutine_call, class_name, vm_code, symbol_table)?;
        let ghost a = gen_call(do_statement.subroutine_call, symbol_table@, class_name@)->0;
        self.pop("temp", 0, vm_code);
        assert(lines_of(vm_code@) =~= start + (a + seq![pop_line("temp"@, 0)]));
        Ok(())
    }

    fn write_return_statement(
        &self,
        return_statement: &ReturnStatementNode,
        class_name: &str,
        vm_code: &mut Vec<String>,
        symbol_table: &SymbolTable,
    ) -> (r: Result<(), GenError>)
        ensures
            appended(
                gen_return(*return_statement, symbol_table@, class_name@),
                old(vm_code)@,
                final(vm_code)@,
                r,
            ),
    {
        let ghost start = lines_of(vm_code@);
        let ghost mut a: Seq<Seq<char>> = Seq::empty();
        match &return_statement.expression {
            Some(e) => {
                self.write_expression(e, class_name, vm_code, symbol_table)?;
                proof {
                    a = gen_expr(*e, symbol_table@, class_name@)->0;
                }
            },
            None => {
                self.push("constant", 0, vm_code);
                proof {
                    a = seq![push_line("constant"@, 0)];
                }
            },
        }
        assert(lines_of(vm_code@) =~= start + a);
        emit(vm_code, "return");
        assert(lines_of(vm_code@) =~= start + (a + seq!["return"@]));
        Ok(())
    }

    fn write_statement(
        &self,
        statement: &Statement,
        class_name: &str,
        if_index: &mut u32,
        while_index: &mut u32,
        vm_code: &mut Vec<String>,
        symbol_table: &SymbolTable,
    ) -> (r: Result<(), GenError>)
        ensures
            lowered(
                gen_stmt(
                    *statement,
                    symbol_table@,
                    class_name@,
                    *old(if_index) as nat,
                    *old(while_index) as nat,
                ),
                old(vm_code)@,
                final(vm_code)@,
                *final(if_index),
                *final(while_index),
                r,
            ),
        decreases statement,
    {
        match statement {
            Statement::Let(l) => self.write_let_statement(l, class_name, vm_code, symbol_table),
            Statement::Do(d) => self.write_do_statement(d, class_name, vm_code, symbol_table),
            Statement::Return(x) => self.write_return_statement(x, class_name, vm_code, symbol_table),
            Statement::If(n) => self.write_if_statement(
                n,
                class_name,
                if_index,
                while_index,
                vm_code,
                symbol_table,
            ),
            Statement::While(w) => self.write_while_statement(
                w,
                class_name,
                if_index,
                while_index,
                vm_code,
                symbol_table,
            ),
        }
    }

    fn write_statements(
        &self,
        statements: &Vec<Statement>,
        class_name: &str,
        if_index: &mut u32,
        while_index: &mut u32,
        vm_code: &mut Vec<String>,
        symbol_table: &SymbolTable,
    ) -> (r: Result<(), GenError>)
        ensures
            lowered(
                gen_block(
                    *statements,
                    0,
                    symbol_table@,
                    class_name@,
                    *old(if_index) as nat,
                    *old(while_index) as nat,
                ),
                old(vm_code)@,
                final(vm_code)@,
                *final(if_index),
                *final(while_index),
                r,
            ),
        decreases statements,
    {
        let ghost env = symbol_table@;
        let ghost cls = class_name@;
        let ghost v = *statements;
        let ghost start = lines_of(vm_code@);
        let ghost mut acc: Seq<Seq<char>> = Seq::empty();
        let n = statements.len();
        let mut i: usize = 0;
        while i < n
            invariant
                v == *statements,
                env == symbol_table@,
                cls == class_name@,
                n == v@.len(),
                i <= n,
                lines_of(vm_code@) == start + acc,
                gen_block(v, 0, env, cls, *old(if_index) as nat, *old(while_index) as nat)
                    == prefixed(
                    acc,
                    gen_block(v, i as int, env, cls, *if_index as nat, *while_index as nat),
                ),
            decreases n - i,
        {
            let ghost i0 = *if_index as nat;
            let ghost w0 = *while_index as nat;
            self.write_statement(&statements[i], class_name, if_index, while_index, vm_code, symbol_table)?;
            proof {
                let step = (gen_stmt(v@[i as int], env, cls, i0, w0)->0).0;
                let rest = gen_block(v, i + 1, env, cls, *if_index as nat, *while_index as nat);
                if let Some((x, a, b)) = rest {
                    assert(acc + (step + x) == (acc + step) + x);
                }
                assert(lines_of(vm_code@) =~= start + (acc + step));
                acc = acc + step;
            }
            i += 1;
        }
        assert(acc + Seq::<Seq<char>>::empty() == acc);
        Ok(())
    }

    fn write_if_statement(
        &self,
        if_statement: &IfStatementNode,
        class_name: &str,
        if_index: &mut u32,
        while_index: &mut u32,
        vm_code: &mut Vec<String>,
        symbol_table: &SymbolTable,
    ) -> (r: Result<(), GenError>)
        ensures
            lowered(
                gen_if(
                    *if_statement,
                    symbol_table@,
                    class_name@,
                    *old(if_index) as nat,
                    *old(while_index) as nat,
                ),
                old(vm_code)@,
                final(vm_code)@,
                *final(if_index),
                *final(while_index),
                r,
            ),
        decreases if_statement,
    {
        let ghost env = symbol_table@;
        let ghost cls = class_name@;
        let ghost start = lines_of(vm_code@);
        self.write_expression(&if_statement.condition, class_name, vm_code, symbol_table)?;
        let ghost cond = gen_expr(if_statement.condition, env, cls)->0;
        let temp_idx = *if_index;
        if temp_idx == 0xffff_ffff {
            return Err(GenError::TooLarge);
        }
        emit_label(vm_code, "if-goto", "IF_TRUE", temp_idx);
        emit_label(vm_code, "goto", "IF_FALSE", temp_idx);
        emit_label(vm_code, "label", "IF_TRUE", temp_idx);
        let ghost labels = seq![
            label_line("if-goto"@, "IF_TRUE"@, temp_idx as nat),
            label_line("goto"@, "IF_FALSE"@, temp_idx as nat),
            label_line("label"@, "IF_TRUE"@, temp_idx as nat),
        ];
        assert(lines_of(vm_code@) =~= start + (cond + labels));
        *if_index = temp_idx + 1;
        self.write_statements(&if_statement.if_block, class_name, if_index, while_index, vm_code, symbol_table)?;
        let ghost then_lines = (gen_block(
            if_statement.if_block,
            0,
            env,
            cls,
            temp_idx as nat + 1,
            *old(while_index) as nat,
        )->0).0;
        let ghost head = cond + labels + then_lines;
        assert(lines_of(vm_code@) =~= start + head);
        match &if_statement.else_block {
            Some(b) => {
                emit_label(vm_code, "goto", "IF_END", temp_idx);
                emit_label(vm_code, "label", "IF_FALSE", temp_idx);
                let ghost mid = seq![
                    label_line("goto"@, "IF_END"@, temp_idx as nat),
                    label_line("label"@, "IF_FALSE"@, temp_idx as nat),
                ];
                let ghost i1 = *if_index as nat;
                let ghost w1 = *while_index as nat;
                assert(lines_of(vm_code@) =~= start + (head + mid));
                self.write_statements(b, class_name, if_index, while_index, vm_code, symbol_table)?;
                let ghost else_lines = (gen_block(*b, 0, env, cls, i1, w1)->0).0;
                emit_label(vm_code, "label", "IF_END", temp_idx);
                assert(lines_of(vm_code@) =~= start + (head + mid + else_lines + seq![
                    label_line("label"@, "IF_END"@, temp_idx as nat),
                ]));
            },
            None => {
                emit_label(vm_code, "label", "IF_FALSE", temp_idx);
                assert(lines_of(vm_code@) =~= start + (head + seq![
                    label_line("label"@, "IF_FALSE"@, temp_idx as nat),
                ]));
            },
        }
        Ok(())
    }

    fn write_while_statement(
        &self,
        while_statement: &WhileStatementNode,
        class_name: &str,
        if_index: &mut u32,
        while_index: &mut u32,
        vm_code: &mut Vec<String>,
        symbol_table: &SymbolTable,
    ) -> (r: Result<(), GenError>)
        ensures
            lowered(
                gen_while(
                    *while_statement,
                    symbol_table@,
                    class_name@,
                    *old(if_index) as nat,
                    *old(while_index) as nat,
                ),
                old(vm_code)@,
                final(vm_code)@,
                *final(if_index),
                *final(while_index),
                r,
            ),
        decreases while_statement,
    {
        let ghost env = symbol_table@;
        let ghost cls = class_name@;
        let ghost start = lines_of(vm_code@);
        let temp_idx = *while_index;
        if temp_idx == 0xffff_ffff {
            return Err(GenError::TooLarge);
        }
        *while_index = temp_idx + 1;
        emit_label(vm_code, "label", "WHILE_EXP", temp_idx);
        self.write_expression(&while_statement.condition, class_name, vm_code, symbol_table)?;
        let ghost cond = gen_expr(while_statement.condition, env, cls)->0;
        emit(vm_code, "not");
        emit_label(vm_code, "if-goto", "WHILE_END", temp_idx);
        let ghost head = seq![label_line("label"@, "WHILE_EXP"@, temp_idx as nat)] + cond + seq![
            "not"@,
            label_line("if-goto"@, "WHILE_END"@, temp_idx as nat),
        ];
        assert(lines_of(vm_code@) =~= start + head);
        self.write_statements(&while_statement.block, class_name, if_index, while_index, vm_code, symbol_table)?;
        let ghost body = (gen_block(
            while_statement.block,
            0,
            env,
            cls,
            *old(if_index) as nat,
            temp_idx as nat + 1,
        )->0).0;
        emit_label(vm_code, "goto", "WHILE_EXP", temp_idx);
        emit_label(vm_code, "label", "WHILE_END", temp_idx);
        assert(lines_of(vm_code@) =~= start + (head + body + seq![
            label_line("goto"@, "WHILE_EXP"@, temp_idx as nat),
            label_line("label"@, "WHILE_END"@, temp_idx as nat),
        ]));
        Ok(())
    }

    pub fn new() -> (r: VMWriter) {
        VMWriter {}
    }

    /// Takes a parse tree and returns the VM code of its class, one command per
    /// line, each line ended by a newline.
    pub fn write(&self, parse_tree: &ParseTree) -> (r: Result<String, GenError>)
        ensures
            match gen_class(parse_tree.class_node) {
                Some(l) => r is Ok && r->Ok_0@ == vm_text(l),
                None => r is Err,
            },
    {
        let mut vm_code: Vec<String> = Vec::new();
        let mut symbol_table = SymbolTable::new();
        self.write_class(&parse_tree.class_node, &mut vm_code, &mut symbol_table)?;
        assert(lines_of(vm_code@) =~= Seq::<Seq<char>>::empty() + gen_class(
            parse_tree.class_node,
        )->0);
        Ok(join_lines(&vm_code))
    }

    fn write_class(
        &self,
        class_node: &ClassNode,
        vm_code: &mut Vec<String>,
        symbol_table: &mut SymbolTable,
    ) -> (r: Result<(), GenError>)
        requires
            old(symbol_table)@.class_scope.len() == 0,
        ensures
            appended(gen_class(*class_node), old(vm_code)@, final(vm_code)@, r),
    {
        let ghost vars = class_node.variables@;
        let mut field_index: u32 = 0;
        let mut static_index: u32 = 0;
        let nv = class_node.variables.len();
        let mut k: usize = 0;
        assert(vars.take(0) =~= Seq::<ClassVarNode>::empty());
        while k < nv
            invariant
                vars == class_node.variables@,
                nv == vars.len(),
                k <= nv,
                symbol_table@.class_scope == class_symbols(vars.take(k as int)).0,
                static_index as nat == class_symbols(vars.take(k as int)).1,
                field_index as nat == class_symbols(vars.take(k as int)).2,
                lines_of(vm_code@) == lines_of(old(vm_code)@),
            decreases nv - k,
        {
            let var = &class_node.variables[k];
            let is_static = var.var_kind == VarKind::Static;
            let kind = if is_static {
                VarKind::Static
            } else {
                VarKind::Field
            };
            let ghost base = symbol_table@.class_scope;
            let ghost first = if is_static {
                static_index as nat
            } else {
                field_index as nat
            };
            let ghost static0 = static_index;
            let ghost field0 = field_index;
            proof {
                lemma_class_counts_grow(vars, k as int);
                let pre = vars.take(k + 1);
                assert(pre.drop_last() == vars.take(k as int));
                assert(var.names@.take(0) =~= Seq::<String>::empty());
            }
            let nn = var.names.len();
            let mut j: usize = 0;
            while j < nn
                invariant
                    vars == class_node.variables@,
                    *var == vars[k as int],
                    k < nv,
                    nv == vars.len(),
                    nn == var.names@.len(),
                    j <= nn,
                    is_static == (var.var_kind == VarKind::Static),
                    kind == (if is_static {
                        VarKind::Static
                    } else {
                        VarKind::Field
                    }),
                    first == (if is_static {
                        static0 as nat
                    } else {
                        field0 as nat
                    }),
                    static0 as nat == class_symbols(vars.take(k as int)).1,
                    field0 as nat == class_symbols(vars.take(k as int)).2,
                    is_static ==> static_index == static0 + j && field_index == field0,
                    !is_static ==> field_index == field0 + j && static_index == static0,
                    is_static ==> class_symbols(vars.take(k + 1)).1 == static0 + nn,
                    !is_static ==> class_symbols(vars.take(k + 1)).2 == field0 + nn,
                    class_symbols(vars.take(k + 1)).1 <= class_symbols(vars).1,
                    class_symbols(vars.take(k + 1)).2 <= class_symbols(vars).2,
                    symbol_table@.class_scope == base + name_symbols(
                        var.names@.take(j as int),
                        var.var_type@,
                        kind,
                        first,
                    ),
                    lines_of(vm_code@) == lines_of(old(vm_code)@),
                decreases nn - j,
            {
                let index = if is_static {
                    static_index
                } else {
                    field_index
                };
                if index == 0xffff_ffff {
                    return Err(GenError::TooLarge);
                }
                symbol_table.define(&var.names[j], &var.var_type, &kind, index);
                if is_static {
                    static_index = static_index + 1;
                } else {
                    field_index = field_index + 1;
                }
                proof {
                    let pre = var.names@.take(j + 1);
                    assert(pre.drop_last() == var.names@.take(j as int));
                    lemma_name_symbols_len(var.names@.take(j as int), var.var_type@, kind, first);
                }
                j += 1;
            }
            assert(var.names@.take(nn as int) == var.names@);
            k += 1;
        }
        assert(vars.take(nv as int) == vars);
        let ghost cs = symbol_table@.class_scope;
        let ghost subs = class_node.subroutines@;
        let ghost cls = class_node.name@;
        let ghost start = lines_of(vm_code@);
        let ghost mut acc: Seq<Seq<char>> = Seq::empty();
        let ns = class_node.subroutines.len();
        let mut i: usize = 0;
        assert(subs.take(0) =~= Seq::<SubroutineNode>::empty());
        while i < ns
            invariant
                subs == class_node.subroutines@,
                cls == class_node.name@,
                ns == subs.len(),
                i <= ns,
                symbol_table@.class_scope == cs,
                cs == class_symbols(class_node.variables@).0,
                static_index as nat == class_symbols(class_node.variables@).1,
                field_index as nat == class_symbols(class_node.variables@).2,
                lines_of(vm_code@) == start + acc,
                start == lines_of(old(vm_code)@),
                gen_subroutines(subs.take(i as int), cs, cls, field_index as nat) == Some(acc),
            decreases ns - i,
        {
            let ghost pre = subs.take(i + 1);
            assert(pre.drop_last() == subs.take(i as int));
            let r = self.write_subroutine(
                &class_node.subroutines[i],
                &class_node.name,
                field_index,
                vm_code,
                symbol_table,
            );
            if r.is_err() {
                proof {
                    assert(pre.last() == subs[i as int]);
                    assert(gen_subroutines(pre, cs, cls, field_index as nat) is None);
                    lemma_subroutines_stay_failed(subs, i + 1, cs, cls, field_index as nat);
                }
                return r;
            }
            proof {
                let step = gen_subroutine(subs[i as int], cs, cls, field_index as nat)->0;
                assert(lines_of(vm_code@) =~= start + (acc + step));
                acc = acc + step;
            }
            i += 1;
        }
        assert(subs.take(ns as int) == subs);
        Ok(())
    }

    fn write_subroutine(
        &self,
        subroutine_node: &SubroutineNode,
        class_name: &String,
        num_fields: u32,
        vm_code: &mut Vec<String>,
        symbol_table: &mut SymbolTable,
    ) -> (r: Result<(), GenError>)
        ensures
            final(symbol_table)@.class_scope == old(symbol_table)@.class_scope,
            final(symbol_table)@.subroutine_scope.len() == 0,
            appended(
                gen_subroutine(
                    *subroutine_node,
                    old(symbol_table)@.class_scope,
                    class_name@,
                    num_fields as nat,
                ),
                old(vm_code)@,
                final(vm_code)@,
                r,
            ),
    {
        let ghost cs = old(symbol_table)@.class_scope;
        let ghost params = subroutine_node.parameter_list.parameters@;
        symbol_table.clear_subroutine_scope();
        assert(symbol_table@.subroutine_scope =~= Seq::<SymbolV>::empty());
        let mut param_index: u32 = 0;
        if subroutine_node.subroutine_type == SubroutineType::Method {
            let this_name = String::from_str("this");
            let this_type = VarType::ClassName(class_name.clone());
            symbol_table.define(&this_name, &this_type, &VarKind::Arg, 0);
            param_index = 1;
        }
        let ghost this = symbol_table@.subroutine_scope;
        let ghost args = argument_symbols(*subroutine_node, class_name@);
        proof {
            lemma_param_symbols_len(params, this.len());
            assert(params.take(0) =~= Seq::<ParameterNode>::empty());
            assert(this + param_symbols(params.take(0), this.len()) =~= this);
        }
        let np = subroutine_node.parameter_list.parameters.len();
        let mut j: usize = 0;
        while j < np
            invariant
                params == subroutine_node.parameter_list.parameters@,
                np == params.len(),
                j <= np,
                this.len() <= 1,
                cs == old(symbol_table)@.class_scope,
                args == argument_symbols(*subroutine_node, class_name@),
                args == this + param_symbols(params, this.len()),
                args.len() == this.len() + np,
                param_index as nat == this.len() + j,
                symbol_table@.class_scope == cs,
                symbol_table@.subroutine_scope == this + param_symbols(
                    params.take(j as int),
                    this.len(),
                ),
            decreases np - j,
        {
            if param_index == 0xffff_ffff {
                symbol_table.clear_subroutine_scope();
                return Err(GenError::TooLarge);
            }
            let param = &subroutine_node.parameter_list.parameters[j];
            symbol_table.define(&param.name, &param.var_type, &VarKind::Arg, param_index);
            param_index = param_index + 1;
            proof {
                let pre = params.take(j + 1);
                assert(pre.drop_last() == params.take(j as int));
                lemma_param_symbols_len(params.take(j as int), this.len());
            }
            j += 1;
        }
        assert(params.take(np as int) == params);
        let r = self.write_subroutine_body(
            &subroutine_node.body,
            class_name,
            &subroutine_node.name,
            subroutine_node.subroutine_type,
            num_fields,
            vm_code,
            symbol_table,
        );
        symbol_table.clear_subroutine_scope();
        r
    }

    fn write_subroutine_body(
        &self,
        subroutine_body: &SubroutineBodyNode,
        class_name: &String,
        subroutine_name: &String,
        subroutine_type: SubroutineType,
        num_fields: u32,
        vm_code: &mut Vec<String>,
        symbol_table: &mut SymbolTable,
    ) -> (r: Result<(), GenError>)
        ensures
            final(symbol_table)@.class_scope == old(symbol_table)@.class_scope,
            appended(
                gen_body(
                    *subroutine_body,
                    old(symbol_table)@.class_scope,
                    old(symbol_table)@.subroutine_scope,
                    class_name@,
                    subroutine_name@,
                    subroutine_type,
                    num_fields as nat,
                ),
                old(vm_code)@,
                final(vm_code)@,
                r,
            ),
    {
        let ghost cs = old(symbol_table)@.class_scope;
        let ghost args = old(symbol_table)@.subroutine_scope;
        let ghost vars = subroutine_body.variables@;
        let mut local_index: u32 = 0;
        let nv = subroutine_body.variables.len();
        let mut k: usize = 0;
        assert(vars.take(0) =~= Seq::<VarNode>::empty());
        assert(args + local_symbols(vars.take(0)) =~= args);
        while k < nv
            invariant
                vars == subroutine_body.variables@,
                nv == vars.len(),
                k <= nv,
                cs == old(symbol_table)@.class_scope,
                args == old(symbol_table)@.subroutine_scope,
                symbol_table@.class_scope == cs,
                symbol_table@.subroutine_scope == args + local_symbols(vars.take(k as int)),
                local_index as nat == local_symbols(vars.take(k as int)).len(),
            decreases nv - k,
        {
            let var = &subroutine_body.variables[k];
            let ghost base = symbol_table@.subroutine_scope;
            let ghost first = local_index as nat;
            proof {
                lemma_local_symbols_grow(vars, k as int);
                let pre = vars.take(k + 1);
                assert(pre.drop_last() == vars.take(k as int));
                assert(var.var_names@.take(0) =~= Seq::<String>::empty());
            }
            let nn = var.var_names.len();
            let mut j: usize = 0;
            while j < nn
                invariant
                    vars == subroutine_body.variables@,
                    *var == vars[k as int],
                    k < nv,
                    nv == vars.len(),
                    nn == var.var_names@.len(),
                    j <= nn,
                    first == local_symbols(vars.take(k as int)).len(),
                    local_index as nat == first + j,
                    local_symbols(vars.take(k + 1)).len() == first + nn,
                    local_symbols(vars.take(k + 1)).len() <= local_symbols(vars).len(),
                    cs == old(symbol_table)@.class_scope,
                    symbol_table@.class_scope == cs,
                    symbol_table@.subroutine_scope == base + name_symbols(
                        var.var_names@.take(j as int),
                        var.var_type@,
                        VarKind::Var,
                        first,
                    ),
                decreases nn - j,
            {
                if local_index == 0xffff_ffff {
                    return Err(GenError::TooLarge);
                }
                symbol_table.define(&var.var_names[j], &var.var_type, &VarKind::Var, local_index);
                local_index = local_index + 1;
                proof {
                    let pre = var.var_names@.take(j + 1);
                    assert(pre.drop_last() == var.var_names@.take(j as int));
                    lemma_name_symbols_len(
                        var.var_names@.take(j as int),
                        var.var_type@,
                        VarKind::Var,
                        first,
                    );
                }
                j += 1;
            }
            assert(var.var_names@.take(nn as int) == var.var_names@);
            assert(base + name_symbols(var.var_names@, var.var_type@, VarKind::Var, first) =~= args
                + local_symbols(vars.take(k + 1)));
            k += 1;
        }
        assert(vars.take(nv as int) == vars);
        let ghost start = lines_of(vm_code@);
        let name = qualified_name(class_name.as_str(), subroutine_name.as_str());
        emit_command(vm_code, "function", name.as_str(), local_index);
        match subroutine_type {
            SubroutineType::Constructor => {
                self.push("constant", num_fields, vm_code);
                self.call("Memory.alloc", 1, vm_code);
                self.pop("pointer", 0, vm_code);
            },
            SubroutineType::Method => {
                self.push("argument", 0, vm_code);
                self.pop("pointer", 0, vm_code);
            },
            SubroutineType::Function => {},
        }
        let ghost head = seq![
            command("function"@, qualified(class_name@, subroutine_name@), local_index as nat),
        ] + prologue(subroutine_type, num_fields as nat);
        assert(lines_of(vm_code@) =~= start + head);
        let ghost env = Scopes { class_scope: cs, subroutine_scope: args + local_symbols(vars) };
        assert(symbol_table@ == env);
        let mut if_index: u32 = 0;
        let mut while_index: u32 = 0;
        self.write_statements(
            &subroutine_body.statements,
            class_name.as_str(),
            &mut if_index,
            &mut while_index,
            vm_code,
            symbol_table,
        )?;
        let ghost code = (gen_block(subroutine_body.statements, 0, env, class_name@, 0, 0)->0).0;
        assert(lines_of(vm_code@) =~= start + (head + code));
        Ok(())
    }
}

} // verus!
