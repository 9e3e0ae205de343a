//! Compiled code refers only to what it holds: every jump lands on one of its
//! instructions, and every string, function and inlined name it names is
//! there.

use vstd::prelude::*;
use crate::parse::node::{Statement, Expression, Lvalue, ElseIf, Catch};
use crate::vm::analysis::annotation::{Annotations, NameResolution};
use crate::vm::bytecode::code::Code;
use crate::vm::bytecode::opcode::OpCode;
use crate::vm::bytecode::emission::{
    Site,
    Emitted,
    expression_emits,
    arguments_emits,
    block_emits,
    else_ifs_emits,
    catches_emits,
    statement_emits,
    let_emits,
    load_opcode,
    store_opcode,
    operator_opcode,
    catch_opcode,
    string_views,
    function_compiled,
};
use crate::vm::bytecode::compiler::function_code_compiled;
use crate::lang::function::FunctionDefinition;

verus! {

/// The instruction refers to nothing past `at` (for a jump: it may land on
/// `at` itself), `strings` and `functions`.
pub open spec fn opcode_bounded(op: OpCode, at: int, strings: int, functions: int) -> bool {
    match op {
        OpCode::Jump { instruction } => instruction <= at,
        OpCode::JumpIfPopFalsy { instruction } => instruction <= at,
        OpCode::FlowJump { instruction, .. } => instruction <= at,
        OpCode::PushStartCatchFlowPoint { instruction } => instruction <= at,
        OpCode::PushStartFinallyFlowPoint { instruction } => instruction <= at,
        OpCode::CatchOrJump { instruction } => instruction <= at,
        OpCode::CatchLocalOrJump { instruction, .. } => instruction <= at,
        OpCode::CatchSharedLocalOrJump { instruction, .. } => instruction <= at,
        OpCode::PushString { index } => index < strings,
        OpCode::PushFunction { index } => index < functions,
        _ => true,
    }
}

/// What `e` emits refers to nothing past the site `end`, and its inlined
/// names stand before `end`.
pub open spec fn bounded(e: Emitted, end: Site) -> bool {
    &&& forall|k: int| 0 <= k < e.opcodes.len() ==> opcode_bounded(#[trigger] e.opcodes[k], end.at, end.strings, end.functions)
    &&& forall|k: int| 0 <= k < e.inlines.len() ==> (#[trigger] e.inlines[k]).0 < end.at
}

/// The site `end` is at or after `site` and within the range of `usize`.
pub open spec fn fits(site: Site, end: Site) -> bool {
    &&& 0 <= site.at <= end.at <= usize::MAX
    &&& 0 <= site.strings <= end.strings <= usize::MAX
    &&& 0 <= site.functions <= end.functions <= usize::MAX
}

proof fn lemma_bounded_concat(a: Emitted, b: Emitted, end: Site)
    requires
        bounded(a, end),
        bounded(b, end),
    ensures
        bounded(a.followed_by(b), end),
{
    let e = a.followed_by(b);
    assert forall|k: int| 0 <= k < e.opcodes.len() implies opcode_bounded(#[trigger] e.opcodes[k], end.at, end.strings, end.functions) by {
        if k >= a.opcodes.len() {
            assert(e.opcodes[k] == b.opcodes[k - a.opcodes.len()]);
        }
    }
    assert forall|k: int| 0 <= k < e.inlines.len() implies (#[trigger] e.inlines[k]).0 < end.at by {
        if k >= a.inlines.len() {
            assert(e.inlines[k] == b.inlines[k - a.inlines.len()]);
        }
    }
}

proof fn lemma_bounded_wider(e: Emitted, end: Site, wider: Site)
    requires
        bounded(e, end),
        end.at <= wider.at,
        end.strings <= wider.strings,
        end.functions <= wider.functions,
    ensures
        bounded(e, wider),
{
    assert forall|k: int| 0 <= k < e.opcodes.len() implies opcode_bounded(#[trigger] e.opcodes[k], wider.at, wider.strings, wider.functions) by {
        assert(opcode_bounded(e.opcodes[k], end.at, end.strings, end.functions));
    }
    assert forall|k: int| 0 <= k < e.inlines.len() implies (#[trigger] e.inlines[k]).0 < wider.at by {
        assert(e.inlines[k].0 < end.at);
    }
}

proof fn lemma_bounded_op(op: OpCode, end: Site)
    requires
        opcode_bounded(op, end.at, end.strings, end.functions),
    ensures
        bounded(Emitted::op(op), end),
{
    assert(Emitted::op(op).opcodes[0] == op);
}

/// What an expression emits refers only to what is emitted up to its end.
pub proof fn lemma_expression_bounded(e: Expression, ann: Annotations, frame: usize, site: Site)
    requires
        fits(site, site.after(expression_emits(e, ann, frame, site))),
    ensures
        bounded(expression_emits(e, ann, frame, site), site.after(expression_emits(e, ann, frame, site))),
    decreases e,
{
    let out = expression_emits(e, ann, frame, site);
    let end = site.after(out);
    match e {
        Expression::String { value } => {
            assert(out.opcodes[0] == OpCode::PushString { index: site.strings as usize });
        },
        Expression::Name { identifier, annotation } => {
            match annotation.resolution {
                NameResolution::Implicit => {},
                NameResolution::Use(u) => {
                    assert(out.inlines[0] == (site.at as usize, u));
                },
            }
        },
        Expression::DotAccess { expression, name } => {
            let inner = expression_emits(*expression, ann, frame, site);
            lemma_expression_bounded(*expression, ann, frame, site);
            lemma_bounded_wider(inner, site.after(inner), end);
            lemma_bounded_op(OpCode::GetProperty { name }, end);
            lemma_bounded_concat(inner, Emitted::op(OpCode::GetProperty { name }), end);
        },
        Expression::ItemAccess { expression, key_expression } => {
            let a = expression_emits(*expression, ann, frame, site);
            let k = expression_emits(*key_expression, ann, frame, site.after(a));
            lemma_expression_bounded(*expression, ann, frame, site);
            lemma_expression_bounded(*key_expression, ann, frame, site.after(a));
            lemma_bounded_wider(a, site.after(a), end);
            lemma_bounded_wider(k, site.after(a).after(k), end);
            lemma_bounded_concat(a, k, end);
            lemma_bounded_op(OpCode::GetItem, end);
            lemma_bounded_concat(a.followed_by(k), Emitted::op(OpCode::GetItem), end);
        },
        Expression::Call { expression, arguments } => {
            let c = expression_emits(*expression, ann, frame, site);
            let args = arguments_emits(arguments@, ann, frame, site.after(c));
            lemma_expression_bounded(*expression, ann, frame, site);
            lemma_arguments_bounded(arguments@, ann, frame, site.after(c));
            lemma_bounded_wider(c, site.after(c), end);
            lemma_bounded_wider(args, site.after(c).after(args), end);
            lemma_bounded_concat(c, args, end);
            let call = OpCode::Call { n_arguments: arguments@.len() as usize };
            lemma_bounded_op(call, end);
            lemma_bounded_concat(c.followed_by(args), Emitted::op(call), end);
        },
        Expression::Binary { operator, left, right } => {
            let l = expression_emits(*left, ann, frame, site);
            lemma_expression_bounded(*left, ann, frame, site);
            lemma_bounded_wider(l, site.after(l), end);
            let op = Emitted::op(operator_opcode(operator));
            lemma_bounded_op(operator_opcode(operator), end);
            if operator == crate::parse::node::BinaryOperator::And || operator == crate::parse::node::BinaryOperator::Or {
                let r = expression_emits(*right, ann, frame, site.after(l).skip());
                lemma_expression_bounded(*right, ann, frame, site.after(l).skip());
                lemma_bounded_wider(r, site.after(l).skip().after(r), end);
                lemma_bounded_concat(l, op, end);
                lemma_bounded_concat(l.followed_by(op), r, end);
            } else {
                let r = expression_emits(*right, ann, frame, site.after(l));
                lemma_expression_bounded(*right, ann, frame, site.after(l));
                lemma_bounded_wider(r, site.after(l).after(r), end);
                lemma_bounded_concat(l, r, end);
                lemma_bounded_concat(l.followed_by(r), op, end);
            }
        },
        Expression::Not { expression } => {
            let inner = expression_emits(*expression, ann, frame, site);
            lemma_expression_bounded(*expression, ann, frame, site);
            lemma_bounded_wider(inner, site.after(inner), end);
            lemma_bounded_op(OpCode::Not, end);
            lemma_bounded_concat(inner, Emitted::op(OpCode::Not), end);
        },
        Expression::Function { .. } => {
            assert(out.opcodes[0] == OpCode::PushFunction { index: site.functions as usize });
        },
        Expression::Variable { annotation, .. } => {
            assert(out.opcodes[0] == load_opcode(ann, frame, annotation));
        },
        _ => {
            assert(out.opcodes.len() == 1);
        },
    }
}

pub proof fn lemma_arguments_bounded(args: Seq<Expression>, ann: Annotations, frame: usize, site: Site)
    requires
        fits(site, site.after(arguments_emits(args, ann, frame, site))),
    ensures
        bounded(arguments_emits(args, ann, frame, site), site.after(arguments_emits(args, ann, frame, site))),
    decreases args,
{
    if args.len() > 0 {
        let out = arguments_emits(args, ann, frame, site);
        let end = site.after(out);
        let first = expression_emits(args[0], ann, frame, site);
        let rest = arguments_emits(args.drop_first(), ann, frame, site.after(first));
        lemma_expression_bounded(args[0], ann, frame, site);
        lemma_arguments_bounded(args.drop_first(), ann, frame, site.after(first));
        lemma_bounded_wider(first, site.after(first), end);
        lemma_bounded_concat(first, rest, end);
    }
}


/// Four parts, each bounded by the end of the whole.
proof fn lemma_bounded_parts(a: Emitted, b: Emitted, c: Emitted, d: Emitted, end: Site)
    requires
        bounded(a, end),
        bounded(b, end),
        bounded(c, end),
        bounded(d, end),
    ensures
        bounded(a.followed_by(b).followed_by(c).followed_by(d), end),
{
    lemma_bounded_concat(a, b, end);
    lemma_bounded_concat(a.followed_by(b), c, end);
    lemma_bounded_concat(a.followed_by(b).followed_by(c), d, end);
}

/// What a statement emits refers only to what is emitted up to its end.
pub proof fn lemma_statement_bounded(s: Statement, ann: Annotations, frame: usize, site: Site)
    requires
        fits(site, site.after(statement_emits(s, ann, frame, site))),
    ensures
        bounded(statement_emits(s, ann, frame, site), site.after(statement_emits(s, ann, frame, site))),
    decreases s,
{
    let out = statement_emits(s, ann, frame, site);
    let end = site.after(out);
    match s {
        Statement::Use { annotation, .. } => {
            lemma_bounded_op(OpCode::Use { operation: annotation }, end);
        },
        Statement::ExpressionStatement { expression } => {
            let e = expression_emits(*expression, ann, frame, site);
            lemma_expression_bounded(*expression, ann, frame, site);
            lemma_bounded_wider(e, site.after(e), end);
            lemma_bounded_op(OpCode::Pop, end);
            lemma_bounded_concat(e, Emitted::op(OpCode::Pop), end);
        },
        Statement::Assignment { lvalue, rvalue } => match *lvalue {
            Lvalue::VariableLvalue { annotation, .. } => {
                let e = expression_emits(*rvalue, ann, frame, site);
                lemma_expression_bounded(*rvalue, ann, frame, site);
                lemma_bounded_wider(e, site.after(e), end);
                lemma_bounded_op(store_opcode(ann, frame, annotation), end);
                lemma_bounded_concat(e, Emitted::op(store_opcode(ann, frame, annotation)), end);
            },
            Lvalue::DotAccessLvalue { expression, name } => {
                let a = expression_emits(*expression, ann, frame, site);
                let v = expression_emits(*rvalue, ann, frame, site.after(a));
                lemma_expression_bounded(*expression, ann, frame, site);
                lemma_expression_bounded(*rvalue, ann, frame, site.after(a));
                lemma_bounded_wider(a, site.after(a), end);
                lemma_bounded_wider(v, site.after(a).after(v), end);
                lemma_bounded_op(OpCode::SetProperty { name }, end);
                lemma_bounded_concat(a, v, end);
                lemma_bounded_concat(a.followed_by(v), Emitted::op(OpCode::SetProperty { name }), end);
            },
        },
        Statement::Let { annotation, default, .. } => {
            let has_default = default is Some;
            let tail = let_emits(ann, annotation, has_default);
            assert forall|k: int| 0 <= k < tail.opcodes.len() implies opcode_bounded(#[trigger] tail.opcodes[k], end.at, end.strings, end.functions) by {
            }
            match default {
                Some(e) => {
                    let d = expression_emits(*e, ann, frame, site);
                    lemma_expression_bounded(*e, ann, frame, site);
                    lemma_bounded_wider(d, site.after(d), end);
                    lemma_bounded_concat(d, tail, end);
                },
                None => {},
            }
        },
        Statement::Print { expression } => {
            let e = expression_emits(*expression, ann, frame, site);
            lemma_expression_bounded(*expression, ann, frame, site);
            lemma_bounded_wider(e, site.after(e), end);
            lemma_bounded_op(OpCode::ToString, end);
            lemma_bounded_op(OpCode::Print, end);
            lemma_bounded_concat(e, Emitted::op(OpCode::ToString), end);
            lemma_bounded_concat(e.followed_by(Emitted::op(OpCode::ToString)), Emitted::op(OpCode::Print), end);
        },
        Statement::Return { expression } => {
            let e = match expression {
                Some(x) => expression_emits(*x, ann, frame, site),
                None => Emitted::op(OpCode::PushNothing),
            };
            match expression {
                Some(x) => {
                    lemma_expression_bounded(*x, ann, frame, site);
                },
                None => {
                    lemma_bounded_op(OpCode::PushNothing, site.after(e));
                },
            }
            lemma_bounded_wider(e, site.after(e), end);
            lemma_bounded_op(OpCode::Return, end);
            lemma_bounded_concat(e, Emitted::op(OpCode::Return), end);
        },
        Statement::Throw { expression } => {
            let e = expression_emits(*expression, ann, frame, site);
            lemma_expression_bounded(*expression, ann, frame, site);
            lemma_bounded_wider(e, site.after(e), end);
            lemma_bounded_op(OpCode::Throw, end);
            lemma_bounded_concat(e, Emitted::op(OpCode::Throw), end);
        },
        Statement::While { test, block, .. } => {
            let t = expression_emits(*test, ann, frame, site);
            let b = block_emits(block@, ann, frame, site.after(t).skip());
            lemma_expression_bounded(*test, ann, frame, site);
            lemma_block_bounded(block@, ann, frame, site.after(t).skip());
            lemma_bounded_wider(t, site.after(t), end);
            lemma_bounded_wider(b, site.after(t).skip().after(b), end);
            let jump = OpCode::JumpIfPopFalsy { instruction: end.at as usize };
            let back = OpCode::Jump { instruction: site.at as usize };
            lemma_bounded_op(jump, end);
            lemma_bounded_op(back, end);
            lemma_bounded_parts(t, Emitted::op(jump), b, Emitted::op(back), end);
        },
        Statement::If { test, block, else_if_clauses, else_clause } => {
            let t = expression_emits(*test, ann, frame, site);
            let b = block_emits(block@, ann, frame, site.after(t).skip());
            let has_else = else_clause is Some;
            let jumps_to_end = else_if_clauses@.len() > 0 || has_else;
            let block_end = site.after(t).skip().after(b);
            let clauses_site = if jumps_to_end { block_end.skip() } else { block_end };
            let c_nop = else_ifs_emits(else_if_clauses@, ann, frame, clauses_site, has_else, OpCode::Nop);
            let else_site = clauses_site.after(c_nop);
            let e = match else_clause {
                Some(c) => block_emits(c.block@, ann, frame, else_site),
                None => Emitted::none(),
            };
            let end_at = else_site.after(e).at;
            let end_jump = OpCode::Jump { instruction: end_at as usize };
            let c = else_ifs_emits(else_if_clauses@, ann, frame, clauses_site, has_else, end_jump);
            crate::vm::bytecode::emission::lemma_else_if_end_jumps(else_if_clauses@, ann, frame, clauses_site, has_else, end_jump);
            let j = if jumps_to_end { Emitted::op(end_jump) } else { Emitted::none() };
            assert(out == t.followed_by(Emitted::op(OpCode::JumpIfPopFalsy { instruction: clauses_site.at as usize })).followed_by(b).followed_by(j).followed_by(c).followed_by(e));
            assert(end.at == end_at);
            lemma_expression_bounded(*test, ann, frame, site);
            lemma_block_bounded(block@, ann, frame, site.after(t).skip());
            lemma_bounded_wider(t, site.after(t), end);
            lemma_bounded_wider(b, block_end, end);
            lemma_bounded_op(OpCode::JumpIfPopFalsy { instruction: clauses_site.at as usize }, end);
            if jumps_to_end {
                lemma_bounded_op(end_jump, end);
            }
            lemma_else_ifs_bounded(else_if_clauses@, ann, frame, clauses_site, has_else, end_jump, end);
            match else_clause {
                Some(x) => {
                    lemma_block_bounded(x.block@, ann, frame, else_site);
                    lemma_bounded_wider(e, else_site.after(e), end);
                },
                None => {},
            }
            lemma_bounded_parts(t, Emitted::op(OpCode::JumpIfPopFalsy { instruction: clauses_site.at as usize }), b, j, end);
            lemma_bounded_concat(t.followed_by(Emitted::op(OpCode::JumpIfPopFalsy { instruction: clauses_site.at as usize })).followed_by(b).followed_by(j), c, end);
            lemma_bounded_concat(t.followed_by(Emitted::op(OpCode::JumpIfPopFalsy { instruction: clauses_site.at as usize })).followed_by(b).followed_by(j).followed_by(c), e, end);
        },
        Statement::Try { .. } => {
            lemma_try_bounded(s, ann, frame, site);
        },
    }
}

/// What a block emits refers only to what is emitted up to its end.
pub proof fn lemma_block_bounded(block: Seq<Statement>, ann: Annotations, frame: usize, site: Site)
    requires
        fits(site, site.after(block_emits(block, ann, frame, site))),
    ensures
        bounded(block_emits(block, ann, frame, site), site.after(block_emits(block, ann, frame, site))),
    decreases block,
{
    if block.len() > 0 {
        let out = block_emits(block, ann, frame, site);
        let end = site.after(out);
        let first = statement_emits(block[0], ann, frame, site);
        let rest = block_emits(block.drop_first(), ann, frame, site.after(first));
        lemma_statement_bounded(block[0], ann, frame, site);
        lemma_block_bounded(block.drop_first(), ann, frame, site.after(first));
        lemma_bounded_wider(first, site.after(first), end);
        lemma_bounded_concat(first, rest, end);
    }
}

/// What the `else if` clauses emit, jumping past the statement with
/// `end_jump`, refers only to what is emitted up to `hi`.
pub proof fn lemma_else_ifs_bounded(
    clauses: Seq<ElseIf>,
    ann: Annotations,
    frame: usize,
    site: Site,
    has_else: bool,
    end_jump: OpCode,
    hi: Site,
)
    requires
        fits(site, site.after(else_ifs_emits(clauses, ann, frame, site, has_else, end_jump))),
        site.after(else_ifs_emits(clauses, ann, frame, site, has_else, end_jump)).at <= hi.at,
        site.after(else_ifs_emits(clauses, ann, frame, site, has_else, end_jump)).strings <= hi.strings,
        site.after(else_ifs_emits(clauses, ann, frame, site, has_else, end_jump)).functions <= hi.functions,
        opcode_bounded(end_jump, hi.at, hi.strings, hi.functions),
    ensures
        bounded(else_ifs_emits(clauses, ann, frame, site, has_else, end_jump), hi),
    decreases clauses,
{
    if clauses.len() > 0 {
        let clause = clauses[0];
        let test = expression_emits(*clause.test, ann, frame, site);
        let block = block_emits(clause.block@, ann, frame, site.after(test).skip());
        let jumps_to_end = clauses.len() > 1 || has_else;
        let block_end = site.after(test).skip().after(block);
        let next = if jumps_to_end { block_end.skip() } else { block_end };
        let j = if jumps_to_end { Emitted::op(end_jump) } else { Emitted::none() };
        let jump = OpCode::JumpIfPopFalsy { instruction: next.at as usize };
        let rest = else_ifs_emits(clauses.drop_first(), ann, frame, next, has_else, end_jump);
        lemma_expression_bounded(*clause.test, ann, frame, site);
        lemma_block_bounded(clause.block@, ann, frame, site.after(test).skip());
        lemma_bounded_wider(test, site.after(test), hi);
        lemma_bounded_wider(block, block_end, hi);
        lemma_bounded_op(jump, hi);
        if jumps_to_end {
            lemma_bounded_op(end_jump, hi);
        }
        lemma_bounded_parts(test, Emitted::op(jump), block, j, hi);
        lemma_else_ifs_bounded(clauses.drop_first(), ann, frame, next, has_else, end_jump, hi);
        lemma_bounded_concat(test.followed_by(Emitted::op(jump)).followed_by(block).followed_by(j), rest, hi);
    }
}

/// What the `catch` clauses emit, jumping past `else` with `end_jump`,
/// refers only to what is emitted up to `hi`.
pub proof fn lemma_catches_bounded(clauses: Seq<Catch>, ann: Annotations, frame: usize, site: Site, end_jump: OpCode, hi: Site)
    requires
        fits(site, site.after(catches_emits(clauses, ann, frame, site, end_jump))),
        site.after(catches_emits(clauses, ann, frame, site, end_jump)).at <= hi.at,
        site.after(catches_emits(clauses, ann, frame, site, end_jump)).strings <= hi.strings,
        site.after(catches_emits(clauses, ann, frame, site, end_jump)).functions <= hi.functions,
        opcode_bounded(end_jump, hi.at, hi.strings, hi.functions),
    ensures
        bounded(catches_emits(clauses, ann, frame, site, end_jump), hi),
    decreases clauses,
{
    if clauses.len() > 0 {
        let clause = clauses[0];
        let test = match clause.type_ {
            Some(t) => expression_emits(*t, ann, frame, site).followed_by(Emitted::op(OpCode::ThrownIs)),
            None => Emitted::none(),
        };
        let block = block_emits(clause.block@, ann, frame, site.after(test).skip());
        let next = site.after(test).skip().after(block).skip();
        let catch = catch_opcode(ann, clause, next.at);
        let rest = catches_emits(clauses.drop_first(), ann, frame, next, end_jump);
        match clause.type_ {
            Some(t) => {
                let e = expression_emits(*t, ann, frame, site);
                lemma_expression_bounded(*t, ann, frame, site);
                lemma_bounded_wider(e, site.after(e), hi);
                lemma_bounded_op(OpCode::ThrownIs, hi);
                lemma_bounded_concat(e, Emitted::op(OpCode::ThrownIs), hi);
            },
            None => {},
        }
        lemma_block_bounded(clause.block@, ann, frame, site.after(test).skip());
        lemma_bounded_wider(block, site.after(test).skip().after(block), hi);
        lemma_bounded_op(catch, hi);
        lemma_bounded_op(end_jump, hi);
        lemma_bounded_parts(test, Emitted::op(catch), block, Emitted::op(end_jump), hi);
        lemma_catches_bounded(clauses.drop_first(), ann, frame, next, end_jump, hi);
        lemma_bounded_concat(test.followed_by(Emitted::op(catch)).followed_by(block).followed_by(Emitted::op(end_jump)), rest, hi);
    }
}

/// What a `try` statement emits refers only to what is emitted up to its
/// end.
proof fn lemma_try_bounded(s: Statement, ann: Annotations, frame: usize, site: Site)
    requires
        s is Try,
        fits(site, site.after(statement_emits(s, ann, frame, site))),
    ensures
        bounded(statement_emits(s, ann, frame, site), site.after(statement_emits(s, ann, frame, site))),
    decreases s, 0nat,
{
    let out = statement_emits(s, ann, frame, site);
    let end_all = site.after(out);
    match s {
        Statement::Try { block, catch_clauses, else_clause, finally_clause } => {
            let has_catch = catch_clauses@.len() > 0;
            let has_finally = finally_clause is Some;
            let pushes = (if has_finally { 1int } else { 0 }) + (if has_catch { 1int } else { 0 });
            let block_site = Site { at: site.at + pushes, ..site };
            let b = block_emits(block@, ann, frame, block_site);
            let catch_site = block_site.after(b).skip().skip();
            let catches_shape = catches_emits(catch_clauses@, ann, frame, catch_site, OpCode::Nop);
            let else_site = if has_catch { catch_site.after(catches_shape).skip() } else { block_site.after(b) };
            let e = match else_clause {
                Some(c) => block_emits(c.block@, ann, frame, else_site),
                None => Emitted::none(),
            };
            let end = else_site.after(e);
            let f = match finally_clause {
                Some(c) => block_emits(c.block@, ann, frame, end.skip()),
                None => Emitted::none(),
            };
            let start = (if has_finally {
                Emitted::op(OpCode::PushStartFinallyFlowPoint { instruction: end.skip().at as usize })
            } else {
                Emitted::none()
            }).followed_by(
                if has_catch {
                    Emitted::op(OpCode::PushStartCatchFlowPoint { instruction: catch_site.at as usize })
                } else {
                    Emitted::none()
                },
            );
            let end_jump = OpCode::Jump { instruction: end.at as usize };
            let c = catches_emits(catch_clauses@, ann, frame, catch_site, end_jump);
            crate::vm::bytecode::emission::lemma_catch_end_jumps(catch_clauses@, ann, frame, catch_site, end_jump);
            let catches = if has_catch {
                Emitted::op(OpCode::PopFlowPoint).followed_by(Emitted::op(OpCode::Jump { instruction: else_site.at as usize })).followed_by(
                    c,
                ).followed_by(Emitted::op(OpCode::Rethrow))
            } else {
                Emitted::none()
            };
            let finally = if has_finally {
                Emitted::op(OpCode::StartFinally).followed_by(f).followed_by(Emitted::op(OpCode::EndFinally))
            } else {
                Emitted::none()
            };
            assert(out == start.followed_by(b).followed_by(catches).followed_by(e).followed_by(finally));
            // The start pushes flow points to places within the statement.
            if has_finally {
                lemma_bounded_op(OpCode::PushStartFinallyFlowPoint { instruction: end.skip().at as usize }, end_all);
            }
            if has_catch {
                lemma_bounded_op(OpCode::PushStartCatchFlowPoint { instruction: catch_site.at as usize }, end_all);
            }
            lemma_bounded_concat(
                if has_finally {
                    Emitted::op(OpCode::PushStartFinallyFlowPoint { instruction: end.skip().at as usize })
                } else {
                    Emitted::none()
                },
                if has_catch {
                    Emitted::op(OpCode::PushStartCatchFlowPoint { instruction: catch_site.at as usize })
                } else {
                    Emitted::none()
                },
                end_all,
            );
            lemma_block_bounded(block@, ann, frame, block_site);
            lemma_bounded_wider(b, block_site.after(b), end_all);
            if has_catch {
                lemma_bounded_op(OpCode::PopFlowPoint, end_all);
                lemma_bounded_op(OpCode::Jump { instruction: else_site.at as usize }, end_all);
                lemma_bounded_op(end_jump, end_all);
                lemma_catches_bounded(catch_clauses@, ann, frame, catch_site, end_jump, end_all);
                lemma_bounded_op(OpCode::Rethrow, end_all);
                lemma_bounded_parts(
                    Emitted::op(OpCode::PopFlowPoint),
                    Emitted::op(OpCode::Jump { instruction: else_site.at as usize }),
                    c,
                    Emitted::op(OpCode::Rethrow),
                    end_all,
                );
            }
            match else_clause {
                Some(x) => {
                    lemma_block_bounded(x.block@, ann, frame, else_site);
                    lemma_bounded_wider(e, else_site.after(e), end_all);
                },
                None => {},
            }
            if has_finally {
                match finally_clause {
                    Some(x) => {
                        lemma_block_bounded(x.block@, ann, frame, end.skip());
                        lemma_bounded_wider(f, end.skip().after(f), end_all);
                    },
                    None => {},
                }
                lemma_bounded_op(OpCode::StartFinally, end_all);
                lemma_bounded_op(OpCode::EndFinally, end_all);
                lemma_bounded_concat(Emitted::op(OpCode::StartFinally), f, end_all);
                lemma_bounded_concat(Emitted::op(OpCode::StartFinally).followed_by(f), Emitted::op(OpCode::EndFinally), end_all);
            }
            lemma_bounded_parts(start, b, catches, e, end_all);
            lemma_bounded_concat(start.followed_by(b).followed_by(catches).followed_by(e), finally, end_all);
        },
        _ => {},
    }
}


/// Every jump of `code` lands on one of its instructions, every flow point
/// it pushes starts at one, every string and function it pushes is in its
/// tables, and every name to inline stands at one of its instructions.
pub open spec fn code_in_bounds(code: Code) -> bool {
    &&& forall|k: int| 0 <= k < code.opcodes@.len() ==> opcode_bounded(
        #[trigger] code.opcodes@[k],
        code.opcodes@.len() - 1,
        code.strings@.len() as int,
        code.functions@.len() as int,
    )
    &&& forall|k: int| 0 <= k < code.inlined_uses@.len() ==> (#[trigger] code.inlined_uses@[k]).0 < code.opcodes@.len()
}

/// Code, and the code of every function defined in it, at any depth, refers
/// only to what it holds.
pub open spec fn code_tree_in_bounds(code: Code) -> bool
    decreases code,
{
    &&& code_in_bounds(code)
    &&& forall|j: int| 0 <= j < code.functions@.len() ==> code_tree_in_bounds(*(#[trigger] code.functions@[j]).code)
}

/// The code that the compiler writes for a block, which ends with a return,
/// refers only to what it holds, and so does the code of every function
/// defined in it, at any depth.
pub proof fn lemma_compiled_code_in_bounds(code: Code, block: Seq<Statement>, ann: Annotations, frame: usize)
    requires
        function_code_compiled(code, block, ann, frame),
    ensures
        code_tree_in_bounds(code),
{
    lemma_top_code_in_bounds(code, block, ann, frame);
    assert forall|j: int| 0 <= j < code.functions@.len() implies code_tree_in_bounds(*(#[trigger] code.functions@[j]).code) by {
        let e = block_emits(block, ann, frame, Site { at: 0, strings: 0, functions: 0 });
        lemma_function_code_in_bounds(*code.functions@[j], e.functions[j], ann, frame);
    }
}

/// A compiled function's code tree refers only to what it holds.
proof fn lemma_function_code_in_bounds(def: FunctionDefinition, f: Expression, ann: Annotations, outer: usize)
    requires
        function_compiled(def, f, ann, outer),
    ensures
        code_tree_in_bounds(*def.code),
    decreases def,
{
    match f {
        Expression::Function { parameters, frame, block } => {
            lemma_top_code_in_bounds(*def.code, block@, ann, frame);
            let e = block_emits(block@, ann, frame, Site { at: 0, strings: 0, functions: 0 });
            assert forall|j: int| 0 <= j < def.code.functions@.len() implies code_tree_in_bounds(*(#[trigger] def.code.functions@[j]).code) by {
                lemma_function_code_in_bounds(*def.code.functions@[j], e.functions[j], ann, frame);
            }
        },
        _ => {},
    }
}

/// The code that the compiler writes for a block refers only to what it holds.
proof fn lemma_top_code_in_bounds(code: Code, block: Seq<Statement>, ann: Annotations, frame: usize)
    requires
        ({
            let e = block_emits(block, ann, frame, Site { at: 0, strings: 0, functions: 0 });
            &&& code.opcodes@ == e.opcodes.push(OpCode::ReturnNothing)
            &&& string_views(code.strings@) == e.strings
            &&& code.inlined_uses@ == e.inlines
            &&& code.functions@.len() == e.functions.len()
        }),
    ensures
        code_in_bounds(code),
{
    let site = Site { at: 0, strings: 0, functions: 0 };
    let e = block_emits(block, ann, frame, site);
    let end = site.after(e);
    assert(code.opcodes.len() == code.opcodes@.len());
    assert(code.strings.len() == code.strings@.len());
    assert(code.functions.len() == code.functions@.len());
    assert(string_views(code.strings@).len() == code.strings@.len());
    lemma_block_bounded(block, ann, frame, site);
    assert forall|k: int| 0 <= k < code.opcodes@.len() implies opcode_bounded(
        #[trigger] code.opcodes@[k],
        code.opcodes@.len() - 1,
        code.strings@.len() as int,
        code.functions@.len() as int,
    ) by {
        if k < e.opcodes.len() {
            assert(code.opcodes@[k] == e.opcodes[k]);
            assert(opcode_bounded(e.opcodes[k], end.at, end.strings, end.functions));
        } else {
            assert(code.opcodes@[k] == OpCode::ReturnNothing);
        }
    }
    assert forall|k: int| 0 <= k < code.inlined_uses@.len() implies (#[trigger] code.inlined_uses@[k]).0 < code.opcodes@.len() by {
        assert(code.inlined_uses@[k] == e.inlines[k]);
    }
}

} // verus!
