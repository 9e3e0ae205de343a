//! The compiler: from an analysed program to the code of its frames.

use vstd::prelude::*;
use std::rc::Rc;
use crate::parse::node::{Statement, Expression, Lvalue, ElseIf, Catch, FunctionParameter, BinaryOperator, Root};
use crate::vm::analysis::annotation::{Annotations, Binding, LocalStorageType, BoundStorageType, NameResolution};
use crate::vm::bytecode::code::Code;
use crate::vm::bytecode::opcode::OpCode;
use crate::vm::bytecode::emission::{
    Site,
    Emitted,
    frame_bindings,
    find_binding,
    reachable,
    bound_slot,
    load_opcode,
    store_opcode,
    expression_emits,
    arguments_emits,
    block_emits,
    else_ifs_emits,
    catches_emits,
    else_if_end_jumps,
    catch_end_jumps,
    lemma_else_if_end_jumps,
    lemma_catch_end_jumps,
    catch_opcode,
    let_emits,
    statement_emits,
    expression_compilable,
    statement_compilable,
    binding_compilable,
    parameter_definition,
    binding_definition,
    string_views,
    function_compiled,
};
use crate::vm::bytecode::compilable::root_compilable_spec;
use crate::vm::analysis::resolution::{AnalyzeResolution, block_resolvable, let_names};
use crate::vm::analysis::allocation::AnalyzeAllocation;
use crate::vm::analysis::scope::block_resolved;
use crate::vm::analysis::linkage::{
    closures_chained,
    same_links,
    statement_linked,
    statement_no_while_else,
    lemma_same_links,
    lemma_statement_linked_grows,
    lemma_statement_linked_compilable,
};
use crate::vm::error::AnalysisError;
use crate::vm::analysis::unresolved::{block_unresolved, reported, lemma_reported_len};
use crate::vm::repl::State;
use crate::vm::run::frame::{RootFrame, nothing_slots, empty_cells};
use crate::lang::value::Value;
use crate::vm::analysis::allocation::{
    lemma_nested_self,
    lemma_slot_in_frame,
    lemma_slots_distinct,
    frame_allocated,
    variable_allocated,
    carried_over,
};
use crate::lang::identifier::IdentifierTable;
use crate::lang::function::{
    FunctionDefinition,
    FunctionParameterDefinition,
    FunctionParameterStorage,
    FunctionBindingDefinition,
};

verus! {

/// A code being compiled, and the frames the compiler is in (innermost last).
struct Compilation {
    pub code: Box<Code>,
    frames: Vec<usize>,
}

impl Compilation {
    /// The frames the compiler is in, innermost last.
    closed spec fn frame_stack(&self) -> Seq<usize> {
        self.frames@
    }

    /// Where the next instruction, string and function go.
    closed spec fn site(&self) -> Site {
        Site {
            at: self.code.opcodes@.len() as int,
            strings: self.code.strings@.len() as int,
            functions: self.code.functions@.len() as int,
        }
    }

    /// From this compilation to `after`, what `e` says was emitted in frame
    /// `frame` was added to the code, and nothing else changed.
    closed spec fn grew_by(&self, after: &Compilation, e: Emitted, ann: Annotations, frame: usize) -> bool {
        &&& after.frame_stack() == self.frame_stack()
        &&& after.code.opcodes@.len() == self.code.opcodes@.len() + e.opcodes.len()
        &&& after.code.strings@.len() == self.code.strings@.len() + e.strings.len()
        &&& after.code.functions@.len() == self.code.functions@.len() + e.functions.len()
        &&& self.grew_exactly(after, e, ann, frame)
    }

    /// The contents of what was added: the instructions, the strings, the
    /// inlined names and the compiled functions.
    #[verifier::opaque]
    closed spec fn grew_exactly(&self, after: &Compilation, e: Emitted, ann: Annotations, frame: usize) -> bool {
        &&& after.code.opcodes@ == self.code.opcodes@ + e.opcodes
        &&& string_views(after.code.strings@) == string_views(self.code.strings@) + e.strings
        &&& after.code.inlined_uses@ == self.code.inlined_uses@ + e.inlines
        &&& after.code.functions@.len() == self.code.functions@.len() + e.functions.len()
        &&& forall|j: int| 0 <= j < self.code.functions@.len() ==> #[trigger] after.code.functions@[j] == self.code.functions@[j]
        &&& forall|j: int| 0 <= j < e.functions.len() ==> function_compiled(
            *#[trigger] after.code.functions@[self.code.functions@.len() + j],
            e.functions[j],
            ann,
            frame,
        )
        &&& after.code.n_local_variables == self.code.n_local_variables
        &&& after.code.n_shared_local_variables == self.code.n_shared_local_variables
        &&& after.frame_stack() == self.frame_stack()
    }

    /// A compilation of nothing yet, in no frame.
    fn new() -> (c: Compilation)
        ensures
            c.code.opcodes@.len() == 0,
            c.code.strings@.len() == 0,
            c.code.functions@.len() == 0,
            c.code.inlined_uses@.len() == 0,
            c.code.n_local_variables == 0,
            c.code.n_shared_local_variables == 0,
            c.frame_stack().len() == 0,
    {
        Compilation { code: Box::new(Code::new()), frames: Vec::new() }
    }
}

/// Emitting `e1` and then `e2` emits `e1` followed by `e2`.
proof fn lemma_grew_trans(a: &Compilation, b: &Compilation, c: &Compilation, e1: Emitted, e2: Emitted, ann: Annotations, frame: usize)
    requires
        a.grew_by(b, e1, ann, frame),
        b.grew_by(c, e2, ann, frame),
    ensures
        a.grew_by(c, e1.followed_by(e2), ann, frame),
{
    reveal(Compilation::grew_exactly);
    let n = a.code.functions@.len();
    let e = e1.followed_by(e2);
    assert(c.code.opcodes@ =~= a.code.opcodes@ + e.opcodes);
    assert(string_views(c.code.strings@) =~= string_views(a.code.strings@) + e.strings);
    assert(c.code.inlined_uses@ =~= a.code.inlined_uses@ + e.inlines);
    assert forall|j: int| 0 <= j < n implies #[trigger] c.code.functions@[j] == a.code.functions@[j] by {
        assert(c.code.functions@[j] == b.code.functions@[j]);
    }
    assert forall|j: int| 0 <= j < e.functions.len() implies function_compiled(
        *#[trigger] c.code.functions@[n + j],
        e.functions[j],
        ann,
        frame,
    ) by {
        if j < e1.functions.len() {
            assert(c.code.functions@[n + j] == b.code.functions@[n + j]);
            assert(e.functions[j] == e1.functions[j]);
        } else {
            let k = j - e1.functions.len();
            assert(b.code.functions@.len() + k == n + j);
            assert(e.functions[j] == e2.functions[k]);
        }
    }
}

impl Compilation {
    /// Appends one instruction.
    fn emit(&mut self, opcode: OpCode, Ghost(ann): Ghost<Annotations>, Ghost(frame): Ghost<usize>)
        ensures
            old(self).grew_by(final(self), Emitted::op(opcode), ann, frame),
    {
        self.code.opcodes.push(opcode);
        proof {
            reveal(Compilation::grew_exactly);
            assert(string_views(self.code.strings@) =~= string_views(old(self).code.strings@) + Emitted::op(opcode).strings);
            assert(self.code.inlined_uses@ =~= old(self).code.inlined_uses@ + Emitted::op(opcode).inlines);
            assert(self.code.opcodes@ =~= old(self).code.opcodes@ + Emitted::op(opcode).opcodes);
            assert(self.code.functions@ == old(self).code.functions@);
            assert(self.frame_stack() == old(self).frame_stack());
        }
    }
}


impl Compilation {
    /// The frame being compiled.
    fn current_frame(&self) -> (f: usize)
        requires
            self.frame_stack().len() > 0,
        ensures
            f == self.frame_stack().last(),
    {
        self.frames[self.frames.len() - 1]
    }

    /// The slot of `variable` in the closure of the frame being compiled.
    fn find_bound_storage_index(&self, ann: &Annotations, variable: usize) -> (slot: usize)
        requires
            self.frame_stack().len() > 0,
            self.frame_stack().last() < ann.frames@.len(),
            find_binding(frame_bindings(*ann, self.frame_stack().last()), variable) is Some,
        ensures
            slot == bound_slot(*ann, self.frame_stack().last(), variable),
    {
        let frame = self.current_frame();
        let bindings = match &ann.frames[frame].closure {
            Some(c) => &c.bindings,
            None => {
                proof {
                    assert(frame_bindings(*ann, frame).len() == 0);
                }
                return 0;
            },
        };
        let ghost all = frame_bindings(*ann, frame);
        assert(bindings@ == all);
        assert(all.skip(0) =~= all);
        let mut i: usize = 0;
        while i < bindings.len()
            invariant
                all == bindings@,
                all == frame_bindings(*ann, frame),
                frame == self.frame_stack().last(),
                i <= all.len(),
                find_binding(all.skip(i as int), variable) == find_binding(all, variable),
                find_binding(all, variable) is Some,
            decreases all.len() - i,
        {
            assert(all.skip(i as int).drop_first() =~= all.skip(i + 1));
            if bindings[i].variable == variable {
                assert(all.skip(i as int)[0] == all[i as int]);
                assert(find_binding(all.skip(i as int), variable) == Some(all[i as int]));
                assert(bound_slot(*ann, frame, variable) == all[i as int].storage_index);
                return bindings[i].storage_index;
            }
            i += 1;
        }
        proof {
            assert(all.skip(i as int).len() == 0);
        }
        0
    }

    /// The instruction that loads (or, with `store`, stores) `variable` in
    /// the frame being compiled.
    fn variable_opcode(&self, ann: &Annotations, variable: usize, store: bool) -> (opcode: OpCode)
        requires
            self.frame_stack().len() > 0,
            self.frame_stack().last() < ann.frames@.len(),
            reachable(*ann, self.frame_stack().last(), variable),
        ensures
            opcode == if store {
                store_opcode(*ann, self.frame_stack().last(), variable)
            } else {
                load_opcode(*ann, self.frame_stack().last(), variable)
            },
    {
        let frame = self.current_frame();
        let v = &ann.variables[variable];
        if v.declared_in == frame {
            let slot = v.local_storage_index;
            match (v.local_storage_type, store) {
                (LocalStorageType::Local, false) => OpCode::LoadLocal(slot),
                (LocalStorageType::SharedLocal, false) => OpCode::LoadSharedLocal(slot),
                (LocalStorageType::Local, true) => OpCode::StoreLocal(slot),
                (LocalStorageType::SharedLocal, true) => OpCode::StoreSharedLocal(slot),
            }
        } else {
            let slot = self.find_bound_storage_index(ann, variable);
            match (v.bound_storage_type, store) {
                (BoundStorageType::StaticBound, false) => OpCode::LoadStaticBound(slot),
                (BoundStorageType::SharedBound, false) => OpCode::LoadSharedBound(slot),
                (BoundStorageType::StaticBound, true) => OpCode::StoreStaticBound(slot),
                (BoundStorageType::SharedBound, true) => OpCode::StoreSharedBound(slot),
            }
        }
    }

    /// Appends an instruction to be filled in later; gives its offset.
    fn create_placeholder(&mut self, Ghost(ann): Ghost<Annotations>, Ghost(frame): Ghost<usize>) -> (offset: usize)
        ensures
            offset == old(self).code.opcodes@.len(),
            old(self).grew_by(final(self), Emitted::op(OpCode::Nop), ann, frame),
    {
        let offset = self.code.opcodes.len();
        self.emit(OpCode::Nop, Ghost(ann), Ghost(frame));
        offset
    }

    /// Fills in the instruction at `offset`.
    fn fill_in_placeholder(&mut self, offset: usize, opcode: OpCode)
        requires
            offset < old(self).code.opcodes@.len(),
        ensures
            final(self).code.opcodes@ == old(self).code.opcodes@.update(offset as int, opcode),
            final(self).code.strings == old(self).code.strings,
            final(self).code.functions == old(self).code.functions,
            final(self).code.inlined_uses == old(self).code.inlined_uses,
            final(self).code.n_local_variables == old(self).code.n_local_variables,
            final(self).code.n_shared_local_variables == old(self).code.n_shared_local_variables,
            final(self).frame_stack() == old(self).frame_stack(),
    {
        self.code.opcodes.set(offset, opcode);
    }
}

/// Filling in the placeholder that stands after `e1` gives what emitting
/// `e1`, the instruction and `e2` gives.
proof fn lemma_filled(a: &Compilation, b: &Compilation, c: &Compilation, e1: Emitted, opcode: OpCode, e2: Emitted, ann: Annotations, frame: usize)
    requires
        a.grew_by(b, e1.followed_by(Emitted::op(OpCode::Nop)).followed_by(e2), ann, frame),
        c.code.opcodes@ == b.code.opcodes@.update((a.code.opcodes@.len() + e1.opcodes.len()) as int, opcode),
        c.code.strings == b.code.strings,
        c.code.functions == b.code.functions,
        c.code.inlined_uses == b.code.inlined_uses,
        c.code.n_local_variables == b.code.n_local_variables,
        c.code.n_shared_local_variables == b.code.n_shared_local_variables,
        c.frame_stack() == b.frame_stack(),
    ensures
        a.grew_by(c, e1.followed_by(Emitted::op(opcode)).followed_by(e2), ann, frame),
{
    reveal(Compilation::grew_exactly);
    let e = e1.followed_by(Emitted::op(opcode)).followed_by(e2);
    let n = a.code.functions@.len();
    assert(c.code.opcodes@ =~= a.code.opcodes@ + e.opcodes);
    assert(string_views(c.code.strings@) =~= string_views(a.code.strings@) + e.strings);
    assert(c.code.inlined_uses@ =~= a.code.inlined_uses@ + e.inlines);
    assert forall|j: int| 0 <= j < e.functions.len() implies function_compiled(
        *#[trigger] c.code.functions@[n + j],
        e.functions[j],
        ann,
        frame,
    ) by {
        assert(e.functions[j] == e1.followed_by(Emitted::op(OpCode::Nop)).followed_by(e2).functions[j]);
    }
}


impl Compilation {
    fn compile_expression(&mut self, ann: &Annotations, expression: &Expression)
        requires
            old(self).frame_stack().len() > 0,
            old(self).frame_stack().last() < ann.frames@.len(),
            expression_compilable(*expression, *ann, old(self).frame_stack().last()),
        ensures
            old(self).grew_by(
                final(self),
                expression_emits(*expression, *ann, old(self).frame_stack().last(), old(self).site()),
                *ann,
                old(self).frame_stack().last(),
            ),
        decreases *expression, 1nat,
    {
        let ghost frame = self.frame_stack().last();
        let ghost start = *self;
        match expression {
            Expression::Nothing => self.emit(OpCode::PushNothing, Ghost(*ann), Ghost(frame)),
            Expression::Boolean { value } => self.emit(OpCode::PushBoolean { value: *value }, Ghost(*ann), Ghost(frame)),
            Expression::Integer { value } => self.emit(OpCode::PushInteger { value: *value }, Ghost(*ann), Ghost(frame)),
            Expression::Float { bits } => self.emit(OpCode::PushFloat { bits: *bits }, Ghost(*ann), Ghost(frame)),
            Expression::String { value } => {
                let index = self.code.strings.len();
                self.code.opcodes.push(OpCode::PushString { index });
                self.code.strings.push(Rc::new(value.clone()));
                proof {
                    let e = expression_emits(*expression, *ann, frame, start.site());
                    assert(start.grew_by(self, e, *ann, frame)) by {
                        reveal(Compilation::grew_exactly);
                        assert(self.code.opcodes@ =~= start.code.opcodes@ + e.opcodes);
                        assert(string_views(self.code.strings@) =~= string_views(start.code.strings@) + e.strings);
                        assert(self.code.inlined_uses@ =~= start.code.inlined_uses@ + e.inlines);
                    }
                }
            },
            Expression::Variable { annotation, .. } => {
                let opcode = self.variable_opcode(ann, *annotation, false);
                self.emit(opcode, Ghost(*ann), Ghost(frame));
            },
            Expression::Name { identifier, annotation } => {
                match annotation.resolution {
                    NameResolution::Implicit => self.emit(OpCode::LoadImplicit { name: *identifier }, Ghost(*ann), Ghost(frame)),
                    NameResolution::Use(u) => {
                        let offset = self.code.opcodes.len();
                        self.code.inlined_uses.push((offset, u));
                        self.code.opcodes.push(OpCode::Fail);
                        proof {
                            let e = expression_emits(*expression, *ann, frame, start.site());
                            assert(start.grew_by(self, e, *ann, frame)) by {
                                reveal(Compilation::grew_exactly);
                                assert(self.code.opcodes@ =~= start.code.opcodes@ + e.opcodes);
                                assert(string_views(self.code.strings@) =~= string_views(start.code.strings@) + e.strings);
                                assert(self.code.inlined_uses@ =~= start.code.inlined_uses@ + e.inlines);
                            }
                        }
                    },
                }
            },
            Expression::DotAccess { expression: accessed, name } => {
                self.compile_expression(ann, &**accessed);
                let ghost mid = *self;
                self.emit(OpCode::GetProperty { name: *name }, Ghost(*ann), Ghost(frame));
                proof {
                    lemma_grew_trans(&start, &mid, self, expression_emits(**accessed, *ann, frame, start.site()),
                        Emitted::op(OpCode::GetProperty { name: *name }), *ann, frame);
                }
            },
            Expression::ItemAccess { expression: accessed, key_expression } => {
                self.compile_expression(ann, &**accessed);
                let ghost mid = *self;
                let ghost e1 = expression_emits(**accessed, *ann, frame, start.site());
                self.compile_expression(ann, &**key_expression);
                let ghost mid2 = *self;
                let ghost e2 = expression_emits(**key_expression, *ann, frame, mid.site());
                self.emit(OpCode::GetItem, Ghost(*ann), Ghost(frame));
                proof {
                    lemma_grew_trans(&start, &mid, &mid2, e1, e2, *ann, frame);
                    lemma_grew_trans(&start, &mid2, self, e1.followed_by(e2), Emitted::op(OpCode::GetItem), *ann, frame);
                }
            },
            Expression::Call { expression: called, arguments } => {
                self.compile_expression(ann, &**called);
                let ghost mid = *self;
                let ghost e1 = expression_emits(**called, *ann, frame, start.site());
                proof {
                    assert(arguments@.skip(0) =~= arguments@);
                }
                self.compile_arguments(ann, arguments, 0);
                let ghost mid2 = *self;
                let ghost e2 = arguments_emits(arguments@, *ann, frame, mid.site());
                self.emit(OpCode::Call { n_arguments: arguments.len() }, Ghost(*ann), Ghost(frame));
                proof {
                    lemma_grew_trans(&start, &mid, &mid2, e1, e2, *ann, frame);
                    lemma_grew_trans(&start, &mid2, self, e1.followed_by(e2), Emitted::op(OpCode::Call { n_arguments: arguments@.len() as usize }), *ann, frame);
                }
            },
            Expression::Binary { operator, left, right } => {
                self.compile_expression(ann, &**left);
                let ghost mid = *self;
                let ghost e1 = expression_emits(**left, *ann, frame, start.site());
                let short_circuit = match operator {
                    BinaryOperator::And => Some(OpCode::ShortCircuitAnd),
                    BinaryOperator::Or => Some(OpCode::ShortCircuitOr),
                    _ => None,
                };
                match short_circuit {
                    Some(opcode) => {
                        self.emit(opcode, Ghost(*ann), Ghost(frame));
                        let ghost mid2 = *self;
                        self.compile_expression(ann, &**right);
                        proof {
                            let e2 = expression_emits(**right, *ann, frame, mid2.site());
                            lemma_grew_trans(&start, &mid, &mid2, e1, Emitted::op(opcode), *ann, frame);
                            lemma_grew_trans(&start, &mid2, self, e1.followed_by(Emitted::op(opcode)), e2, *ann, frame);
                        }
                    },
                    None => {
                        self.compile_expression(ann, &**right);
                        let ghost mid2 = *self;
                        let ghost e2 = expression_emits(**right, *ann, frame, mid.site());
                        let opcode = match operator {
                            BinaryOperator::Is => OpCode::Is,
                            BinaryOperator::Eq => OpCode::Eq,
                            BinaryOperator::Neq => OpCode::Neq,
                            BinaryOperator::Lt => OpCode::Lt,
                            BinaryOperator::Gt => OpCode::Gt,
                            BinaryOperator::LtEq => OpCode::LtEq,
                            BinaryOperator::GtEq => OpCode::GtEq,
                            BinaryOperator::Union => OpCode::Union,
                            BinaryOperator::Addition => OpCode::Add,
                            BinaryOperator::Subtraction => OpCode::Subtract,
                            BinaryOperator::Multiplication => OpCode::Multiply,
                            _ => OpCode::Divide,
                        };
                        self.emit(opcode, Ghost(*ann), Ghost(frame));
                        proof {
                            lemma_grew_trans(&start, &mid, &mid2, e1, e2, *ann, frame);
                            lemma_grew_trans(&start, &mid2, self, e1.followed_by(e2), Emitted::op(opcode), *ann, frame);
                        }
                    },
                }
            },
            Expression::Not { expression: negated } => {
                self.compile_expression(ann, &**negated);
                let ghost mid = *self;
                self.emit(OpCode::Not, Ghost(*ann), Ghost(frame));
                proof {
                    lemma_grew_trans(&start, &mid, self, expression_emits(**negated, *ann, frame, start.site()),
                        Emitted::op(OpCode::Not), *ann, frame);
                }
            },
            Expression::Function { parameters, frame: f, block } => {
                self.compile_function_expression(ann, expression);
            },
        }
    }

    /// Compiles the arguments of a call from the one at `i` on.
    fn compile_arguments(&mut self, ann: &Annotations, arguments: &Vec<Expression>, i: usize)
        requires
            old(self).frame_stack().len() > 0,
            old(self).frame_stack().last() < ann.frames@.len(),
            i <= arguments@.len(),
            forall|k: int| 0 <= k < arguments@.len() ==> expression_compilable(#[trigger] arguments@[k], *ann, old(self).frame_stack().last()),
        ensures
            old(self).grew_by(
                final(self),
                arguments_emits(arguments@.skip(i as int), *ann, old(self).frame_stack().last(), old(self).site()),
                *ann,
                old(self).frame_stack().last(),
            ),
        decreases arguments@, arguments@.len() - i,
    {
        let ghost frame = self.frame_stack().last();
        let ghost start = *self;
        if i == arguments.len() {
            proof {
                assert(arguments@.skip(i as int).len() == 0);
                let e = Emitted::none();
                assert(start.grew_by(self, e, *ann, frame)) by {
                    reveal(Compilation::grew_exactly);
                    assert(self.code.opcodes@ =~= start.code.opcodes@ + e.opcodes);
                    assert(string_views(self.code.strings@) =~= string_views(start.code.strings@) + e.strings);
                    assert(self.code.inlined_uses@ =~= start.code.inlined_uses@ + e.inlines);
                }
            }
            return;
        }
        proof {
            assert(arguments@.skip(i as int)[0] == arguments@[i as int]);
            assert(arguments@.skip(i as int).drop_first() =~= arguments@.skip(i + 1));
        }
        self.compile_expression(ann, &arguments[i]);
        let ghost mid = *self;
        self.compile_arguments(ann, arguments, i + 1);
        proof {
            let e1 = expression_emits(arguments@[i as int], *ann, frame, start.site());
            let e2 = arguments_emits(arguments@.skip(i + 1), *ann, frame, mid.site());
            lemma_grew_trans(&start, &mid, self, e1, e2, *ann, frame);
        }
    }
}


/// Replacing instructions of what `e_nop` emitted so that it reads as `e`,
/// which emits the same otherwise, gives what emitting `e` gives.
proof fn lemma_replaced(a: &Compilation, b: &Compilation, c: &Compilation, e_nop: Emitted, e: Emitted, ann: Annotations, frame: usize)
    requires
        a.grew_by(b, e_nop, ann, frame),
        c.code.opcodes@.len() == b.code.opcodes@.len(),
        forall|k: int| 0 <= k < a.code.opcodes@.len() ==> #[trigger] c.code.opcodes@[k] == b.code.opcodes@[k],
        e.opcodes.len() == e_nop.opcodes.len(),
        forall|k: int| 0 <= k < e.opcodes.len() ==> c.code.opcodes@[a.code.opcodes@.len() + k] == #[trigger] e.opcodes[k],
        e.strings == e_nop.strings,
        e.functions == e_nop.functions,
        e.inlines == e_nop.inlines,
        c.code.strings == b.code.strings,
        c.code.functions == b.code.functions,
        c.code.inlined_uses == b.code.inlined_uses,
        c.code.n_local_variables == b.code.n_local_variables,
        c.code.n_shared_local_variables == b.code.n_shared_local_variables,
        c.frame_stack() == b.frame_stack(),
    ensures
        a.grew_by(c, e, ann, frame),
{
    reveal(Compilation::grew_exactly);
    let n = a.code.opcodes@.len();
    assert forall|k: int| 0 <= k < c.code.opcodes@.len() implies #[trigger] c.code.opcodes@[k] == (a.code.opcodes@ + e.opcodes)[k] by {
        if k >= n {
            assert(c.code.opcodes@[n + (k - n)] == e.opcodes[k - n]);
        }
    }
    assert(c.code.opcodes@ =~= a.code.opcodes@ + e.opcodes);
}

/// The same emission, written another way.
proof fn lemma_grew_same(a: &Compilation, b: &Compilation, e1: Emitted, e2: Emitted, ann: Annotations, frame: usize)
    requires
        a.grew_by(b, e1, ann, frame),
        e1 =~= e2,
    ensures
        a.grew_by(b, e2, ann, frame),
{
    reveal(Compilation::grew_exactly);
}

/// One of `positions` is `k`.
spec fn holds_position(positions: Seq<usize>, k: int) -> bool {
    exists|m: int| 0 <= m < positions.len() && positions[m] == k
}

impl Compilation {
    /// Makes every instruction at one of `positions` a copy of `opcode`.
    fn fill_jumps(&mut self, positions: &Vec<usize>, opcode: OpCode)
        requires
            forall|i: int| 0 <= i < positions@.len() ==> #[trigger] positions@[i] < old(self).code.opcodes@.len(),
        ensures
            final(self).code.opcodes@.len() == old(self).code.opcodes@.len(),
            forall|k: int| 0 <= k < old(self).code.opcodes@.len() ==> #[trigger] final(self).code.opcodes@[k] == if holds_position(positions@, k) {
                opcode
            } else {
                old(self).code.opcodes@[k]
            },
            final(self).code.strings == old(self).code.strings,
            final(self).code.functions == old(self).code.functions,
            final(self).code.inlined_uses == old(self).code.inlined_uses,
            final(self).code.n_local_variables == old(self).code.n_local_variables,
            final(self).code.n_shared_local_variables == old(self).code.n_shared_local_variables,
            final(self).frame_stack() == old(self).frame_stack(),
    {
        let ghost before = self.code.opcodes@;
        let mut i: usize = 0;
        while i < positions.len()
            invariant
                i <= positions@.len(),
                forall|m: int| 0 <= m < positions@.len() ==> #[trigger] positions@[m] < before.len(),
                self.code.opcodes@.len() == before.len(),
                forall|k: int| 0 <= k < before.len() ==> #[trigger] self.code.opcodes@[k] == if holds_position(positions@.take(i as int), k) {
                    opcode
                } else {
                    before[k]
                },
                self.code.strings == old(self).code.strings,
                self.code.functions == old(self).code.functions,
                self.code.inlined_uses == old(self).code.inlined_uses,
                self.code.n_local_variables == old(self).code.n_local_variables,
                self.code.n_shared_local_variables == old(self).code.n_shared_local_variables,
                self.frame_stack() == old(self).frame_stack(),
            decreases positions@.len() - i,
        {
            let ghost current = self.code.opcodes@;
            let ghost taken = positions@.take(i as int);
            let ghost next = positions@.take(i + 1);
            self.fill_in_placeholder(positions[i], opcode);
            proof {
                assert forall|k: int| 0 <= k < before.len() implies #[trigger] self.code.opcodes@[k] == if holds_position(next, k) {
                    opcode
                } else {
                    before[k]
                } by {
                    if k == positions@[i as int] {
                        assert(next[i as int] == k);
                    } else {
                        assert(self.code.opcodes@[k] == current[k]);
                        if holds_position(next, k) {
                            let m = choose|m: int| 0 <= m < next.len() && next[m] == k;
                            assert(taken[m] == k);
                        }
                        if holds_position(taken, k) {
                            let m = choose|m: int| 0 <= m < taken.len() && taken[m] == k;
                            assert(next[m] == k);
                        }
                    }
                }
            }
            i += 1;
        }
        proof {
            assert(positions@.take(i as int) =~= positions@);
        }
    }
}


impl Compilation {
    /// Compiles the statements of `block` from the one at `i` on.
    fn compile_block(&mut self, ann: &Annotations, block: &Vec<Statement>, i: usize)
        requires
            old(self).frame_stack().len() > 0,
            old(self).frame_stack().last() < ann.frames@.len(),
            i <= block@.len(),
            forall|k: int| 0 <= k < block@.len() ==> statement_compilable(#[trigger] block@[k], *ann, old(self).frame_stack().last()),
        ensures
            old(self).grew_by(
                final(self),
                block_emits(block@.skip(i as int), *ann, old(self).frame_stack().last(), old(self).site()),
                *ann,
                old(self).frame_stack().last(),
            ),
        decreases block@, block@.len() - i,
    {
        let ghost frame = self.frame_stack().last();
        let ghost start = *self;
        if i == block.len() {
            proof {
                assert(block@.skip(i as int).len() == 0);
                let e = Emitted::none();
                assert(start.grew_by(self, e, *ann, frame)) by {
                    reveal(Compilation::grew_exactly);
                    assert(self.code.opcodes@ =~= start.code.opcodes@ + e.opcodes);
                    assert(string_views(self.code.strings@) =~= string_views(start.code.strings@) + e.strings);
                    assert(self.code.inlined_uses@ =~= start.code.inlined_uses@ + e.inlines);
                }
            }
            return;
        }
        proof {
            assert(block@.skip(i as int)[0] == block@[i as int]);
            assert(block@.skip(i as int).drop_first() =~= block@.skip(i + 1));
        }
        self.compile_statement(ann, &block[i]);
        let ghost mid = *self;
        self.compile_block(ann, block, i + 1);
        proof {
            let e1 = statement_emits(block@[i as int], *ann, frame, start.site());
            let e2 = block_emits(block@.skip(i + 1), *ann, frame, mid.site());
            lemma_grew_trans(&start, &mid, self, e1, e2, *ann, frame);
        }
    }

    fn compile_statement(&mut self, ann: &Annotations, statement: &Statement)
        requires
            old(self).frame_stack().len() > 0,
            old(self).frame_stack().last() < ann.frames@.len(),
            statement_compilable(*statement, *ann, old(self).frame_stack().last()),
        ensures
            old(self).grew_by(
                final(self),
                statement_emits(*statement, *ann, old(self).frame_stack().last(), old(self).site()),
                *ann,
                old(self).frame_stack().last(),
            ),
        decreases *statement, 2nat,
    {
        let ghost frame = self.frame_stack().last();
        let ghost start = *self;
        match statement {
            Statement::Use { annotation, .. } => {
                self.emit(OpCode::Use { operation: *annotation }, Ghost(*ann), Ghost(frame));
            },
            Statement::ExpressionStatement { expression } => {
                self.compile_expression(ann, &**expression);
                let ghost mid = *self;
                self.emit(OpCode::Pop, Ghost(*ann), Ghost(frame));
                proof {
                    lemma_grew_trans(&start, &mid, self, expression_emits(**expression, *ann, frame, start.site()),
                        Emitted::op(OpCode::Pop), *ann, frame);
                }
            },
            Statement::Assignment { lvalue, rvalue } => {
                match &**lvalue {
                    Lvalue::VariableLvalue { annotation, .. } => {
                        self.compile_expression(ann, &**rvalue);
                        let ghost mid = *self;
                        let opcode = self.variable_opcode(ann, *annotation, true);
                        self.emit(opcode, Ghost(*ann), Ghost(frame));
                        proof {
                            lemma_grew_trans(&start, &mid, self, expression_emits(**rvalue, *ann, frame, start.site()),
                                Emitted::op(opcode), *ann, frame);
                        }
                    },
                    Lvalue::DotAccessLvalue { expression, name } => {
                        self.compile_expression(ann, &**expression);
                        let ghost mid = *self;
                        let ghost e1 = expression_emits(**expression, *ann, frame, start.site());
                        self.compile_expression(ann, &**rvalue);
                        let ghost mid2 = *self;
                        let ghost e2 = expression_emits(**rvalue, *ann, frame, mid.site());
                        self.emit(OpCode::SetProperty { name: *name }, Ghost(*ann), Ghost(frame));
                        proof {
                            lemma_grew_trans(&start, &mid, &mid2, e1, e2, *ann, frame);
                            lemma_grew_trans(&start, &mid2, self, e1.followed_by(e2), Emitted::op(OpCode::SetProperty { name: *name }), *ann, frame);
                        }
                    },
                }
            },
            Statement::Let { annotation, default, .. } => {
                let has_default = default.is_some();
                let ghost e1 = match default {
                    Some(e) => expression_emits(**e, *ann, frame, start.site()),
                    None => Emitted::none(),
                };
                match default {
                    Some(e) => self.compile_expression(ann, &**e),
                    None => {
                        proof {
                            assert(start.grew_by(self, e1, *ann, frame)) by {
                                reveal(Compilation::grew_exactly);
                                assert(self.code.opcodes@ =~= start.code.opcodes@ + e1.opcodes);
                                assert(string_views(self.code.strings@) =~= string_views(start.code.strings@) + e1.strings);
                                assert(self.code.inlined_uses@ =~= start.code.inlined_uses@ + e1.inlines);
                            }
                        }
                    },
                }
                let ghost mid = *self;
                let slot = ann.variables[*annotation].local_storage_index;
                match ann.variables[*annotation].local_storage_type {
                    LocalStorageType::Local => {
                        if has_default {
                            self.emit(OpCode::StoreLocal(slot), Ghost(*ann), Ghost(frame));
                        } else {
                            proof {
                                let e = Emitted::none();
                                assert(mid.grew_by(self, e, *ann, frame)) by {
                                    reveal(Compilation::grew_exactly);
                                    assert(self.code.opcodes@ =~= mid.code.opcodes@ + e.opcodes);
                                    assert(string_views(self.code.strings@) =~= string_views(mid.code.strings@) + e.strings);
                                    assert(self.code.inlined_uses@ =~= mid.code.inlined_uses@ + e.inlines);
                                }
                            }
                        }
                    },
                    LocalStorageType::SharedLocal => {
                        self.emit(OpCode::InitializeSharedLocal(slot), Ghost(*ann), Ghost(frame));
                        if has_default {
                            let ghost mid2 = *self;
                            self.emit(OpCode::StoreSharedLocal(slot), Ghost(*ann), Ghost(frame));
                            proof {
                                lemma_grew_trans(&mid, &mid2, self, Emitted::op(OpCode::InitializeSharedLocal(slot)),
                                    Emitted::op(OpCode::StoreSharedLocal(slot)), *ann, frame);
                            }
                        }
                    },
                }
                proof {
                    let e2 = let_emits(*ann, *annotation, has_default);
                    lemma_grew_trans(&start, &mid, self, e1, e2, *ann, frame);
                    if !has_default {
                        assert(e1.followed_by(e2) =~= e2);
                        lemma_grew_same(&start, self, e1.followed_by(e2), e2, *ann, frame);
                    }
                }
            },
            Statement::Print { expression } => {
                self.compile_expression(ann, &**expression);
                let ghost mid = *self;
                self.emit(OpCode::ToString, Ghost(*ann), Ghost(frame));
                let ghost mid2 = *self;
                self.emit(OpCode::Print, Ghost(*ann), Ghost(frame));
                proof {
                    let e1 = expression_emits(**expression, *ann, frame, start.site());
                    lemma_grew_trans(&start, &mid, &mid2, e1, Emitted::op(OpCode::ToString), *ann, frame);
                    lemma_grew_trans(&start, &mid2, self, e1.followed_by(Emitted::op(OpCode::ToString)), Emitted::op(OpCode::Print), *ann, frame);
                }
            },
            Statement::Return { expression } => {
                let ghost e1 = match expression {
                    Some(e) => expression_emits(**e, *ann, frame, start.site()),
                    None => Emitted::op(OpCode::PushNothing),
                };
                match expression {
                    Some(e) => self.compile_expression(ann, &**e),
                    None => self.emit(OpCode::PushNothing, Ghost(*ann), Ghost(frame)),
                }
                let ghost mid = *self;
                self.emit(OpCode::Return, Ghost(*ann), Ghost(frame));
                proof {
                    lemma_grew_trans(&start, &mid, self, e1, Emitted::op(OpCode::Return), *ann, frame);
                }
            },
            Statement::Throw { expression } => {
                self.compile_expression(ann, &**expression);
                let ghost mid = *self;
                self.emit(OpCode::Throw, Ghost(*ann), Ghost(frame));
                proof {
                    lemma_grew_trans(&start, &mid, self, expression_emits(**expression, *ann, frame, start.site()),
                        Emitted::op(OpCode::Throw), *ann, frame);
                }
            },
            Statement::While { test, block, .. } => {
                let loop_start = self.code.opcodes.len();
                self.compile_expression(ann, &**test);
                let ghost mid = *self;
                let ghost e1 = expression_emits(**test, *ann, frame, start.site());
                let test_opcode = self.create_placeholder(Ghost(*ann), Ghost(frame));
                let ghost mid2 = *self;
                proof {
                    assert(block@.skip(0) =~= block@);
                }
                self.compile_block(ann, block, 0);
                let ghost mid3 = *self;
                let ghost e2 = block_emits(block@, *ann, frame, mid2.site());
                self.emit(OpCode::Jump { instruction: loop_start }, Ghost(*ann), Ghost(frame));
                let ghost mid4 = *self;
                let end = self.code.opcodes.len();
                self.fill_in_placeholder(test_opcode, OpCode::JumpIfPopFalsy { instruction: end });
                proof {
                    let nop = Emitted::op(OpCode::Nop);
                    let back = Emitted::op(OpCode::Jump { instruction: loop_start });
                    lemma_grew_trans(&start, &mid, &mid2, e1, nop, *ann, frame);
                    lemma_grew_trans(&start, &mid2, &mid3, e1.followed_by(nop), e2, *ann, frame);
                    lemma_grew_trans(&start, &mid3, &mid4, e1.followed_by(nop).followed_by(e2), back, *ann, frame);
                    assert(e1.followed_by(nop).followed_by(e2).followed_by(back) =~= e1.followed_by(nop).followed_by(e2.followed_by(back)));
                    lemma_grew_same(&start, &mid4, e1.followed_by(nop).followed_by(e2).followed_by(back),
                        e1.followed_by(nop).followed_by(e2.followed_by(back)), *ann, frame);
                    lemma_filled(&start, &mid4, self, e1, OpCode::JumpIfPopFalsy { instruction: end }, e2.followed_by(back), *ann, frame);
                    let jump = Emitted::op(OpCode::JumpIfPopFalsy { instruction: end });
                    assert(e1.followed_by(jump).followed_by(e2.followed_by(back)) =~= e1.followed_by(jump).followed_by(e2).followed_by(back));
                    lemma_grew_same(&start, self, e1.followed_by(jump).followed_by(e2.followed_by(back)),
                        e1.followed_by(jump).followed_by(e2).followed_by(back), *ann, frame);
                }
            },
            Statement::If { .. } => self.compile_if(ann, statement),
            Statement::Try { .. } => self.compile_try(ann, statement),
            _ => {
                self.emit(OpCode::Nop, Ghost(*ann), Ghost(frame));
            },
        }
    }
}


/// The `else if` clauses, from the one at `i` on, can be compiled in frame
/// `frame`.
spec fn else_ifs_compilable(clauses: Seq<ElseIf>, ann: Annotations, frame: usize) -> bool {
    forall|k: int| 0 <= k < clauses.len() ==> {
        let clause = #[trigger] clauses[k];
        &&& expression_compilable(*clause.test, ann, frame)
        &&& forall|i: int| 0 <= i < clause.block@.len() ==> statement_compilable(#[trigger] clause.block@[i], ann, frame)
    }
}

impl Compilation {
    /// Compiles the `else if` clauses from the one at `i` on, with a
    /// placeholder for each jump past the statement; their offsets are added
    /// to `end_jumps`.
    fn compile_else_ifs(&mut self, ann: &Annotations, clauses: &Vec<ElseIf>, i: usize, has_else: bool, end_jumps: &mut Vec<usize>)
        requires
            old(self).frame_stack().len() > 0,
            old(self).frame_stack().last() < ann.frames@.len(),
            i <= clauses@.len(),
            else_ifs_compilable(clauses@, *ann, old(self).frame_stack().last()),
        ensures
            old(self).grew_by(
                final(self),
                else_ifs_emits(clauses@.skip(i as int), *ann, old(self).frame_stack().last(), old(self).site(), has_else, OpCode::Nop),
                *ann,
                old(self).frame_stack().last(),
            ),
            ({
                let ps = else_if_end_jumps(clauses@.skip(i as int), *ann, old(self).frame_stack().last(), old(self).site(), has_else);
                &&& final(end_jumps)@.len() == old(end_jumps)@.len() + ps.len()
                &&& forall|m: int| 0 <= m < old(end_jumps)@.len() ==> #[trigger] final(end_jumps)@[m] == old(end_jumps)@[m]
                &&& forall|m: int| 0 <= m < ps.len() ==> final(end_jumps)@[old(end_jumps)@.len() + m] == #[trigger] ps[m]
            }),
        decreases clauses@, clauses@.len() - i,
    {
        let ghost frame = self.frame_stack().last();
        let ghost start = *self;
        let ghost start_jumps = end_jumps@;
        let ghost rest = clauses@.skip(i as int);
        if i == clauses.len() {
            proof {
                assert(rest.len() == 0);
                let e = Emitted::none();
                assert(start.grew_by(self, e, *ann, frame)) by {
                    reveal(Compilation::grew_exactly);
                    assert(self.code.opcodes@ =~= start.code.opcodes@ + e.opcodes);
                    assert(string_views(self.code.strings@) =~= string_views(start.code.strings@) + e.strings);
                    assert(self.code.inlined_uses@ =~= start.code.inlined_uses@ + e.inlines);
                }
            }
            return;
        }
        proof {
            assert(rest[0] == clauses@[i as int]);
            assert(rest.drop_first() =~= clauses@.skip(i + 1));
        }
        let clause = &clauses[i];
        self.compile_expression(ann, &*clause.test);
        let ghost mid1 = *self;
        let ghost e_t = expression_emits(*clause.test, *ann, frame, start.site());
        let test_jump = self.create_placeholder(Ghost(*ann), Ghost(frame));
        let ghost mid2 = *self;
        proof {
            assert(clause.block@.skip(0) =~= clause.block@);
        }
        self.compile_block(ann, &clause.block, 0);
        let ghost mid3 = *self;
        let ghost e_b = block_emits(clause.block@, *ann, frame, mid2.site());
        let jumps_to_end = i + 1 < clauses.len() || has_else;
        let ghost e_j = if jumps_to_end { Emitted::op(OpCode::Nop) } else { Emitted::none() };
        if jumps_to_end {
            let p = self.create_placeholder(Ghost(*ann), Ghost(frame));
            end_jumps.push(p);
        } else {
            proof {
                assert(mid3.grew_by(self, e_j, *ann, frame)) by {
                    reveal(Compilation::grew_exactly);
                    assert(self.code.opcodes@ =~= mid3.code.opcodes@ + e_j.opcodes);
                    assert(string_views(self.code.strings@) =~= string_views(mid3.code.strings@) + e_j.strings);
                    assert(self.code.inlined_uses@ =~= mid3.code.inlined_uses@ + e_j.inlines);
                }
            }
        }
        let ghost mid4 = *self;
        let next = self.code.opcodes.len();
        self.fill_in_placeholder(test_jump, OpCode::JumpIfPopFalsy { instruction: next });
        let ghost mid5 = *self;
        let ghost mid5_jumps = end_jumps@;
        proof {
            let nop = Emitted::op(OpCode::Nop);
            lemma_grew_trans(&start, &mid1, &mid2, e_t, nop, *ann, frame);
            lemma_grew_trans(&start, &mid2, &mid3, e_t.followed_by(nop), e_b, *ann, frame);
            lemma_grew_trans(&start, &mid3, &mid4, e_t.followed_by(nop).followed_by(e_b), e_j, *ann, frame);
            lemma_grew_same(&start, &mid4, e_t.followed_by(nop).followed_by(e_b).followed_by(e_j),
                e_t.followed_by(nop).followed_by(e_b.followed_by(e_j)), *ann, frame);
            lemma_filled(&start, &mid4, &mid5, e_t, OpCode::JumpIfPopFalsy { instruction: next }, e_b.followed_by(e_j), *ann, frame);
        }
        self.compile_else_ifs(ann, clauses, i + 1, has_else, end_jumps);
        proof {
            let jump = Emitted::op(OpCode::JumpIfPopFalsy { instruction: next });
            let first = e_t.followed_by(jump).followed_by(e_b.followed_by(e_j));
            let e_rest = else_ifs_emits(clauses@.skip(i + 1), *ann, frame, mid5.site(), has_else, OpCode::Nop);
            lemma_grew_trans(&start, &mid5, self, first, e_rest, *ann, frame);
            let spec_first = e_t.followed_by(jump).followed_by(e_b).followed_by(e_j);
            assert(first.followed_by(e_rest) =~= spec_first.followed_by(e_rest));
            lemma_grew_same(&start, self, first.followed_by(e_rest), spec_first.followed_by(e_rest), *ann, frame);
            let ps = else_if_end_jumps(rest, *ann, frame, start.site(), has_else);
            let rps = else_if_end_jumps(clauses@.skip(i + 1), *ann, frame, mid5.site(), has_else);
            if jumps_to_end {
                assert(ps =~= seq![mid3.code.opcodes@.len() as int] + rps);
                assert(mid5_jumps[start_jumps.len() as int] == mid3.code.opcodes@.len());
            } else {
                assert(ps =~= rps);
            }
            assert forall|m: int| 0 <= m < ps.len() implies end_jumps@[start_jumps.len() + m] == #[trigger] ps[m] by {
                if jumps_to_end {
                    if m > 0 {
                        assert(ps[m] == rps[m - 1]);
                        assert(end_jumps@[mid5_jumps.len() + (m - 1)] == rps[m - 1]);
                    } else {
                        assert(end_jumps@[start_jumps.len() as int] == mid5_jumps[start_jumps.len() as int]);
                    }
                } else {
                    assert(end_jumps@[mid5_jumps.len() + m] == rps[m]);
                }
            }
            assert forall|m: int| 0 <= m < start_jumps.len() implies #[trigger] end_jumps@[m] == start_jumps[m] by {
                assert(end_jumps@[m] == mid5_jumps[m]);
            }
        }
    }
}


impl Compilation {
    #[verifier::spinoff_prover]
    #[verifier::rlimit(40)]
    fn compile_if(&mut self, ann: &Annotations, statement: &Statement)
        requires
            old(self).frame_stack().len() > 0,
            old(self).frame_stack().last() < ann.frames@.len(),
            *statement is If,
            statement_compilable(*statement, *ann, old(self).frame_stack().last()),
        ensures
            old(self).grew_by(
                final(self),
                statement_emits(*statement, *ann, old(self).frame_stack().last(), old(self).site()),
                *ann,
                old(self).frame_stack().last(),
            ),
        decreases *statement, 1nat,
    {
        let ghost frame = self.frame_stack().last();
        let ghost start = *self;
        let (test, block, else_if_clauses, else_clause) = match statement {
            Statement::If { test, block, else_if_clauses, else_clause } => (test, block, else_if_clauses, else_clause),
            _ => {
                return;
            },
        };
        self.compile_expression(ann, &**test);
        let ghost m1 = *self;
        let ghost e_t = expression_emits(**test, *ann, frame, start.site());
        let jump_else = self.create_placeholder(Ghost(*ann), Ghost(frame));
        let ghost m2 = *self;
        proof {
            assert(block@.skip(0) =~= block@);
        }
        self.compile_block(ann, block, 0);
        let ghost m3 = *self;
        let ghost e_b = block_emits(block@, *ann, frame, m2.site());
        let has_else = else_clause.is_some();
        let jumps_to_end = else_if_clauses.len() > 0 || has_else;
        let ghost e_j = if jumps_to_end { Emitted::op(OpCode::Nop) } else { Emitted::none() };
        let mut end_jumps: Vec<usize> = Vec::new();
        if jumps_to_end {
            let p = self.create_placeholder(Ghost(*ann), Ghost(frame));
            end_jumps.push(p);
        } else {
            proof {
                assert(m3.grew_by(self, e_j, *ann, frame)) by {
                    reveal(Compilation::grew_exactly);
                    assert(self.code.opcodes@ =~= m3.code.opcodes@ + e_j.opcodes);
                    assert(string_views(self.code.strings@) =~= string_views(m3.code.strings@) + e_j.strings);
                    assert(self.code.inlined_uses@ =~= m3.code.inlined_uses@ + e_j.inlines);
                }
            }
        }
        let ghost m4 = *self;
        let ghost m4_jumps = end_jumps@;
        let clauses_at = self.code.opcodes.len();
        proof {
            assert(else_if_clauses@.skip(0) =~= else_if_clauses@);
            assert forall|k: int| 0 <= k < else_if_clauses@.len() implies {
                let clause = #[trigger] else_if_clauses@[k];
                &&& expression_compilable(*clause.test, *ann, frame)
                &&& forall|i: int| 0 <= i < clause.block@.len() ==> statement_compilable(#[trigger] clause.block@[i], *ann, frame)
            } by {}
        }
        self.compile_else_ifs(ann, else_if_clauses, 0, has_else, &mut end_jumps);
        let ghost m5 = *self;
        let ghost e_c = else_ifs_emits(else_if_clauses@, *ann, frame, m4.site(), has_else, OpCode::Nop);
        let ghost e_e = match else_clause {
            Some(c) => block_emits(c.block@, *ann, frame, m5.site()),
            None => Emitted::none(),
        };
        match else_clause {
            Some(c) => {
                proof {
                    assert(c.block@.skip(0) =~= c.block@);
                }
                self.compile_block(ann, &c.block, 0);
            },
            None => {
                proof {
                    assert(m5.grew_by(self, e_e, *ann, frame)) by {
                        reveal(Compilation::grew_exactly);
                        assert(self.code.opcodes@ =~= m5.code.opcodes@ + e_e.opcodes);
                        assert(string_views(self.code.strings@) =~= string_views(m5.code.strings@) + e_e.strings);
                        assert(self.code.inlined_uses@ =~= m5.code.inlined_uses@ + e_e.inlines);
                    }
                }
            },
        }
        let ghost m6 = *self;
        let end = self.code.opcodes.len();
        self.fill_in_placeholder(jump_else, OpCode::JumpIfPopFalsy { instruction: clauses_at });
        let ghost m7 = *self;
        proof {
            let nop = Emitted::op(OpCode::Nop);
            lemma_grew_trans(&start, &m1, &m2, e_t, nop, *ann, frame);
            lemma_grew_trans(&start, &m2, &m3, e_t.followed_by(nop), e_b, *ann, frame);
            lemma_grew_trans(&start, &m3, &m4, e_t.followed_by(nop).followed_by(e_b), e_j, *ann, frame);
            lemma_grew_trans(&start, &m4, &m5, e_t.followed_by(nop).followed_by(e_b).followed_by(e_j), e_c, *ann, frame);
            lemma_grew_trans(&start, &m5, &m6, e_t.followed_by(nop).followed_by(e_b).followed_by(e_j).followed_by(e_c), e_e, *ann, frame);
            let tail = e_b.followed_by(e_j).followed_by(e_c).followed_by(e_e);
            lemma_grew_same(&start, &m6, e_t.followed_by(nop).followed_by(e_b).followed_by(e_j).followed_by(e_c).followed_by(e_e),
                e_t.followed_by(nop).followed_by(tail), *ann, frame);
            lemma_filled(&start, &m6, &m7, e_t, OpCode::JumpIfPopFalsy { instruction: clauses_at }, tail, *ann, frame);
            assert forall|m: int| 0 <= m < end_jumps@.len() implies #[trigger] end_jumps@[m] < m7.code.opcodes@.len() by {
                let ps = else_if_end_jumps(else_if_clauses@, *ann, frame, m4.site(), has_else);
                lemma_else_if_end_jumps(else_if_clauses@, *ann, frame, m4.site(), has_else, OpCode::Jump { instruction: end });
                if m >= m4_jumps.len() {
                    assert(end_jumps@[m4_jumps.len() + (m - m4_jumps.len())] == ps[m - m4_jumps.len()]);
                }
            }
        }
        self.fill_jumps(&end_jumps, OpCode::Jump { instruction: end });
        proof {
            let jump = Emitted::op(OpCode::JumpIfPopFalsy { instruction: clauses_at });
            let end_jump = OpCode::Jump { instruction: end };
            lemma_else_if_end_jumps(else_if_clauses@, *ann, frame, m4.site(), has_else, end_jump);
            let e_cj = else_ifs_emits(else_if_clauses@, *ann, frame, m4.site(), has_else, end_jump);
            let ps = else_if_end_jumps(else_if_clauses@, *ann, frame, m4.site(), has_else);
            let e_jj = if jumps_to_end { Emitted::op(end_jump) } else { Emitted::none() };
            let qs = if jumps_to_end { seq![m3.code.opcodes@.len() as int] + ps } else { ps };
            lemma_prefixed_jumps(e_j, e_jj, e_c, e_cj, ps, qs, m3.code.opcodes@.len() as int, end_jump, jumps_to_end);
            assert forall|i: int| 0 <= i < qs.len() implies end_jumps@[i] == #[trigger] qs[i] by {
                if jumps_to_end {
                    if i > 0 {
                        assert(end_jumps@[1 + (i - 1)] == ps[i - 1]);
                    } else {
                        assert(end_jumps@[0] == m4_jumps[0]);
                    }
                } else {
                    assert(end_jumps@[0 + i] == ps[i]);
                }
            }
            let pre = e_t.followed_by(jump).followed_by(e_b);
            lemma_grew_same(&start, &m7, e_t.followed_by(jump).followed_by(e_b.followed_by(e_j).followed_by(e_c).followed_by(e_e)),
                pre.followed_by(e_j.followed_by(e_c)).followed_by(e_e), *ann, frame);
            lemma_jumps_replaced(&start, &m7, self, pre, e_j.followed_by(e_c), e_jj.followed_by(e_cj), e_e, end_jumps@, qs, end_jump, *ann, frame);
            let e = statement_emits(*statement, *ann, frame, start.site());
            assert(e =~= pre.followed_by(e_jj.followed_by(e_cj)).followed_by(e_e));
        }
    
    }
}


/// The `catch` clauses can be compiled in frame `frame`.
spec fn catches_compilable(clauses: Seq<Catch>, ann: Annotations, frame: usize) -> bool {
    forall|k: int| 0 <= k < clauses.len() ==> {
        let clause = #[trigger] clauses[k];
        &&& clause.variable < ann.variables@.len()
        &&& match clause.type_ {
            Some(t) => expression_compilable(*t, ann, frame),
            None => true,
        }
        &&& forall|i: int| 0 <= i < clause.block@.len() ==> statement_compilable(#[trigger] clause.block@[i], ann, frame)
    }
}

impl Compilation {
    /// Compiles the `catch` clauses from the one at `i` on, with a
    /// placeholder for each jump past the `else` clause; their offsets are
    /// added to `end_jumps`.
    #[verifier::spinoff_prover]
    fn compile_catches(&mut self, ann: &Annotations, clauses: &Vec<Catch>, i: usize, end_jumps: &mut Vec<usize>)
        requires
            old(self).frame_stack().len() > 0,
            old(self).frame_stack().last() < ann.frames@.len(),
            i <= clauses@.len(),
            catches_compilable(clauses@, *ann, old(self).frame_stack().last()),
        ensures
            old(self).grew_by(
                final(self),
                catches_emits(clauses@.skip(i as int), *ann, old(self).frame_stack().last(), old(self).site(), OpCode::Nop),
                *ann,
                old(self).frame_stack().last(),
            ),
            ({
                let ps = catch_end_jumps(clauses@.skip(i as int), *ann, old(self).frame_stack().last(), old(self).site());
                &&& final(end_jumps)@.len() == old(end_jumps)@.len() + ps.len()
                &&& forall|m: int| 0 <= m < old(end_jumps)@.len() ==> #[trigger] final(end_jumps)@[m] == old(end_jumps)@[m]
                &&& forall|m: int| 0 <= m < ps.len() ==> final(end_jumps)@[old(end_jumps)@.len() + m] == #[trigger] ps[m]
            }),
        decreases clauses@, clauses@.len() - i,
    {
        let ghost frame = self.frame_stack().last();
        let ghost start = *self;
        let ghost start_jumps = end_jumps@;
        let ghost rest = clauses@.skip(i as int);
        if i == clauses.len() {
            proof {
                assert(rest.len() == 0);
                let e = Emitted::none();
                assert(start.grew_by(self, e, *ann, frame)) by {
                    reveal(Compilation::grew_exactly);
                    assert(self.code.opcodes@ =~= start.code.opcodes@ + e.opcodes);
                    assert(string_views(self.code.strings@) =~= string_views(start.code.strings@) + e.strings);
                    assert(self.code.inlined_uses@ =~= start.code.inlined_uses@ + e.inlines);
                }
            }
            return;
        }
        proof {
            assert(rest[0] == clauses@[i as int]);
            assert(rest.drop_first() =~= clauses@.skip(i + 1));
        }
        let clause = &clauses[i];
        let ghost e_t = if clause.type_ is Some {
            expression_emits(*clause.type_->Some_0, *ann, frame, start.site()).followed_by(Emitted::op(OpCode::ThrownIs))
        } else {
            Emitted::none()
        };
        let has_type = clause.type_.is_some();
        match &clause.type_ {
            Some(t) => {
                self.compile_expression(ann, &**t);
                let ghost mid = *self;
                self.emit(OpCode::ThrownIs, Ghost(*ann), Ghost(frame));
                proof {
                    lemma_grew_trans(&start, &mid, self, expression_emits(**t, *ann, frame, start.site()),
                        Emitted::op(OpCode::ThrownIs), *ann, frame);
                }
            },
            None => {
                proof {
                    assert(start.grew_by(self, e_t, *ann, frame)) by {
                        reveal(Compilation::grew_exactly);
                        assert(self.code.opcodes@ =~= start.code.opcodes@ + e_t.opcodes);
                        assert(string_views(self.code.strings@) =~= string_views(start.code.strings@) + e_t.strings);
                        assert(self.code.inlined_uses@ =~= start.code.inlined_uses@ + e_t.inlines);
                    }
                }
            },
        }
        let ghost mid1 = *self;
        let catch = self.create_placeholder(Ghost(*ann), Ghost(frame));
        let ghost mid2 = *self;
        proof {
            assert(clause.block@.skip(0) =~= clause.block@);
        }
        self.compile_block(ann, &clause.block, 0);
        let ghost mid3 = *self;
        let ghost e_b = block_emits(clause.block@, *ann, frame, mid2.site());
        let p = self.create_placeholder(Ghost(*ann), Ghost(frame));
        end_jumps.push(p);
        let ghost mid4 = *self;
        let next = self.code.opcodes.len();
        let slot = ann.variables[clause.variable].local_storage_index;
        let opcode = match (has_type, ann.variables[clause.variable].local_storage_type) {
            (true, LocalStorageType::Local) => OpCode::CatchLocalOrJump { storage_index: slot, instruction: next },
            (true, LocalStorageType::SharedLocal) => OpCode::CatchSharedLocalOrJump { storage_index: slot, instruction: next },
            (false, LocalStorageType::Local) => OpCode::CatchLocal { storage_index: slot },
            (false, LocalStorageType::SharedLocal) => OpCode::CatchSharedLocal { storage_index: slot },
        };
        self.fill_in_placeholder(catch, opcode);
        let ghost mid5 = *self;
        let ghost mid5_jumps = end_jumps@;
        proof {
            let nop = Emitted::op(OpCode::Nop);
            lemma_grew_trans(&start, &mid1, &mid2, e_t, nop, *ann, frame);
            lemma_grew_trans(&start, &mid2, &mid3, e_t.followed_by(nop), e_b, *ann, frame);
            lemma_grew_trans(&start, &mid3, &mid4, e_t.followed_by(nop).followed_by(e_b), nop, *ann, frame);
            lemma_grew_same(&start, &mid4, e_t.followed_by(nop).followed_by(e_b).followed_by(nop),
                e_t.followed_by(nop).followed_by(e_b.followed_by(nop)), *ann, frame);
            lemma_filled(&start, &mid4, &mid5, e_t, opcode, e_b.followed_by(nop), *ann, frame);
            assert(opcode == catch_opcode(*ann, *clause, next as int));
        }
        self.compile_catches(ann, clauses, i + 1, end_jumps);
        proof {
            let nop = Emitted::op(OpCode::Nop);
            let first = e_t.followed_by(Emitted::op(opcode)).followed_by(e_b.followed_by(nop));
            let e_rest = catches_emits(clauses@.skip(i + 1), *ann, frame, mid5.site(), OpCode::Nop);
            lemma_grew_trans(&start, &mid5, self, first, e_rest, *ann, frame);
            let spec_first = e_t.followed_by(Emitted::op(opcode)).followed_by(e_b).followed_by(nop);
            assert(first.followed_by(e_rest) =~= spec_first.followed_by(e_rest));
            lemma_grew_same(&start, self, first.followed_by(e_rest), spec_first.followed_by(e_rest), *ann, frame);
            let ps = catch_end_jumps(rest, *ann, frame, start.site());
            let rps = catch_end_jumps(clauses@.skip(i + 1), *ann, frame, mid5.site());
            assert(ps =~= seq![mid3.code.opcodes@.len() as int] + rps);
            assert(mid5_jumps[start_jumps.len() as int] == mid3.code.opcodes@.len());
            assert forall|m: int| 0 <= m < ps.len() implies end_jumps@[start_jumps.len() + m] == #[trigger] ps[m] by {
                if m > 0 {
                    assert(ps[m] == rps[m - 1]);
                    assert(end_jumps@[mid5_jumps.len() + (m - 1)] == rps[m - 1]);
                } else {
                    assert(end_jumps@[start_jumps.len() as int] == mid5_jumps[start_jumps.len() as int]);
                }
            }
            assert forall|m: int| 0 <= m < start_jumps.len() implies #[trigger] end_jumps@[m] == start_jumps[m] by {
                assert(end_jumps@[m] == mid5_jumps[m]);
            }
        }
    }
}


/// Making the jumps at `positions`, which all stand in what `x_nop` emitted,
/// the jump `jump` turns what `x_nop` emitted into what `x` emits.
proof fn lemma_jumps_replaced(
    a: &Compilation,
    b: &Compilation,
    c: &Compilation,
    p: Emitted,
    x_nop: Emitted,
    x: Emitted,
    q: Emitted,
    positions: Seq<usize>,
    ps: Seq<int>,
    jump: OpCode,
    ann: Annotations,
    frame: usize,
)
    requires
        a.grew_by(b, p.followed_by(x_nop).followed_by(q), ann, frame),
        c.code.opcodes@.len() == b.code.opcodes@.len(),
        forall|k: int| 0 <= k < b.code.opcodes@.len() ==> #[trigger] c.code.opcodes@[k] == if holds_position(positions, k) {
            jump
        } else {
            b.code.opcodes@[k]
        },
        positions.len() == ps.len(),
        forall|i: int| 0 <= i < ps.len() ==> positions[i] == #[trigger] ps[i],
        forall|i: int| 0 <= i < ps.len() ==> a.code.opcodes@.len() + p.opcodes.len() <= #[trigger] ps[i]
            < a.code.opcodes@.len() + p.opcodes.len() + x_nop.opcodes.len(),
        x.opcodes.len() == x_nop.opcodes.len(),
        forall|k: int| 0 <= k < x_nop.opcodes.len() ==> #[trigger] x.opcodes[k] == if ps.contains(
            a.code.opcodes@.len() + p.opcodes.len() + k,
        ) {
            jump
        } else {
            x_nop.opcodes[k]
        },
        x.strings == x_nop.strings,
        x.functions == x_nop.functions,
        x.inlines == x_nop.inlines,
        c.code.strings == b.code.strings,
        c.code.functions == b.code.functions,
        c.code.inlined_uses == b.code.inlined_uses,
        c.code.n_local_variables == b.code.n_local_variables,
        c.code.n_shared_local_variables == b.code.n_shared_local_variables,
        c.frame_stack() == b.frame_stack(),
    ensures
        a.grew_by(c, p.followed_by(x).followed_by(q), ann, frame),
{
    reveal(Compilation::grew_exactly);
    let e_nop = p.followed_by(x_nop).followed_by(q);
    let e = p.followed_by(x).followed_by(q);
    let base = a.code.opcodes@.len();
    let np = p.opcodes.len();
    let nx = x_nop.opcodes.len();
    assert forall|k: int| 0 <= k < a.code.opcodes@.len() implies #[trigger] c.code.opcodes@[k] == b.code.opcodes@[k] by {
        if holds_position(positions, k) {
            let m = choose|m: int| 0 <= m < positions.len() && positions[m] == k;
            assert(positions[m] == ps[m]);
        }
    }
    assert forall|k: int| 0 <= k < e.opcodes.len() implies c.code.opcodes@[base + k] == #[trigger] e.opcodes[k] by {
        let y = base + k;
        assert(b.code.opcodes@[y] == e_nop.opcodes[k]);
        if np <= k < np + nx {
            assert(e.opcodes[k] == x.opcodes[k - np]);
            assert(e_nop.opcodes[k] == x_nop.opcodes[k - np]);
            if ps.contains(y) {
                let r = choose|r: int| 0 <= r < ps.len() && ps[r] == y;
                assert(positions[r] == ps[r]);
            }
            if holds_position(positions, y) {
                let m = choose|m: int| 0 <= m < positions.len() && positions[m] == y;
                assert(positions[m] == ps[m]);
            }
        } else {
            if holds_position(positions, y) {
                let m = choose|m: int| 0 <= m < positions.len() && positions[m] == y;
                assert(positions[m] == ps[m]);
            }
        }
    }
    assert(e.strings =~= e_nop.strings);
    assert(e.functions =~= e_nop.functions);
    assert(e.inlines =~= e_nop.inlines);
    lemma_replaced(a, b, c, e_nop, e, ann, frame);
}


impl Compilation {
    /// Compiles what follows the `try` block of a statement with `catch`
    /// clauses: the end of the `try` block's flow point, a jump past the
    /// clauses, the clauses, and a rethrow for a value none of them caught.
    #[verifier::spinoff_prover]
    fn compile_catch_clauses(&mut self, ann: &Annotations, clauses: &Vec<Catch>, end_catch: &mut Vec<usize>)
        requires
            old(self).frame_stack().len() > 0,
            old(self).frame_stack().last() < ann.frames@.len(),
            catches_compilable(clauses@, *ann, old(self).frame_stack().last()),
            old(end_catch)@.len() == 0,
        ensures
            ({
                let frame = old(self).frame_stack().last();
                let catch_site = old(self).site().skip().skip();
                let c_nop = catches_emits(clauses@, *ann, frame, catch_site, OpCode::Nop);
                let else_at = catch_site.after(c_nop).skip().at;
                let ps = catch_end_jumps(clauses@, *ann, frame, catch_site);
                &&& old(self).grew_by(
                    final(self),
                    Emitted::op(OpCode::PopFlowPoint).followed_by(Emitted::op(OpCode::Jump { instruction: else_at as usize })).followed_by(
                        c_nop,
                    ).followed_by(Emitted::op(OpCode::Rethrow)),
                    *ann,
                    frame,
                )
                &&& final(end_catch)@.len() == ps.len()
                &&& forall|m: int| 0 <= m < ps.len() ==> final(end_catch)@[m] == #[trigger] ps[m]
            }),
        decreases clauses@, clauses@.len() + 1,
    {
        let ghost frame = self.frame_stack().last();
        let ghost start = *self;
        let ghost nop = Emitted::op(OpCode::Nop);
        let ghost pop = Emitted::op(OpCode::PopFlowPoint);
        let ghost rethrow = Emitted::op(OpCode::Rethrow);
        self.emit(OpCode::PopFlowPoint, Ghost(*ann), Ghost(frame));
        let ghost s1 = *self;
        let end_try = self.create_placeholder(Ghost(*ann), Ghost(frame));
        let ghost s2 = *self;
        proof {
            assert(clauses@.skip(0) =~= clauses@);
        }
        self.compile_catches(ann, clauses, 0, end_catch);
        let ghost s3 = *self;
        let ghost c_nop = catches_emits(clauses@, *ann, frame, s2.site(), OpCode::Nop);
        self.emit(OpCode::Rethrow, Ghost(*ann), Ghost(frame));
        let ghost s4 = *self;
        let else_start = self.code.opcodes.len();
        self.fill_in_placeholder(end_try, OpCode::Jump { instruction: else_start });
        proof {
            lemma_grew_trans(&start, &s1, &s2, pop, nop, *ann, frame);
            lemma_grew_trans(&start, &s2, &s3, pop.followed_by(nop), c_nop, *ann, frame);
            lemma_grew_trans(&start, &s3, &s4, pop.followed_by(nop).followed_by(c_nop), rethrow, *ann, frame);
            lemma_grew_same(&start, &s4, pop.followed_by(nop).followed_by(c_nop).followed_by(rethrow),
                pop.followed_by(nop).followed_by(c_nop.followed_by(rethrow)), *ann, frame);
            lemma_filled(&start, &s4, self, pop, OpCode::Jump { instruction: else_start }, c_nop.followed_by(rethrow), *ann, frame);
            let jump = Emitted::op(OpCode::Jump { instruction: else_start });
            lemma_grew_same(&start, self, pop.followed_by(jump).followed_by(c_nop.followed_by(rethrow)),
                pop.followed_by(jump).followed_by(c_nop).followed_by(rethrow), *ann, frame);
            assert(s2.site() == start.site().skip().skip());
        }
    }

    /// Compiles the `finally` clause `block`: its start, its statements and
    /// its end.
    fn compile_finally(&mut self, ann: &Annotations, block: &Vec<Statement>)
        requires
            old(self).frame_stack().len() > 0,
            old(self).frame_stack().last() < ann.frames@.len(),
            forall|k: int| 0 <= k < block@.len() ==> statement_compilable(#[trigger] block@[k], *ann, old(self).frame_stack().last()),
        ensures
            old(self).grew_by(
                final(self),
                Emitted::op(OpCode::StartFinally).followed_by(
                    block_emits(block@, *ann, old(self).frame_stack().last(), old(self).site().skip()),
                ).followed_by(Emitted::op(OpCode::EndFinally)),
                *ann,
                old(self).frame_stack().last(),
            ),
        decreases block@, block@.len() + 1,
    {
        let ghost frame = self.frame_stack().last();
        let ghost start = *self;
        self.emit(OpCode::StartFinally, Ghost(*ann), Ghost(frame));
        let ghost s1 = *self;
        proof {
            assert(block@.skip(0) =~= block@);
        }
        self.compile_block(ann, block, 0);
        let ghost s2 = *self;
        let ghost e_f = block_emits(block@, *ann, frame, s1.site());
        self.emit(OpCode::EndFinally, Ghost(*ann), Ghost(frame));
        proof {
            lemma_grew_trans(&start, &s1, &s2, Emitted::op(OpCode::StartFinally), e_f, *ann, frame);
            lemma_grew_trans(&start, &s2, self, Emitted::op(OpCode::StartFinally).followed_by(e_f), Emitted::op(OpCode::EndFinally), *ann, frame);
        }
    }

    /// Compiles the start of a `try` statement: a placeholder for where the
    /// `finally` clause starts, if it has one, then where the `catch` clauses
    /// start, if it has any, the `try` block and the `catch` clauses. Gives
    /// the offset of the first placeholder.
    #[verifier::spinoff_prover]
    #[verifier::rlimit(40)]
    fn compile_try_head(
        &mut self,
        ann: &Annotations,
        Ghost(statement): Ghost<&Statement>,
        block: &Vec<Statement>,
        catch_clauses: &Vec<Catch>,
        has_finally: bool,
        end_catch: &mut Vec<usize>,
    ) -> (push_finally: usize)
        requires
            old(self).frame_stack().len() > 0,
            old(self).frame_stack().last() < ann.frames@.len(),
            forall|i: int| 0 <= i < block@.len() ==> statement_compilable(#[trigger] block@[i], *ann, old(self).frame_stack().last()),
            catches_compilable(catch_clauses@, *ann, old(self).frame_stack().last()),
            old(end_catch)@.len() == 0,
            *statement is Try,
            *block == statement->Try_block,
            *catch_clauses == statement->Try_catch_clauses,
            has_finally == statement->Try_finally_clause is Some,
        ensures
            ({
                let l = try_layout(*statement, *ann, old(self).frame_stack().last(), old(self).site());
                &&& old(self).grew_by(final(self), l.head_nop(), *ann, old(self).frame_stack().last())
                &&& push_finally == old(self).site().at
                &&& final(end_catch)@.len() == l.ps.len()
                &&& forall|m: int| 0 <= m < l.ps.len() ==> final(end_catch)@[m] == #[trigger] l.ps[m]
            }),
        decreases *statement, 0nat,
    {
        let ghost frame = self.frame_stack().last();
        let ghost start = *self;
        let ghost l = try_layout(*statement, *ann, frame, start.site());
        let ghost nop = Emitted::op(OpCode::Nop);
        let ghost none = Emitted::none();
        let has_catch = catch_clauses.len() > 0;
        let push_finally = self.code.opcodes.len();
        if has_finally {
            self.emit(OpCode::Nop, Ghost(*ann), Ghost(frame));
        } else {
            proof {
                lemma_grew_none(&start, *ann, frame);
            }
        }
        let ghost s1 = *self;
        let mut push_catch: usize = 0;
        if has_catch {
            push_catch = self.create_placeholder(Ghost(*ann), Ghost(frame));
        } else {
            proof {
                lemma_grew_none(&s1, *ann, frame);
            }
        }
        let ghost s2 = *self;
        let ghost e_pc = if has_catch { nop } else { none };
        proof {
            lemma_grew_trans(&start, &s1, &s2, l.e_pf, e_pc, *ann, frame);
            assert(block@.skip(0) =~= block@);
            assert(s2.site() == l.block_site);
        }
        self.compile_block(ann, block, 0);
        let ghost s3 = *self;
        proof {
            lemma_grew_trans(&start, &s2, &s3, l.e_pf.followed_by(e_pc), l.e_b, *ann, frame);
        }
        if has_catch {
            let before = self.code.opcodes.len();
            self.compile_catch_clauses(ann, catch_clauses, end_catch);
            let ghost s4 = *self;
            let ghost k_nop = l.k_head.followed_by(l.c_nop).followed_by(l.k_tail);
            let after_len = self.code.opcodes.len();
            proof {
                assert(s3.site().skip().skip() == l.catch_site);
                assert(before + 2 <= after_len);
            }
            let catch_start = before + 2;
            self.fill_in_placeholder(push_catch, OpCode::PushStartCatchFlowPoint { instruction: catch_start });
            proof {
                lemma_grew_trans(&start, &s3, &s4, l.e_pf.followed_by(e_pc).followed_by(l.e_b), k_nop, *ann, frame);
                lemma_followed_assoc(l.e_pf.followed_by(nop), l.e_b, k_nop);
                lemma_filled(&start, &s4, self, l.e_pf, OpCode::PushStartCatchFlowPoint { instruction: catch_start },
                    l.e_b.followed_by(k_nop), *ann, frame);
                lemma_followed_assoc(l.e_pf.followed_by(l.pc), l.e_b, k_nop);
                assert(l.head_nop() =~= l.e_pf.followed_by(l.pc).followed_by(l.e_b).followed_by(k_nop));
            }
        } else {
            proof {
                lemma_none_right(l.e_pf.followed_by(e_pc).followed_by(l.e_b));
                assert(l.head_nop() =~= l.e_pf.followed_by(e_pc).followed_by(l.e_b).followed_by(none));
                assert(l.ps.len() == 0);
            }
        }
        push_finally
    }

    #[verifier::spinoff_prover]
    #[verifier::rlimit(40)]
    fn compile_try(&mut self, ann: &Annotations, statement: &Statement)
        requires
            old(self).frame_stack().len() > 0,
            old(self).frame_stack().last() < ann.frames@.len(),
            *statement is Try,
            statement_compilable(*statement, *ann, old(self).frame_stack().last()),
        ensures
            old(self).grew_by(
                final(self),
                statement_emits(*statement, *ann, old(self).frame_stack().last(), old(self).site()),
                *ann,
                old(self).frame_stack().last(),
            ),
        decreases *statement, 1nat,
    {
        let ghost frame = self.frame_stack().last();
        let ghost start = *self;
        let ghost l = try_layout(*statement, *ann, frame, start.site());
        let (block, catch_clauses, else_clause, finally_clause) = match statement {
            Statement::Try { block, catch_clauses, else_clause, finally_clause } => (block, catch_clauses, else_clause, finally_clause),
            _ => {
                return;
            },
        };
        let ghost nop = Emitted::op(OpCode::Nop);
        let ghost none = Emitted::none();
        let has_finally = finally_clause.is_some();
        let mut end_catch: Vec<usize> = Vec::new();
        proof {
            assert(catches_compilable(catch_clauses@, *ann, frame));
        }
        let push_finally = self.compile_try_head(ann, Ghost(statement), block, catch_clauses, has_finally, &mut end_catch);
        let ghost s4 = *self;
        // The `else` clause.
        let ghost e_e = match else_clause {
            Some(c) => block_emits(c.block@, *ann, frame, s4.site()),
            None => none,
        };
        match else_clause {
            Some(c) => {
                proof {
                    assert(c.block@.skip(0) =~= c.block@);
                }
                self.compile_block(ann, &c.block, 0);
            },
            None => {
                proof {
                    lemma_grew_none(&s4, *ann, frame);
                }
            },
        }
        let ghost s5 = *self;
        let end = self.code.opcodes.len();
        proof {
            lemma_grew_trans(&start, &s4, &s5, l.head_nop(), e_e, *ann, frame);
            lemma_try_end_jumps(*statement, *ann, frame, start.site(), OpCode::Jump { instruction: end });
            assert forall|m: int| 0 <= m < end_catch@.len() implies #[trigger] end_catch@[m] < s5.code.opcodes@.len() by {
                assert(end_catch@[m] == l.ps[m]);
            }
            assert(l.head_nop().followed_by(e_e) =~= l.before_catches().followed_by(l.x_nop()).followed_by(l.k_tail.followed_by(e_e)));
        }
        // The jumps from the `catch` clauses past the `else` clause.
        self.fill_jumps(&end_catch, OpCode::Jump { instruction: end });
        let ghost s6 = *self;
        let ghost x = l.x(OpCode::Jump { instruction: end });
        let ghost p = l.before_catches();
        let ghost q = l.k_tail.followed_by(e_e);
        proof {
            lemma_jumps_replaced(&start, &s5, &s6, p, l.x_nop(), x, q, end_catch@, l.ps, OpCode::Jump { instruction: end }, *ann, frame);
        }
        // The `finally` clause.
        match finally_clause {
            Some(c) => {
                proof {
                    assert(decreases_to!(*statement => statement->Try_finally_clause));
                    assert(decreases_to!(statement->Try_finally_clause => statement->Try_finally_clause->Some_0));
                    assert(decreases_to!(statement->Try_finally_clause->Some_0 => c.block));
                    assert(decreases_to!(c.block => c.block@));
                }
                self.compile_finally(ann, &c.block);
                let ghost s7 = *self;
                let n = self.code.opcodes.len();
                proof {
                    assert(end + 1 < n);
                }
                let finally_start = end + 1;
                self.fill_in_placeholder(push_finally, OpCode::PushStartFinallyFlowPoint { instruction: finally_start });
                proof {
                    let e_f = block_emits(c.block@, *ann, frame, s6.site().skip());
                    let fin = Emitted::op(OpCode::StartFinally).followed_by(e_f).followed_by(Emitted::op(OpCode::EndFinally));
                    let rest = l.pc.followed_by(l.e_b).followed_by(l.k_head).followed_by(x).followed_by(q).followed_by(fin);
                    lemma_grew_trans(&start, &s6, &s7, p.followed_by(x).followed_by(q), fin, *ann, frame);
                    assert(p.followed_by(x).followed_by(q).followed_by(fin) =~= none.followed_by(nop).followed_by(rest));
                    lemma_filled(&start, &s7, self, none, OpCode::PushStartFinallyFlowPoint { instruction: finally_start }, rest, *ann, frame);
                    let pf = Emitted::op(OpCode::PushStartFinallyFlowPoint { instruction: finally_start });
                    lemma_try_emits(*statement, *ann, frame, start.site());
                    assert(none.followed_by(pf).followed_by(rest) =~= l.whole(end as int, e_e, e_f));
                }
            },
            None => {
                proof {
                    lemma_try_emits(*statement, *ann, frame, start.site());
                    assert(p.followed_by(x).followed_by(q) =~= l.whole(end as int, e_e, Emitted::none()));
                }
            },
        }
    }
}


/// A jump at `base`, if there is one, followed by what emits the jumps at
/// `ps`: the two make the jumps at `qs`.
proof fn lemma_prefixed_jumps(
    head_nop: Emitted,
    head: Emitted,
    tail_nop: Emitted,
    tail: Emitted,
    ps: Seq<int>,
    qs: Seq<int>,
    base: int,
    jump: OpCode,
    has_head: bool,
)
    requires
        has_head ==> head_nop == Emitted::op(OpCode::Nop) && head == Emitted::op(jump) && qs == seq![base] + ps,
        !has_head ==> head_nop == Emitted::none() && head == Emitted::none() && qs == ps,
        tail.opcodes.len() == tail_nop.opcodes.len(),
        tail.strings == tail_nop.strings,
        tail.functions == tail_nop.functions,
        tail.inlines == tail_nop.inlines,
        forall|i: int| 0 <= i < ps.len() ==> base + head.opcodes.len() <= #[trigger] ps[i] < base + head.opcodes.len() + tail_nop.opcodes.len(),
        forall|k: int| 0 <= k < tail_nop.opcodes.len() ==> #[trigger] tail.opcodes[k] == if ps.contains(base + head.opcodes.len() + k) {
            jump
        } else {
            tail_nop.opcodes[k]
        },
    ensures
        ({
            let x_nop = head_nop.followed_by(tail_nop);
            let x = head.followed_by(tail);
            &&& x.opcodes.len() == x_nop.opcodes.len()
            &&& x.strings == x_nop.strings
            &&& x.functions == x_nop.functions
            &&& x.inlines == x_nop.inlines
            &&& forall|i: int| 0 <= i < qs.len() ==> base <= #[trigger] qs[i] < base + x_nop.opcodes.len()
            &&& forall|k: int| 0 <= k < x_nop.opcodes.len() ==> #[trigger] x.opcodes[k] == if qs.contains(base + k) {
                jump
            } else {
                x_nop.opcodes[k]
            }
        }),
{
    let x_nop = head_nop.followed_by(tail_nop);
    let x = head.followed_by(tail);
    let h = head.opcodes.len();
    assert(x.strings =~= x_nop.strings);
    assert(x.functions =~= x_nop.functions);
    assert(x.inlines =~= x_nop.inlines);
    assert forall|i: int| 0 <= i < qs.len() implies base <= #[trigger] qs[i] < base + x_nop.opcodes.len() by {
        if has_head && i > 0 {
            assert(qs[i] == ps[i - 1]);
        }
    }
    assert forall|k: int| 0 <= k < x_nop.opcodes.len() implies #[trigger] x.opcodes[k] == if qs.contains(base + k) {
        jump
    } else {
        x_nop.opcodes[k]
    } by {
        if k < h {
            assert(qs[0] == base + k);
        } else {
            assert(x.opcodes[k] == tail.opcodes[k - h]);
            assert(x_nop.opcodes[k] == tail_nop.opcodes[k - h]);
            if qs.contains(base + k) {
                let i = choose|i: int| 0 <= i < qs.len() && qs[i] == base + k;
                if has_head {
                    assert(i > 0);
                    assert(qs[i] == ps[i - 1]);
                }
            }
            if ps.contains(base + h + (k - h)) {
                let i = choose|i: int| 0 <= i < ps.len() && ps[i] == base + h + (k - h);
                if has_head {
                    assert(qs[i + 1] == ps[i]);
                }
            }
        }
    }
}


/// Emitting nothing.
proof fn lemma_grew_none(a: &Compilation, ann: Annotations, frame: usize)
    ensures
        a.grew_by(a, Emitted::none(), ann, frame),
{
    reveal(Compilation::grew_exactly);
    assert(a.code.opcodes@ =~= a.code.opcodes@ + Emitted::none().opcodes);
    assert(string_views(a.code.strings@) =~= string_views(a.code.strings@) + Emitted::none().strings);
    assert(a.code.inlined_uses@ =~= a.code.inlined_uses@ + Emitted::none().inlines);
}

proof fn lemma_followed_assoc(a: Emitted, b: Emitted, c: Emitted)
    ensures
        a.followed_by(b).followed_by(c) == a.followed_by(b.followed_by(c)),
{
    assert(a.followed_by(b).followed_by(c) =~= a.followed_by(b.followed_by(c)));
}

proof fn lemma_none_right(a: Emitted)
    ensures
        a.followed_by(Emitted::none()) == a,
{
    assert(a.followed_by(Emitted::none()) =~= a);
}


/// The parts of a `try` statement emitted at `site`, as far as they do not
/// depend on the size of its `else` and `finally` clauses.
struct TryLayout {
    has_catch: bool,
    has_finally: bool,
    /// The placeholder for the start of the `finally` clause (or nothing).
    e_pf: Emitted,
    /// The start of the `catch` clauses (or nothing).
    pc: Emitted,
    block_site: Site,
    e_b: Emitted,
    catch_site: Site,
    /// The `catch` clauses, with placeholders for their jumps past `else`.
    c_nop: Emitted,
    /// The end of the `try` block's flow point, and the jump past the
    /// clauses (or nothing).
    k_head: Emitted,
    /// The rethrow after the clauses (or nothing).
    k_tail: Emitted,
    /// Where the clauses jump past `else`.
    ps: Seq<int>,
    clauses: Seq<Catch>,
    ann: Annotations,
    frame: usize,
}

spec fn try_layout(s: Statement, ann: Annotations, frame: usize, site: Site) -> TryLayout {
    let has_catch = s->Try_catch_clauses@.len() > 0;
    let has_finally = s->Try_finally_clause is Some;
    let pushes = (if has_finally { 1int } else { 0 }) + (if has_catch { 1int } else { 0 });
    let block_site = Site { at: site.at + pushes, ..site };
    let e_b = block_emits(s->Try_block@, ann, frame, block_site);
    let catch_site = block_site.after(e_b).skip().skip();
    let c_nop = catches_emits(s->Try_catch_clauses@, ann, frame, catch_site, OpCode::Nop);
    let else_at = catch_site.after(c_nop).skip().at;
    TryLayout {
        has_catch,
        has_finally,
        e_pf: if has_finally { Emitted::op(OpCode::Nop) } else { Emitted::none() },
        pc: if has_catch {
            Emitted::op(OpCode::PushStartCatchFlowPoint { instruction: catch_site.at as usize })
        } else {
            Emitted::none()
        },
        block_site,
        e_b,
        catch_site,
        c_nop,
        k_head: if has_catch {
            Emitted::op(OpCode::PopFlowPoint).followed_by(Emitted::op(OpCode::Jump { instruction: else_at as usize }))
        } else {
            Emitted::none()
        },
        k_tail: if has_catch { Emitted::op(OpCode::Rethrow) } else { Emitted::none() },
        ps: if has_catch { catch_end_jumps(s->Try_catch_clauses@, ann, frame, catch_site) } else { Seq::empty() },
        clauses: s->Try_catch_clauses@,
        ann,
        frame,
    }
}

impl TryLayout {
    spec fn x_nop(self) -> Emitted {
        if self.has_catch { self.c_nop } else { Emitted::none() }
    }

    spec fn x(self, end_jump: OpCode) -> Emitted {
        if self.has_catch {
            catches_emits(self.clauses, self.ann, self.frame, self.catch_site, end_jump)
        } else {
            Emitted::none()
        }
    }

    spec fn before_catches(self) -> Emitted {
        self.e_pf.followed_by(self.pc).followed_by(self.e_b).followed_by(self.k_head)
    }

    /// What the head emits, with placeholders for the jumps past `else` and
    /// the start of `finally`.
    spec fn head_nop(self) -> Emitted {
        self.before_catches().followed_by(self.x_nop()).followed_by(self.k_tail)
    }

    /// The whole statement, where `end` is the offset after the `else`
    /// clause, which emits `e_e`, and `e_f` what the `finally` block emits.
    spec fn whole(self, end: int, e_e: Emitted, e_f: Emitted) -> Emitted {
        let pf = if self.has_finally {
            Emitted::op(OpCode::PushStartFinallyFlowPoint { instruction: (end + 1) as usize })
        } else {
            Emitted::none()
        };
        let fin = if self.has_finally {
            Emitted::op(OpCode::StartFinally).followed_by(e_f).followed_by(Emitted::op(OpCode::EndFinally))
        } else {
            Emitted::none()
        };
        pf.followed_by(self.pc).followed_by(self.e_b).followed_by(self.k_head).followed_by(
            self.x(OpCode::Jump { instruction: end as usize }),
        ).followed_by(self.k_tail).followed_by(e_e).followed_by(fin)
    }
}

/// A `try` statement emits its layout.
proof fn lemma_try_emits(s: Statement, ann: Annotations, frame: usize, site: Site)
    requires
        s is Try,
    ensures
        ({
            let l = try_layout(s, ann, frame, site);
            let else_site = l.catch_site.after(l.c_nop).skip();
            let else_site = if l.has_catch { else_site } else { l.block_site.after(l.e_b) };
            let e_e = match s->Try_else_clause {
                Some(c) => block_emits(c.block@, ann, frame, else_site),
                None => Emitted::none(),
            };
            let end = else_site.after(e_e);
            let e_f = match s->Try_finally_clause {
                Some(c) => block_emits(c.block@, ann, frame, end.skip()),
                None => Emitted::none(),
            };
            statement_emits(s, ann, frame, site) == l.whole(end.at, e_e, e_f)
        }),
{
    let l = try_layout(s, ann, frame, site);
    let else_site = l.catch_site.after(l.c_nop).skip();
    let else_site = if l.has_catch { else_site } else { l.block_site.after(l.e_b) };
    let e_e = match s->Try_else_clause {
        Some(c) => block_emits(c.block@, ann, frame, else_site),
        None => Emitted::none(),
    };
    let end = else_site.after(e_e);
    let e_f = match s->Try_finally_clause {
        Some(c) => block_emits(c.block@, ann, frame, end.skip()),
        None => Emitted::none(),
    };
    assert(statement_emits(s, ann, frame, site) =~= l.whole(end.at, e_e, e_f));
}

/// The `catch` clauses of a `try` statement emit the jumps past `else` at
/// the offsets of its layout.
proof fn lemma_try_end_jumps(s: Statement, ann: Annotations, frame: usize, site: Site, end_jump: OpCode)
    requires
        s is Try,
    ensures
        ({
            let l = try_layout(s, ann, frame, site);
            let a = l.x_nop();
            let b = l.x(end_jump);
            let base = site.at + l.before_catches().opcodes.len();
            &&& b.opcodes.len() == a.opcodes.len()
            &&& b.strings == a.strings
            &&& b.functions == a.functions
            &&& b.inlines == a.inlines
            &&& forall|i: int| 0 <= i < l.ps.len() ==> base <= #[trigger] l.ps[i] < base + a.opcodes.len()
            &&& forall|k: int| 0 <= k < a.opcodes.len() ==> #[trigger] b.opcodes[k] == if l.ps.contains(base + k) {
                end_jump
            } else {
                a.opcodes[k]
            }
        }),
{
    let l = try_layout(s, ann, frame, site);
    if l.has_catch {
        lemma_catch_end_jumps(l.clauses, ann, frame, l.catch_site, end_jump);
        assert(site.at + l.before_catches().opcodes.len() == l.catch_site.at);
    }
}


/// The code compiled from `block`, the body of the function of frame
/// `frame`: what the block emits there, then a return of nothing.
pub open spec fn function_code_compiled(code: Code, block: Seq<Statement>, ann: Annotations, frame: usize) -> bool {
    let e = block_emits(block, ann, frame, Site { at: 0, strings: 0, functions: 0 });
    &&& code.opcodes@ == e.opcodes.push(OpCode::ReturnNothing)
    &&& string_views(code.strings@) == e.strings
    &&& code.inlined_uses@ == e.inlines
    &&& code.n_local_variables == ann.frames@[frame as int].n_local_variables
    &&& code.n_shared_local_variables == ann.frames@[frame as int].n_shared_local_variables
    &&& code.functions@.len() == e.functions.len()
    &&& forall|j: int| 0 <= j < e.functions.len() ==> function_compiled(*#[trigger] code.functions@[j], e.functions[j], ann, frame)
}

impl Compilation {
    /// Compiles `block`, the body of the function of frame `frame`.
    fn compile_function(ann: &Annotations, frame: usize, block: &Vec<Statement>) -> (code: Box<Code>)
        requires
            frame < ann.frames@.len(),
            forall|k: int| 0 <= k < block@.len() ==> statement_compilable(#[trigger] block@[k], *ann, frame),
        ensures
            function_code_compiled(*code, block@, *ann, frame),
        decreases block@, block@.len() + 1,
    {
        let mut compilation = Compilation::new();
        compilation.frames.push(frame);
        compilation.code.n_local_variables = ann.frames[frame].n_local_variables;
        compilation.code.n_shared_local_variables = ann.frames[frame].n_shared_local_variables;
        let ghost start = compilation;
        proof {
            assert(block@.skip(0) =~= block@);
            assert(start.site() == Site { at: 0, strings: 0, functions: 0 });
        }
        compilation.compile_block(ann, block, 0);
        let ghost mid = compilation;
        compilation.emit(OpCode::ReturnNothing, Ghost(*ann), Ghost(frame));
        proof {
            let e = block_emits(block@, *ann, frame, Site { at: 0, strings: 0, functions: 0 });
            lemma_grew_trans(&start, &mid, &compilation, e, Emitted::op(OpCode::ReturnNothing), *ann, frame);
            reveal(Compilation::grew_exactly);
            let all = e.followed_by(Emitted::op(OpCode::ReturnNothing));
            assert(compilation.code.opcodes@ =~= e.opcodes.push(OpCode::ReturnNothing));
            assert(string_views(compilation.code.strings@) =~= e.strings);
            assert(compilation.code.inlined_uses@ =~= e.inlines);
            assert forall|j: int| 0 <= j < e.functions.len() implies function_compiled(
                *#[trigger] compilation.code.functions@[j],
                e.functions[j],
                *ann,
                frame,
            ) by {
                assert(compilation.code.functions@[0 + j] == compilation.code.functions@[j]);
                assert(all.functions[j] == e.functions[j]);
            }
        }
        compilation.code
    }

    /// Compiles a function expression: its body into a definition of its
    /// own, then an instruction that pushes the function.
    fn compile_function_expression(&mut self, ann: &Annotations, expression: &Expression)
        requires
            old(self).frame_stack().len() > 0,
            old(self).frame_stack().last() < ann.frames@.len(),
            *expression is Function,
            expression_compilable(*expression, *ann, old(self).frame_stack().last()),
        ensures
            old(self).grew_by(
                final(self),
                expression_emits(*expression, *ann, old(self).frame_stack().last(), old(self).site()),
                *ann,
                old(self).frame_stack().last(),
            ),
        decreases *expression, 0nat,
    {
        let ghost outer = self.frame_stack().last();
        let ghost start = *self;
        let (parameters, f, block) = match expression {
            Expression::Function { parameters, frame, block } => (parameters, *frame, block),
            _ => {
                return;
            },
        };
        let code = Compilation::compile_function(ann, f, block);
        // Where the parameters are stored.
        let mut parameter_definitions: Vec<FunctionParameterDefinition> = Vec::new();
        let mut i: usize = 0;
        while i < parameters.len()
            invariant
                i <= parameters@.len(),
                forall|k: int| 0 <= k < parameters@.len() ==> (#[trigger] parameters@[k]).variable < ann.variables@.len(),
                parameter_definitions@ =~= parameters@.take(i as int).map_values(|p: FunctionParameter| parameter_definition(*ann, p.variable)),
            decreases parameters@.len() - i,
        {
            let variable = &ann.variables[parameters[i].variable];
            let slot = variable.local_storage_index;
            let storage = match variable.local_storage_type {
                LocalStorageType::Local => FunctionParameterStorage::LocalFunctionParameterStorage(slot),
                LocalStorageType::SharedLocal => FunctionParameterStorage::SharedLocalFunctionParameterStorage(slot),
            };
            parameter_definitions.push(FunctionParameterDefinition { name: variable.name, storage });
            proof {
                assert(parameters@.take(i + 1) =~= parameters@.take(i as int).push(parameters@[i as int]));
            }
            i += 1;
        }
        proof {
            assert(parameters@.take(i as int) =~= parameters@);
        }
        // How the closure is filled when the function is made.
        let bindings = match &ann.frames[f].closure {
            Some(c) => &c.bindings,
            None => {
                return;
            },
        };
        let ghost all = frame_bindings(*ann, f);
        assert(bindings@ == all);
        let mut binding_definitions: Vec<FunctionBindingDefinition> = Vec::new();
        let mut i: usize = 0;
        while i < bindings.len()
            invariant
                i <= all.len(),
                all == bindings@,
                self.frame_stack().len() > 0,
                self.frame_stack().last() == outer,
                outer < ann.frames@.len(),
                forall|k: int| 0 <= k < all.len() ==> binding_compilable(#[trigger] all[k], *ann, outer),
                binding_definitions@ =~= all.take(i as int).map_values(|b: Binding| binding_definition(*ann, outer, b)),
            decreases all.len() - i,
        {
            let binding = &bindings[i];
            proof {
                assert(binding_compilable(all[i as int], *ann, outer));
            }
            let variable = &ann.variables[binding.variable];
            let current = self.current_frame();
            let definition = if variable.declared_in == current {
                match variable.bound_storage_type {
                    BoundStorageType::StaticBound => FunctionBindingDefinition::LocalToStaticBoundBinding(
                        variable.local_storage_index,
                        binding.storage_index,
                    ),
                    BoundStorageType::SharedBound => FunctionBindingDefinition::SharedLocalToSharedBoundBinding(
                        variable.local_storage_index,
                        binding.storage_index,
                    ),
                }
            } else {
                let slot = self.find_bound_storage_index(ann, binding.variable);
                match variable.bound_storage_type {
                    BoundStorageType::StaticBound => FunctionBindingDefinition::StaticBoundToStaticBoundBinding(slot, binding.storage_index),
                    BoundStorageType::SharedBound => FunctionBindingDefinition::SharedBoundToSharedBoundBinding(slot, binding.storage_index),
                }
            };
            binding_definitions.push(definition);
            proof {
                assert(all.take(i + 1) =~= all.take(i as int).push(all[i as int]));
            }
            i += 1;
        }
        proof {
            assert(all.take(i as int) =~= all);
        }
        let definition = FunctionDefinition::new(code, parameter_definitions, binding_definitions);
        let index = self.code.functions.len();
        self.code.opcodes.push(OpCode::PushFunction { index });
        self.code.functions.push(Rc::new(definition));
        proof {
            let e = expression_emits(*expression, *ann, outer, start.site());
            reveal(Compilation::grew_exactly);
            assert(self.code.opcodes@ =~= start.code.opcodes@ + e.opcodes);
            assert(string_views(self.code.strings@) =~= string_views(start.code.strings@) + e.strings);
            assert(self.code.inlined_uses@ =~= start.code.inlined_uses@ + e.inlines);
            assert(function_compiled(*self.code.functions@[start.code.functions@.len() as int], e.functions[0], *ann, outer));
        }
    }
}


/// The code of the root frame of a program: what its statements emit in
/// that frame, then a return of nothing.
pub fn compile_root(ann: &Annotations, root: &Root) -> (code: Box<Code>)
    requires
        root_compilable_spec(*ann, *root),
    ensures
        function_code_compiled(*code, root.statements@, *ann, root.frame),
{
    Compilation::compile_function(ann, root.frame, &root.statements)
}

/// Resolves the names of the parsed script `root`, decides where its
/// variables are stored, and compiles it: the errors that name resolution
/// found, if any (one for each use of a variable that no enclosing block
/// declares, in order), or the analyses and the root frame that runs the
/// script, with its slots empty.
pub fn compile(names: &IdentifierTable, root: &mut Root) -> (r: Result<(Annotations, RootFrame), Vec<AnalysisError>>)
    requires
        block_resolvable(old(root).statements@, Seq::empty(), names@.len()),
        forall|i: int| 0 <= i < old(root).statements@.len() ==> statement_no_while_else(#[trigger] old(root).statements@[i]),
    ensures
        final(root).statements@.len() == old(root).statements@.len(),
        block_resolved(final(root).statements@, Seq::empty(), Seq::empty()),
        match r {
            Ok((ann, frame)) => {
                &&& root_compilable_spec(ann, *final(root))
                &&& function_code_compiled(*frame.code, final(root).statements@, ann, final(root).frame)
                &&& frame.locals@.len() == frame.code.n_local_variables
                &&& forall|k: int| 0 <= k < frame.locals@.len() ==> frame.locals@[k] == Value::Nothing
                &&& frame.shared@.len() == frame.code.n_shared_local_variables
                &&& forall|k: int| 0 <= k < frame.shared@.len() ==> frame.shared@[k] is None
            },
            Err(errors) => reported(Seq::empty(), errors@, names@,
                block_unresolved(old(root).statements@, Seq::empty(), Seq::empty())),
        },
        r is Err <==> block_unresolved(old(root).statements@, Seq::empty(), Seq::empty()).len() > 0,
{
    let mut ann = Annotations::new();
    let mut resolution = AnalyzeResolution::new();
    let ghost fresh = resolution;
    resolution.analyze_root(&mut ann, names, root);
    proof {
        assert(fresh.error_list() =~= Seq::<AnalysisError>::empty());
        lemma_reported_len(fresh.error_list(), resolution.error_list(), names@,
            block_unresolved(old(root).statements@, Seq::empty(), Seq::empty()));
    }
    if resolution.error_count() > 0 {
        return Err(resolution.into_errors());
    }
    let ghost resolved = ann;
    let mut allocation = AnalyzeAllocation::new();
    allocation.analyze_root(&mut ann, root);
    proof {
        lemma_analysed_compilable(resolved, ann, *root);
    }
    let code = compile_root(&ann, root);
    let locals = nothing_slots(code.n_local_variables);
    let shared = empty_cells(code.n_shared_local_variables);
    Ok((ann, RootFrame { code, locals, shared }))
}

/// As `compile`, for a line of interactive input: the variables of
/// `repl_state` are in scope, and the variables that the line declares at its
/// top level are added to it. The root frame's shared slot of each carried-over
/// variable holds its cell, shared with `repl_state`.
pub fn compile_repl(names: &IdentifierTable, root: &mut Root, repl_state: &mut State) -> (r: Result<(Annotations, RootFrame), Vec<AnalysisError>>)
    requires
        old(repl_state).wf(),
        block_resolvable(old(root).statements@, old(repl_state).names(), names@.len()),
        forall|i: int| 0 <= i < old(root).statements@.len() ==> statement_no_while_else(#[trigger] old(root).statements@[i]),
    ensures
        final(repl_state).wf(),
        final(repl_state).names() == old(repl_state).names() + let_names(old(root).statements@),
        final(root).statements@.len() == old(root).statements@.len(),
        match r {
            Ok((ann, frame)) => {
                &&& root_compilable_spec(ann, *final(root))
                &&& function_code_compiled(*frame.code, final(root).statements@, ann, final(root).frame)
                &&& frame.locals@.len() == frame.code.n_local_variables
                &&& forall|k: int| 0 <= k < frame.locals@.len() ==> frame.locals@[k] == Value::Nothing
                &&& frame.shared@.len() == frame.code.n_shared_local_variables
                &&& forall|i: int| 0 <= i < final(repl_state).names().len()
                    && 0 <= i < ann.frames@[final(root).frame as int].declared_variables@.len() ==> {
                    let v = #[trigger] ann.frames@[final(root).frame as int].declared_variables@[i];
                    &&& ann.variables@[v as int].local_storage_type == LocalStorageType::SharedLocal
                    &&& final(repl_state).names().contains(ann.variables@[v as int].name) ==> (
                        frame.shared@[ann.variables@[v as int].local_storage_index as int] matches Some(cell)
                        && *cell == final(repl_state).values()[ann.variables@[v as int].name])
                }
                &&& forall|k: int| 0 <= k < frame.shared@.len() && frame.shared@[k] is Some ==> exists|i: int|
                    0 <= i < final(repl_state).names().len()
                    && ann.variables@[ann.frames@[final(root).frame as int].declared_variables@[i] as int].local_storage_index == k
            },
            Err(errors) => reported(Seq::empty(), errors@, names@,
                block_unresolved(old(root).statements@, Seq::empty(), old(repl_state).names())),
        },
        r is Err <==> block_unresolved(old(root).statements@, Seq::empty(), old(repl_state).names()).len() > 0,
{
    let mut ann = Annotations::new();
    let mut resolution = AnalyzeResolution::new();
    let ghost fresh = resolution;
    resolution.analyze_repl_root(&mut ann, names, root, repl_state);
    proof {
        assert(fresh.error_list() =~= Seq::<AnalysisError>::empty());
        lemma_reported_len(fresh.error_list(), resolution.error_list(), names@,
            block_unresolved(old(root).statements@, Seq::empty(), old(repl_state).names()));
    }
    if resolution.error_count() > 0 {
        return Err(resolution.into_errors());
    }
    let ghost resolved = ann;
    let mut carried: Vec<usize> = Vec::new();
    let total = ann.frames[root.frame].declared_variables.len();
    let mut i: usize = 0;
    while i < total
        invariant
            i <= total,
            total == ann.frames@[root.frame as int].declared_variables@.len(),
            root.frame < ann.frames@.len(),
            carried@ == ann.frames@[root.frame as int].declared_variables@.take(i as int),
        decreases total - i,
    {
        carried.push(ann.frames[root.frame].declared_variables[i]);
        proof {
            assert(ann.frames@[root.frame as int].declared_variables@.take(i + 1)
                =~= ann.frames@[root.frame as int].declared_variables@.take(i as int).push(ann.frames@[root.frame as int].declared_variables@[i as int]));
        }
        i += 1;
    }
    let mut allocation = AnalyzeAllocation::new();
    allocation.analyze_repl_root(&mut ann, root, repl_state);
    proof {
        lemma_analysed_compilable(resolved, ann, *root);
        lemma_nested_self(&resolved, root.frame);
    }
    let code = compile_root(&ann, root);
    let locals = nothing_slots(code.n_local_variables);
    let mut shared = empty_cells(code.n_shared_local_variables);
    let ghost list = resolved.frames@[root.frame as int].declared_variables@;
    let ghost g = root.frame as int;
    let ghost big_n = repl_state.names().len();
    let kept = if repl_state.len() < carried.len() { repl_state.len() } else { carried.len() };
    proof {
        assert(carried@ =~= list);
        assert forall|j: int| 0 <= j < list.len() implies (#[trigger] list[j]) < ann.variables@.len() by {
            assert(list[j] < resolved.variables@.len());
        }
    }
    let mut i: usize = 0;
    while i < kept
        invariant
            i <= kept,
            kept <= big_n,
            kept <= list.len(),
            big_n == repl_state.names().len(),
            carried@ == list,
            list == resolved.frames@[g].declared_variables@,
            forall|j: int| 0 <= j < list.len() ==> (#[trigger] list[j]) < ann.variables@.len(),
            g == root.frame,
            g < resolved.frames@.len(),
            ann.frames@[g].declared_variables@ == list,
            frame_allocated(&resolved, g, big_n as int, &ann, g),
            shared@.len() == ann.frames@[g].n_shared_local_variables,
            repl_state.wf(),
            forall|j: int| 0 <= j < i && repl_state.names().contains(ann.variables@[list[j] as int].name)
                ==> ((#[trigger] shared@[ann.variables@[list[j] as int].local_storage_index as int]) matches Some(cell)
                    && *cell == repl_state.values()[ann.variables@[list[j] as int].name]),
            forall|k: int| 0 <= k < shared@.len() && shared@[k] is Some ==> exists|j: int|
                0 <= j < i && ann.variables@[list[j] as int].local_storage_index == k,
        decreases kept - i,
    {
        let v = carried[i];
        let index = ann.variables[v].local_storage_index;
        proof {
            assert(carried@[i as int] == list[i as int]);
            assert(resolved.frames@[g].declared_variables@[i as int] == v);
            assert(carried_over(&resolved, g, big_n as int, v));
            assert(variable_allocated(&resolved, g, big_n as int, &ann, g, i as int));
            lemma_slot_in_frame(&resolved, g, big_n as int, &ann, g, i as int);
            assert forall|j: int| 0 <= j < i implies ann.variables@[list[j] as int].local_storage_index != index by {
                assert(resolved.frames@[g].declared_variables@[j] == list[j]);
                assert(carried_over(&resolved, g, big_n as int, list[j]));
                assert(variable_allocated(&resolved, g, big_n as int, &ann, g, j));
                lemma_slots_distinct(&resolved, g, big_n as int, &ann, g, j, i as int);
            }
        }
        let ghost before = shared@;
        let found = repl_state.find(ann.variables[v].name);
        if found.is_some() {
            shared.set(index, found);
            assert(shared@ == before.update(index as int, found));
        }
        proof {
            assert forall|j: int| 0 <= j < i + 1 && repl_state.names().contains(ann.variables@[list[j] as int].name) implies
                ((#[trigger] shared@[ann.variables@[list[j] as int].local_storage_index as int]) matches Some(cell)
                    && *cell == repl_state.values()[ann.variables@[list[j] as int].name]) by {
                if j < i {
                    assert(resolved.frames@[g].declared_variables@[j] == list[j]);
                    assert(carried_over(&resolved, g, big_n as int, list[j]));
                    assert(variable_allocated(&resolved, g, big_n as int, &ann, g, j));
                    assert(variable_allocated(&resolved, g, big_n as int, &ann, g, i as int));
                    assert(ann.variables@[list[j] as int].local_storage_type == LocalStorageType::SharedLocal);
                    assert(ann.variables@[list[i as int] as int].local_storage_type == LocalStorageType::SharedLocal);
                    lemma_slots_distinct(&resolved, g, big_n as int, &ann, g, j, i as int);
                    assert(index == ann.variables@[list[i as int] as int].local_storage_index);
                    assert(ann.variables@[list[j] as int].local_storage_index != index);
                    lemma_slot_in_frame(&resolved, g, big_n as int, &ann, g, j);
                    assert(before[ann.variables@[list[j] as int].local_storage_index as int]
                        == shared@[ann.variables@[list[j] as int].local_storage_index as int]);
                }
            }
            assert forall|k: int| 0 <= k < shared@.len() && shared@[k] is Some implies exists|j: int|
                0 <= j < i + 1 && ann.variables@[list[j] as int].local_storage_index == k by {
                if k == index {
                    assert(ann.variables@[list[i as int] as int].local_storage_index == k);
                } else {
                    assert(before[k] == shared@[k]);
                }
            }
        }
        i += 1;
    }
    proof {
        assert forall|j: int| 0 <= j < big_n && 0 <= j < list.len() implies
            ann.variables@[list[j] as int].local_storage_type == LocalStorageType::SharedLocal by {
            assert(resolved.frames@[g].declared_variables@[j] == list[j]);
            assert(carried_over(&resolved, g, big_n as int, list[j]));
            assert(variable_allocated(&resolved, g, big_n as int, &ann, g, j));
        }
    }
    Ok((ann, RootFrame { code, locals, shared }))
}

/// A root whose statements name resolution linked, in an arena whose closures
/// are chained, can be compiled once the storage of its variables is decided.
proof fn lemma_analysed_compilable(resolved: Annotations, allocated: Annotations, root: Root)
    requires
        resolved.wf(),
        closures_chained(resolved),
        root.frame < resolved.frames@.len(),
        forall|i: int| 0 <= i < root.statements@.len() ==> statement_linked(#[trigger] root.statements@[i], resolved, root.frame),
        allocated.wf(),
        same_links(resolved, allocated),
    ensures
        root_compilable_spec(allocated, root),
{
    lemma_same_links(resolved, allocated);
    assert forall|i: int| 0 <= i < root.statements@.len() implies statement_compilable(#[trigger] root.statements@[i], allocated, root.frame) by {
        lemma_statement_linked_grows(root.statements@[i], resolved, allocated, root.frame);
        lemma_statement_linked_compilable(root.statements@[i], allocated, root.frame);
    }
}

} // verus!
