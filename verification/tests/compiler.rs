use burn::lang::identifier::{Identifier, IdentifierTable};
use burn::lang::function::FunctionBindingDefinition;
use burn::parse::node::{BinaryOperator, Catch, Else, ElseIf, Expression, Finally, Root, Statement};
use burn::vm::analysis::allocation::AnalyzeAllocation;
use burn::vm::analysis::annotation::{Annotations, Frame, Name, NameResolution};
use burn::vm::analysis::resolution::AnalyzeResolution;
use burn::vm::bytecode::code::Code;
use burn::vm::bytecode::compilable::root_compilable;
use burn::vm::bytecode::compiler::compile_root;
use burn::vm::bytecode::opcode::OpCode;

fn let_(name: Identifier, value: Expression) -> Statement {
    Statement::Let { variable_name: name, annotation: 0, default: Some(Box::new(value)), source_offset: 0 }
}

fn var(name: Identifier) -> Expression {
    Expression::Variable { name, annotation: 0, source_offset: 0 }
}

fn integer(value: i64) -> Expression {
    Expression::Integer { value }
}

fn boolean(value: bool) -> Expression {
    Expression::Boolean { value }
}

fn print(e: Expression) -> Statement {
    Statement::Print { expression: Box::new(e) }
}

/// Resolves, allocates and compiles `root`.
fn compile(names: &IdentifierTable, root: &mut Root) -> (Annotations, Box<Code>) {
    let mut ann = Annotations::new();
    let mut resolution = AnalyzeResolution::new();
    resolution.analyze_root(&mut ann, names, root);
    assert_eq!(resolution.errors.len(), 0);
    let mut allocation = AnalyzeAllocation::new();
    allocation.analyze_root(&mut ann, root);
    assert!(root_compilable(&ann, root));
    let code = compile_root(&ann, root);
    (ann, code)
}

/// Compiles `statements`, which use no variable, in a frame of its own.
fn compile_plain(statements: Vec<Statement>) -> Box<Code> {
    let mut ann = Annotations::new();
    ann.frames.push(Frame::new());
    let root = Root { statements, frame: 0 };
    assert!(root_compilable(&ann, &root));
    compile_root(&ann, &root)
}

fn show(code: &Code) -> Vec<String> {
    code.opcodes.iter().map(|o| format!("{:?}", o)).collect()
}

#[test]
fn a_variable_is_stored_and_loaded_locally() {
    let mut names = IdentifierTable::new();
    let x = names.find_or_create("x");
    let mut root = Root { statements: vec![let_(x, integer(1)), print(var(x))], frame: 0 };
    let (_, code) = compile(&names, &mut root);
    assert_eq!(
        show(&code),
        vec![
            "PushInteger { value: 1 }",
            "StoreLocal(0)",
            "LoadLocal(0)",
            "ToString",
            "Print",
            "ReturnNothing"
        ]
    );
    assert_eq!(code.n_local_variables, 1);
    assert_eq!(code.n_shared_local_variables, 0);
}

#[test]
fn a_closure_shares_the_variable_it_reads() {
    let mut names = IdentifierTable::new();
    let x = names.find_or_create("x");
    let f = names.find_or_create("f");
    let function = Expression::Function { parameters: vec![], frame: 0, block: vec![print(var(x))] };
    let mut root = Root { statements: vec![let_(x, integer(1)), let_(f, function)], frame: 0 };
    let (_, code) = compile(&names, &mut root);
    assert_eq!(
        show(&code),
        vec![
            "PushInteger { value: 1 }",
            "InitializeSharedLocal(0)",
            "StoreSharedLocal(0)",
            "PushFunction { index: 0 }",
            "StoreLocal(0)",
            "ReturnNothing"
        ]
    );
    assert_eq!(code.functions.len(), 1);
    let definition = &code.functions[0];
    assert_eq!(show(&definition.code), vec!["LoadSharedBound(0)", "ToString", "Print", "ReturnNothing"]);
    assert_eq!(definition.bindings.len(), 1);
    assert!(matches!(definition.bindings[0], FunctionBindingDefinition::SharedLocalToSharedBoundBinding(0, 0)));
    assert_eq!(definition.n_static_bound_variables, 0);
    assert_eq!(definition.parameters.len(), 0);
}

#[test]
fn an_if_jumps_past_the_clauses_that_do_not_run() {
    let code = compile_plain(vec![Statement::If {
        test: Box::new(boolean(true)),
        block: vec![print(integer(1))],
        else_if_clauses: vec![ElseIf { test: Box::new(boolean(false)), block: vec![print(integer(2))] }],
        else_clause: Some(Else { block: vec![print(integer(3))] }),
    }]);
    assert_eq!(
        show(&code),
        vec![
            "PushBoolean { value: true }",
            "JumpIfPopFalsy { instruction: 6 }",
            "PushInteger { value: 1 }",
            "ToString",
            "Print",
            "Jump { instruction: 15 }",
            "PushBoolean { value: false }",
            "JumpIfPopFalsy { instruction: 12 }",
            "PushInteger { value: 2 }",
            "ToString",
            "Print",
            "Jump { instruction: 15 }",
            "PushInteger { value: 3 }",
            "ToString",
            "Print",
            "ReturnNothing"
        ]
    );
}

#[test]
fn an_if_without_else_jumps_only_past_its_block() {
    let code = compile_plain(vec![Statement::If {
        test: Box::new(boolean(true)),
        block: vec![print(integer(1))],
        else_if_clauses: vec![],
        else_clause: None,
    }]);
    assert_eq!(
        show(&code),
        vec![
            "PushBoolean { value: true }",
            "JumpIfPopFalsy { instruction: 5 }",
            "PushInteger { value: 1 }",
            "ToString",
            "Print",
            "ReturnNothing"
        ]
    );
}

#[test]
fn a_while_loops_back_to_its_test() {
    let code = compile_plain(vec![Statement::While {
        test: Box::new(boolean(true)),
        block: vec![print(integer(1))],
        else_clause: None,
    }]);
    assert_eq!(
        show(&code),
        vec![
            "PushBoolean { value: true }",
            "JumpIfPopFalsy { instruction: 6 }",
            "PushInteger { value: 1 }",
            "ToString",
            "Print",
            "Jump { instruction: 0 }",
            "ReturnNothing"
        ]
    );
}

#[test]
fn a_try_pushes_its_flow_points_and_catches() {
    let mut names = IdentifierTable::new();
    let e = names.find_or_create("e");
    let statement = Statement::Try {
        block: vec![Statement::Throw { expression: Box::new(integer(1)) }],
        catch_clauses: vec![Catch { type_: None, variable_name: e, variable: 0, block: vec![print(var(e))] }],
        else_clause: None,
        finally_clause: Some(Finally { block: vec![print(integer(2))] }),
    };
    let mut root = Root { statements: vec![statement], frame: 0 };
    let (_, code) = compile(&names, &mut root);
    assert_eq!(
        show(&code),
        vec![
            "PushStartFinallyFlowPoint { instruction: 13 }",
            "PushStartCatchFlowPoint { instruction: 6 }",
            "PushInteger { value: 1 }",
            "Throw",
            "PopFlowPoint",
            "Jump { instruction: 12 }",
            "CatchLocal { storage_index: 0 }",
            "LoadLocal(0)",
            "ToString",
            "Print",
            "Jump { instruction: 12 }",
            "Rethrow",
            "StartFinally",
            "PushInteger { value: 2 }",
            "ToString",
            "Print",
            "EndFinally",
            "ReturnNothing"
        ]
    );
}

#[test]
fn a_typed_catch_jumps_to_the_next_clause() {
    let mut names = IdentifierTable::new();
    let e = names.find_or_create("e");
    let t = names.find_or_create("T");
    let type_ = Expression::Name { identifier: t, annotation: Name { resolution: NameResolution::Implicit } };
    let statement = Statement::Try {
        block: vec![],
        catch_clauses: vec![Catch { type_: Some(Box::new(type_)), variable_name: e, variable: 0, block: vec![] }],
        else_clause: Some(Else { block: vec![print(integer(5))] }),
        finally_clause: None,
    };
    let mut root = Root { statements: vec![statement], frame: 0 };
    let (_, code) = compile(&names, &mut root);
    assert_eq!(
        show(&code),
        vec![
            "PushStartCatchFlowPoint { instruction: 3 }",
            "PopFlowPoint",
            "Jump { instruction: 8 }",
            "LoadImplicit { name: Identifier { index: 1 } }",
            "ThrownIs",
            "CatchLocalOrJump { storage_index: 0, instruction: 7 }",
            "Jump { instruction: 11 }",
            "Rethrow",
            "PushInteger { value: 5 }",
            "ToString",
            "Print",
            "ReturnNothing"
        ]
    );
}

#[test]
fn and_puts_its_instruction_between_its_operands() {
    let code = compile_plain(vec![Statement::ExpressionStatement {
        expression: Box::new(Expression::Binary {
            operator: BinaryOperator::And,
            left: Box::new(boolean(true)),
            right: Box::new(boolean(false)),
        }),
    }]);
    assert_eq!(
        show(&code),
        vec![
            "PushBoolean { value: true }",
            "ShortCircuitAnd",
            "PushBoolean { value: false }",
            "Pop",
            "ReturnNothing"
        ]
    );
}

#[test]
fn an_addition_evaluates_both_operands_first() {
    let code = compile_plain(vec![print(Expression::Binary {
        operator: BinaryOperator::Addition,
        left: Box::new(integer(1)),
        right: Box::new(integer(2)),
    })]);
    assert_eq!(
        show(&code),
        vec![
            "PushInteger { value: 1 }",
            "PushInteger { value: 2 }",
            "Add",
            "ToString",
            "Print",
            "ReturnNothing"
        ]
    );
}

#[test]
fn strings_are_kept_with_the_code() {
    let code = compile_plain(vec![
        print(Expression::String { value: "hi".to_string() }),
        print(Expression::String { value: "there".to_string() }),
    ]);
    assert_eq!(show(&code)[0], "PushString { index: 0 }");
    assert_eq!(show(&code)[3], "PushString { index: 1 }");
    assert_eq!(code.strings.len(), 2);
    assert_eq!(*code.strings[0], "hi");
    assert_eq!(*code.strings[1], "there");
}

#[test]
fn a_name_brought_in_by_use_is_inlined_later() {
    let mut names = IdentifierTable::new();
    let a = names.find_or_create("a");
    let b = names.find_or_create("b");
    let use_ = Statement::Use { path: vec![a, b], name: b, annotation: 0 };
    let name = Expression::Name { identifier: b, annotation: Name { resolution: NameResolution::Implicit } };
    let mut root = Root { statements: vec![use_, print(name)], frame: 0 };
    let (_, code) = compile(&names, &mut root);
    assert_eq!(show(&code), vec!["Use { operation: 0 }", "Fail", "ToString", "Print", "ReturnNothing"]);
    assert_eq!(code.inlined_uses, vec![(1, 0)]);
}

#[test]
fn a_call_pushes_its_arguments_in_order() {
    let mut names = IdentifierTable::new();
    let f = names.find_or_create("f");
    let called = Expression::Name { identifier: f, annotation: Name { resolution: NameResolution::Implicit } };
    let call = Expression::Call { expression: Box::new(called), arguments: vec![integer(1), integer(2)] };
    let code = compile_plain(vec![Statement::ExpressionStatement { expression: Box::new(call) }]);
    assert_eq!(
        show(&code),
        vec![
            "LoadImplicit { name: Identifier { index: 0 } }",
            "PushInteger { value: 1 }",
            "PushInteger { value: 2 }",
            "Call { n_arguments: 2 }",
            "Pop",
            "ReturnNothing"
        ]
    );
}

#[test]
fn a_variable_the_analyses_did_not_resolve_cannot_be_compiled() {
    let mut names = IdentifierTable::new();
    let x = names.find_or_create("x");
    let mut ann = Annotations::new();
    ann.frames.push(Frame::new());
    let root = Root { statements: vec![print(var(x))], frame: 0 };
    assert!(!root_compilable(&ann, &root));
    let root = Root { statements: vec![], frame: 1 };
    assert!(!root_compilable(&ann, &root));
}

#[test]
fn a_while_with_else_cannot_be_compiled() {
    let mut ann = Annotations::new();
    ann.frames.push(Frame::new());
    let root = Root {
        statements: vec![Statement::While {
            test: Box::new(boolean(true)),
            block: vec![],
            else_clause: Some(Else { block: vec![] }),
        }],
        frame: 0,
    };
    assert!(!root_compilable(&ann, &root));
}

/// Checks that every jump of `code` lands on one of its instructions and that
/// every string and function it names is there, and so on for the functions
/// defined in it.
fn assert_code_in_bounds(code: &Code) {
    let last = code.opcodes.len() - 1;
    for op in code.opcodes.iter() {
        match *op {
            OpCode::Jump { instruction }
            | OpCode::JumpIfPopFalsy { instruction }
            | OpCode::FlowJump { instruction, .. }
            | OpCode::PushStartCatchFlowPoint { instruction }
            | OpCode::PushStartFinallyFlowPoint { instruction }
            | OpCode::CatchOrJump { instruction }
            | OpCode::CatchLocalOrJump { instruction, .. }
            | OpCode::CatchSharedLocalOrJump { instruction, .. } => assert!(instruction <= last),
            OpCode::PushString { index } => assert!(index < code.strings.len()),
            OpCode::PushFunction { index } => assert!(index < code.functions.len()),
            _ => {}
        }
    }
    for (offset, _) in code.inlined_uses.iter() {
        assert!(*offset < code.opcodes.len());
    }
    for definition in code.functions.iter() {
        assert_code_in_bounds(&definition.code);
    }
}

#[test]
fn compiled_code_refers_only_to_what_it_holds() {
    let mut names = IdentifierTable::new();
    let x = names.find_or_create("x");
    let f = names.find_or_create("f");
    let e = names.find_or_create("e");
    let inner = Statement::Try {
        block: vec![Statement::While {
            test: Box::new(var(x)),
            block: vec![print(Expression::String { value: "loop".to_string() })],
            else_clause: None,
        }],
        catch_clauses: vec![Catch { type_: None, variable_name: e, variable: 0, block: vec![print(var(e))] }],
        else_clause: None,
        finally_clause: None,
    };
    let function = Expression::Function { parameters: vec![], frame: 0, block: vec![inner] };
    let mut root = Root {
        statements: vec![let_(x, boolean(false)), let_(f, function), print(Expression::String { value: "done".to_string() })],
        frame: 0,
    };
    let (_, code) = compile(&names, &mut root);
    assert_eq!(code.functions.len(), 1);
    assert_eq!(code.strings.len(), 1);
    assert_eq!(code.functions[0].code.strings.len(), 1);
    assert_code_in_bounds(&code);
}

#[test]
fn compile_runs_every_analysis_and_compiles() {
    let mut names = IdentifierTable::new();
    let x = names.find_or_create("x");
    let mut root = Root { statements: vec![let_(x, integer(1)), print(var(x))], frame: 0 };
    let result = burn::vm::bytecode::compiler::compile(&names, &mut root);
    let (ann, frame) = match result {
        Ok(pair) => pair,
        Err(_) => panic!(),
    };
    let code = frame.code;
    assert_eq!(ann.variables.len(), 1);
    assert_eq!(frame.locals.len(), 1);
    assert!(matches!(frame.locals[0], burn::lang::value::Value::Nothing));
    assert_eq!(frame.shared.len(), 0);
    assert_eq!(
        show(&code),
        vec!["PushInteger { value: 1 }", "StoreLocal(0)", "LoadLocal(0)", "ToString", "Print", "ReturnNothing"]
    );
}

#[test]
fn compile_reports_the_errors_of_name_resolution() {
    let mut names = IdentifierTable::new();
    let y = names.find_or_create("y");
    let mut root = Root { statements: vec![print(var(y))], frame: 0 };
    match burn::vm::bytecode::compiler::compile(&names, &mut root) {
        Ok(_) => panic!(),
        Err(errors) => assert_eq!(errors.len(), 1),
    }
}

#[test]
fn nested_closures_bind_what_they_use_at_every_level() {
    let mut names = IdentifierTable::new();
    let x = names.find_or_create("x");
    let f = names.find_or_create("f");
    let g = names.find_or_create("g");
    let innermost = Expression::Function { parameters: vec![], frame: 0, block: vec![print(var(x))] };
    let middle = Expression::Function { parameters: vec![], frame: 0, block: vec![let_(g, innermost)] };
    let mut root = Root { statements: vec![let_(x, integer(1)), let_(f, middle)], frame: 0 };
    let (ann, frame) = match burn::vm::bytecode::compiler::compile(&names, &mut root) {
        Ok(pair) => pair,
        Err(_) => panic!(),
    };
    let code = frame.code;
    assert_eq!(frame.shared.len(), 1);
    assert!(frame.shared[0].is_none());
    // The root frame has one function; it has one in turn; both bind `x`.
    let outer_frame = ann.frames[root.frame].functions[0];
    let inner_frame = ann.frames[outer_frame].functions[0];
    for f_index in [outer_frame, inner_frame] {
        let closure = ann.frames[f_index].closure.as_ref().unwrap();
        assert_eq!(closure.bindings.len(), 1);
        assert_eq!(closure.bindings[0].variable, 0);
    }
    assert_eq!(code.functions.len(), 1);
    assert_eq!(code.functions[0].code.functions.len(), 1);
    assert_eq!(show(&code.functions[0].code.functions[0].code), vec!["LoadSharedBound(0)", "ToString", "Print", "ReturnNothing"]);
}

#[test]
fn compile_repl_keeps_the_variables_of_earlier_lines() {
    let mut names = IdentifierTable::new();
    let x = names.find_or_create("x");
    let mut state = burn::vm::repl::State::new();
    let mut first = Root { statements: vec![let_(x, integer(1))], frame: 0 };
    assert!(burn::vm::bytecode::compiler::compile_repl(&names, &mut first, &mut state).is_ok());
    assert_eq!(state.len(), 1);
    let mut second = Root { statements: vec![print(var(x))], frame: 0 };
    let (_, frame) = match burn::vm::bytecode::compiler::compile_repl(&names, &mut second, &mut state) {
        Ok(pair) => pair,
        Err(_) => panic!(),
    };
    assert_eq!(show(&frame.code), vec!["LoadSharedLocal(0)", "ToString", "Print", "ReturnNothing"]);
    assert_eq!(frame.shared.len(), 1);
    assert!(matches!(frame.shared[0].as_deref(), Some(burn::lang::value::Value::Nothing)));
}

#[test]
fn a_variable_declared_in_an_if_block_is_not_found_after_it() {
    let mut names = IdentifierTable::new();
    let x = names.find_or_create("x");
    let if_ = Statement::If {
        test: Box::new(boolean(true)),
        block: vec![let_(x, integer(1))],
        else_if_clauses: vec![],
        else_clause: None,
    };
    let use_ = Statement::ExpressionStatement {
        expression: Box::new(Expression::Variable { name: x, annotation: 0, source_offset: 7 }),
    };
    let mut root = Root { statements: vec![if_, use_], frame: 0 };
    match burn::vm::bytecode::compiler::compile(&names, &mut root) {
        Ok(_) => panic!("the use after the block must not resolve"),
        Err(errors) => {
            assert_eq!(errors.len(), 1);
            assert_eq!(errors[0].message, "Variable not found: $x");
            assert_eq!(errors[0].source_offset, 7);
        },
    }
}

#[test]
fn compile_reports_each_unknown_use_in_order() {
    let mut names = IdentifierTable::new();
    let a = names.find_or_create("a");
    let b = names.find_or_create("b");
    let first = Expression::Variable { name: a, annotation: 0, source_offset: 3 };
    let second = Expression::Variable { name: b, annotation: 0, source_offset: 9 };
    let mut root = Root { statements: vec![print(first), print(second)], frame: 0 };
    match burn::vm::bytecode::compiler::compile(&names, &mut root) {
        Ok(_) => panic!(),
        Err(errors) => {
            assert_eq!(errors.len(), 2);
            assert_eq!(errors[0].message, "Variable not found: $a");
            assert_eq!(errors[0].source_offset, 3);
            assert_eq!(errors[1].message, "Variable not found: $b");
            assert_eq!(errors[1].source_offset, 9);
        },
    }
}

#[test]
fn compile_repl_reads_a_carried_over_variable_without_error() {
    let mut names = IdentifierTable::new();
    let x = names.find_or_create("x");
    let y = names.find_or_create("y");
    let mut state = burn::vm::repl::State::new();
    state.declare_variable(x);
    let mut line = Root { statements: vec![print(var(x))], frame: 0 };
    assert!(burn::vm::bytecode::compiler::compile_repl(&names, &mut line, &mut state).is_ok());
    let mut other = Root { statements: vec![print(var(y))], frame: 0 };
    match burn::vm::bytecode::compiler::compile_repl(&names, &mut other, &mut state) {
        Ok(_) => panic!(),
        Err(errors) => {
            assert_eq!(errors.len(), 1);
            assert_eq!(errors[0].message, "Variable not found: $y");
        },
    }
}
