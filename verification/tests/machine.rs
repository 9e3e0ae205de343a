use std::rc::Rc;

use burn::lang::function::{FunctionDefinition, FunctionParameterDefinition, FunctionParameterStorage};
use burn::lang::identifier::{Identifier, IdentifierTable};
use burn::lang::module::Module;
use burn::lang::value::Value;
use burn::builtin::burn::implicit::create_module;
use burn::parse::node::{BinaryOperator, Catch, Expression, Finally, Root, Statement};
use burn::vm::bytecode::code::Code;
use burn::vm::bytecode::compiler::compile;
use burn::vm::bytecode::opcode::OpCode;
use burn::vm::run::cpu::step;
use burn::vm::run::flow::Flow;
use burn::vm::run::machine::{MachineState, StepAction};

fn let_(name: Identifier, value: Expression) -> Statement {
    Statement::Let { variable_name: name, annotation: 0, default: Some(Box::new(value)), source_offset: 0 }
}

fn var(name: Identifier) -> Expression {
    Expression::Variable { name, annotation: 0, source_offset: 0 }
}

fn integer(value: i64) -> Expression {
    Expression::Integer { value }
}

fn print(e: Expression) -> Statement {
    Statement::Print { expression: Box::new(e) }
}

/// How a run ended.
#[derive(Debug, PartialEq)]
enum End {
    Done,
    Uncaught(String),
    Unsupported,
    Fault,
}

/// Steps a machine over `code` until it stops, collecting what it prints.
fn run(code: &Code, mut state: MachineState) -> (Vec<String>, End) {
    let mut printed = Vec::new();
    for _ in 0..10_000 {
        match step(&mut state, code, &Module::new()) {
            StepAction::Continue => {},
            StepAction::Print(text) => printed.push(text),
            StepAction::Use { .. } => panic!("no use operation in these programs"),
            StepAction::Done => return (printed, End::Done),
            StepAction::Uncaught(value) => {
                return (printed, End::Uncaught(burn::builtin::intrinsic::operations::to_string(&value)));
            },
            StepAction::Unsupported => return (printed, End::Unsupported),
            StepAction::Fault => return (printed, End::Fault),
        }
    }
    panic!("the program did not stop");
}

/// Compiles `statements` and runs them.
fn compile_and_run(names: &IdentifierTable, statements: Vec<Statement>) -> (Vec<String>, End) {
    let mut root = Root { statements, frame: 0 };
    let (_, frame) = match compile(names, &mut root) {
        Ok(result) => result,
        Err(_) => panic!("the program does not compile"),
    };
    let state = MachineState::new(frame.locals, frame.code.n_shared_local_variables);
    run(&frame.code, state)
}

fn code_of(opcodes: Vec<OpCode>) -> Code {
    let mut code = Code::new();
    code.opcodes = opcodes;
    code
}

#[test]
fn a_stored_variable_is_printed() {
    let mut names = IdentifierTable::new();
    let x = names.find_or_create("x");
    let (printed, end) = compile_and_run(&names, vec![let_(x, integer(1)), print(var(x))]);
    assert_eq!(printed, vec!["1".to_string()]);
    assert_eq!(end, End::Done);
}

#[test]
fn an_addition_is_computed() {
    let names = IdentifierTable::new();
    let sum = Expression::Binary {
        operator: BinaryOperator::Addition,
        left: Box::new(integer(2)),
        right: Box::new(integer(3)),
    };
    let (printed, end) = compile_and_run(&names, vec![print(sum)]);
    assert_eq!(printed, vec!["5".to_string()]);
    assert_eq!(end, End::Done);
}

#[test]
fn a_catch_gets_the_error_and_the_finally_block_runs() {
    let mut names = IdentifierTable::new();
    let e = names.find_or_create("e");
    let statement = Statement::Try {
        block: vec![Statement::Throw { expression: Box::new(integer(1)) }],
        catch_clauses: vec![Catch { type_: None, variable_name: e, variable: 0, block: vec![print(var(e))] }],
        else_clause: None,
        finally_clause: Some(Finally { block: vec![print(integer(2))] }),
    };
    let (printed, end) = compile_and_run(&names, vec![statement]);
    assert_eq!(printed, vec!["TypeError: <Integer> is not Throwable.".to_string(), "2".to_string()]);
    assert_eq!(end, End::Done);
}

#[test]
fn a_throw_that_nothing_catches_ends_the_run() {
    let names = IdentifierTable::new();
    let (printed, end) = compile_and_run(&names, vec![Statement::Throw { expression: Box::new(integer(1)) }]);
    assert!(printed.is_empty());
    assert_eq!(end, End::Uncaught("TypeError: <Integer> is not Throwable.".to_string()));
}

#[test]
fn a_finally_block_runs_when_nothing_is_thrown() {
    let names = IdentifierTable::new();
    let statement = Statement::Try {
        block: vec![print(integer(1))],
        catch_clauses: vec![],
        else_clause: None,
        finally_clause: Some(Finally { block: vec![print(integer(2))] }),
    };
    let (printed, end) = compile_and_run(&names, vec![statement]);
    assert_eq!(printed, vec!["1".to_string(), "2".to_string()]);
    assert_eq!(end, End::Done);
}

#[test]
fn a_closure_reads_the_variable_it_shares() {
    let mut names = IdentifierTable::new();
    let x = names.find_or_create("x");
    let f = names.find_or_create("f");
    let function = Expression::Function { parameters: vec![], frame: 0, block: vec![print(var(x))] };
    let call = Expression::Call { expression: Box::new(var(f)), arguments: vec![] };
    let (printed, end) = compile_and_run(
        &names,
        vec![let_(x, integer(7)), let_(f, function), Statement::ExpressionStatement { expression: Box::new(call) }],
    );
    assert_eq!(printed, vec!["7".to_string()]);
    assert_eq!(end, End::Done);
}

#[test]
fn a_call_stores_its_arguments_and_returns_a_value() {
    let mut body = Code::new();
    body.n_local_variables = 2;
    body.opcodes = vec![OpCode::LoadLocal(0), OpCode::LoadLocal(1), OpCode::Subtract, OpCode::Return];
    let names = {
        let mut t = IdentifierTable::new();
        let a = t.find_or_create("a");
        let b = t.find_or_create("b");
        (a, b)
    };
    let parameters = vec![
        FunctionParameterDefinition { name: names.0, storage: FunctionParameterStorage::LocalFunctionParameterStorage(0) },
        FunctionParameterDefinition { name: names.1, storage: FunctionParameterStorage::LocalFunctionParameterStorage(1) },
    ];
    let definition = FunctionDefinition::new(Box::new(body), parameters, vec![]);
    let mut code = code_of(vec![
        OpCode::PushFunction { index: 0 },
        OpCode::PushInteger { value: 10 },
        OpCode::PushInteger { value: 3 },
        OpCode::Call { n_arguments: 2 },
        OpCode::ToString,
        OpCode::Print,
        OpCode::ReturnNothing,
    ]);
    code.functions.push(Rc::new(definition));
    let (printed, end) = run(&code, MachineState::new(vec![], 0));
    assert_eq!(printed, vec!["7".to_string()]);
    assert_eq!(end, End::Done);
}

#[test]
fn a_call_returns_to_the_caller_with_the_data_stack_as_it_was() {
    let mut body = Code::new();
    body.opcodes = vec![OpCode::PushInteger { value: 4 }, OpCode::Return];
    let definition = FunctionDefinition::new(Box::new(body), vec![], vec![]);
    let mut code = code_of(vec![
        OpCode::PushInteger { value: 1 },
        OpCode::PushFunction { index: 0 },
        OpCode::Call { n_arguments: 0 },
    ]);
    code.functions.push(Rc::new(definition));
    let mut state = MachineState::new(vec![], 0);
    for _ in 0..3 {
        assert!(matches!(step(&mut state, &code, &Module::new()), StepAction::Continue));
    }
    assert_eq!(state.frames.len(), 1);
    assert_eq!(state.frame.function, Some(0));
    assert_eq!(state.data_stack.len(), 1);
    for _ in 0..2 {
        assert!(matches!(step(&mut state, &code, &Module::new()), StepAction::Continue));
    }
    assert!(matches!(state.flow, Flow::Returning(Value::Integer(4))));
    assert!(matches!(step(&mut state, &code, &Module::new()), StepAction::Continue));
    assert_eq!(state.frames.len(), 0);
    assert_eq!(state.frame.instruction, 3);
    assert!(matches!(state.flow, Flow::Running));
    assert_eq!(state.data_stack.len(), 2);
    assert!(matches!(state.data_stack[0], Value::Integer(1)));
    assert!(matches!(state.data_stack[1], Value::Integer(4)));
}

#[test]
fn a_call_of_what_is_not_a_function_faults() {
    let code = code_of(vec![OpCode::PushInteger { value: 1 }, OpCode::Call { n_arguments: 0 }]);
    let (printed, end) = run(&code, MachineState::new(vec![], 0));
    assert!(printed.is_empty());
    assert_eq!(end, End::Fault);
}

#[test]
fn a_jump_out_of_the_code_faults_and_keeps_the_state() {
    let code = code_of(vec![OpCode::Jump { instruction: 9 }]);
    let mut state = MachineState::new(vec![], 0);
    assert!(matches!(step(&mut state, &code, &Module::new()), StepAction::Continue));
    assert_eq!(state.frame.instruction, 9);
    assert!(matches!(step(&mut state, &code, &Module::new()), StepAction::Fault));
    assert_eq!(state.frame.instruction, 9);
}

#[test]
fn printing_a_float_is_left_to_the_caller() {
    let code = code_of(vec![OpCode::PushFloat { bits: 0 }, OpCode::Print]);
    let (printed, end) = run(&code, MachineState::new(vec![], 0));
    assert!(printed.is_empty());
    assert_eq!(end, End::Unsupported);
}

#[test]
fn a_flow_jump_runs_the_finally_block_it_leaves() {
    let code = code_of(vec![
        OpCode::PushStartFinallyFlowPoint { instruction: 3 },
        OpCode::FlowJump { n_flow_points: 1, instruction: 7 },
        OpCode::Fail,
        OpCode::PushInteger { value: 5 },
        OpCode::ToString,
        OpCode::Print,
        OpCode::EndFinally,
        OpCode::ReturnNothing,
    ]);
    let mut state = MachineState::new(vec![], 0);
    let mut printed = Vec::new();
    for _ in 0..20 {
        match step(&mut state, &code, &Module::new()) {
            StepAction::Continue => {},
            StepAction::Print(text) => printed.push(text),
            StepAction::Done => break,
            _ => panic!("the run should end normally"),
        }
    }
    assert_eq!(printed, vec!["5".to_string()]);
}

#[test]
fn shared_cells_are_made_and_written() {
    let code = code_of(vec![
        OpCode::PushInteger { value: 3 },
        OpCode::InitializeSharedLocal(0),
        OpCode::StoreSharedLocal(0),
        OpCode::LoadSharedLocal(0),
        OpCode::ToString,
        OpCode::Print,
        OpCode::ReturnNothing,
    ]);
    let state = MachineState::new(vec![], 1);
    assert_eq!(state.cells.len(), 1);
    let (printed, end) = run(&code, state);
    assert_eq!(printed, vec!["3".to_string()]);
    assert_eq!(end, End::Done);
}

#[test]
fn a_use_asks_for_its_value_and_takes_it() {
    let code = code_of(vec![OpCode::Use { operation: 2 }, OpCode::ToString, OpCode::Print, OpCode::ReturnNothing]);
    let mut state = MachineState::new(vec![], 0);
    assert!(matches!(step(&mut state, &code, &Module::new()), StepAction::Use { operation: 2 }));
    state.push_value(Value::Integer(8));
    assert!(matches!(step(&mut state, &code, &Module::new()), StepAction::Continue));
    match step(&mut state, &code, &Module::new()) {
        StepAction::Print(text) => assert_eq!(text, "8"),
        _ => panic!("expected a print"),
    }
    assert!(matches!(step(&mut state, &code, &Module::new()), StepAction::Done));
}

#[test]
fn a_run_stops_at_the_first_print_and_counts_the_steps_before_it() {
    let code = code_of(vec![
        OpCode::PushInteger { value: 1 },
        OpCode::ToString,
        OpCode::Print,
        OpCode::ReturnNothing,
    ]);
    let mut state = MachineState::new(vec![], 0);
    match burn::vm::run::cpu::run(&mut state, &code, &Module::new(), 100) {
        (StepAction::Print(text), steps) => {
            assert_eq!(text, "1");
            assert_eq!(steps, 2);
        },
        _ => panic!("expected a print"),
    }
    assert!(matches!(burn::vm::run::cpu::run(&mut state, &code, &Module::new(), 100), (StepAction::Done, 0)));
}

#[test]
fn a_run_stops_when_its_budget_is_spent() {
    let code = code_of(vec![OpCode::Jump { instruction: 0 }]);
    let mut state = MachineState::new(vec![], 0);
    assert!(matches!(burn::vm::run::cpu::run(&mut state, &code, &Module::new(), 5), (StepAction::Continue, 5)));
    assert_eq!(state.frame.instruction, 0);
}

#[test]
fn an_implicit_name_is_loaded_from_the_implicit_module() {
    let mut names = IdentifierTable::new();
    let implicit = create_module(&mut names);
    let integer = names.find_or_create("Integer");
    let missing = names.find_or_create("Missing");
    let code = code_of(vec![
        OpCode::LoadImplicit { name: integer },
        OpCode::ToString,
        OpCode::Print,
        OpCode::LoadImplicit { name: missing },
    ]);
    let mut state = MachineState::new(vec![], 0);
    assert!(matches!(step(&mut state, &code, &implicit), StepAction::Continue));
    assert!(matches!(step(&mut state, &code, &implicit), StepAction::Continue));
    match step(&mut state, &code, &implicit) {
        StepAction::Print(text) => assert_eq!(text, "Integer"),
        _ => panic!("expected a print"),
    }
    assert!(matches!(step(&mut state, &code, &implicit), StepAction::Continue));
    assert!(matches!(state.flow, Flow::Throwing(Value::Nothing)));
    assert!(matches!(step(&mut state, &code, &implicit), StepAction::Uncaught(Value::Nothing)));
}

#[test]
fn a_compiled_program_prints_an_implicit_type() {
    let mut names = IdentifierTable::new();
    let integer = names.find_or_create("Integer");
    let name = Expression::Name {
        identifier: integer,
        annotation: burn::vm::analysis::annotation::Name { resolution: burn::vm::analysis::annotation::NameResolution::Implicit },
    };
    let mut root = Root { statements: vec![print(name)], frame: 0 };
    let (_, frame) = match compile(&names, &mut root) {
        Ok(result) => result,
        Err(_) => panic!("the program does not compile"),
    };
    let implicit = create_module(&mut names);
    let mut state = MachineState::new(frame.locals, frame.code.n_shared_local_variables);
    let mut printed = Vec::new();
    loop {
        match burn::vm::run::cpu::run(&mut state, &frame.code, &implicit, 1000) {
            (StepAction::Print(text), _) => printed.push(text),
            (StepAction::Done, _) => break,
            _ => panic!("the run should end normally"),
        }
    }
    assert_eq!(printed, vec!["Integer".to_string()]);
}

#[test]
fn a_catch_that_does_not_match_the_type_jumps_to_the_next_one() {
    let mut names = IdentifierTable::new();
    let implicit = create_module(&mut names);
    let integer = names.find_or_create("Integer");
    let code = code_of(vec![
        OpCode::PushStartCatchFlowPoint { instruction: 3 },
        OpCode::PushInteger { value: 1 },
        OpCode::Throw,
        OpCode::LoadImplicit { name: integer },
        OpCode::CatchOrJump { instruction: 6 },
        OpCode::ReturnNothing,
        OpCode::Catch,
        OpCode::LoadLocal(0),
        OpCode::ToString,
        OpCode::Print,
        OpCode::ReturnNothing,
    ]);
    let mut state = MachineState::new(vec![Value::Nothing], 0);
    let mut printed = Vec::new();
    loop {
        match burn::vm::run::cpu::run(&mut state, &code, &implicit, 100) {
            (StepAction::Print(text), _) => printed.push(text),
            (StepAction::Done, _) => break,
            _ => panic!("the run should end normally"),
        }
    }
    assert_eq!(printed, vec!["TypeError: <Integer> is not Throwable.".to_string()]);
}
