use burn::lang::identifier::{Identifier, IdentifierTable};
use burn::parse::node::{Expression, Root, Statement};
use burn::vm::analysis::allocation::AnalyzeAllocation;
use burn::vm::analysis::annotation::{Annotations, BoundStorageType, LocalStorageType};
use burn::vm::analysis::resolution::AnalyzeResolution;
use burn::vm::error::Error;
use burn::vm::repl::State;

fn let_(name: Identifier, value: Expression) -> Statement {
    Statement::Let { variable_name: name, annotation: 0, default: Some(Box::new(value)), source_offset: 0 }
}

fn var(name: Identifier, offset: usize) -> Expression {
    Expression::Variable { name, annotation: 0, source_offset: offset }
}

fn print(e: Expression) -> Statement {
    Statement::Print { expression: Box::new(e) }
}

#[test]
fn a_variable_is_read_and_written_in_its_frame() {
    let mut names = IdentifierTable::new();
    let x = names.find_or_create("x");
    let mut root = Root { statements: vec![let_(x, Expression::Integer { value: 1 }), print(var(x, 9))], frame: 0 };
    let mut ann = Annotations::new();
    let mut resolution = AnalyzeResolution::new();
    resolution.analyze_root(&mut ann, &names, &mut root);
    assert_eq!(resolution.errors.len(), 0);
    assert_eq!(ann.variables.len(), 1);
    let v = &ann.variables[0];
    assert_eq!(v.name, x);
    assert_eq!(v.declared_in, root.frame);
    assert_eq!(v.writes.len(), 1);
    assert_eq!(v.reads.len(), 1);
    assert!(v.writes[0].time < v.reads[0].time);
    match &root.statements[1] {
        Statement::Print { expression } => match **expression {
            Expression::Variable { annotation, .. } => assert_eq!(annotation, 0),
            _ => panic!(),
        },
        _ => panic!(),
    }
    let mut allocation = AnalyzeAllocation::new();
    allocation.analyze_root(&mut ann, &root);
    assert_eq!(ann.variables[0].local_storage_type, LocalStorageType::Local);
    assert_eq!(ann.variables[0].local_storage_index, 0);
    assert_eq!(ann.frames[root.frame].n_local_variables, 1);
    assert_eq!(ann.frames[root.frame].n_shared_local_variables, 0);
}

#[test]
fn an_unknown_variable_is_an_error() {
    let mut names = IdentifierTable::new();
    let y = names.find_or_create("y");
    let mut root = Root { statements: vec![print(var(y, 6))], frame: 0 };
    let mut ann = Annotations::new();
    let mut resolution = AnalyzeResolution::new();
    resolution.analyze_root(&mut ann, &names, &mut root);
    assert_eq!(resolution.errors.len(), 1);
    assert_eq!(resolution.errors[0].get_message(), "Variable not found: $y");
    assert_eq!(resolution.errors[0].get_source_offset(), 6);
}

#[test]
fn a_closure_binds_what_it_reads() {
    let mut names = IdentifierTable::new();
    let x = names.find_or_create("x");
    let f = names.find_or_create("f");
    let function = Expression::Function { parameters: vec![], frame: 0, block: vec![print(var(x, 30))] };
    let mut root = Root { statements: vec![let_(x, Expression::Integer { value: 1 }), let_(f, function)], frame: 0 };
    let mut ann = Annotations::new();
    let mut resolution = AnalyzeResolution::new();
    resolution.analyze_root(&mut ann, &names, &mut root);
    assert_eq!(resolution.errors.len(), 0);
    assert_eq!(ann.frames.len(), 2);
    let function_frame = ann.frames[root.frame].functions[0];
    let closure = ann.frames[function_frame].closure.as_ref().unwrap();
    assert_eq!(closure.bindings.len(), 1);
    assert_eq!(closure.bindings[0].variable, 0);
    assert!(!closure.bindings[0].mutable);
    assert_eq!(ann.variables[0].root_binds.len(), 1);
    assert_eq!(ann.variables[0].n_binds, 2);
    let mut allocation = AnalyzeAllocation::new();
    allocation.analyze_root(&mut ann, &root);
    // The variable is written after the (outermost) closure's creation time.
    assert_eq!(ann.variables[0].local_storage_type, LocalStorageType::SharedLocal);
    assert_eq!(ann.variables[0].bound_storage_type, BoundStorageType::SharedBound);
    assert_eq!(ann.variables[1].local_storage_type, LocalStorageType::Local);
    assert_eq!(ann.frames[root.frame].n_local_variables, 1);
    assert_eq!(ann.frames[root.frame].n_shared_local_variables, 1);
    let closure = ann.frames[function_frame].closure.as_ref().unwrap();
    assert_eq!(closure.n_shared_bound_variables, 1);
    assert_eq!(closure.n_static_bound_variables, 0);
    assert_eq!(closure.bindings[0].storage_index, 0);
}

#[test]
fn a_line_of_input_sees_earlier_variables() {
    let mut names = IdentifierTable::new();
    let x = names.find_or_create("x");
    let z = names.find_or_create("z");
    let mut state = State::new();
    state.declare_variable(x);
    let mut root = Root { statements: vec![print(var(x, 6)), let_(z, Expression::Integer { value: 2 })], frame: 0 };
    let mut ann = Annotations::new();
    let mut resolution = AnalyzeResolution::new();
    resolution.analyze_repl_root(&mut ann, &names, &mut root, &mut state);
    assert_eq!(resolution.errors.len(), 0);
    assert_eq!(state.len(), 2);
    assert_eq!(state.name_at(0), x);
    assert_eq!(state.name_at(1), z);
    let mut allocation = AnalyzeAllocation::new();
    allocation.analyze_repl_root(&mut ann, &root, &state);
    let first = ann.frames[root.frame].declared_variables[0];
    assert_eq!(ann.variables[first].local_storage_type, LocalStorageType::SharedLocal);
}

#[test]
fn an_inner_block_declaration_shadows_an_outer_one() {
    let mut names = IdentifierTable::new();
    let x = names.find_or_create("x");
    let inner = vec![let_(x, Expression::Integer { value: 2 }), print(var(x, 20))];
    let if_ = Statement::If {
        test: Box::new(Expression::Boolean { value: true }),
        block: inner,
        else_if_clauses: vec![],
        else_clause: None,
    };
    let mut root = Root { statements: vec![let_(x, Expression::Integer { value: 1 }), if_, print(var(x, 30))], frame: 0 };
    let mut ann = Annotations::new();
    let mut resolution = AnalyzeResolution::new();
    resolution.analyze_root(&mut ann, &names, &mut root);
    assert_eq!(resolution.errors.len(), 0);
    assert_eq!(ann.variables.len(), 2);
    let outer = match &root.statements[0] {
        Statement::Let { annotation, .. } => *annotation,
        _ => panic!(),
    };
    let (inner_let, inner_print) = match &root.statements[1] {
        Statement::If { block, .. } => {
            let declared = match &block[0] {
                Statement::Let { annotation, .. } => *annotation,
                _ => panic!(),
            };
            let read = match &block[1] {
                Statement::Print { expression } => match **expression {
                    Expression::Variable { annotation, .. } => annotation,
                    _ => panic!(),
                },
                _ => panic!(),
            };
            (declared, read)
        },
        _ => panic!(),
    };
    let outer_print = match &root.statements[2] {
        Statement::Print { expression } => match **expression {
            Expression::Variable { annotation, .. } => annotation,
            _ => panic!(),
        },
        _ => panic!(),
    };
    assert_ne!(outer, inner_let);
    assert_eq!(inner_print, inner_let);
    assert_eq!(outer_print, outer);
}

#[test]
fn a_later_declaration_in_the_block_is_already_in_scope() {
    let mut names = IdentifierTable::new();
    let x = names.find_or_create("x");
    let mut root = Root { statements: vec![print(var(x, 0)), let_(x, Expression::Integer { value: 1 })], frame: 0 };
    let mut ann = Annotations::new();
    let mut resolution = AnalyzeResolution::new();
    resolution.analyze_root(&mut ann, &names, &mut root);
    assert_eq!(resolution.errors.len(), 0);
    match &root.statements[0] {
        Statement::Print { expression } => match **expression {
            Expression::Variable { annotation, .. } => assert_eq!(annotation, 0),
            _ => panic!(),
        },
        _ => panic!(),
    }
}

#[test]
fn several_closures_one_of_which_assigns_share_one_cell() {
    let mut names = IdentifierTable::new();
    let x = names.find_or_create("x");
    let mut ann = Annotations::new();
    ann.frames.push(burn::vm::analysis::annotation::Frame::new());
    let mut variable = burn::vm::analysis::annotation::Variable::new(x, 0);
    variable.root_binds.push(burn::vm::analysis::annotation::BindVariable { time: 1, mutable: false });
    variable.root_binds.push(burn::vm::analysis::annotation::BindVariable { time: 2, mutable: true });
    variable.n_binds = 2;
    ann.variables.push(variable);
    ann.frames[0].declared_variables.push(0);
    let root = Root { statements: vec![], frame: 0 };
    let mut allocation = AnalyzeAllocation::new();
    allocation.analyze_root(&mut ann, &root);
    assert_eq!(ann.variables[0].local_storage_type, LocalStorageType::SharedLocal);
    assert_eq!(ann.variables[0].bound_storage_type, BoundStorageType::SharedBound);
}

#[test]
fn several_closures_that_only_read_get_static_copies() {
    let mut names = IdentifierTable::new();
    let x = names.find_or_create("x");
    let mut ann = Annotations::new();
    ann.frames.push(burn::vm::analysis::annotation::Frame::new());
    let mut variable = burn::vm::analysis::annotation::Variable::new(x, 0);
    variable.root_binds.push(burn::vm::analysis::annotation::BindVariable { time: 1, mutable: false });
    variable.root_binds.push(burn::vm::analysis::annotation::BindVariable { time: 2, mutable: false });
    variable.n_binds = 2;
    ann.variables.push(variable);
    ann.frames[0].declared_variables.push(0);
    let root = Root { statements: vec![], frame: 0 };
    let mut allocation = AnalyzeAllocation::new();
    allocation.analyze_root(&mut ann, &root);
    assert_eq!(ann.variables[0].local_storage_type, LocalStorageType::Local);
    assert_eq!(ann.variables[0].bound_storage_type, BoundStorageType::StaticBound);
}

#[test]
fn a_thrown_expression_is_resolved() {
    let mut names = IdentifierTable::new();
    let x = names.find_or_create("x");
    let y = names.find_or_create("y");
    let mut root = Root {
        statements: vec![
            let_(x, Expression::Integer { value: 1 }),
            Statement::Throw { expression: Box::new(var(x, 10)) },
            Statement::Throw { expression: Box::new(var(y, 20)) },
        ],
        frame: 0,
    };
    let mut ann = Annotations::new();
    let mut resolution = AnalyzeResolution::new();
    resolution.analyze_root(&mut ann, &names, &mut root);
    assert_eq!(resolution.errors.len(), 1);
    assert_eq!(resolution.errors[0].get_message(), "Variable not found: $y");
    assert_eq!(resolution.errors[0].get_source_offset(), 20);
    assert_eq!(ann.variables[0].reads.len(), 1);
}

#[test]
fn a_read_in_the_declaring_frame_is_recorded_after_the_write() {
    let mut names = IdentifierTable::new();
    let x = names.find_or_create("x");
    let mut root = Root { statements: vec![let_(x, Expression::Integer { value: 1 }), print(var(x, 0)), print(var(x, 0))], frame: 0 };
    let mut ann = Annotations::new();
    let mut resolution = AnalyzeResolution::new();
    resolution.analyze_root(&mut ann, &names, &mut root);
    let v = &ann.variables[0];
    assert_eq!(v.writes.len(), 1);
    assert_eq!(v.reads.len(), 2);
    assert!(v.writes[0].time < v.reads[0].time && v.reads[0].time < v.reads[1].time);
}

#[test]
fn a_closure_numbers_its_static_and_shared_slots_separately() {
    // let a; let b; let f = function() { print a; print b; b = 3; }
    let mut names = IdentifierTable::new();
    let a = names.find_or_create("a");
    let b = names.find_or_create("b");
    let f = names.find_or_create("f");
    let assign = Statement::Assignment {
        lvalue: Box::new(burn::parse::node::Lvalue::VariableLvalue { name: b, annotation: 0 }),
        rvalue: Box::new(Expression::Integer { value: 3 }),
    };
    let function = Expression::Function { parameters: vec![], frame: 0, block: vec![print(var(a, 40)), print(var(b, 50)), assign] };
    let mut root = Root {
        statements: vec![
            Statement::Let { variable_name: a, annotation: 0, default: None, source_offset: 0 },
            Statement::Let { variable_name: b, annotation: 0, default: None, source_offset: 0 },
            let_(f, function),
        ],
        frame: 0,
    };
    let mut ann = Annotations::new();
    let mut resolution = AnalyzeResolution::new();
    resolution.analyze_root(&mut ann, &names, &mut root);
    assert_eq!(resolution.errors.len(), 0);
    let mut allocation = AnalyzeAllocation::new();
    allocation.analyze_root(&mut ann, &root);
    let function_frame = ann.frames[root.frame].functions[0];
    let closure = ann.frames[function_frame].closure.as_ref().unwrap();
    assert_eq!(closure.bindings.len(), 2);
    // `a` is never assigned: a static copy; `b` is assigned by the closure:
    // a shared cell.
    let a_var = closure.bindings[0].variable;
    let b_var = closure.bindings[1].variable;
    assert_eq!(ann.variables[a_var].name, a);
    assert_eq!(ann.variables[b_var].name, b);
    assert_eq!(ann.variables[a_var].bound_storage_type, BoundStorageType::StaticBound);
    assert_eq!(ann.variables[b_var].bound_storage_type, BoundStorageType::SharedBound);
    assert_eq!(closure.bindings[0].storage_index, 0);
    assert_eq!(closure.bindings[1].storage_index, 0);
    assert_eq!(closure.n_static_bound_variables, 1);
    assert_eq!(closure.n_shared_bound_variables, 1);
}

#[test]
fn a_line_of_input_declares_its_variables_after_the_earlier_ones() {
    let mut names = IdentifierTable::new();
    let x = names.find_or_create("x");
    let y = names.find_or_create("y");
    let z = names.find_or_create("z");
    let mut state = State::new();
    state.declare_variable(x);
    let mut root = Root {
        statements: vec![let_(z, Expression::Integer { value: 1 }), print(var(x, 3)), let_(y, Expression::Integer { value: 2 })],
        frame: 0,
    };
    let mut ann = Annotations::new();
    let mut resolution = AnalyzeResolution::new();
    resolution.analyze_repl_root(&mut ann, &names, &mut root, &mut state);
    assert_eq!(resolution.errors.len(), 0);
    let declared: Vec<Identifier> =
        ann.frames[root.frame].declared_variables.iter().map(|&v| ann.variables[v].name).collect();
    assert_eq!(declared, vec![x, z, y]);
}

#[test]
fn a_local_read_is_recorded_once_and_an_unknown_one_not_at_all() {
    let mut names = IdentifierTable::new();
    let x = names.find_or_create("x");
    let q = names.find_or_create("q");
    let mut root = Root { statements: vec![let_(x, Expression::Integer { value: 1 }), print(var(x, 5)), print(var(q, 7))], frame: 0 };
    let mut ann = Annotations::new();
    let mut resolution = AnalyzeResolution::new();
    resolution.analyze_root(&mut ann, &names, &mut root);
    assert_eq!(resolution.errors.len(), 1);
    assert_eq!(resolution.errors[0].get_message(), "Variable not found: $q");
    assert_eq!(resolution.errors[0].get_source_offset(), 7);
    assert_eq!(ann.variables.len(), 1);
    assert_eq!(ann.variables[0].reads.len(), 1);
    assert_eq!(ann.variables[0].writes.len(), 1);
}
