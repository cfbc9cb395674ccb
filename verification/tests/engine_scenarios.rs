//! End-to-end engine scenarios: assume, forking, bounds-check
//! failures, suppression, and the cycle-count intrinsics.

use symex::backend::ConcreteBackend;
use symex::executor::{Instr, PathResult, VM};
use symex::run::{run_elf, PathStatus, RunConfig, SolveFor, END_PC};
use symex::state::{FunctionModel, GlobalVar, Operand, ProgramModule, Project};

fn var(name: &str) -> Operand {
    Operand::Var(name.to_string())
}

fn imm(v: u64, w: u32) -> Operand {
    Operand::Imm { v, w }
}

fn project_with_main(instructions: Vec<Instr>) -> Project {
    Project {
        modules: vec![ProgramModule {
            name: "main_module".to_string(),
            functions: vec![FunctionModel {
                name: "main".to_string(),
                base_pc: 0x100,
                instructions,
            }],
            global_vars: vec![],
        }],
        ptr_size: 32,
        default_alignment: 4,
    }
}

fn solve_all() -> RunConfig {
    RunConfig { solve_for: SolveFor::All, solve_inputs: true, solve_symbolics: true, solve_output: true }
}

#[test]
fn pure_assume_pins_the_symbol() {
    // let x: u32 = symbolic(); assume(x == 42); return x;
    // Exactly one successful path, with x concretized to 42.
    let program = project_with_main(vec![
        Instr::Alloc { dst: "x".to_string(), bits: 32, align: 4 },
        Instr::Call {
            dst: None,
            function: "symbolic".to_string(),
            args: vec![var("x"), imm(32, 32)],
        },
        Instr::Load { dst: "x_val".to_string(), addr: var("x"), bits: 32 },
        Instr::Binary {
            dst: "cond".to_string(),
            op: symex::expr::BinOp::Eq,
            a: var("x_val"),
            b: imm(42, 32),
        },
        Instr::Call { dst: None, function: "assume".to_string(), args: vec![var("cond")] },
        Instr::Return { value: Some(var("x_val")) },
    ]);
    let results = run_elf(program, ConcreteBackend::new(), "main", &solve_all(), 1000).unwrap();
    assert_eq!(results.len(), 1);
    assert_eq!(results[0].path, 1);
    match &results[0].result {
        PathStatus::Succeeded(v) => assert_eq!(*v, Some(42)),
        PathStatus::Failed(_) => panic!("expected a success"),
    }
    assert_eq!(results[0].symbolics.len(), 1);
    assert_eq!(results[0].symbolics[0].name, "x_0");
    assert_eq!(results[0].symbolics[0].value, 42);
}

#[test]
fn fork_on_inequality_explores_both_edges() {
    // Branch on x < 10; both edges return. Two successful paths, one
    // with a model below 10 and one with a model at or above 10.
    let program = project_with_main(vec![
        Instr::Alloc { dst: "x".to_string(), bits: 32, align: 4 },
        Instr::Call {
            dst: None,
            function: "symbolic".to_string(),
            args: vec![var("x"), imm(32, 32)],
        },
        Instr::Load { dst: "x_val".to_string(), addr: var("x"), bits: 32 },
        Instr::Binary {
            dst: "cond".to_string(),
            op: symex::expr::BinOp::Ult,
            a: var("x_val"),
            b: imm(10, 32),
        },
        Instr::BranchIf { cond: var("cond"), target: 6 },
        Instr::Return { value: Some(imm(0, 32)) },
        Instr::Return { value: Some(imm(1, 32)) },
    ]);
    let results = run_elf(program, ConcreteBackend::new(), "main", &solve_all(), 1000).unwrap();
    assert_eq!(results.len(), 2);
    let mut small = None;
    let mut large = None;
    for r in &results {
        assert!(matches!(r.result, PathStatus::Succeeded(_)));
        assert_eq!(r.symbolics.len(), 1);
        let v = r.symbolics[0].value;
        if v < 10 {
            small = Some(v);
        } else {
            large = Some(v);
        }
    }
    assert!(small.is_some());
    assert!(large.is_some());
}

#[test]
fn out_of_range_index_panics_on_one_path() {
    // arr: [u8; 4], x symbolic: the compiled bounds check branches to
    // the panic endpoint when x >= 4, and reads arr[x] otherwise.
    let program = project_with_main(vec![
        Instr::Alloc { dst: "arr".to_string(), bits: 32, align: 4 },
        Instr::Alloc { dst: "x".to_string(), bits: 32, align: 4 },
        Instr::Call {
            dst: None,
            function: "symbolic".to_string(),
            args: vec![var("x"), imm(32, 32)],
        },
        Instr::Load { dst: "x_val".to_string(), addr: var("x"), bits: 32 },
        Instr::Binary {
            dst: "in_bounds".to_string(),
            op: symex::expr::BinOp::Ult,
            a: var("x_val"),
            b: imm(4, 32),
        },
        Instr::BranchIf { cond: var("in_bounds"), target: 7 },
        Instr::Call {
            dst: None,
            function: "core::panicking::panic_bounds_check".to_string(),
            args: vec![],
        },
        Instr::Binary {
            dst: "elem_addr".to_string(),
            op: symex::expr::BinOp::Add,
            a: var("arr"),
            b: var("x_val"),
        },
        Instr::Load { dst: "elem".to_string(), addr: var("elem_addr"), bits: 8 },
        Instr::Return { value: Some(var("x_val")) },
    ]);
    let results = run_elf(program, ConcreteBackend::new(), "main", &solve_all(), 1000).unwrap();
    assert_eq!(results.len(), 2);
    let mut successes = 0;
    let mut failures = 0;
    for r in &results {
        match &r.result {
            PathStatus::Succeeded(_) => {
                successes += 1;
                // The surviving read satisfies the bounds check.
                assert!(r.symbolics[0].value < 4);
            },
            PathStatus::Failed(_) => failures += 1,
        }
    }
    assert_eq!(successes, 1);
    assert_eq!(failures, 1);
}

#[test]
fn suppressed_path_is_omitted_from_results() {
    let program = project_with_main(vec![
        Instr::Call { dst: None, function: "suppress_path".to_string(), args: vec![] },
        Instr::Return { value: None },
    ]);
    let results = run_elf(program, ConcreteBackend::new(), "main", &solve_all(), 1000).unwrap();
    assert_eq!(results.len(), 0);
}

#[test]
fn panic_named_function_fails_the_path() {
    let program = project_with_main(vec![
        Instr::Call { dst: None, function: "panic".to_string(), args: vec![] },
    ]);
    let results = run_elf(program, ConcreteBackend::new(), "main", &solve_all(), 1000).unwrap();
    assert_eq!(results.len(), 1);
    match &results[0].result {
        PathStatus::Failed(reason) => assert_eq!(reason.error_message, "panic"),
        PathStatus::Succeeded(_) => panic!("expected a failure"),
    }
}

#[test]
fn cycle_count_measures_instructions_between_the_intrinsics() {
    // start_cyclecount resets the counter; the three instructions in
    // between each contribute one cycle; end_cyclecount stops it.
    let program = project_with_main(vec![
        Instr::Call { dst: None, function: "start_cyclecount".to_string(), args: vec![] },
        Instr::Assign { dst: "a".to_string(), src: imm(1, 32) },
        Instr::Assign { dst: "b".to_string(), src: imm(2, 32) },
        Instr::Binary {
            dst: "c".to_string(),
            op: symex::expr::BinOp::Add,
            a: var("a"),
            b: var("b"),
        },
        Instr::Call { dst: None, function: "end_cyclecount".to_string(), args: vec![] },
        Instr::Return { value: Some(var("c")) },
    ]);
    let mut vm = VM::new(program, ConcreteBackend::new(), "main", END_PC, 1000).unwrap();
    let (result, state) = vm.run().unwrap().unwrap();
    assert!(matches!(result, PathResult::Success(_)));
    assert_eq!(state.cycle_count, 3);
    assert!(!state.counting_cycles);
    // The work list is drained.
    assert!(vm.run().unwrap().is_none());
}

#[test]
fn calls_and_returns_bind_results() {
    // main calls a helper that returns its doubled argument.
    let program = Project {
        modules: vec![ProgramModule {
            name: "main_module".to_string(),
            functions: vec![
                FunctionModel {
                    name: "main".to_string(),
                    base_pc: 0x100,
                    instructions: vec![
                        Instr::Assign { dst: "v".to_string(), src: imm(21, 32) },
                        Instr::Call {
                            dst: Some("r".to_string()),
                            function: "double".to_string(),
                            args: vec![],
                        },
                        Instr::Return { value: Some(var("r")) },
                    ],
                },
                FunctionModel {
                    name: "double".to_string(),
                    base_pc: 0x200,
                    instructions: vec![
                        Instr::Binary {
                            dst: "d".to_string(),
                            op: symex::expr::BinOp::Add,
                            a: var("v"),
                            b: var("v"),
                        },
                        Instr::Return { value: Some(var("d")) },
                    ],
                },
            ],
            global_vars: vec![],
        }],
        ptr_size: 32,
        default_alignment: 4,
    };
    let results = run_elf(program, ConcreteBackend::new(), "main", &solve_all(), 1000).unwrap();
    assert_eq!(results.len(), 1);
    match &results[0].result {
        PathStatus::Succeeded(v) => assert_eq!(*v, Some(42)),
        PathStatus::Failed(_) => panic!("expected a success"),
    }
}

#[test]
fn switch_prunes_unsatisfiable_cases() {
    // A switch over a forced value takes exactly the matching case.
    let program = project_with_main(vec![
        Instr::Alloc { dst: "x".to_string(), bits: 32, align: 4 },
        Instr::Call {
            dst: None,
            function: "symbolic".to_string(),
            args: vec![var("x"), imm(32, 32)],
        },
        Instr::Load { dst: "x_val".to_string(), addr: var("x"), bits: 32 },
        Instr::Binary {
            dst: "cond".to_string(),
            op: symex::expr::BinOp::Eq,
            a: var("x_val"),
            b: imm(2, 32),
        },
        Instr::Call { dst: None, function: "assume".to_string(), args: vec![var("cond")] },
        Instr::Switch {
            value: var("x_val"),
            cases: vec![
                symex::executor::SwitchCase { value: 1, target: 6 },
                symex::executor::SwitchCase { value: 2, target: 7 },
            ],
            default: 8,
        },
        Instr::Return { value: Some(imm(100, 32)) },
        Instr::Return { value: Some(imm(200, 32)) },
        Instr::Return { value: Some(imm(300, 32)) },
    ]);
    let results = run_elf(program, ConcreteBackend::new(), "main", &solve_all(), 1000).unwrap();
    assert_eq!(results.len(), 1);
    match &results[0].result {
        PathStatus::Succeeded(v) => assert_eq!(*v, Some(200)),
        PathStatus::Failed(_) => panic!("expected a success"),
    }
}

#[test]
fn initialized_globals_are_readable() {
    // A global with an initializer is written to memory at state
    // construction, so the program reads its initial value.
    let program = Project {
        modules: vec![ProgramModule {
            name: "main_module".to_string(),
            functions: vec![FunctionModel {
                name: "main".to_string(),
                base_pc: 0x100,
                instructions: vec![
                    Instr::Load { dst: "g_val".to_string(), addr: var("counter"), bits: 32 },
                    Instr::Return { value: Some(var("g_val")) },
                ],
            }],
            global_vars: vec![GlobalVar {
                name: "counter".to_string(),
                size_bits: 32,
                alignment: 4,
                initializer: Some(7),
            }],
        }],
        ptr_size: 32,
        default_alignment: 4,
    };
    let results = run_elf(program, ConcreteBackend::new(), "main", &solve_all(), 1000).unwrap();
    assert_eq!(results.len(), 1);
    match &results[0].result {
        PathStatus::Succeeded(v) => assert_eq!(*v, Some(7)),
        PathStatus::Failed(_) => panic!("expected a success"),
    }
}

#[test]
fn missing_function_aborts_the_run() {
    let program = project_with_main(vec![Instr::Return { value: None }]);
    let r = run_elf(program, ConcreteBackend::new(), "nonexistent", &solve_all(), 1000);
    assert!(r.is_err());
}

#[test]
fn repeated_symbolic_calls_get_generation_suffixes() {
    // Calling symbolic twice against the same pointer shadows the
    // first symbol under a new generation label.
    let program = project_with_main(vec![
        Instr::Alloc { dst: "x".to_string(), bits: 32, align: 4 },
        Instr::Call {
            dst: None,
            function: "symbolic".to_string(),
            args: vec![var("x"), imm(32, 32)],
        },
        Instr::Call {
            dst: None,
            function: "symbolic".to_string(),
            args: vec![var("x"), imm(32, 32)],
        },
        Instr::Load { dst: "x_val".to_string(), addr: var("x"), bits: 32 },
        Instr::Binary {
            dst: "cond".to_string(),
            op: symex::expr::BinOp::Eq,
            a: var("x_val"),
            b: imm(5, 32),
        },
        Instr::Call { dst: None, function: "assume".to_string(), args: vec![var("cond")] },
        Instr::Return { value: Some(var("x_val")) },
    ]);
    let mut vm = VM::new(program, ConcreteBackend::new(), "main", END_PC, 1000).unwrap();
    let (result, state) = vm.run().unwrap().unwrap();
    assert!(matches!(result, PathResult::Success(_)));
    // Both generations are registered under distinct labels.
    assert_eq!(state.symbols.len(), 2);
    assert_eq!(state.symbols[0].name, "x_0");
    assert_eq!(state.symbols[1].name, "x_1");
    // The live (second-generation) symbol is pinned to 5; the
    // shadowed one is unconstrained.
    assert_eq!(vm.concretize(&state.symbols[1].value), Ok(Some(5)));
}

#[test]
fn contradictory_assumptions_evaporate_the_path() {
    // Two assumes that force different values leave no feasible edge
    // at the branch: the path ends as an evaporated fork and is
    // omitted from the results.
    let program = project_with_main(vec![
        Instr::Alloc { dst: "x".to_string(), bits: 32, align: 4 },
        Instr::Call {
            dst: None,
            function: "symbolic".to_string(),
            args: vec![var("x"), imm(32, 32)],
        },
        Instr::Load { dst: "x_val".to_string(), addr: var("x"), bits: 32 },
        Instr::Binary {
            dst: "c1".to_string(),
            op: symex::expr::BinOp::Eq,
            a: var("x_val"),
            b: imm(1, 32),
        },
        Instr::Call { dst: None, function: "assume".to_string(), args: vec![var("c1")] },
        Instr::Binary {
            dst: "c2".to_string(),
            op: symex::expr::BinOp::Eq,
            a: var("x_val"),
            b: imm(2, 32),
        },
        Instr::Call { dst: None, function: "assume".to_string(), args: vec![var("c2")] },
        Instr::Binary {
            dst: "c3".to_string(),
            op: symex::expr::BinOp::Ult,
            a: var("x_val"),
            b: imm(10, 32),
        },
        Instr::BranchIf { cond: var("c3"), target: 10 },
        Instr::Return { value: Some(imm(0, 32)) },
        Instr::Return { value: Some(imm(1, 32)) },
    ]);
    let results = run_elf(program, ConcreteBackend::new(), "main", &solve_all(), 1000).unwrap();
    assert_eq!(results.len(), 0);
}
