//! The exploration driver: runs every path of a program and collects
//! one result per surviving path, concretizing the registered symbols
//! where the configuration asks for it.

use vstd::prelude::*;
use vstd::string::StringExecFns;

use crate::executor::{ExecutorError, PathResult, VM};
use crate::solver::Backend;
use crate::state::Project;

verus! {

/// The synthetic return address of the top frame.  The engine never
/// dispatches a real instruction there; reaching it ends the path.
pub const END_PC: u64 = 0xFFFFFFFE;

/// Which paths the solver is invoked on for concretization.
#[derive(Clone, Copy, PartialEq, Eq, Structural, Debug)]
pub enum SolveFor {
    /// All paths.
    All,
    /// Paths that failed.
    Error,
    /// Paths that succeeded.
    Success,
}

/// How results are reported.
#[derive(Clone, Copy, PartialEq, Eq, Structural, Debug)]
pub struct RunConfig {
    /// Which paths the solver is invoked on.
    pub solve_for: SolveFor,
    /// Whether concretized inputs are reported.  The engine registers
    /// no inputs separately from the `symbolic` registry, so this flag
    /// currently selects nothing beyond `solve_symbolics`.
    pub solve_inputs: bool,
    /// Whether values passed to `symbolic` are concretized.
    pub solve_symbolics: bool,
    /// Whether the output value is concretized.
    pub solve_output: bool,
}

/// Why a path failed.
pub struct ErrorReason {
    /// A human-readable message.
    pub error_message: String,
}

/// The reported status of one path.
pub enum PathStatus {
    /// The path succeeded, possibly with a concretized output value.
    Succeeded(Option<u64>),
    /// The path failed.
    Failed(ErrorReason),
}

/// One concretized symbol.
pub struct ConcreteValue {
    /// The symbol's label.
    pub name: String,
    /// A value the symbol can take on this path.
    pub value: u64,
}

/// The reported outcome of one surviving path.
pub struct VisualPathResult {
    /// The 1-based index of the path.
    pub path: usize,
    /// Whether the path succeeded, and how it failed otherwise.
    pub result: PathStatus,
    /// Concretized values for the symbols the path registered.
    pub symbolics: Vec<ConcreteValue>,
}

/// Explores every path of `function` in the program and returns one
/// entry per surviving path, numbered from 1.  Suppressed paths and
/// evaporated forks are omitted, as the exploration loop has always
/// done.
pub fn run_elf<B: Backend>(
    project: Project,
    backend: B,
    function: &str,
    cfg: &RunConfig,
    max_steps: u64,
) -> (r: Result<Vec<VisualPathResult>, ExecutorError>)
    requires
        1 <= project.ptr_size <= 64,
        project.default_alignment >= 1,
    ensures
        r matches Ok(results) ==> forall|i: int|
            0 <= i < results@.len() ==> (#[trigger] results@[i]).path == i + 1,
        // A missing entry function aborts the run.
        crate::executor::find_function(project.modules@, function@) is None ==> r is Err,
{
    let mut vm = match VM::new(project, backend, function, END_PC, max_steps) {
        Ok(vm) => vm,
        Err(e) => {
            return Err(e);
        },
    };
    run_elf_paths(&mut vm, cfg)
}

/// Drains the machine's work list, reporting each surviving path.
fn run_elf_paths<B: Backend>(vm: &mut VM<B>, cfg: &RunConfig) -> (r: Result<
    Vec<VisualPathResult>,
    ExecutorError,
>)
    requires
        old(vm).inv(),
    ensures
        final(vm).inv(),
        r matches Ok(results) ==> forall|i: int|
            0 <= i < results@.len() ==> (#[trigger] results@[i]).path == i + 1,
        // A successful return means the work list was drained: every
        // queued path was explored.
        r is Ok ==> final(vm).queue_len() == 0,
{
    let mut results: Vec<VisualPathResult> = Vec::new();
    let mut path_num: usize = 0;
    loop
        invariant
            vm.inv(),
            path_num == results@.len(),
            path_num < usize::MAX,
            forall|i: int| 0 <= i < results@.len() ==> (#[trigger] results@[i]).path == i + 1,
        decreases vm.fuel(), vm.queue_len(),
    {
        let outcome = match vm.run() {
            Ok(o) => o,
            Err(e) => {
                return Err(e);
            },
        };
        let (path_result, state) = match outcome {
            None => {
                return Ok(results);
            },
            Some(p) => p,
        };
        match path_result {
            PathResult::Suppress => {
                // A suppressed path is omitted from the results
                // entirely.
            },
            PathResult::AssumptionUnsat => {
                // The fork evaporated; nothing to report.
            },
            PathResult::Success(output) => {
                if path_num == usize::MAX - 1 {
                    return Err(ExecutorError::Other(String::from_str("too many paths")));
                }
                path_num = path_num + 1;
                let solve = matches!(cfg.solve_for, SolveFor::All) || matches!(
                    cfg.solve_for,
                    SolveFor::Success,
                );
                let out_value = match output {
                    Some(e) => {
                        if solve && cfg.solve_output {
                            match vm.concretize(&e) {
                                Ok(Some(v)) => Some(v),
                                _ => None,
                            }
                        } else {
                            None
                        }
                    },
                    None => None,
                };
                let symbolics = if solve && cfg.solve_symbolics {
                    concretize_symbols(vm, &state)
                } else {
                    Vec::new()
                };
                results.push(
                    VisualPathResult { path: path_num, result: PathStatus::Succeeded(out_value), symbolics },
                );
            },
            PathResult::Failure(message) => {
                if path_num == usize::MAX - 1 {
                    return Err(ExecutorError::Other(String::from_str("too many paths")));
                }
                path_num = path_num + 1;
                let solve = matches!(cfg.solve_for, SolveFor::All) || matches!(
                    cfg.solve_for,
                    SolveFor::Error,
                );
                let symbolics = if solve && cfg.solve_symbolics {
                    concretize_symbols(vm, &state)
                } else {
                    Vec::new()
                };
                results.push(
                    VisualPathResult {
                        path: path_num,
                        result: PathStatus::Failed(ErrorReason { error_message: message }),
                        symbolics,
                    },
                );
            },
        }
    }
}

/// Concretizes every symbol the path registered; symbols the solver
/// cannot pin down are skipped.
fn concretize_symbols<B: Backend>(vm: &mut VM<B>, state: &crate::state::State) -> (r: Vec<
    ConcreteValue,
>)
    requires
        old(vm).inv(),
        state.inv(),
    ensures
        final(vm).inv(),
        final(vm).fuel() == old(vm).fuel(),
        final(vm).queue_len() == old(vm).queue_len(),
{
    let mut out: Vec<ConcreteValue> = Vec::new();
    let mut i: usize = 0;
    while i < state.symbols.len()
        invariant
            vm.inv(),
            state.inv(),
            vm.fuel() == old(vm).fuel(),
            vm.queue_len() == old(vm).queue_len(),
        decreases state.symbols@.len() - i,
    {
        let entry = &state.symbols[i];
        match vm.concretize(&entry.value) {
            Ok(Some(v)) => {
                out.push(ConcreteValue { name: entry.name.clone(), value: v });
            },
            _ => (),
        }
        i = i + 1;
    }
    out
}

} // verus!
