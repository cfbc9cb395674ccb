//! Core of a symbolic execution engine for embedded firmware and
//! LLVM-style programs.
//!
//! The engine explores all feasible paths of a program, keeping one
//! symbolic state per path.  Program values are symbolic bitvector
//! expressions with an exact arithmetic semantics; a satisfiability
//! oracle decides which branches are feasible and concretizes
//! interesting values on surviving paths.

pub mod backend;
pub mod context;
pub mod derived;
pub mod executor;
pub mod expr;
pub mod hooks;
pub mod laws;
pub mod memory;
pub mod ops;
pub mod path_selection;
pub mod run;
pub mod semantics;
pub mod solver;
pub mod state;

pub use context::Context;
pub use expr::{BinOp, Env, Expr};
pub use executor::{Executor, ExecutorError, Instr, Module, PCHook, PathResult, VM};
pub use hooks::{FnInfo, HookAction, Hooks};
pub use memory::{LinearAllocator, MemoryError, MemoryObject, ObjectMemory};
pub use path_selection::{DFSPathSelection, Path};
pub use run::{RunConfig, SolveFor, VisualPathResult, run_elf};
pub use state::{Callsite, Location, Project, State, VarMap};
pub use solver::{Backend, Solutions, Solver, SolverError};
