//! The forking executor: instruction stepping, hook dispatch, and the
//! branch policy that turns one instruction stream into a tree of
//! constrained paths.

use vstd::prelude::*;

use vstd::arithmetic::power2::pow2;
use vstd::string::{StrSliceExecFns, StringExecFns};

use crate::expr::{BinOp, Env, Expr, bits_and, bool_bit, not_val};
use crate::hooks::{FnInfo, HookAction, Hooks};
use crate::memory::MemoryError;
use crate::path_selection::{DFSPathSelection, Path};
use crate::solver::{Backend, Solver, SolverError, holds, lemma_holds_push, satisfiable};
use crate::state::{Callsite, FunctionModel, Location, Operand, ProgramModule, Project, State, VarBinding};

verus! {

/// Marker for executors over one instruction set.
pub trait Executor {

}

/// Marker for program modules an executor can run.
pub trait Module {

}

/// Errors that abort the whole exploration (as opposed to failing one
/// path).
#[derive(Clone, Debug, PartialEq, Eq)]
pub enum ExecutorError {
    /// A hook demanded an abort with this code.
    Abort(i64),
    /// The solver failed.
    SolverError(SolverError),
    /// The memory subsystem failed.
    MemoryError(MemoryError),
    /// Any other engine-level failure.
    Other(String),
}

impl ExecutorError {
    /// A short description of the error.
    pub fn message(&self) -> (r: &'static str) {
        match self {
            ExecutorError::Abort(_) => "Abort",
            ExecutorError::SolverError(e) => e.message(),
            ExecutorError::MemoryError(e) => e.message(),
            ExecutorError::Other(_) => "Other",
        }
    }
}

/// One case of a switch.
pub struct SwitchCase {
    /// The matched value.
    pub value: u64,
    /// The instruction index jumped to on a match.
    pub target: usize,
}

/// One instruction of the program model.  Branch targets are
/// instruction indices within the same function.
pub enum Instr {
    /// Bind `dst` to the operand's value.
    Assign { dst: String, src: Operand },
    /// Bind `dst` to `op(a, b)`; the operands must resolve to equal
    /// widths.
    Binary { dst: String, op: BinOp, a: Operand, b: Operand },
    /// Read `bits` bits at the address and bind them to `dst`.
    Load { dst: String, addr: Operand, bits: u32 },
    /// Write the value at the address.
    Store { addr: Operand, value: Operand },
    /// Reserve `bits` bits of memory and bind the address to `dst`.
    Alloc { dst: String, bits: u64, align: u64 },
    /// Branch to `target` when the width-1 condition is true.
    BranchIf { cond: Operand, target: usize },
    /// Unconditional branch to `target`.
    Jump { target: usize },
    /// N-ary branch: jump to the matching case, or to `default`.
    Switch { value: Operand, cases: Vec<SwitchCase>, default: usize },
    /// Call the named function; hooks are consulted first.
    Call { dst: Option<String>, function: String, args: Vec<Operand> },
    /// Return to the caller, with an optional value.
    Return { value: Option<Operand> },
}

/// The result of exploring one path to its end.
pub enum PathResult {
    /// The path ended successfully, possibly with a return value.
    Success(Option<Expr>),
    /// The path failed, with a human-readable reason.
    Failure(String),
    /// The path asked to be dropped from the results.
    Suppress,
    /// The path's saved constraint turned out unsatisfiable on resume.
    AssumptionUnsat,
}

/// An action attached to a program counter.
pub enum PCHook {
    /// Terminate the path successfully.
    EndSuccess,
    /// Terminate the path as failed, with a message.
    EndFailure(String),
    /// Drop the path from the results.
    Suppress,
    /// Reset the cycle counter and return to the caller.
    StartCycleCount,
    /// Stop the cycle counter and return to the caller.
    EndCycleCount,
}

/// One registered program-counter hook.
pub struct PcHookEntry {
    /// The hooked program counter.
    pub pc: u64,
    /// What happens when control reaches it.
    pub hook: PCHook,
}

/// What one step did: continue, or end the path with a result.
enum StepOutcome {
    /// Keep stepping this path.
    Continue,
    /// The path terminated.
    Done(PathResult),
}

/// Applies a binary operation of the algebra to two expressions of
/// equal width.
fn apply_binop(op: BinOp, a: &Expr, b: &Expr) -> (r: Expr)
    requires
        a.wf(),
        b.wf(),
        a.wid() == b.wid(),
    ensures
        r.wf(),
{
    match op {
        BinOp::Add => a.add(b),
        BinOp::Sub => a.sub(b),
        BinOp::Mul => a.mul(b),
        BinOp::Udiv => a.udiv(b),
        BinOp::Sdiv => a.sdiv(b),
        BinOp::Urem => a.urem(b),
        BinOp::Srem => a.srem(b),
        BinOp::And => a.and(b),
        BinOp::Or => a.or(b),
        BinOp::Xor => a.xor(b),
        BinOp::Shl => a.sll(b),
        BinOp::Lshr => a.srl(b),
        BinOp::Ashr => a.sra(b),
        BinOp::Eq => a._eq(b),
        BinOp::Ne => a._ne(b),
        BinOp::Ult => a.ult(b),
        BinOp::Ule => a.ulte(b),
        BinOp::Ugt => a.ugt(b),
        BinOp::Uge => a.ugte(b),
        BinOp::Slt => a.slt(b),
        BinOp::Sle => a.slte(b),
        BinOp::Sgt => a.sgt(b),
        BinOp::Sge => a.sgte(b),
        BinOp::Uaddo => a.uaddo(b),
        BinOp::Saddo => a.saddo(b),
        BinOp::Usubo => a.usubo(b),
        BinOp::Ssubo => a.ssubo(b),
        BinOp::Umulo => a.umulo(b),
        BinOp::Smulo => a.smulo(b),
    }
}

/// Whether, under `env`, the switch value misses every one of the
/// first `k` cases.
spec fn no_case_matches(value: Expr, cases: Seq<SwitchCase>, k: int, w: nat, env: Env) -> bool {
    forall|j: int|
        0 <= j < k ==> value.eval(env) != ((#[trigger] cases[j]).value as nat) % pow2(w)
}

/// Extending the miss predicate by one case.
proof fn lemma_no_case_matches_step(value: Expr, cases: Seq<SwitchCase>, k: int, w: nat, env: Env)
    requires
        0 <= k < cases.len(),
    ensures
        no_case_matches(value, cases, k + 1, w, env) <==> (no_case_matches(value, cases, k, w, env)
            && value.eval(env) != (cases[k].value as nat) % pow2(w)),
{
    if no_case_matches(value, cases, k, w, env) && value.eval(env) != (cases[k].value as nat)
        % pow2(w) {
        assert forall|j: int| 0 <= j < k + 1 implies value.eval(env) != ((#[trigger]
        cases[j]).value as nat) % pow2(w) by {
            if j < k {
                assert(no_case_matches(value, cases, k, w, env));
            }
        }
    }
    if no_case_matches(value, cases, k + 1, w, env) {
        assert forall|j: int| 0 <= j < k implies value.eval(env) != ((#[trigger]
        cases[j]).value as nat) % pow2(w) by {
            assert(no_case_matches(value, cases, k + 1, w, env));
        }
        assert(value.eval(env) != (cases[k].value as nat) % pow2(w));
    }
}

/// The index of the first function named `name` in the list.
pub open spec fn find_function_in(fns: Seq<FunctionModel>, name: Seq<char>) -> Option<int>
    decreases fns.len(),
{
    if fns.len() == 0 {
        None
    } else if fns.first().name@ == name {
        Some(0int)
    } else {
        match find_function_in(fns.drop_first(), name) {
            Some(f) => Some(f + 1),
            None => None,
        }
    }
}

/// The entry location of the first function named `name`, scanning
/// modules in order.
pub open spec fn find_function(modules: Seq<ProgramModule>, name: Seq<char>) -> Option<Location>
    decreases modules.len(),
{
    if modules.len() == 0 {
        None
    } else {
        match find_function_in(modules.first().functions@, name) {
            Some(f) => Some(Location { module: 0, function: f as usize, instr: 0 }),
            None => match find_function(modules.drop_first(), name) {
                Some(l) => Some(
                    Location { module: (l.module + 1) as usize, function: l.function, instr: 0 },
                ),
                None => None,
            },
        }
    }
}

/// A name that matches nowhere in a function list is not found.
proof fn lemma_find_function_in_none(fns: Seq<FunctionModel>, name: Seq<char>)
    requires
        forall|f: int| 0 <= f < fns.len() ==> (#[trigger] fns[f]).name@ != name,
    ensures
        find_function_in(fns, name) is None,
    decreases fns.len(),
{
    if fns.len() > 0 {
        assert(fns[0].name@ != name);
        assert forall|f: int| 0 <= f < fns.drop_first().len() implies (#[trigger]
        fns.drop_first()[f]).name@ != name by {
            assert(fns.drop_first()[f] == fns[f + 1]);
        }
        lemma_find_function_in_none(fns.drop_first(), name);
    }
}

/// The first match in a function list characterizes the lookup.
proof fn lemma_find_function_in_first(fns: Seq<FunctionModel>, name: Seq<char>, f: int)
    requires
        0 <= f < fns.len(),
        fns[f].name@ == name,
        forall|f0: int| 0 <= f0 < f ==> (#[trigger] fns[f0]).name@ != name,
    ensures
        find_function_in(fns, name) == Some(f),
    decreases fns.len(),
{
    if f == 0 {
    } else {
        assert(fns[0].name@ != name);
        assert(fns.drop_first()[f - 1] == fns[f]);
        assert forall|f0: int| 0 <= f0 < f - 1 implies (#[trigger]
        fns.drop_first()[f0]).name@ != name by {
            assert(fns.drop_first()[f0] == fns[f0 + 1]);
        }
        lemma_find_function_in_first(fns.drop_first(), name, f - 1);
    }
}

/// A name that matches nowhere in the project is not found.
proof fn lemma_find_function_none(modules: Seq<ProgramModule>, name: Seq<char>)
    requires
        forall|m: int, f: int|
            0 <= m < modules.len() && 0 <= f < (#[trigger] modules[m]).functions@.len() ==> (
            #[trigger] modules[m].functions@[f]).name@ != name,
    ensures
        find_function(modules, name) is None,
    decreases modules.len(),
{
    if modules.len() > 0 {
        assert forall|f: int| 0 <= f < modules[0].functions@.len() implies (#[trigger]
        modules[0].functions@[f]).name@ != name by {
            assert(modules[0].functions@[f].name@ != name);
        }
        lemma_find_function_in_none(modules[0].functions@, name);
        assert forall|m: int, f: int|
            0 <= m < modules.drop_first().len() && 0 <= f < (#[trigger]
            modules.drop_first()[m]).functions@.len() implies (#[trigger]
        modules.drop_first()[m].functions@[f]).name@ != name by {
            assert(modules.drop_first()[m] == modules[m + 1]);
        }
        lemma_find_function_none(modules.drop_first(), name);
    }
}

/// The lexicographically first match in the project characterizes the
/// lookup.
proof fn lemma_find_function_first(modules: Seq<ProgramModule>, name: Seq<char>, m: int, f: int)
    requires
        modules.len() <= usize::MAX,
        modules[m].functions@.len() <= usize::MAX,
        0 <= m < modules.len(),
        0 <= f < modules[m].functions@.len(),
        modules[m].functions@[f].name@ == name,
        forall|f0: int| 0 <= f0 < f ==> (#[trigger] modules[m].functions@[f0]).name@ != name,
        forall|m0: int, f0: int|
            0 <= m0 < m && 0 <= f0 < (#[trigger] modules[m0]).functions@.len() ==> (#[trigger]
            modules[m0].functions@[f0]).name@ != name,
    ensures
        find_function(modules, name) == Some(
            Location { module: m as usize, function: f as usize, instr: 0 },
        ),
    decreases modules.len(),
{
    if m == 0 {
        lemma_find_function_in_first(modules[0].functions@, name, f);
    } else {
        assert forall|f0: int| 0 <= f0 < modules[0].functions@.len() implies (#[trigger]
        modules[0].functions@[f0]).name@ != name by {
            assert(modules[0].functions@[f0].name@ != name);
        }
        lemma_find_function_in_none(modules[0].functions@, name);
        assert(modules.drop_first()[m - 1] == modules[m]);
        assert forall|m0: int, f0: int|
            0 <= m0 < m - 1 && 0 <= f0 < (#[trigger] modules.drop_first()[m0]).functions@.len()
            implies (#[trigger] modules.drop_first()[m0].functions@[f0]).name@ != name by {
            assert(modules.drop_first()[m0] == modules[m0 + 1]);
        }
        assert forall|f0: int| 0 <= f0 < f implies (#[trigger]
        modules.drop_first()[m - 1].functions@[f0]).name@ != name by {
            assert(modules.drop_first()[m - 1] == modules[m]);
        }
        lemma_find_function_first(modules.drop_first(), name, m - 1, f);
    }
}

/// The first hook registered for a program counter.
pub open spec fn pc_hook_lookup(entries: Seq<PcHookEntry>, pc: nat) -> Option<PCHook>
    decreases entries.len(),
{
    if entries.len() == 0 {
        None
    } else if entries.first().pc as nat == pc {
        Some(entries.first().hook)
    } else {
        pc_hook_lookup(entries.drop_first(), pc)
    }
}

/// Whether the location names a module and function of the project
/// (so that it has a program counter).
pub open spec fn loc_pc_defined(project: Project, loc: Location) -> bool {
    &&& loc.module < project.modules@.len()
    &&& loc.function < project.modules@[loc.module as int].functions@.len()
}

/// The program counter of a location.
pub open spec fn pc_of(project: Project, loc: Location) -> nat {
    (project.modules@[loc.module as int].functions@[loc.function as int].base_pc + loc.instr) as nat
}

/// Whether the location points at an instruction of the project.
pub open spec fn valid_loc(project: Project, loc: Location) -> bool {
    &&& loc_pc_defined(project, loc)
    &&& loc.instr < project.modules@[loc.module as int].functions@[loc.function as int].instructions@.len()
}

/// The instruction at a valid location.
pub open spec fn instr_of(project: Project, loc: Location) -> Instr
    recommends
        valid_loc(project, loc),
{
    project.modules@[loc.module as int].functions@[loc.function as int].instructions@[loc.instr as int]
}

/// The forking virtual machine: one project, one solver, one work
/// list.  `run` explores one path to its end per call.
pub struct VM<B: Backend> {
    project: Project,
    solver: Solver<B>,
    paths: DFSPathSelection,
    hooks: Hooks,
    pc_hooks: Vec<PcHookEntry>,
    end_pc: u64,
    remaining_steps: u64,
}

impl<B: Backend> VM<B> {
    /// The machine invariant: the solver and work list are consistent,
    /// and — the scope discipline — the solver's scope depth equals
    /// the number of waiting paths.
    pub closed spec fn inv(&self) -> bool {
        &&& self.solver.inv()
        &&& self.paths.inv()
        &&& self.solver.depth() == self.paths.view_paths().len()
        &&& 1 <= self.project.ptr_size <= 64
        &&& self.project.default_alignment >= 1
    }

    /// The constraints live on the solver: the running path's
    /// accumulated path condition.
    pub closed spec fn live_constraints(&self) -> Seq<Expr> {
        self.solver.view_constraints()
    }

    /// The remaining global step budget.
    pub closed spec fn fuel(&self) -> nat {
        self.remaining_steps as nat
    }

    /// The named-function hook consulted for a call: intrinsics first,
    /// then the named table — exactly what `Hooks::get` returns.
    pub closed spec fn hook_action_of(&self, name: Seq<char>) -> Option<HookAction> {
        if crate::hooks::hook_lookup(self.hooks.view_intrinsics(), name) is Some {
            crate::hooks::hook_lookup(self.hooks.view_intrinsics(), name)
        } else {
            crate::hooks::hook_lookup(self.hooks.view_hooks(), name)
        }
    }

    /// The hook registered at a program counter.
    pub closed spec fn pc_hook_at(&self, pc: nat) -> Option<PCHook> {
        pc_hook_lookup(self.pc_hooks@, pc)
    }

    /// The hook at the end-of-run sentinel address.
    pub closed spec fn end_sentinel_hook(&self) -> Option<PCHook> {
        pc_hook_lookup(self.pc_hooks@, self.end_pc as nat)
    }

    /// Whether control reaching the end sentinel reports success.
    pub closed spec fn sentinel_reports_success(&self) -> bool {
        &&& !(self.end_sentinel_hook() matches Some(PCHook::EndFailure(m)))
        &&& self.end_sentinel_hook() != Some(PCHook::Suppress)
    }

    /// Whether the state sits at a point that returns to the top
    /// frame's sentinel: a return instruction or an intrinsic hook,
    /// with no frame to pop.
    pub closed spec fn at_top_frame_return(&self, st: State) -> bool {
        &&& st.callstack@.len() == 0
        &&& {
            let pch = self.pc_hook_at(pc_of(self.project, st.current_loc));
            ||| pch == Some(PCHook::StartCycleCount)
            ||| pch == Some(PCHook::EndCycleCount)
            ||| (pch is None && valid_loc(self.project, st.current_loc) && instr_of(
                self.project,
                st.current_loc,
            ) is Return)
        }
    }

    /// Where a path may end successfully: an end-success hook at the
    /// program counter, a call to an end-success-hooked name, or the
    /// top frame returning to a sentinel that reports success.
    pub closed spec fn at_success_end(&self, st: State) -> bool {
        &&& loc_pc_defined(self.project, st.current_loc)
        &&& {
            let pch = self.pc_hook_at(pc_of(self.project, st.current_loc));
            ||| pch == Some(PCHook::EndSuccess)
            ||| (self.at_top_frame_return(st) && self.sentinel_reports_success())
            ||| (pch is None && valid_loc(self.project, st.current_loc) && (instr_of(
                self.project,
                st.current_loc,
            ) matches Instr::Call { function, .. } && self.hook_action_of(function@) == Some(
                HookAction::EndSuccess,
            )))
        }
    }

    /// Where a path may end as failed: an end-failure hook at the
    /// program counter, a call to a panic-family name, a memory access
    /// that can fault, a `symbolic` call handed a bad pointer, or the
    /// top frame returning to a sentinel that reports failure.
    pub closed spec fn at_failure_end(&self, st: State) -> bool {
        &&& loc_pc_defined(self.project, st.current_loc)
        &&& {
            let pch = self.pc_hook_at(pc_of(self.project, st.current_loc));
            ||| pch matches Some(PCHook::EndFailure(m))
            ||| (self.at_top_frame_return(st) && self.end_sentinel_hook() matches Some(
                PCHook::EndFailure(m),
            ))
            ||| (pch is None && valid_loc(self.project, st.current_loc) && (instr_of(
                self.project,
                st.current_loc,
            ) matches Instr::Call { function, .. } && (self.hook_action_of(function@) == Some(
                HookAction::Abort,
            ) || self.hook_action_of(function@) == Some(HookAction::EndFailure) || self
                .hook_action_of(function@) == Some(HookAction::Symbolic))))
            ||| (pch is None && valid_loc(self.project, st.current_loc) && (instr_of(
                self.project,
                st.current_loc,
            ) is Load || instr_of(self.project, st.current_loc) is Store))
        }
    }

    /// Where a path may be suppressed: a suppress hook at the program
    /// counter, a call to a suppress-hooked name, or the top frame
    /// returning to a suppressing sentinel.
    pub closed spec fn at_suppress_end(&self, st: State) -> bool {
        &&& loc_pc_defined(self.project, st.current_loc)
        &&& {
            let pch = self.pc_hook_at(pc_of(self.project, st.current_loc));
            ||| pch == Some(PCHook::Suppress)
            ||| (self.at_top_frame_return(st) && self.end_sentinel_hook() == Some(PCHook::Suppress))
            ||| (pch is None && valid_loc(self.project, st.current_loc) && (instr_of(
                self.project,
                st.current_loc,
            ) matches Instr::Call { function, .. } && self.hook_action_of(function@) == Some(
                HookAction::Suppress,
            )))
        }
    }

    /// The number of paths waiting to run.
    pub closed spec fn queue_len(&self) -> nat {
        self.paths.view_paths().len()
    }

    /// The pending paths, oldest first.
    pub closed spec fn view_queue(&self) -> Seq<Path> {
        self.paths.view_paths()
    }

    /// Builds the machine: allocates globals, queues the entry path at
    /// `function`, and registers the end-of-run sentinel at `end_pc`.
    pub fn new(project: Project, backend: B, function: &str, end_pc: u64, max_steps: u64) -> (r:
        Result<VM<B>, ExecutorError>)
        requires
            1 <= project.ptr_size <= 64,
            project.default_alignment >= 1,
        ensures
            r matches Ok(vm) ==> vm.inv(),
            // Success means the entry function was found: the single
            // queued path starts unconstrained at its entry, with the
            // globals installed, no frames and the full step budget.
            r matches Ok(vm) ==> find_function(project.modules@, function@) is Some
                && vm.fuel() == max_steps && vm.queue_len() == 1 && find_function(
                project.modules@,
                function@,
            ) == Some(vm.view_queue()[0].state.current_loc) && vm.view_queue()[0].constraints@
                == Seq::<Expr>::empty() && vm.view_queue()[0].state.callstack@.len() == 0
                && crate::state::globals_installed(vm.view_queue()[0].state, project),
            // A missing entry function is the only engine-level error
            // the construction raises by itself.
            r matches Err(e) ==> (e matches ExecutorError::Other(msg) ==> find_function(
                project.modules@,
                function@,
            ) is None),
            find_function(project.modules@, function@) is None ==> r is Err,
    {
        // Locate the entry function: the first match, scanning modules
        // in order.
        let wanted: String = function.to_owned();
        let module_count = project.modules.len();
        let mut entry: Option<Location> = None;
        let mut m: usize = 0;
        while m < module_count
            invariant
                wanted@ == function@,
                module_count == project.modules@.len(),
                m <= project.modules@.len(),
                entry is None ==> (forall|m0: int, f0: int|
                    0 <= m0 < m && 0 <= f0 < (#[trigger] project.modules@[m0]).functions@.len()
                        ==> (#[trigger] project.modules@[m0].functions@[f0]).name@ != function@),
                entry matches Some(l) ==> find_function(project.modules@, function@) == Some(l),
            decreases project.modules@.len() - m,
        {
            let module = &project.modules[m];
            let function_count = module.functions.len();
            let mut f: usize = 0;
            while f < function_count
                invariant
                    wanted@ == function@,
                    m < project.modules@.len(),
                    module_count == project.modules@.len(),
                    *module == project.modules@[m as int],
                    function_count == module.functions@.len(),
                    f <= module.functions@.len(),
                    entry is None ==> (forall|m0: int, f0: int|
                        0 <= m0 < m && 0 <= f0 < (#[trigger] project.modules@[m0]).functions@.len()
                            ==> (#[trigger] project.modules@[m0].functions@[f0]).name@
                            != function@),
                    entry is None ==> (forall|f0: int|
                        0 <= f0 < f ==> (#[trigger] module.functions@[f0]).name@ != function@),
                    entry matches Some(l) ==> find_function(project.modules@, function@) == Some(
                        l,
                    ),
                decreases module.functions@.len() - f,
            {
                if entry.is_none() && module.functions[f].name == wanted {
                    proof {
                        lemma_find_function_first(
                            project.modules@,
                            function@,
                            m as int,
                            f as int,
                        );
                    }
                    entry = Some(Location::new(m, f));
                }
                f = f + 1;
            }
            m = m + 1;
        }
        let location = match entry {
            Some(l) => l,
            None => {
                proof {
                    lemma_find_function_none(project.modules@, function@);
                }
                return Err(ExecutorError::Other(String::from_str("MissingFunction")));
            },
        };
        let mut solver = Solver::new(backend);
        let state = match State::new(&project, &mut solver, location) {
            Ok(s) => s,
            Err(e) => {
                return Err(ExecutorError::MemoryError(e));
            },
        };
        let mut paths = DFSPathSelection::new();
        paths.save_path(Path::new(state, None), &mut solver);
        let mut pc_hooks: Vec<PcHookEntry> = Vec::new();
        pc_hooks.push(PcHookEntry { pc: end_pc, hook: PCHook::EndSuccess });
        Ok(
            VM {
                project,
                solver,
                paths,
                hooks: Hooks::new(),
                pc_hooks,
                end_pc,
                remaining_steps: max_steps,
            },
        )
    }

    /// Registers a hook at a program counter.
    pub fn add_pc_hook(&mut self, pc: u64, hook: PCHook)
        requires
            old(self).inv(),
        ensures
            final(self).inv(),
    {
        self.pc_hooks.push(PcHookEntry { pc, hook });
    }

    /// The registered hook for `pc`, if any: the first entry wins.
    fn pc_hook_for(&self, pc: u64) -> (r: Option<&PCHook>)
        ensures
            r matches Some(h) ==> pc_hook_lookup(self.pc_hooks@, pc as nat) == Some(*h),
            r is None ==> pc_hook_lookup(self.pc_hooks@, pc as nat) is None,
    {
        let ghost entries = self.pc_hooks@;
        let mut i: usize = 0;
        proof {
            assert(entries.skip(0) =~= entries);
        }
        while i < self.pc_hooks.len()
            invariant
                entries == self.pc_hooks@,
                i <= entries.len(),
                pc_hook_lookup(entries, pc as nat) == pc_hook_lookup(
                    entries.skip(i as int),
                    pc as nat,
                ),
            decreases self.pc_hooks@.len() - i,
        {
            proof {
                assert(entries.skip(i as int).first() == entries[i as int]);
                assert(entries.skip(i as int).drop_first() =~= entries.skip(i + 1));
            }
            if self.pc_hooks[i].pc == pc {
                return Some(&self.pc_hooks[i].hook);
            }
            i = i + 1;
        }
        proof {
            assert(entries.skip(entries.len() as int) =~= Seq::<PcHookEntry>::empty());
        }
        None
    }

    /// Explores the next pending path to its end.  `Ok(None)` means
    /// the work list is empty and the exploration is complete; a
    /// returned path result never aborts the run, a solver `Unknown`
    /// or a malformed program does.
    pub fn run(&mut self) -> (r: Result<Option<(PathResult, State)>, ExecutorError>)
        requires
            old(self).inv(),
        ensures
            final(self).inv(),
            final(self).fuel() <= old(self).fuel(),
            r matches Ok(Some(p)) ==> final(self).fuel() < old(self).fuel() || (final(self).fuel()
                == old(self).fuel() && final(self).queue_len() < old(self).queue_len()),
            r matches Ok(Some(p)) ==> p.1.inv() && (p.0 matches PathResult::Success(Some(e))
                ==> e.wf()),
            r matches Ok(Some(p)) ==> (p.0 is AssumptionUnsat ==> !satisfiable(
                final(self).live_constraints(),
            )),
            // The exploration is complete exactly when the work list
            // was empty.
            r matches Ok(None) ==> old(self).queue_len() == 0 && *final(self) == *old(self),
            old(self).queue_len() == 0 ==> r matches Ok(None),
            // Terminal results arise only at their own kind of program
            // point in the returned state, and a success carries the
            // last returned value.
            r matches Ok(Some(p)) ==> (p.0 matches PathResult::Success(v) ==> v
                == p.1.last_return && final(self).at_success_end(p.1)),
            r matches Ok(Some(p)) ==> (p.0 is Failure ==> final(self).at_failure_end(p.1)),
            r matches Ok(Some(p)) ==> (p.0 is Suppress ==> final(self).at_suppress_end(p.1)),
    {
        let path = match self.paths.get_path(&mut self.solver) {
            Some(p) => p,
            None => {
                return Ok(None);
            },
        };
        let mut state = path.state;
        // Assert the path's pre-constraints; if they close the path,
        // the fork evaporates.
        let mut ci: usize = 0;
        let constraints = path.constraints;
        while ci < constraints.len()
            invariant
                self.inv(),
                old(self).queue_len() >= 1,
                self.remaining_steps == old(self).remaining_steps,
                self.paths.view_paths().len() + 1 == old(self).paths.view_paths().len(),
                forall|i: int|
                    0 <= i < constraints@.len() ==> ((#[trigger] constraints@[i]).wf()
                        && constraints@[i].wid() == 1),
            decreases constraints@.len() - ci,
        {
            self.solver.assert_constraint(&constraints[ci]);
            ci = ci + 1;
        }
        if constraints.len() > 0 {
            match self.solver.is_sat() {
                Err(e) => {
                    return Err(ExecutorError::SolverError(e));
                },
                Ok(false) => {
                    return Ok(Some((PathResult::AssumptionUnsat, state)));
                },
                Ok(true) => (),
            }
        }
        let ghost popped = *self;
        while self.remaining_steps > 0
            invariant
                self.inv(),
                state.inv(),
                old(self).queue_len() >= 1,
                self.remaining_steps <= popped.remaining_steps,
                self.remaining_steps == popped.remaining_steps ==> self.paths.view_paths().len()
                    == popped.paths.view_paths().len(),
                popped.remaining_steps <= old(self).remaining_steps,
                popped.remaining_steps == old(self).remaining_steps,
                popped.paths.view_paths().len() < old(self).paths.view_paths().len() || old(
                    self,
                ).paths.view_paths().len() == 0,
            decreases self.remaining_steps,
        {
            self.remaining_steps = self.remaining_steps - 1;
            match self.step(&mut state) {
                Err(e) => {
                    return Err(e);
                },
                Ok(StepOutcome::Continue) => (),
                Ok(StepOutcome::Done(result)) => {
                    return Ok(Some((result, state)));
                },
            }
        }
        Err(ExecutorError::Other(String::from_str("step budget exhausted")))
    }

    /// Concretizes an expression under the constraints of the path
    /// that `run` last finished (or, between paths, the live ones):
    /// the returned value is the expression's value under some
    /// assignment satisfying those constraints, and `Ok(None)` means
    /// no assignment satisfies them.
    pub fn concretize(&mut self, e: &Expr) -> (r: Result<Option<u64>, SolverError>)
        requires
            old(self).inv(),
            e.wf(),
        ensures
            final(self).inv(),
            final(self).fuel() == old(self).fuel(),
            final(self).queue_len() == old(self).queue_len(),
            final(self).live_constraints() == old(self).live_constraints(),
            r matches Ok(Some(v)) ==> exists|env: Env|
                #[trigger] holds(env, old(self).live_constraints()) && e.eval(env) == v,
            r matches Ok(None) ==> !satisfiable(old(self).live_constraints()),
            r matches Err(err) ==> err == SolverError::Unknown,
    {
        proof {
            assert(old(self).live_constraints() == old(self).solver.view_constraints());
        }
        self.solver.get_value(e)
    }

    /// Executes one instruction (or one hook) of the path.
    #[verifier::rlimit(100)]
    fn step(&mut self, state: &mut State) -> (r: Result<StepOutcome, ExecutorError>)
        requires
            old(self).inv(),
            old(state).inv(),
        ensures
            final(self).inv(),
            final(state).inv(),
            final(self).project == old(self).project,
            final(self).remaining_steps == old(self).remaining_steps,
            r matches Ok(StepOutcome::Done(PathResult::Success(Some(e)))) ==> e.wf(),
            r matches Ok(StepOutcome::Done(p)) ==> (p is AssumptionUnsat ==> !satisfiable(
                final(self).live_constraints(),
            )),
            // Terminal results arise only at their own kind of program
            // point, and a success carries the last returned value.
            r matches Ok(StepOutcome::Done(PathResult::Success(v)))
                ==> v == final(state).last_return
                && final(self).at_success_end(*final(state)),
            r matches Ok(StepOutcome::Done(p)) ==> (p is Failure ==> final(self).at_failure_end(
                *final(state),
            )),
            r matches Ok(StepOutcome::Done(p)) ==> (p is Suppress ==> final(self).at_suppress_end(
                *final(state),
            )),
            // A step never drops or rewrites the path condition: it
            // keeps it, or appends one guard or assumption.
            r matches Ok(StepOutcome::Continue) ==> final(self).live_constraints() == old(
                self,
            ).live_constraints() || (exists|c: Expr|
                final(self).live_constraints() == old(self).live_constraints().push(c)),
    {
        let ptr_size = state.mem.pointer_size_exec();
        let default_alignment = self.project.default_alignment;
        let loc = state.current_loc;
        if loc.module >= self.project.modules.len() {
            return Err(ExecutorError::Other(String::from_str("MalformedProgram")));
        }
        if loc.function >= self.project.modules[loc.module].functions.len() {
            return Err(ExecutorError::Other(String::from_str("MalformedProgram")));
        }
        let base_pc = self.project.modules[loc.module].functions[loc.function].base_pc;
        if loc.instr as u64 > u64::MAX - base_pc {
            return Err(ExecutorError::Other(String::from_str("MalformedProgram")));
        }
        let pc = base_pc + loc.instr as u64;
        proof {
            assert(loc_pc_defined(self.project, loc));
            assert(pc as nat == pc_of(self.project, loc));
        }
        // Program-counter hooks come first; intrinsic ones restore
        // control flow themselves by returning to the caller.
        match self.pc_hook_for(pc) {
            Some(PCHook::EndSuccess) => {
                let out = match &state.last_return {
                    Some(e) => Some(e.clone()),
                    None => None,
                };
                proof {
                    assert(self.at_success_end(*state));
                }
                return Ok(StepOutcome::Done(PathResult::Success(out)));
            },
            Some(PCHook::EndFailure(_)) => {
                proof {
                    assert(self.at_failure_end(*state));
                }
                return Ok(StepOutcome::Done(PathResult::Failure(String::from_str("panic"))));
            },
            Some(PCHook::Suppress) => {
                proof {
                    assert(self.at_suppress_end(*state));
                }
                return Ok(StepOutcome::Done(PathResult::Suppress));
            },
            Some(PCHook::StartCycleCount) => {
                state.start_cycle_count();
                let out = match &state.last_return {
                    Some(e) => Some(e.clone()),
                    None => None,
                };
                let r = self.return_to_caller(state, out);
                proof {
                    if r matches Ok(StepOutcome::Done(PathResult::Failure(_))) {
                        assert(self.at_top_frame_return(*state));
                        assert(self.at_failure_end(*state));
                    }
                    if r matches Ok(StepOutcome::Done(PathResult::Suppress)) {
                        assert(self.at_top_frame_return(*state));
                        assert(self.at_suppress_end(*state));
                    }
                    if r matches Ok(StepOutcome::Done(PathResult::Success(_))) {
                        assert(self.at_top_frame_return(*state));
                        assert(self.at_success_end(*state));
                    }
                }
                return r;
            },
            Some(PCHook::EndCycleCount) => {
                state.end_cycle_count();
                let out = match &state.last_return {
                    Some(e) => Some(e.clone()),
                    None => None,
                };
                let r = self.return_to_caller(state, out);
                proof {
                    if r matches Ok(StepOutcome::Done(PathResult::Failure(_))) {
                        assert(self.at_top_frame_return(*state));
                        assert(self.at_failure_end(*state));
                    }
                    if r matches Ok(StepOutcome::Done(PathResult::Suppress)) {
                        assert(self.at_top_frame_return(*state));
                        assert(self.at_suppress_end(*state));
                    }
                    if r matches Ok(StepOutcome::Done(PathResult::Success(_))) {
                        assert(self.at_top_frame_return(*state));
                        assert(self.at_success_end(*state));
                    }
                }
                return r;
            },
            None => (),
        }
        if state.counting_cycles && state.cycle_count < u64::MAX {
            state.cycle_count = state.cycle_count + 1;
        }
        if loc.instr >= self.project.modules[loc.module].functions[loc.function].instructions.len() {
            return Err(ExecutorError::Other(String::from_str("MalformedProgram")));
        }
        match &self.project.modules[loc.module].functions[loc.function].instructions[loc.instr] {
            Instr::Assign { dst, src } => {
                let e = match state.get_var(src, ptr_size) {
                    Some(e) => e,
                    None => {
                        return Err(ExecutorError::Other(String::from_str("MalformedProgram")));
                    },
                };
                state.assign_bv(dst.clone(), e);
                state.current_loc.instr = loc.instr + 1;
                Ok(StepOutcome::Continue)
            },
            Instr::Binary { dst, op, a, b } => {
                let a_e = match state.get_var(a, ptr_size) {
                    Some(e) => e,
                    None => {
                        return Err(ExecutorError::Other(String::from_str("MalformedProgram")));
                    },
                };
                let b_e = match state.get_var(b, ptr_size) {
                    Some(e) => e,
                    None => {
                        return Err(ExecutorError::Other(String::from_str("MalformedProgram")));
                    },
                };
                if a_e.len() != b_e.len() {
                    return Err(ExecutorError::Other(String::from_str("MalformedProgram")));
                }
                let e = apply_binop(*op, &a_e, &b_e);
                state.assign_bv(dst.clone(), e);
                state.current_loc.instr = loc.instr + 1;
                Ok(StepOutcome::Continue)
            },
            Instr::Load { dst, addr, bits } => {
                let addr_e = match state.get_var(addr, ptr_size) {
                    Some(e) => e,
                    None => {
                        return Err(ExecutorError::Other(String::from_str("MalformedProgram")));
                    },
                };
                if addr_e.len() != ptr_size || *bits < 1 {
                    return Err(ExecutorError::Other(String::from_str("MalformedProgram")));
                }
                match state.mem.read(&mut self.solver, &addr_e, *bits) {
                    Ok(e) => {
                        state.assign_bv(dst.clone(), e);
                        state.current_loc.instr = loc.instr + 1;
                        Ok(StepOutcome::Continue)
                    },
                    Err(MemoryError::OutOfMemory) => Err(
                        ExecutorError::MemoryError(MemoryError::OutOfMemory),
                    ),
                    // A failed backend aborts the whole exploration.
                    Err(MemoryError::Solver(se)) => Err(ExecutorError::SolverError(se)),
                    Err(MemoryError::OutOfBounds) => {
                        proof {
                            assert(self.at_failure_end(*state));
                        }
                        Ok(
                            StepOutcome::Done(
                                PathResult::Failure(
                                    String::from_str("memory access out of bounds"),
                                ),
                            ),
                        )
                    },
                    // An unresolvable address means the path's
                    // constraints have become unsatisfiable: the fork
                    // evaporates rather than failing.
                    Err(MemoryError::Unresolved) => Ok(
                        StepOutcome::Done(PathResult::AssumptionUnsat),
                    ),
                }
            },
            Instr::Store { addr, value } => {
                let addr_e = match state.get_var(addr, ptr_size) {
                    Some(e) => e,
                    None => {
                        return Err(ExecutorError::Other(String::from_str("MalformedProgram")));
                    },
                };
                let value_e = match state.get_var(value, ptr_size) {
                    Some(e) => e,
                    None => {
                        return Err(ExecutorError::Other(String::from_str("MalformedProgram")));
                    },
                };
                if addr_e.len() != ptr_size {
                    return Err(ExecutorError::Other(String::from_str("MalformedProgram")));
                }
                match state.mem.write(&mut self.solver, &addr_e, value_e) {
                    Ok(()) => {
                        state.current_loc.instr = loc.instr + 1;
                        Ok(StepOutcome::Continue)
                    },
                    Err(MemoryError::OutOfMemory) => Err(
                        ExecutorError::MemoryError(MemoryError::OutOfMemory),
                    ),
                    // A failed backend aborts the whole exploration.
                    Err(MemoryError::Solver(se)) => Err(ExecutorError::SolverError(se)),
                    Err(MemoryError::OutOfBounds) => {
                        proof {
                            assert(self.at_failure_end(*state));
                        }
                        Ok(
                            StepOutcome::Done(
                                PathResult::Failure(
                                    String::from_str("memory access out of bounds"),
                                ),
                            ),
                        )
                    },
                    // An unresolvable address means the path's
                    // constraints have become unsatisfiable: the fork
                    // evaporates rather than failing.
                    Err(MemoryError::Unresolved) => Ok(
                        StepOutcome::Done(PathResult::AssumptionUnsat),
                    ),
                }
            },
            Instr::Alloc { dst, bits, align } => {
                // Zero-sized allocations round up to 8 bits inside the
                // memory; only widths beyond the expression limit are
                // malformed.
                if *bits > u32::MAX as u64 {
                    return Err(ExecutorError::Other(String::from_str("MalformedProgram")));
                }
                match state.stack_alloc(*bits, *align, default_alignment) {
                    Ok(e) => {
                        state.assign_bv(dst.clone(), e);
                        state.current_loc.instr = loc.instr + 1;
                        Ok(StepOutcome::Continue)
                    },
                    Err(e) => Err(ExecutorError::MemoryError(e)),
                }
            },
            Instr::Jump { target } => {
                state.current_loc.instr = *target;
                Ok(StepOutcome::Continue)
            },
            Instr::BranchIf { cond, target } => {
                let cond_e = match state.get_var(cond, ptr_size) {
                    Some(e) => e,
                    None => {
                        return Err(ExecutorError::Other(String::from_str("MalformedProgram")));
                    },
                };
                if cond_e.len() != 1 {
                    return Err(ExecutorError::Other(String::from_str("MalformedProgram")));
                }
                let negation = cond_e.not();
                let can_true = match self.solver.is_sat_with_constraint(&cond_e) {
                    Ok(b) => b,
                    Err(e) => {
                        return Err(ExecutorError::SolverError(e));
                    },
                };
                let can_false = match self.solver.is_sat_with_constraint(&negation) {
                    Ok(b) => b,
                    Err(e) => {
                        return Err(ExecutorError::SolverError(e));
                    },
                };
                if can_true && !can_false {
                    // The condition must hold: take the true edge with
                    // no new constraint.
                    state.current_loc.instr = *target;
                    Ok(StepOutcome::Continue)
                } else if !can_true && can_false {
                    state.current_loc.instr = loc.instr + 1;
                    Ok(StepOutcome::Continue)
                } else if can_true && can_false {
                    // Fork: continue on the true edge, queue the false
                    // edge under its guard.
                    let mut other = state.clone();
                    other.current_loc = Location {
                        module: loc.module,
                        function: loc.function,
                        instr: loc.instr + 1,
                    };
                    self.paths.save_path(Path::new(other, Some(negation)), &mut self.solver);
                    self.solver.assert_constraint(&cond_e);
                    state.current_loc.instr = *target;
                    Ok(StepOutcome::Continue)
                } else {
                    // Neither edge is feasible: the path's constraints
                    // have become unsatisfiable, since on any
                    // satisfying assignment the condition would be
                    // either true or false.
                    proof {
                        let cs = self.solver.view_constraints();
                        vstd::arithmetic::power2::lemma2_to64();
                        assert forall|env: Env| !(#[trigger] holds(env, cs)) by {
                            if holds(env, cs) {
                                crate::semantics::lemma_eval_in_range(cond_e, env);
                                if cond_e.eval(env) == 1 {
                                    lemma_holds_push(env, cs, cond_e);
                                    assert(satisfiable(cs.push(cond_e)));
                                } else {
                                    assert(negation.eval(env) == not_val(cond_e.eval(env), 1));
                                    lemma_holds_push(env, cs, negation);
                                    assert(satisfiable(cs.push(negation)));
                                }
                            }
                        }
                    }
                    Ok(StepOutcome::Done(PathResult::AssumptionUnsat))
                }
            },
            Instr::Switch { value, cases, default } => {
                let value_e = match state.get_var(value, ptr_size) {
                    Some(e) => e,
                    None => {
                        return Err(ExecutorError::Other(String::from_str("MalformedProgram")));
                    },
                };
                let w = value_e.len();
                let ctx = crate::context::Context::new();
                let ghost cs0 = self.solver.view_constraints();
                // The default edge holds where no case matches.
                let mut default_guard = ctx.from_bool(true);
                let mut taken: Option<usize> = None;
                let mut k: usize = 0;
                proof {
                    vstd::arithmetic::power2::lemma2_to64();
                }
                while k < cases.len()
                    invariant
                        self.inv(),
                        value_e.wf(),
                        value_e.wid() == w,
                        1 <= w <= u32::MAX,
                        default_guard.wf(),
                        default_guard.wid() == 1,
                        taken matches Some(t) ==> t < cases@.len(),
                        state.inv(),
                        self.project == old(self).project,
                        self.remaining_steps == old(self).remaining_steps,
                        k <= cases@.len(),
                        self.solver.view_constraints() == cs0,
                        // Until a case is taken, every case seen so far
                        // is infeasible: no satisfying assignment
                        // matches it.
                        taken is None ==> (forall|env: Env|
                            #[trigger] holds(env, cs0) ==> no_case_matches(
                                value_e,
                                cases@,
                                k as int,
                                w as nat,
                                env,
                            )),
                        // The default guard holds exactly where no case
                        // seen so far matches.
                        forall|env: Env|
                            ((#[trigger] default_guard.eval(env)) == 1 <==> no_case_matches(
                                value_e,
                                cases@,
                                k as int,
                                w as nat,
                                env,
                            )),
                    decreases cases@.len() - k,
                {
                    let case_value = ctx.from_u64(cases[k].value, w);
                    let guard = value_e._eq(&case_value);
                    let feasible = match self.solver.is_sat_with_constraint(&guard) {
                        Ok(b) => b,
                        Err(e) => {
                            return Err(ExecutorError::SolverError(e));
                        },
                    };
                    let ghost prev_taken = taken;
                    if feasible {
                        match taken {
                            None => {
                                taken = Some(k);
                            },
                            Some(_) => {
                                // A later feasible case becomes its
                                // own path under its guard.
                                let mut other = state.clone();
                                other.current_loc = Location {
                                    module: loc.module,
                                    function: loc.function,
                                    instr: cases[k].target,
                                };
                                self.paths.save_path(
                                    Path::new(other, Some(guard.clone())),
                                    &mut self.solver,
                                );
                            },
                        }
                    }
                    let ghost prev_guard = default_guard;
                    default_guard = default_guard.and(&guard.not());
                    proof {
                        vstd::arithmetic::power2::lemma2_to64();
                        if !feasible && prev_taken is None {
                            // An infeasible case matches no satisfying
                            // assignment.
                            assert forall|env: Env| #[trigger]
                                holds(env, cs0) implies no_case_matches(
                                value_e,
                                cases@,
                                k + 1,
                                w as nat,
                                env,
                            ) by {
                                lemma_no_case_matches_step(value_e, cases@, k as int, w as nat, env);
                                if value_e.eval(env) == (cases@[k as int].value as nat) % pow2(
                                    w as nat,
                                ) {
                                    assert(guard.eval(env) == 1);
                                    lemma_holds_push(env, cs0, guard);
                                    assert(satisfiable(cs0.push(guard)));
                                }
                            }
                        }
                        assert forall|env: Env|
                            ((#[trigger] default_guard.eval(env)) == 1 <==> no_case_matches(
                                value_e,
                                cases@,
                                k + 1,
                                w as nat,
                                env,
                            )) by {
                            lemma_no_case_matches_step(value_e, cases@, k as int, w as nat, env);
                            crate::semantics::lemma_eval_in_range(prev_guard, env);
                            crate::semantics::lemma_eval_in_range(guard, env);
                            assert(case_value.eval(env) == (cases@[k as int].value as nat) % pow2(
                                w as nat,
                            ));
                            assert(default_guard.eval(env) == crate::expr::denote(
                                BinOp::And,
                                prev_guard.eval(env),
                                not_val(guard.eval(env), 1),
                                1,
                            ));
                            let matched = value_e.eval(env) == (cases@[k as int].value as nat)
                                % pow2(w as nat);
                            assert(guard.eval(env) == bool_bit(matched));
                            let a = prev_guard.eval(env);
                            let b = not_val(guard.eval(env), 1);
                            assert(bits_and(a / 2, b / 2, 0) == 0);
                            assert(bits_and(a, b, 1) == (if a % 2 == 1 && b % 2 == 1 {
                                1nat
                            } else {
                                0nat
                            }));
                        }
                    }
                    k = k + 1;
                }
                let default_feasible = match self.solver.is_sat_with_constraint(&default_guard) {
                    Ok(b) => b,
                    Err(e) => {
                        return Err(ExecutorError::SolverError(e));
                    },
                };
                if default_feasible {
                    match taken {
                        None => {
                            // Only the default is feasible: continue
                            // there.
                            self.solver.assert_constraint(&default_guard);
                            state.current_loc.instr = *default;
                            return Ok(StepOutcome::Continue);
                        },
                        Some(_) => {
                            let mut other = state.clone();
                            other.current_loc = Location {
                                module: loc.module,
                                function: loc.function,
                                instr: *default,
                            };
                            self.paths.save_path(
                                Path::new(other, Some(default_guard)),
                                &mut self.solver,
                            );
                        },
                    }
                }
                match taken {
                    Some(k0) => {
                        let case_value = ctx.from_u64(cases[k0].value, w);
                        let guard = value_e._eq(&case_value);
                        self.solver.assert_constraint(&guard);
                        state.current_loc.instr = cases[k0].target;
                        Ok(StepOutcome::Continue)
                    },
                    None => {
                        // No case and not the default: any satisfying
                        // assignment would match no case and so take
                        // the default, which is infeasible too.
                        proof {
                            assert forall|env: Env| !(#[trigger] holds(env, cs0)) by {
                                if holds(env, cs0) {
                                    assert(no_case_matches(value_e, cases@, k as int, w as nat, env));
                                    assert(default_guard.eval(env) == 1);
                                    lemma_holds_push(env, cs0, default_guard);
                                    assert(satisfiable(cs0.push(default_guard)));
                                }
                            }
                        }
                        Ok(StepOutcome::Done(PathResult::AssumptionUnsat))
                    },
                }
            },
            Instr::Call { dst, function, args } => {
                let action = self.hooks.get(function);
                match action {
                    Some(HookAction::Abort) => {
                        proof {
                            assert(self.at_failure_end(*state));
                        }
                        Ok(StepOutcome::Done(PathResult::Failure(String::from_str("abort"))))
                    },
                    Some(HookAction::EndFailure) => {
                        proof {
                            assert(self.at_failure_end(*state));
                        }
                        Ok(StepOutcome::Done(PathResult::Failure(String::from_str("panic"))))
                    },
                    Some(HookAction::Suppress) => {
                        proof {
                            assert(self.at_suppress_end(*state));
                        }
                        Ok(StepOutcome::Done(PathResult::Suppress))
                    },
                    Some(HookAction::EndSuccess) => {
                        let out = match &state.last_return {
                            Some(e) => Some(e.clone()),
                            None => None,
                        };
                        proof {
                            assert(self.at_success_end(*state));
                        }
                        Ok(StepOutcome::Done(PathResult::Success(out)))
                    },
                    Some(HookAction::StartCycleCount) => {
                        state.start_cycle_count();
                        state.current_loc.instr = loc.instr + 1;
                        Ok(StepOutcome::Continue)
                    },
                    Some(HookAction::EndCycleCount) => {
                        // The boundary call itself does not contribute
                        // a cycle: undo this step's increment.
                        if state.counting_cycles && state.cycle_count > 0 {
                            state.cycle_count = state.cycle_count - 1;
                        }
                        state.end_cycle_count();
                        state.current_loc.instr = loc.instr + 1;
                        Ok(StepOutcome::Continue)
                    },
                    Some(HookAction::Assume) => {
                        let info = FnInfo::from_call(args);
                        if info.arguments.len() < 1 {
                            return Err(ExecutorError::Other(String::from_str("MalformedProgram")));
                        }
                        let cond = match state.get_var(&info.arguments[0], ptr_size) {
                            Some(e) => e,
                            None => {
                                return Err(
                                    ExecutorError::Other(String::from_str("MalformedProgram")),
                                );
                            },
                        };
                        if cond.len() != 1 {
                            return Err(ExecutorError::Other(String::from_str("MalformedProgram")));
                        }
                        self.solver.assert_constraint(&cond);
                        state.current_loc.instr = loc.instr + 1;
                        Ok(StepOutcome::Continue)
                    },
                    Some(HookAction::Symbolic) => {
                        let info = FnInfo::from_call(args);
                        match self.hook_symbolic(state, &info.arguments)? {
                            Some(result) => {
                                proof {
                                    if result is Failure {
                                        assert(self.at_failure_end(*state));
                                    }
                                }
                                Ok(StepOutcome::Done(result))
                            },
                            None => {
                                state.current_loc.instr = loc.instr + 1;
                                Ok(StepOutcome::Continue)
                            },
                        }
                    },
                    None => {
                        // A real call: push the call site and enter
                        // the callee.
                        let mut callee: Option<Location> = None;
                        let mut m: usize = 0;
                        while m < self.project.modules.len()
                            decreases self.project.modules@.len() - m,
                        {
                            let module = &self.project.modules[m];
                            let mut f: usize = 0;
                            while f < module.functions.len()
                                decreases module.functions@.len() - f,
                            {
                                if callee.is_none() && module.functions[f].name == *function {
                                    callee = Some(Location::new(m, f));
                                }
                                f = f + 1;
                            }
                            m = m + 1;
                        }
                        let entry = match callee {
                            None => {
                                return Err(
                                    ExecutorError::Other(String::from_str("MissingFunction")),
                                );
                            },
                            Some(l) => l,
                        };
                        let resume = Location {
                            module: loc.module,
                            function: loc.function,
                            instr: loc.instr + 1,
                        };
                        let dst_name = match dst {
                            Some(d) => Some(d.clone()),
                            None => None,
                        };
                        state.callstack.push(Callsite::from_call(resume, dst_name));
                        state.current_loc = entry;
                        Ok(StepOutcome::Continue)
                    },
                }
            },
            Instr::Return { value } => {
                let out = match value {
                    Some(op) => match state.get_var(op, ptr_size) {
                        Some(e) => Some(e),
                        None => {
                            return Err(ExecutorError::Other(String::from_str("MalformedProgram")));
                        },
                    },
                    None => None,
                };
                state.last_return = match &out {
                    Some(e) => Some(e.clone()),
                    None => None,
                };
                let r = self.return_to_caller(state, out);
                proof {
                    if r matches Ok(StepOutcome::Done(PathResult::Failure(_))) {
                        assert(self.at_top_frame_return(*state));
                        assert(self.at_failure_end(*state));
                    }
                    if r matches Ok(StepOutcome::Done(PathResult::Suppress)) {
                        assert(self.at_top_frame_return(*state));
                        assert(self.at_suppress_end(*state));
                    }
                    if r matches Ok(StepOutcome::Done(PathResult::Success(_))) {
                        assert(self.at_top_frame_return(*state));
                        assert(self.at_success_end(*state));
                    }
                }
                r
            },
        }
    }

    /// Pops the call stack and resumes in the caller; from the bottom
    /// frame, control reaches the synthetic end program counter, whose
    /// hook decides how the path ends.
    fn return_to_caller(&self, state: &mut State, value: Option<Expr>) -> (r: Result<
        StepOutcome,
        ExecutorError,
    >)
        requires
            self.inv(),
            old(state).inv(),
            value matches Some(e) ==> e.wf(),
        ensures
            final(state).inv(),
            r matches Ok(StepOutcome::Done(PathResult::Success(Some(e)))) ==> e.wf(),
            r matches Ok(StepOutcome::Done(p)) ==> !(p is AssumptionUnsat),
            // A terminal outcome only arises at the top frame, leaves
            // the state as it was, and follows the sentinel's hook.
            r matches Ok(StepOutcome::Done(p)) ==> *final(state) == *old(state)
                && old(state).callstack@.len() == 0,
            r matches Ok(StepOutcome::Done(PathResult::Success(v))) ==> v == value
                && self.sentinel_reports_success(),
            r matches Ok(StepOutcome::Done(p)) ==> (p is Failure ==> self.end_sentinel_hook()
                matches Some(PCHook::EndFailure(m))),
            r matches Ok(StepOutcome::Done(p)) ==> (p is Suppress ==> self.end_sentinel_hook()
                == Some(PCHook::Suppress)),
    {
        if state.callstack.len() == 0 {
            // The top frame returned: control reaches the end
            // sentinel, which must never be a real instruction.
            return match self.pc_hook_for(self.end_pc) {
                Some(PCHook::EndFailure(_)) => Ok(
                    StepOutcome::Done(PathResult::Failure(String::from_str("panic"))),
                ),
                Some(PCHook::Suppress) => Ok(StepOutcome::Done(PathResult::Suppress)),
                _ => Ok(StepOutcome::Done(PathResult::Success(value))),
            };
        }
        let site = state.callstack.pop().unwrap();
        match site.dst {
            Some(dst) => match value {
                Some(v) => {
                    state.assign_bv(dst, v);
                },
                None => {
                    return Err(ExecutorError::Other(String::from_str("MalformedProgram")));
                },
            },
            None => (),
        }
        state.current_loc = site.location;
        Ok(StepOutcome::Continue)
    }

    /// The `symbolic` hook: allocate a fresh unconstrained symbol of
    /// the pointee's width, register it under a generation-suffixed
    /// label, and write it through the pointer argument.  `Ok(None)` is
    /// the normal outcome; `Ok(Some(result))` ends the path (a dead
    /// path evaporates, an out-of-range pointer fails).
    fn hook_symbolic(&mut self, state: &mut State, args: &Vec<Operand>) -> (r: Result<
        Option<PathResult>,
        ExecutorError,
    >)
        requires
            old(self).inv(),
            old(state).inv(),
        ensures
            final(self).inv(),
            final(state).inv(),
            final(self).project == old(self).project,
            final(self).remaining_steps == old(self).remaining_steps,
            // On the normal outcome a fresh symbol is appended to the
            // registry and written through the pointer: some object
            // now holds it.
            r == Ok::<Option<PathResult>, ExecutorError>(None) ==> final(state).symbols@.len()
                == old(state).symbols@.len() + 1
                && final(state).symbols@.subrange(0, old(state).symbols@.len() as int)
                == old(state).symbols@
                && final(state).symbols@.last().value is Sym
                && final(state).symbols@.last().value.wf()
                && (exists|a: Expr, i: int, v: u64|
                #[trigger] crate::memory::resolved_write(
                    old(state).mem.view_objects(),
                    final(state).mem.view_objects(),
                    old(self).live_constraints(),
                    a,
                    final(state).symbols@.last().value,
                    i,
                    v,
                )),
            r == Ok::<Option<PathResult>, ExecutorError>(None)
                ==> final(state).vars.view_bindings() == old(state).vars.view_bindings()
                && final(state).current_loc == old(state).current_loc,
            // A path ended here is either an evaporated fork — with the
            // live constraints provably unsatisfiable — or a failure.
            r matches Ok(Some(p)) ==> (p is AssumptionUnsat ==> !satisfiable(
                final(self).live_constraints(),
            )),
            r matches Ok(Some(p)) ==> p is AssumptionUnsat || p is Failure,
            final(state).current_loc == old(state).current_loc,
            final(state).callstack == old(state).callstack,
            final(self).hooks == old(self).hooks,
            final(self).pc_hooks == old(self).pc_hooks,
            final(self).end_pc == old(self).end_pc,
            final(self).live_constraints() == old(self).live_constraints(),
    {
        let ptr_size = state.mem.pointer_size_exec();
        if args.len() < 2 {
            return Err(ExecutorError::Other(String::from_str("MalformedProgram")));
        }
        let addr_e = match state.get_var(&args[0], ptr_size) {
            Some(e) => e,
            None => {
                return Err(ExecutorError::Other(String::from_str("MalformedProgram")));
            },
        };
        if addr_e.len() != ptr_size {
            return Err(ExecutorError::Other(String::from_str("MalformedProgram")));
        }
        let size_e = match state.get_var(&args[1], ptr_size) {
            Some(e) => e,
            None => {
                return Err(ExecutorError::Other(String::from_str("MalformedProgram")));
            },
        };
        let bits = match size_e.get_constant() {
            Some(b) => b,
            None => {
                return Err(ExecutorError::Other(String::from_str("MalformedProgram")));
            },
        };
        if bits < 1 || bits > u32::MAX as u64 {
            return Err(ExecutorError::Other(String::from_str("MalformedProgram")));
        }
        // Symbols are labelled with a generation suffix, so repeated
        // calls against the same name stay distinguishable.
        let base: String = match &args[0] {
            Operand::Var(n) => n.clone(),
            Operand::Imm { .. } => String::from_str("anon"),
        };
        let mut generation: usize = 0;
        let mut i: usize = 0;
        while i < state.symbols.len()
            decreases state.symbols@.len() - i,
        {
            if generation < usize::MAX {
                // Count earlier symbols sharing the base label.
                let existing = &state.symbols[i].name;
                if string_has_prefix(existing, &base) {
                    generation = generation + 1;
                }
            }
            i = i + 1;
        }
        let mut label = base;
        label.append("_");
        append_decimal_to(&mut label, generation as u64);
        let ctx = crate::context::Context::new();
        let fresh = ctx.unconstrained(bits as u32, label.as_str());
        let ghost fresh_snapshot = fresh;
        let ghost prev_symbols = state.symbols@;
        state.symbols.push(VarBinding { name: label, value: fresh.clone() });
        proof {
            assert forall|j: int| 0 <= j < state.symbols@.len() implies (#[trigger]
            state.symbols@[j]).value.wf() by {
                if j < prev_symbols.len() {
                    assert(state.symbols@[j] == prev_symbols[j]);
                    assert(prev_symbols[j].value.wf());
                }
            }
            assert(state.symbols@.subrange(0, prev_symbols.len() as int) =~= prev_symbols);
            assert(state.symbols@.last().value == fresh_snapshot);
        }
        let ghost mem_before = state.mem.view_objects();
        match state.mem.write(&mut self.solver, &addr_e, fresh) {
            Ok(()) => {
                proof {
                    assert(old(self).live_constraints() == old(self).solver.view_constraints());
                    let (i0, v0) = choose|i: int, v: u64|
                        crate::memory::resolved_write(
                            mem_before,
                            state.mem.view_objects(),
                            old(self).solver.view_constraints(),
                            addr_e,
                            fresh_snapshot,
                            i,
                            v,
                        );
                    assert(crate::memory::resolved_write(
                        mem_before,
                        state.mem.view_objects(),
                        old(self).live_constraints(),
                        addr_e,
                        state.symbols@.last().value,
                        i0,
                        v0,
                    ));
                }
                Ok(None)
            },
            Err(MemoryError::Solver(se)) => Err(ExecutorError::SolverError(se)),
            Err(MemoryError::OutOfMemory) => Err(ExecutorError::MemoryError(
                MemoryError::OutOfMemory,
            )),
            // A dead path evaporates; an out-of-range pointer fails it.
            Err(MemoryError::Unresolved) => Ok(Some(PathResult::AssumptionUnsat)),
            Err(MemoryError::OutOfBounds) => Ok(
                Some(PathResult::Failure(String::from_str("memory access out of bounds"))),
            ),
        }
    }
}

impl<B: Backend> Executor for VM<B> {

}

impl Module for crate::state::ProgramModule {

}

/// Whether `name` begins with `prefix`.
fn string_has_prefix(name: &String, prefix: &String) -> (r: bool) {
    let nb = name.as_str().as_bytes();
    let pb = prefix.as_str().as_bytes();
    if pb.len() > nb.len() {
        return false;
    }
    let mut i: usize = 0;
    while i < pb.len()
        invariant
            i <= pb@.len(),
            pb@.len() <= nb@.len(),
        decreases pb@.len() - i,
    {
        if nb[i] != pb[i] {
            return false;
        }
        i = i + 1;
    }
    true
}

/// Appends the decimal digits of `n` to the label.
fn append_decimal_to(s: &mut String, n: u64) {
    crate::memory::append_decimal(s, n);
}

} // verus!
