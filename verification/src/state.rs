//! Per-path execution state: the program model, variable bindings, the
//! call stack, globals, and the symbolic memory.

use vstd::prelude::*;
use vstd::string::StringExecFns;

use crate::expr::Expr;
use crate::memory::{MemoryError, ObjectMemory};
use crate::solver::{Backend, Solver};

verus! {

/// An operand of the program model: a named value or an immediate.
pub enum Operand {
    /// A named value: a variable binding or a global.
    Var(String),
    /// An immediate constant of width `w` (taken modulo `2^w`).
    Imm { v: u64, w: u32 },
}

impl Clone for Operand {
    /// An operand copy is equal to the original.
    fn clone(&self) -> (r: Self)
        ensures
            r == *self,
    {
        match self {
            Operand::Var(name) => Operand::Var(name.clone()),
            Operand::Imm { v, w } => Operand::Imm { v: *v, w: *w },
        }
    }
}

/// A global variable of the program model: its pointee size in bits,
/// its alignment, and an optional initial value.
pub struct GlobalVar {
    /// The symbol name.
    pub name: String,
    /// The pointee size in bits; zero is rounded up to 8.
    pub size_bits: u64,
    /// The required alignment in bytes; zero selects the project
    /// default.
    pub alignment: u64,
    /// The initial value, as an unsigned integer, for defined
    /// globals; `None` marks a declaration, which is skipped.
    pub initializer: Option<u64>,
}

/// A function of the program model: a name, a base program counter,
/// and a straight-line instruction list with explicit branch targets.
pub struct FunctionModel {
    /// The symbol name.
    pub name: String,
    /// The address of the function's first instruction.
    pub base_pc: u64,
    /// The instructions, addressed by index.
    pub instructions: Vec<crate::executor::Instr>,
}

/// One module of the program model.
pub struct ProgramModule {
    /// The module name.
    pub name: String,
    /// The module's functions.
    pub functions: Vec<FunctionModel>,
    /// The module's global variables.
    pub global_vars: Vec<GlobalVar>,
}

/// The immutable program: what the front end parsed out of the binary
/// or bitcode.
pub struct Project {
    /// The modules of the program.
    pub modules: Vec<ProgramModule>,
    /// The width of pointers, in bits.
    pub ptr_size: u32,
    /// The alignment substituted for an alignment of zero.
    pub default_alignment: u64,
}

/// A program location: module, function and instruction index.
#[derive(Clone, Copy, PartialEq, Eq, Structural)]
pub struct Location {
    /// Index of the module in the project.
    pub module: usize,
    /// Index of the function in the module.
    pub function: usize,
    /// Index of the next instruction to execute.
    pub instr: usize,
}

impl Location {
    /// The entry location of a function.
    pub fn new(module: usize, function: usize) -> (r: Location)
        ensures
            r.module == module && r.function == function && r.instr == 0,
    {
        Location { module, function, instr: 0 }
    }
}

/// A call site: where to resume when the callee returns, and where the
/// returned value goes.
pub struct Callsite {
    /// The caller's location to resume at (past the call).
    pub location: Location,
    /// The name that binds the returned value, if any.
    pub dst: Option<String>,
}

impl Callsite {
    /// Captures a call site from the resume location and the
    /// call's result name.
    pub fn from_call(location: Location, dst: Option<String>) -> (r: Callsite)
        ensures
            r.location == location,
            r.dst == dst,
    {
        Callsite { location, dst }
    }
}

impl Clone for Callsite {
    /// A call-site copy is equal to the original.
    fn clone(&self) -> (r: Self)
        ensures
            r == *self,
    {
        Callsite {
            location: self.location,
            dst: match &self.dst {
                Some(n) => Some(n.clone()),
                None => None,
            },
        }
    }
}

/// One variable binding.
pub struct VarBinding {
    /// The bound name.
    pub name: String,
    /// The bound value.
    pub value: Expr,
}

impl Clone for VarBinding {
    /// A binding copy is equal to the original.
    fn clone(&self) -> (r: Self)
        ensures
            r == *self,
    {
        VarBinding { name: self.name.clone(), value: self.value.clone() }
    }
}

/// How many bindings of `name` the sequence holds: the name's next
/// generation number.
pub open spec fn count_bound(s: Seq<VarBinding>, name: Seq<char>) -> nat
    decreases s.len(),
{
    if s.len() == 0 {
        0nat
    } else {
        count_bound(s.drop_last(), name) + (if s.last().name@ == name {
            1nat
        } else {
            0nat
        })
    }
}

/// The alignment actually used: an alignment of zero selects the
/// project default.
pub open spec fn state_align(align: u64, default_alignment: u64) -> nat {
    if align == 0 {
        default_alignment as nat
    } else {
        align as nat
    }
}

/// What resolving an unbound name against a globals-table entry must
/// yield: the entry's address as a pointer-width constant, and nothing
/// when there is no entry.
pub open spec fn resolves_global(g: Option<Allocation>, ptr_size: nat, r: Option<Expr>) -> bool {
    match g {
        Some(a) => r matches Some(e) && e.wid() == ptr_size && (forall|env: crate::expr::Env|
            #[trigger] e.eval(env) == a.addr as nat % vstd::arithmetic::power2::pow2(ptr_size)),
        None => r is None,
    }
}

/// The value bound to `name` by the latest binding in `s`, if any.
pub open spec fn find_bound(s: Seq<VarBinding>, name: Seq<char>) -> Option<Expr>
    decreases s.len(),
{
    if s.len() == 0 {
        None
    } else if s.last().name@ == name {
        Some(s.last().value)
    } else {
        find_bound(s.drop_last(), name)
    }
}

/// An association from names to expressions.  Rebinding a name shadows
/// the previous binding; the number of bindings of a name is its
/// generation, so historical values stay identifiable.
pub struct VarMap {
    bindings: Vec<VarBinding>,
}

impl VarMap {
    /// The bindings, oldest first.
    pub closed spec fn view_bindings(&self) -> Seq<VarBinding> {
        self.bindings@
    }

    /// Every bound value is well formed.
    pub closed spec fn inv(&self) -> bool {
        forall|i: int|
            0 <= i < self.bindings@.len() ==> (#[trigger] self.bindings@[i]).value.wf()
    }

    /// Creates an empty map.
    pub fn new() -> (r: VarMap)
        ensures
            r.inv(),
            r.view_bindings() == Seq::<VarBinding>::empty(),
    {
        let r = VarMap { bindings: Vec::new() };
        proof {
            assert(r.bindings@ =~= Seq::<VarBinding>::empty());
        }
        r
    }

    /// Binds `name` to `value`, shadowing any previous binding.
    pub fn insert(&mut self, name: String, value: Expr)
        requires
            old(self).inv(),
            value.wf(),
        ensures
            final(self).inv(),
            final(self).view_bindings() == old(self).view_bindings().push(
                VarBinding { name, value },
            ),
    {
        let ghost prev = self.bindings@;
        self.bindings.push(VarBinding { name, value });
        proof {
            assert forall|i: int| 0 <= i < self.bindings@.len() implies (#[trigger]
            self.bindings@[i]).value.wf() by {
                if i < prev.len() {
                    assert(self.bindings@[i] == prev[i]);
                    assert(prev[i].value.wf());
                }
            }
        }
    }

    /// The current value of `name`: the latest binding.
    pub fn get(&self, name: &String) -> (r: Option<&Expr>)
        requires
            self.inv(),
        ensures
            r matches Some(e) ==> find_bound(self.view_bindings(), name@) == Some(*e) && e.wf(),
            r is None ==> find_bound(self.view_bindings(), name@) is None,
    {
        let mut i: usize = self.bindings.len();
        proof {
            assert(self.bindings@.subrange(0, i as int) =~= self.bindings@);
        }
        while i > 0
            invariant
                self.inv(),
                i <= self.bindings@.len(),
                find_bound(self.view_bindings(), name@) == find_bound(
                    self.bindings@.subrange(0, i as int),
                    name@,
                ),
            decreases i,
        {
            let ghost pre = self.bindings@.subrange(0, i as int);
            if self.bindings[i - 1].name == *name {
                proof {
                    assert(pre.last() == self.bindings@[i - 1]);
                }
                return Some(&self.bindings[i - 1].value);
            }
            proof {
                assert(pre.last() == self.bindings@[i - 1]);
                assert(pre.drop_last() =~= self.bindings@.subrange(0, i - 1));
            }
            i = i - 1;
        }
        proof {
            assert(self.bindings@.subrange(0, 0) =~= Seq::<VarBinding>::empty());
        }
        None
    }

    /// How many times `name` has been bound: its next generation
    /// suffix.
    pub fn generation(&self, name: &String) -> (r: usize)
        ensures
            r == count_bound(self.view_bindings(), name@),
    {
        let mut count: usize = 0;
        let mut i: usize = 0;
        proof {
            assert(self.bindings@.subrange(0, 0) =~= Seq::<VarBinding>::empty());
        }
        while i < self.bindings.len()
            invariant
                i <= self.bindings@.len(),
                count <= i,
                count == count_bound(self.bindings@.subrange(0, i as int), name@),
            decreases self.bindings@.len() - i,
        {
            proof {
                assert(self.bindings@.subrange(0, i + 1).drop_last() =~= self.bindings@.subrange(
                    0,
                    i as int,
                ));
                assert(self.bindings@.subrange(0, i + 1).last() == self.bindings@[i as int]);
            }
            if self.bindings[i].name == *name {
                count = count + 1;
            }
            i = i + 1;
        }
        proof {
            assert(self.bindings@.subrange(0, self.bindings@.len() as int) =~= self.bindings@);
        }
        count
    }
}

impl Clone for VarMap {
    /// A map copy holds exactly the original's bindings.
    fn clone(&self) -> (r: Self)
        ensures
            r.view_bindings() == self.view_bindings(),
            r.inv() == self.inv(),
    {
        let mut out: Vec<VarBinding> = Vec::new();
        let mut i: usize = 0;
        while i < self.bindings.len()
            invariant
                i <= self.bindings@.len(),
                out@ == self.bindings@.subrange(0, i as int),
            decreases self.bindings@.len() - i,
        {
            out.push(self.bindings[i].clone());
            proof {
                assert(out@ =~= self.bindings@.subrange(0, i + 1));
            }
            i = i + 1;
        }
        proof {
            assert(out@ =~= self.bindings@);
        }
        VarMap { bindings: out }
    }
}

/// What a global allocation stands for.
#[derive(Clone, Copy, PartialEq, Eq, Structural)]
pub enum AllocationKind {
    /// A global variable.
    Variable,
    /// A function's address slot.
    Function,
}

/// One allocated global: its name, home module, address and kind.
pub struct Allocation {
    /// The global's symbol name.
    pub name: String,
    /// The module the global belongs to.
    pub module: usize,
    /// The address reserved for it.
    pub addr: u64,
    /// Whether it is a variable or a function slot.
    pub kind: AllocationKind,
}

impl Clone for Allocation {
    /// An allocation copy is equal to the original.
    fn clone(&self) -> (r: Self)
        ensures
            r == *self,
    {
        Allocation {
            name: self.name.clone(),
            module: self.module,
            addr: self.addr,
            kind: self.kind,
        }
    }
}

/// The first allocation in `s` recorded for `name` in `module`.
pub open spec fn first_alloc_for(s: Seq<Allocation>, name: Seq<char>, module: int) -> Option<
    Allocation,
>
    decreases s.len(),
{
    if s.len() == 0 {
        None
    } else if s.first().name@ == name && s.first().module == module {
        Some(s.first())
    } else {
        first_alloc_for(s.drop_first(), name, module)
    }
}

/// The first allocation in `s` recorded for `name`, in any module.
pub open spec fn first_alloc_named(s: Seq<Allocation>, name: Seq<char>) -> Option<Allocation>
    decreases s.len(),
{
    if s.len() == 0 {
        None
    } else if s.first().name@ == name {
        Some(s.first())
    } else {
        first_alloc_named(s.drop_first(), name)
    }
}

/// The table of allocated globals.
pub struct Globals {
    entries: Vec<Allocation>,
}

impl Globals {
    /// The recorded allocations.
    pub closed spec fn view_entries(&self) -> Seq<Allocation> {
        self.entries@
    }

    /// Creates an empty table.
    pub fn new() -> (r: Globals)
        ensures
            r.view_entries() == Seq::<Allocation>::empty(),
    {
        let r = Globals { entries: Vec::new() };
        proof {
            assert(r.entries@ =~= Seq::<Allocation>::empty());
        }
        r
    }

    /// Records a global variable at `addr`.
    pub fn add_global_variable(&mut self, name: String, module: usize, addr: u64)
        ensures
            final(self).view_entries() == old(self).view_entries().push(
                Allocation { name, module, addr, kind: AllocationKind::Variable },
            ),
    {
        self.entries.push(Allocation { name, module, addr, kind: AllocationKind::Variable });
    }

    /// Records a function's address slot at `addr`.
    pub fn add_function(&mut self, name: String, module: usize, addr: u64)
        ensures
            final(self).view_entries() == old(self).view_entries().push(
                Allocation { name, module, addr, kind: AllocationKind::Function },
            ),
    {
        self.entries.push(Allocation { name, module, addr, kind: AllocationKind::Function });
    }

    /// What a lookup returns: the first entry for the name in the
    /// given module when one exists, else the first entry for the name
    /// in any module.
    pub open spec fn spec_get(&self, name: Seq<char>, module: int) -> Option<Allocation> {
        if first_alloc_for(self.view_entries(), name, module) is Some {
            first_alloc_for(self.view_entries(), name, module)
        } else {
            first_alloc_named(self.view_entries(), name)
        }
    }

    /// Looks a global up by name, preferring the current module.
    pub fn get(&self, name: &String, module: usize) -> (r: Option<&Allocation>)
        ensures
            r matches Some(a) ==> Some(*a) == self.spec_get(name@, module as int),
            r is None ==> self.spec_get(name@, module as int) is None,
    {
        let ghost s = self.entries@;
        let mut i: usize = 0;
        let mut any: Option<usize> = None;
        proof {
            assert(s.skip(0) =~= s);
        }
        while i < self.entries.len()
            invariant
                s == self.entries@,
                i <= s.len(),
                first_alloc_for(s, name@, module as int) == first_alloc_for(
                    s.skip(i as int),
                    name@,
                    module as int,
                ),
                any is None ==> first_alloc_named(s, name@) == first_alloc_named(
                    s.skip(i as int),
                    name@,
                ),
                any matches Some(a) ==> a < i && first_alloc_named(s, name@) == Some(s[a as int])
                    && s[a as int].name@ == name@,
            decreases s.len() - i,
        {
            proof {
                assert(s.skip(i as int).first() == s[i as int]);
                assert(s.skip(i as int).drop_first() =~= s.skip(i + 1));
            }
            if self.entries[i].name == *name {
                if self.entries[i].module == module {
                    proof {
                        assert(first_alloc_for(s, name@, module as int) == Some(s[i as int]));
                    }
                    return Some(&self.entries[i]);
                }
                if any.is_none() {
                    any = Some(i);
                }
            }
            i = i + 1;
        }
        proof {
            assert(s.skip(s.len() as int) =~= Seq::<Allocation>::empty());
        }
        match any {
            Some(a) => Some(&self.entries[a]),
            None => None,
        }
    }
}

impl Clone for Globals {
    /// A table copy holds exactly the original's entries.
    fn clone(&self) -> (r: Self)
        ensures
            r.view_entries() == self.view_entries(),
    {
        let mut out: Vec<Allocation> = Vec::new();
        let mut i: usize = 0;
        while i < self.entries.len()
            invariant
                i <= self.entries@.len(),
                out@ == self.entries@.subrange(0, i as int),
            decreases self.entries@.len() - i,
        {
            out.push(self.entries[i].clone());
            proof {
                assert(out@ =~= self.entries@.subrange(0, i + 1));
            }
            i = i + 1;
        }
        proof {
            assert(out@ =~= self.entries@);
        }
        Globals { entries: out }
    }
}

/// Entry `ei` of the globals table and object `oi` of memory together
/// install the global variable `var` of module `m`: the entry carries
/// the name and kind, the object sits at the entry's address with the
/// variable's width, and — for a defined variable — the object's value
/// is the initializer reduced to that width.
pub open spec fn entry_object_match(s: State, var: GlobalVar, m: int, ei: int, oi: int) -> bool {
    &&& 0 <= ei < s.globals.view_entries().len()
    &&& s.globals.view_entries()[ei].name@ == var.name@
    &&& s.globals.view_entries()[ei].module == m
    &&& s.globals.view_entries()[ei].kind == AllocationKind::Variable
    &&& 0 <= oi < s.mem.view_objects().len()
    &&& s.mem.view_objects()[oi].address == s.globals.view_entries()[ei].addr
    &&& s.mem.view_objects()[oi].size == crate::memory::eff_bits(var.size_bits as nat)
    &&& (var.initializer matches Some(init) ==> (forall|env: crate::expr::Env|
        #[trigger] s.mem.view_objects()[oi].bv.eval(env) == init as nat
            % vstd::arithmetic::power2::pow2(crate::memory::eff_bits(var.size_bits as nat))))
}

/// The global variable `var` of module `m` is installed in the state.
pub open spec fn global_variable_installed(s: State, var: GlobalVar, m: int) -> bool {
    exists|ei: int, oi: int| #[trigger] entry_object_match(s, var, m, ei, oi)
}

/// Entry `ei` records the address slot of function `name` in module
/// `m`: a 4-byte-aligned address backed by a pointer-sized object.
pub open spec fn fn_entry_match(s: State, name: Seq<char>, m: int, ptr_bits: nat, ei: int) -> bool {
    &&& 0 <= ei < s.globals.view_entries().len()
    &&& s.globals.view_entries()[ei].name@ == name
    &&& s.globals.view_entries()[ei].module == m
    &&& s.globals.view_entries()[ei].kind == AllocationKind::Function
    &&& s.globals.view_entries()[ei].addr % 4 == 0
    &&& (exists|oi: int|
        0 <= oi < s.mem.view_objects().len() && (#[trigger] s.mem.view_objects()[oi]).address
            == s.globals.view_entries()[ei].addr && s.mem.view_objects()[oi].size as nat
            == crate::memory::eff_bits(ptr_bits))
}

/// An entry of the globals table is accounted for: it names a defined
/// global variable of its module, or one of its module's functions.
/// Declarations — globals without an initializer — get no entry.
pub open spec fn justified_entry(e: Allocation, project: Project) -> bool {
    ||| (exists|m: int, g: int|
        0 <= m < project.modules@.len() && 0 <= g < (#[trigger]
        project.modules@[m]).global_vars@.len() && (#[trigger]
        project.modules@[m].global_vars@[g]).initializer is Some
            && e.name@ == project.modules@[m].global_vars@[g].name@ && e.module == m && e.kind
            == AllocationKind::Variable)
    ||| (exists|m: int, f: int|
        0 <= m < project.modules@.len() && 0 <= f < (#[trigger]
        project.modules@[m]).functions@.len() && e.name@ == (#[trigger]
        project.modules@[m].functions@[f]).name@ && e.module == m && e.kind
            == AllocationKind::Function)
}

/// Function `name` of module `m` has an address slot in the state.
pub open spec fn function_installed(s: State, name: Seq<char>, m: int, ptr_bits: nat) -> bool {
    exists|ei: int| #[trigger] fn_entry_match(s, name, m, ptr_bits, ei)
}

/// One module's globals are installed: every defined global variable
/// and every function.
pub open spec fn module_installed(s: State, module: ProgramModule, m: int, ptr_bits: nat) -> bool {
    &&& (forall|g: int|
        0 <= g < module.global_vars@.len() && (#[trigger] module.global_vars@[g]).initializer
            is Some ==> global_variable_installed(s, module.global_vars@[g], m))
    &&& (forall|f: int|
        0 <= f < module.functions@.len() ==> function_installed(
            s,
            (#[trigger] module.functions@[f]).name@,
            m,
            ptr_bits,
        ))
}

/// Every module of the project is installed: what building a state
/// guarantees about its globals table and memory.
pub open spec fn globals_installed(s: State, project: Project) -> bool {
    forall|m: int|
        0 <= m < project.modules@.len() ==> module_installed(
            s,
            #[trigger] project.modules@[m],
            m,
            project.ptr_size as nat,
        )
}

/// Installed globals survive any step that only appends table entries
/// and only appends or leaves untouched the objects below the old
/// object count.
pub proof fn lemma_installed_frame(s1: State, s2: State, var: GlobalVar, m: int)
    requires
        global_variable_installed(s1, var, m),
        s2.globals.view_entries().len() >= s1.globals.view_entries().len(),
        forall|ei: int|
            0 <= ei < s1.globals.view_entries().len() ==> #[trigger] s2.globals.view_entries()[ei]
                == s1.globals.view_entries()[ei],
        s2.mem.view_objects().len() >= s1.mem.view_objects().len(),
        forall|oi: int|
            0 <= oi < s1.mem.view_objects().len() ==> #[trigger] s2.mem.view_objects()[oi]
                == s1.mem.view_objects()[oi],
    ensures
        global_variable_installed(s2, var, m),
{
    let (ei, oi) = choose|ei: int, oi: int| entry_object_match(s1, var, m, ei, oi);
    assert(entry_object_match(s2, var, m, ei, oi));
}

/// Function slots survive the same steps.
pub proof fn lemma_fn_installed_frame(s1: State, s2: State, name: Seq<char>, m: int, ptr_bits: nat)
    requires
        function_installed(s1, name, m, ptr_bits),
        s2.globals.view_entries().len() >= s1.globals.view_entries().len(),
        forall|ei: int|
            0 <= ei < s1.globals.view_entries().len() ==> #[trigger] s2.globals.view_entries()[ei]
                == s1.globals.view_entries()[ei],
        s2.mem.view_objects().len() >= s1.mem.view_objects().len(),
        forall|oi: int|
            0 <= oi < s1.mem.view_objects().len() ==> #[trigger] s2.mem.view_objects()[oi]
                == s1.mem.view_objects()[oi],
    ensures
        function_installed(s2, name, m, ptr_bits),
{
    let ei = choose|ei: int| fn_entry_match(s1, name, m, ptr_bits, ei);
    let oi = choose|oi: int|
        0 <= oi < s1.mem.view_objects().len() && s1.mem.view_objects()[oi].address
            == s1.globals.view_entries()[ei].addr && s1.mem.view_objects()[oi].size as nat
            == crate::memory::eff_bits(ptr_bits);
    assert(s2.mem.view_objects()[oi] == s1.mem.view_objects()[oi]);
    assert(fn_entry_match(s2, name, m, ptr_bits, ei));
}

/// Whole installed modules survive the same steps.
pub proof fn lemma_module_installed_frame(
    s1: State,
    s2: State,
    module: ProgramModule,
    m: int,
    ptr_bits: nat,
)
    requires
        module_installed(s1, module, m, ptr_bits),
        s2.globals.view_entries().len() >= s1.globals.view_entries().len(),
        forall|ei: int|
            0 <= ei < s1.globals.view_entries().len() ==> #[trigger] s2.globals.view_entries()[ei]
                == s1.globals.view_entries()[ei],
        s2.mem.view_objects().len() >= s1.mem.view_objects().len(),
        forall|oi: int|
            0 <= oi < s1.mem.view_objects().len() ==> #[trigger] s2.mem.view_objects()[oi]
                == s1.mem.view_objects()[oi],
    ensures
        module_installed(s2, module, m, ptr_bits),
{
    assert forall|g: int|
        0 <= g < module.global_vars@.len() && (#[trigger] module.global_vars@[g]).initializer
            is Some implies global_variable_installed(s2, module.global_vars@[g], m) by {
        lemma_installed_frame(s1, s2, module.global_vars@[g], m);
    }
    assert forall|f: int|
        0 <= f < module.functions@.len() implies function_installed(
        s2,
        (#[trigger] module.functions@[f]).name@,
        m,
        ptr_bits,
    ) by {
        lemma_fn_installed_frame(s1, s2, module.functions@[f].name@, m, ptr_bits);
    }
}

/// The state of one path of execution.
pub struct State {
    /// The call stack: one entry per frame above the bottom one.
    pub callstack: Vec<Callsite>,
    /// Where execution resumes.
    pub current_loc: Location,
    /// The variable bindings of the current frame.
    pub vars: VarMap,
    /// The path's memory.
    pub mem: ObjectMemory,
    /// The allocated globals.
    pub globals: Globals,
    /// The symbols registered by the `symbolic` hook, for reporting.
    pub symbols: Vec<VarBinding>,
    /// Instructions counted since `start_cyclecount`.
    pub cycle_count: u64,
    /// Whether the cycle counter is running.
    pub counting_cycles: bool,
    /// The value of the last `Return` executed, for the final result.
    pub last_return: Option<Expr>,
}

impl State {
    /// The state invariant: memory is consistent and every bound or
    /// registered expression is well formed.
    pub open spec fn inv(&self) -> bool {
        &&& self.mem.inv()
        &&& self.vars.inv()
        &&& 1 <= self.mem.pointer_size() <= 64
        &&& forall|i: int|
            0 <= i < self.symbols@.len() ==> (#[trigger] self.symbols@[i]).value.wf()
        &&& self.last_return matches Some(e) ==> e.wf()
    }

    /// Builds the state for a path starting at `location`: allocates
    /// every defined global and every function's address slot, and
    /// writes the globals' initial values to memory.
    pub fn new<B: Backend>(project: &Project, solver: &mut Solver<B>, location: Location) -> (r:
        Result<State, MemoryError>)
        requires
            old(solver).inv(),
            1 <= project.ptr_size <= 64,
            project.default_alignment >= 1,
        ensures
            final(solver).inv(),
            final(solver).view_constraints() == old(solver).view_constraints(),
            final(solver).depth() == old(solver).depth(),
            r matches Ok(s) ==> s.inv() && s.current_loc == location && s.mem.pointer_size()
                == project.ptr_size,
            // With nothing to install, construction cannot fail.
            (forall|m: int|
                0 <= m < project.modules@.len() ==> (#[trigger]
                project.modules@[m]).global_vars@.len() == 0
                    && project.modules@[m].functions@.len() == 0) ==> r is Ok,
            // A fresh state starts with no frames, no bindings and no
            // registered symbols, every module's globals installed,
            // and nothing else in the globals table: declarations get
            // no entry.
            r matches Ok(s) ==> s.callstack@ == Seq::<Callsite>::empty()
                && s.vars.view_bindings() == Seq::<VarBinding>::empty()
                && s.symbols@ == Seq::<VarBinding>::empty()
                && globals_installed(s, *project)
                && (forall|ei: int|
                0 <= ei < s.globals.view_entries().len() ==> justified_entry(
                    #[trigger] s.globals.view_entries()[ei],
                    *project,
                )),
    {
        let mut state = State {
            callstack: Vec::new(),
            current_loc: location,
            vars: VarMap::new(),
            mem: ObjectMemory::new(project.ptr_size),
            globals: Globals::new(),
            symbols: Vec::new(),
            cycle_count: 0,
            counting_cycles: false,
            last_return: None,
        };
        match state.allocate_globals(project, solver) {
            Ok(()) => Ok(state),
            Err(e) => Err(e),
        }
    }

    /// Allocates every defined global variable and a pointer-sized
    /// slot for every function, and writes the globals' initial
    /// values into memory.  Declarations (globals without an
    /// initializer) are skipped.
    fn allocate_globals<B: Backend>(&mut self, project: &Project, solver: &mut Solver<B>) -> (r:
        Result<(), MemoryError>)
        requires
            old(self).inv(),
            old(solver).inv(),
            old(self).mem.pointer_size() == project.ptr_size,
            1 <= project.ptr_size <= 64,
            project.default_alignment >= 1,
        ensures
            final(self).inv(),
            final(self).mem.pointer_size() == old(self).mem.pointer_size(),
            final(self).current_loc == old(self).current_loc,
            final(self).callstack == old(self).callstack,
            final(self).vars == old(self).vars,
            final(self).symbols == old(self).symbols,
            final(solver).inv(),
            final(solver).view_constraints() == old(solver).view_constraints(),
            final(solver).depth() == old(solver).depth(),
            // On success every module's globals are installed: every
            // defined variable has an entry and an initialized memory
            // object, every function an aligned pointer-sized slot.
            r is Ok ==> globals_installed(*final(self), *project),
            // Only defined globals and functions get entries:
            // declarations are skipped.
            r is Ok ==> forall|ei: int|
                old(self).globals.view_entries().len() <= ei
                    < final(self).globals.view_entries().len() ==> justified_entry(
                    #[trigger] final(self).globals.view_entries()[ei],
                    *project,
                ),
            // With nothing to install, installation cannot fail.
            (forall|m: int|
                0 <= m < project.modules@.len() ==> (#[trigger]
                project.modules@[m]).global_vars@.len() == 0
                    && project.modules@[m].functions@.len() == 0) ==> r is Ok,
    {
        let ctx = crate::context::Context::new();
        let mut m: usize = 0;
        while m < project.modules.len()
            invariant
                self.inv(),
                solver.inv(),
                m <= project.modules@.len(),
                self.mem.pointer_size() == project.ptr_size,
                old(self).mem.pointer_size() == project.ptr_size,
                self.current_loc == old(self).current_loc,
                self.callstack == old(self).callstack,
                self.vars == old(self).vars,
                self.symbols == old(self).symbols,
                1 <= project.ptr_size <= 64,
                project.default_alignment >= 1,
                solver.view_constraints() == old(solver).view_constraints(),
                solver.depth() == old(solver).depth(),
                forall|m0: int|
                    0 <= m0 < m ==> module_installed(
                        *self,
                        #[trigger] project.modules@[m0],
                        m0,
                        project.ptr_size as nat,
                    ),
                forall|ei: int|
                    old(self).globals.view_entries().len() <= ei
                        < self.globals.view_entries().len() ==> justified_entry(
                        #[trigger] self.globals.view_entries()[ei],
                        *project,
                    ),
            decreases project.modules@.len() - m,
        {
            let module = &project.modules[m];
            let mut g: usize = 0;
            while g < module.global_vars.len()
                invariant
                    self.inv(),
                    solver.inv(),
                    m < project.modules@.len(),
                    *module == project.modules@[m as int],
                    g <= module.global_vars@.len(),
                    self.mem.pointer_size() == project.ptr_size,
                    old(self).mem.pointer_size() == project.ptr_size,
                    self.current_loc == old(self).current_loc,
                    self.callstack == old(self).callstack,
                    self.vars == old(self).vars,
                    self.symbols == old(self).symbols,
                    1 <= project.ptr_size <= 64,
                    project.default_alignment >= 1,
                    solver.view_constraints() == old(solver).view_constraints(),
                    solver.depth() == old(solver).depth(),
                    forall|m0: int|
                        0 <= m0 < m ==> module_installed(
                            *self,
                            #[trigger] project.modules@[m0],
                            m0,
                            project.ptr_size as nat,
                        ),
                    forall|g0: int|
                        0 <= g0 < g && (#[trigger] module.global_vars@[g0]).initializer is Some
                            ==> global_variable_installed(*self, module.global_vars@[g0], m as int),
                    forall|ei: int|
                        old(self).globals.view_entries().len() <= ei
                            < self.globals.view_entries().len() ==> justified_entry(
                            #[trigger] self.globals.view_entries()[ei],
                            *project,
                        ),
                decreases module.global_vars@.len() - g,
            {
                let ghost iter_start = *self;
                let var = &module.global_vars[g];
                if var.initializer.is_some() {
                    if var.size_bits > u32::MAX as u64 {
                        return Err(MemoryError::OutOfMemory);
                    }
                    let addr = match self.allocate(
                        var.alignment,
                        var.size_bits,
                        project.default_alignment,
                    ) {
                        Ok(a) => a,
                        Err(e) => {
                            return Err(e);
                        },
                    };
                    // The slot must be addressable at pointer width.
                    if project.ptr_size < 64 && addr >= crate::ops::pow2_u64(project.ptr_size) {
                        return Err(MemoryError::OutOfMemory);
                    }
                    proof {
                        vstd::arithmetic::power2::lemma2_to64();
                        assert((addr as nat) < vstd::arithmetic::power2::pow2(
                            project.ptr_size as nat,
                        ));
                    }
                    self.globals.add_global_variable(var.name.clone(), m, addr);
                    let ghost pre_write = *self;
                    let size = if var.size_bits == 0 {
                        8
                    } else {
                        var.size_bits
                    };
                    // Initial values are written into memory, so that
                    // programs reading initialized globals see them.
                    let init = match var.initializer {
                        Some(init) => init,
                        None => 0,
                    };
                    let value = ctx.from_u64(init, size as u32);
                    let addr_e = ctx.from_u64(addr, project.ptr_size);
                    match self.mem.write(solver, &addr_e, value) {
                        Ok(()) => (),
                        Err(e) => {
                            // A dead path or a failed backend surfaces
                            // as is; the fresh in-bounds slot rules the
                            // rest out.
                            return Err(e);
                        },
                    }
                    proof {
                        vstd::arithmetic::power2::lemma2_to64();
                        vstd::arithmetic::power2::lemma_pow2_pos(project.ptr_size as nat);
                        vstd::arithmetic::div_mod::lemma_small_mod(
                            addr as nat,
                            vstd::arithmetic::power2::pow2(project.ptr_size as nat),
                        );
                        let objs0 = pre_write.mem.view_objects();
                        let lidx = objs0.len() - 1;
                        let (i0, v0) = choose|i: int, v: u64|
                            crate::memory::resolved_write(
                                objs0,
                                self.mem.view_objects(),
                                solver.view_constraints(),
                                addr_e,
                                value,
                                i,
                                v,
                            );
                        // The resolved model of a constant address is
                        // the address.
                        let env0 = choose|env: crate::expr::Env|
                            crate::solver::holds(env, solver.view_constraints()) && addr_e.eval(
                                env,
                            ) == v0;
                        assert(addr_e.eval(env0) == addr as nat);
                        assert(v0 == addr);
                        // Older objects end at or below the new base,
                        // so the resolved object is the fresh one.
                        assert forall|j: int| 0 <= j < lidx implies (#[trigger]
                        objs0[j]).address < addr by {
                            assert(objs0[j] == iter_start.mem.view_objects()[j]);
                            assert(crate::memory::obj_end(iter_start.mem.view_objects()[j])
                                <= addr);
                        }
                        assert(objs0[lidx as int].address == addr);
                        assert(i0 == lidx) by {
                            if i0 < lidx {
                                assert(objs0[lidx as int].address <= v0);
                            }
                        }
                        // The written value lands whole: offset zero,
                        // full width.
                        assert(self.mem.view_objects()[i0].size == crate::memory::eff_bits(
                            var.size_bits as nat,
                        ));
                        assert forall|env: crate::expr::Env| #[trigger]
                            self.mem.view_objects()[i0].bv.eval(env) == init as nat
                                % vstd::arithmetic::power2::pow2(
                            crate::memory::eff_bits(var.size_bits as nat),
                        ) by {
                            assert(self.mem.view_objects()[i0].bv.eval(env)
                                == crate::derived::replace_val(
                                objs0[i0].bv.eval(env),
                                value.eval(env),
                                0,
                                value.wid(),
                                objs0[i0].size as nat,
                            ));
                        }
                        // The entry pushed just before the write names
                        // this object.
                        let ei = pre_write.globals.view_entries().len() - 1;
                        assert(entry_object_match(
                            *self,
                            module.global_vars@[g as int],
                            m as int,
                            ei,
                            i0,
                        ));
                        assert(global_variable_installed(
                            *self,
                            module.global_vars@[g as int],
                            m as int,
                        ));
                        assert(justified_entry(self.globals.view_entries()[ei], *project));
                        // Everything installed before stays installed.
                        assert forall|m0: int| 0 <= m0 < m implies module_installed(
                            *self,
                            #[trigger] project.modules@[m0],
                            m0,
                            project.ptr_size as nat,
                        ) by {
                            lemma_module_installed_frame(
                                iter_start,
                                *self,
                                project.modules@[m0],
                                m0,
                                project.ptr_size as nat,
                            );
                        }
                        assert forall|g0: int|
                            0 <= g0 < g && (#[trigger] module.global_vars@[g0]).initializer
                                is Some implies global_variable_installed(
                            *self,
                            module.global_vars@[g0],
                            m as int,
                        ) by {
                            lemma_installed_frame(
                                iter_start,
                                *self,
                                module.global_vars@[g0],
                                m as int,
                            );
                        }
                    }
                }
                g = g + 1;
            }
            let mut f: usize = 0;
            while f < module.functions.len()
                invariant
                    self.inv(),
                    solver.inv(),
                    m < project.modules@.len(),
                    *module == project.modules@[m as int],
                    f <= module.functions@.len(),
                    self.mem.pointer_size() == project.ptr_size,
                    old(self).mem.pointer_size() == project.ptr_size,
                    self.current_loc == old(self).current_loc,
                    self.callstack == old(self).callstack,
                    self.vars == old(self).vars,
                    self.symbols == old(self).symbols,
                    1 <= project.ptr_size <= 64,
                    project.default_alignment >= 1,
                    solver.view_constraints() == old(solver).view_constraints(),
                    solver.depth() == old(solver).depth(),
                    forall|m0: int|
                        0 <= m0 < m ==> module_installed(
                            *self,
                            #[trigger] project.modules@[m0],
                            m0,
                            project.ptr_size as nat,
                        ),
                    forall|g0: int|
                        0 <= g0 < module.global_vars@.len() && (#[trigger]
                        module.global_vars@[g0]).initializer is Some
                            ==> global_variable_installed(*self, module.global_vars@[g0], m as int),
                    forall|f0: int|
                        0 <= f0 < f ==> function_installed(
                            *self,
                            (#[trigger] module.functions@[f0]).name@,
                            m as int,
                            project.ptr_size as nat,
                        ),
                    forall|ei: int|
                        old(self).globals.view_entries().len() <= ei
                            < self.globals.view_entries().len() ==> justified_entry(
                            #[trigger] self.globals.view_entries()[ei],
                            *project,
                        ),
                decreases module.functions@.len() - f,
            {
                let ghost iter_start = *self;
                let function = &module.functions[f];
                let addr = match self.allocate(
                    4,
                    project.ptr_size as u64,
                    project.default_alignment,
                ) {
                    Ok(a) => a,
                    Err(e) => {
                        return Err(e);
                    },
                };
                self.globals.add_function(function.name.clone(), m, addr);
                proof {
                    let ei = self.globals.view_entries().len() - 1;
                    let oi = self.mem.view_objects().len() - 1;
                    assert(self.mem.view_objects()[oi].address
                        == self.globals.view_entries()[ei].addr);
                    assert(self.globals.view_entries()[ei].addr % 4 == 0) by {
                        crate::memory::lemma_align_up(iter_start.mem.cursor(), 4);
                    }
                    assert(fn_entry_match(
                        *self,
                        module.functions@[f as int].name@,
                        m as int,
                        project.ptr_size as nat,
                        ei,
                    ));
                    assert forall|m0: int| 0 <= m0 < m implies module_installed(
                        *self,
                        #[trigger] project.modules@[m0],
                        m0,
                        project.ptr_size as nat,
                    ) by {
                        lemma_module_installed_frame(
                            iter_start,
                            *self,
                            project.modules@[m0],
                            m0,
                            project.ptr_size as nat,
                        );
                    }
                    assert forall|g0: int|
                        0 <= g0 < module.global_vars@.len() && (#[trigger]
                        module.global_vars@[g0]).initializer is Some implies
                        global_variable_installed(*self, module.global_vars@[g0], m as int) by {
                        lemma_installed_frame(iter_start, *self, module.global_vars@[g0], m as int);
                    }
                    assert forall|f0: int| 0 <= f0 < f + 1 implies function_installed(
                        *self,
                        (#[trigger] module.functions@[f0]).name@,
                        m as int,
                        project.ptr_size as nat,
                    ) by {
                        if f0 < f {
                            lemma_fn_installed_frame(
                                iter_start,
                                *self,
                                module.functions@[f0].name@,
                                m as int,
                                project.ptr_size as nat,
                            );
                        }
                    }
                    assert(justified_entry(
                        self.globals.view_entries()[ei],
                        *project,
                    ));
                }
                f = f + 1;
            }
            proof {
                assert(module_installed(
                    *self,
                    project.modules@[m as int],
                    m as int,
                    project.ptr_size as nat,
                ));
            }
            m = m + 1;
        }
        Ok(())
    }

    /// Reserves `size` bits in memory, substituting the default for an
    /// alignment of zero, and returns the concrete address.
    pub fn allocate(&mut self, align: u64, size: u64, default_alignment: u64) -> (r: Result<
        u64,
        MemoryError,
    >)
        requires
            old(self).inv(),
            default_alignment >= 1,
            size <= u32::MAX,
        ensures
            final(self).inv(),
            final(self).mem.pointer_size() == old(self).mem.pointer_size(),
            final(self).current_loc == old(self).current_loc,
            final(self).vars == old(self).vars,
            final(self).globals == old(self).globals,
            final(self).callstack == old(self).callstack,
            final(self).symbols == old(self).symbols,
            r matches Ok(addr) ==> addr as nat == crate::memory::align_up(
                old(self).mem.cursor(),
                state_align(align, default_alignment),
            ) && final(self).mem.cursor() == addr + crate::memory::bytes_of(
                crate::memory::eff_bits(size as nat),
            ) && final(self).mem.view_objects().len() == old(self).mem.view_objects().len() + 1
                && final(self).mem.view_objects().subrange(
                0,
                old(self).mem.view_objects().len() as int,
            ) == old(self).mem.view_objects() && final(self).mem.view_objects().last().address
                == addr && final(self).mem.view_objects().last().size == crate::memory::eff_bits(
                size as nat,
            ) && final(self).mem.view_objects().last().bv is Sym
                && final(self).mem.view_objects().last().bv->name@ == crate::memory::alloc_label(
                old(self).mem.next_alloc_id(),
            ) && final(self).mem.next_alloc_id() == old(self).mem.next_alloc_id() + 1 && (forall|
                j: int,
            |
                0 <= j < old(self).mem.view_objects().len() ==> crate::memory::obj_end(
                    #[trigger] old(self).mem.view_objects()[j],
                ) <= addr),
            r matches Err(e) ==> e == MemoryError::OutOfMemory && final(self).mem.view_objects()
                == old(self).mem.view_objects(),
            // Success is owed whenever the aligned reservation fits.
            r is Ok <==> (crate::memory::align_up(
                old(self).mem.cursor(),
                state_align(align, default_alignment),
            ) + crate::memory::bytes_of(crate::memory::eff_bits(size as nat)) <= u64::MAX
                && old(self).mem.next_alloc_id() < u64::MAX),
    {
        let align_eff = if align == 0 {
            default_alignment
        } else {
            align
        };
        self.mem.allocate(size, align_eff)
    }

    /// Reserves `size` bits on the stack and returns a pointer-width
    /// expression holding exactly the allocated address; an address
    /// past the pointer range counts as exhaustion rather than
    /// wrapping.
    pub fn stack_alloc(&mut self, size: u64, align: u64, default_alignment: u64) -> (r: Result<
        Expr,
        MemoryError,
    >)
        requires
            old(self).inv(),
            default_alignment >= 1,
            size <= u32::MAX,
        ensures
            final(self).inv(),
            final(self).mem.pointer_size() == old(self).mem.pointer_size(),
            final(self).current_loc == old(self).current_loc,
            r matches Ok(e) ==> e.wf() && e.wid() == old(self).mem.pointer_size() && e is Const
                && (forall|env: crate::expr::Env|
                #[trigger] e.eval(env) == crate::memory::align_up(
                    old(self).mem.cursor(),
                    state_align(align, default_alignment),
                )),
            r matches Err(e) ==> e == MemoryError::OutOfMemory,
            r is Ok <==> (crate::memory::align_up(
                old(self).mem.cursor(),
                state_align(align, default_alignment),
            ) + crate::memory::bytes_of(crate::memory::eff_bits(size as nat)) <= u64::MAX
                && old(self).mem.next_alloc_id() < u64::MAX && crate::memory::align_up(
                old(self).mem.cursor(),
                state_align(align, default_alignment),
            ) < vstd::arithmetic::power2::pow2(old(self).mem.pointer_size())),
    {
        let ptr_size = self.mem.pointer_size_exec();
        let addr = match self.allocate(align, size, default_alignment) {
            Ok(a) => a,
            Err(e) => {
                return Err(e);
            },
        };
        // The slot must be addressable at pointer width.
        if ptr_size < 64 && addr >= crate::ops::pow2_u64(ptr_size) {
            return Err(MemoryError::OutOfMemory);
        }
        proof {
            vstd::arithmetic::power2::lemma2_to64();
            vstd::arithmetic::power2::lemma_pow2_pos(ptr_size as nat);
            vstd::arithmetic::div_mod::lemma_small_mod(
                addr as nat,
                vstd::arithmetic::power2::pow2(ptr_size as nat),
            );
        }
        let ctx = crate::context::Context::new();
        Ok(ctx.from_u64(addr, ptr_size))
    }

    /// Resolves an operand to an expression: a bound variable, a
    /// global's address, or an immediate constant.
    pub fn get_var(&self, op: &Operand, ptr_size: u32) -> (r: Option<Expr>)
        requires
            self.inv(),
            1 <= ptr_size <= 64,
        ensures
            r matches Some(e) ==> e.wf(),
            op matches Operand::Var(n) ==> (find_bound(self.vars.view_bindings(), n@) is Some
                ==> r == find_bound(self.vars.view_bindings(), n@)),
            // An unbound name falls back to the globals table: its
            // entry's address at pointer width, or nothing.
            op matches Operand::Var(n) ==> (find_bound(self.vars.view_bindings(), n@) is None
                ==> resolves_global(
                self.globals.spec_get(n@, self.current_loc.module as int),
                ptr_size as nat,
                r,
            )),
            op matches Operand::Imm { v, w } ==> (w >= 1 ==> (r matches Some(e) && e.wid() == w
                && (forall|env: crate::expr::Env|
                #[trigger] e.eval(env) == v as nat % vstd::arithmetic::power2::pow2(w as nat)))),
    {
        let ctx = crate::context::Context::new();
        match op {
            Operand::Var(name) => {
                match self.vars.get(name) {
                    Some(e) => Some(e.clone()),
                    None => {
                        // Not a local: a global's address, if any.
                        match self.globals.get(name, self.current_loc.module) {
                            Some(alloc) => Some(ctx.from_u64(alloc.addr, ptr_size)),
                            None => None,
                        }
                    },
                }
            },
            Operand::Imm { v, w } => {
                if *w >= 1 {
                    Some(ctx.from_u64(*v, *w))
                } else {
                    None
                }
            },
        }
    }

    /// Binds `name` to the expression.
    pub fn assign_bv(&mut self, name: String, bv: Expr)
        requires
            old(self).inv(),
            bv.wf(),
        ensures
            final(self).inv(),
            final(self).vars.view_bindings() == old(self).vars.view_bindings().push(
                VarBinding { name, value: bv },
            ),
            final(self).mem == old(self).mem,
            final(self).current_loc == old(self).current_loc,
            final(self).callstack == old(self).callstack,
            final(self).globals == old(self).globals,
            final(self).symbols == old(self).symbols,
    {
        self.vars.insert(name, bv);
    }

    /// The `start_cyclecount` intrinsic's effect on the state: the
    /// counter restarts at zero and counting begins.
    pub fn start_cycle_count(&mut self)
        requires
            old(self).inv(),
        ensures
            final(self).inv(),
            final(self).cycle_count == 0,
            final(self).counting_cycles,
            final(self).mem == old(self).mem,
            final(self).vars == old(self).vars,
            final(self).callstack == old(self).callstack,
            final(self).globals == old(self).globals,
            final(self).symbols == old(self).symbols,
            final(self).current_loc == old(self).current_loc,
            final(self).last_return == old(self).last_return,
    {
        self.cycle_count = 0;
        self.counting_cycles = true;
    }

    /// The `end_cyclecount` intrinsic's effect on the state: counting
    /// stops and the accumulated count stays readable.
    pub fn end_cycle_count(&mut self)
        requires
            old(self).inv(),
        ensures
            final(self).inv(),
            !final(self).counting_cycles,
            final(self).cycle_count == old(self).cycle_count,
            final(self).mem == old(self).mem,
            final(self).vars == old(self).vars,
            final(self).callstack == old(self).callstack,
            final(self).globals == old(self).globals,
            final(self).symbols == old(self).symbols,
            final(self).current_loc == old(self).current_loc,
            final(self).last_return == old(self).last_return,
    {
        self.counting_cycles = false;
    }

    /// The allocation recorded for a global, if any, preferring the
    /// current module.
    pub fn get_global(&self, name: &String) -> (r: Option<&Allocation>)
        ensures
            r matches Some(a) ==> Some(*a) == self.globals.spec_get(
                name@,
                self.current_loc.module as int,
            ),
            r is None ==> self.globals.spec_get(name@, self.current_loc.module as int) is None,
    {
        self.globals.get(name, self.current_loc.module)
    }
}

impl Clone for State {
    /// A state copy agrees with the original on every component:
    /// forking a path copies everything the path owns.
    fn clone(&self) -> (r: Self)
        ensures
            r.callstack@ == self.callstack@,
            r.current_loc == self.current_loc,
            r.vars.view_bindings() == self.vars.view_bindings(),
            r.mem.view_objects() == self.mem.view_objects(),
            r.mem.pointer_size() == self.mem.pointer_size(),
            r.mem.cursor() == self.mem.cursor(),
            r.globals.view_entries() == self.globals.view_entries(),
            r.symbols@ == self.symbols@,
            r.cycle_count == self.cycle_count,
            r.counting_cycles == self.counting_cycles,
            r.last_return == self.last_return,
            self.inv() ==> r.inv(),
    {
        let mut symbols: Vec<VarBinding> = Vec::new();
        let mut i: usize = 0;
        while i < self.symbols.len()
            invariant
                i <= self.symbols@.len(),
                symbols@ == self.symbols@.subrange(0, i as int),
            decreases self.symbols@.len() - i,
        {
            symbols.push(self.symbols[i].clone());
            proof {
                assert(symbols@ =~= self.symbols@.subrange(0, i + 1));
            }
            i = i + 1;
        }
        proof {
            assert(symbols@ =~= self.symbols@);
        }
        let mut callstack: Vec<Callsite> = Vec::new();
        let mut j: usize = 0;
        while j < self.callstack.len()
            invariant
                j <= self.callstack@.len(),
                callstack@ == self.callstack@.subrange(0, j as int),
            decreases self.callstack@.len() - j,
        {
            callstack.push(self.callstack[j].clone());
            proof {
                assert(callstack@ =~= self.callstack@.subrange(0, j + 1));
            }
            j = j + 1;
        }
        proof {
            assert(callstack@ =~= self.callstack@);
        }
        State {
            callstack,
            current_loc: self.current_loc,
            vars: self.vars.clone(),
            mem: self.mem.clone(),
            globals: self.globals.clone(),
            symbols,
            cycle_count: self.cycle_count,
            counting_cycles: self.counting_cycles,
            last_return: match &self.last_return {
                Some(e) => Some(e.clone()),
                None => None,
            },
        }
    }
}

} // verus!
