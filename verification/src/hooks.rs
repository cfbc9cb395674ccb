//! Named-function hooks and intrinsics.
//!
//! Two lookup surfaces, consulted in this order: the intrinsic table,
//! then the named-function table.  A hook intercepts a call before the
//! callee runs; its action either mutates the path's state (assume,
//! symbolic, the cycle counters) or terminates the path.

use vstd::prelude::*;
use vstd::string::StringExecFns;

use crate::state::Operand;

verus! {

broadcast use vstd::string::group_string_axioms;

/// What a matched hook does.
#[derive(Clone, Copy, PartialEq, Eq, Structural)]
pub enum HookAction {
    /// Fail the path (a panic-style endpoint).
    Abort,
    /// Assert the first argument as a path constraint.
    Assume,
    /// Fill the pointed-to location with a fresh symbol.
    Symbolic,
    /// Drop the path from the results.
    Suppress,
    /// End the path successfully.
    EndSuccess,
    /// End the path as failed.
    EndFailure,
    /// Reset the cycle counter and return to the caller.
    StartCycleCount,
    /// Stop the cycle counter and return to the caller.
    EndCycleCount,
}

/// The captured arguments of an intercepted call.
pub struct FnInfo {
    /// The call's arguments, in order.
    pub arguments: Vec<Operand>,
}

impl FnInfo {
    /// Captures the arguments of a call.
    pub fn from_call(args: &Vec<Operand>) -> (r: FnInfo)
        ensures
            r.arguments@ == args@,
    {
        let mut arguments: Vec<Operand> = Vec::new();
        let mut i: usize = 0;
        while i < args.len()
            invariant
                i <= args@.len(),
                arguments@ == args@.subrange(0, i as int),
            decreases args@.len() - i,
        {
            arguments.push(args[i].clone());
            proof {
                assert(arguments@ =~= args@.subrange(0, i + 1));
            }
            i = i + 1;
        }
        proof {
            assert(arguments@ =~= args@);
        }
        FnInfo { arguments }
    }
}

/// One named hook.
pub struct NamedHook {
    /// The intercepted symbol name.
    pub name: String,
    /// The action taken.
    pub action: HookAction,
}

/// The last action registered in `s` for `name`, if any.
pub open spec fn hook_lookup(s: Seq<NamedHook>, name: Seq<char>) -> Option<HookAction>
    decreases s.len(),
{
    if s.len() == 0 {
        None
    } else if s.last().name@ == name {
        Some(s.last().action)
    } else {
        hook_lookup(s.drop_last(), name)
    }
}

/// The hook tables: intrinsics first, then named functions.
pub struct Hooks {
    hooks: Vec<NamedHook>,
    intrinsics: Vec<NamedHook>,
}

impl Hooks {
    /// The named-function table.
    pub closed spec fn view_hooks(&self) -> Seq<NamedHook> {
        self.hooks@
    }

    /// The intrinsic table.
    pub closed spec fn view_intrinsics(&self) -> Seq<NamedHook> {
        self.intrinsics@
    }

    /// Creates the table with the required default hooks: the
    /// panic family fails the path, `suppress_path` drops it,
    /// `assume` asserts its argument, `symbolic` conjures a fresh
    /// symbol, and the cycle-count intrinsics drive the counter.
    pub fn new() -> (r: Hooks)
        ensures
            hook_lookup(r.view_hooks(), "core::panicking::panic_bounds_check"@) == Some(
                HookAction::Abort,
            ),
            hook_lookup(r.view_hooks(), "panic"@) == Some(HookAction::EndFailure),
            hook_lookup(r.view_hooks(), "panic_cold_explicit"@) == Some(HookAction::EndFailure),
            hook_lookup(r.view_hooks(), "unwrap_failed"@) == Some(HookAction::EndFailure),
            hook_lookup(r.view_hooks(), "unreachable_unchecked"@) == Some(HookAction::EndFailure),
            hook_lookup(r.view_hooks(), "suppress_path"@) == Some(HookAction::Suppress),
            hook_lookup(r.view_hooks(), "assume"@) == Some(HookAction::Assume),
            hook_lookup(r.view_hooks(), "symbolic"@) == Some(HookAction::Symbolic),
            hook_lookup(r.view_intrinsics(), "start_cyclecount"@) == Some(
                HookAction::StartCycleCount,
            ),
            hook_lookup(r.view_intrinsics(), "end_cyclecount"@) == Some(HookAction::EndCycleCount),
            // The intrinsic table holds nothing else, so the lookup
            // order (intrinsics first) cannot shadow a named hook.
            forall|n: Seq<char>|
                (#[trigger] hook_lookup(r.view_intrinsics(), n)) is Some ==> n
                    == "start_cyclecount"@ || n == "end_cyclecount"@,
    {
        let mut hooks = Hooks { hooks: Vec::new(), intrinsics: Vec::new() };
        proof {
            assert(hooks.view_intrinsics() =~= Seq::<NamedHook>::empty());
        }
        let ghost empty_intrinsics = hooks.view_intrinsics();
        hooks.add("core::panicking::panic_bounds_check", HookAction::Abort);
        hooks.add("panic", HookAction::EndFailure);
        hooks.add("panic_cold_explicit", HookAction::EndFailure);
        hooks.add("unwrap_failed", HookAction::EndFailure);
        hooks.add("unreachable_unchecked", HookAction::EndFailure);
        hooks.add("suppress_path", HookAction::Suppress);
        hooks.add("assume", HookAction::Assume);
        hooks.add("symbolic", HookAction::Symbolic);
        hooks.add_intrinsic("start_cyclecount", HookAction::StartCycleCount);
        hooks.add_intrinsic("end_cyclecount", HookAction::EndCycleCount);
        proof {
            reveal_strlit("core::panicking::panic_bounds_check");
            reveal_strlit("panic");
            reveal_strlit("panic_cold_explicit");
            reveal_strlit("unwrap_failed");
            reveal_strlit("unreachable_unchecked");
            reveal_strlit("suppress_path");
            reveal_strlit("assume");
            reveal_strlit("symbolic");
            reveal_strlit("start_cyclecount");
            reveal_strlit("end_cyclecount");
            assert("core::panicking::panic_bounds_check"@.len() == 35);
            assert("panic"@.len() == 5);
            assert("panic_cold_explicit"@.len() == 19);
            assert("unwrap_failed"@.len() == 13);
            assert("unreachable_unchecked"@.len() == 21);
            assert("suppress_path"@.len() == 13);
            assert("assume"@.len() == 6);
            assert("symbolic"@.len() == 8);
            assert("start_cyclecount"@.len() == 16);
            assert("end_cyclecount"@.len() == 14);
            assert("unwrap_failed"@[0] == 'u');
            assert("suppress_path"@[0] == 's');
            assert("start_cyclecount"@ != "end_cyclecount"@);
            assert(empty_intrinsics.len() == 0);
            assert forall|n: Seq<char>|
                (#[trigger] hook_lookup(hooks.view_intrinsics(), n)) is Some implies n
                == "start_cyclecount"@ || n == "end_cyclecount"@ by {
                if n != "start_cyclecount"@ && n != "end_cyclecount"@ {
                    assert(hook_lookup(empty_intrinsics, n) is None);
                }
            }
            assert("core::panicking::panic_bounds_check"@ != "panic"@);
            assert("core::panicking::panic_bounds_check"@ != "panic_cold_explicit"@);
            assert("core::panicking::panic_bounds_check"@ != "unwrap_failed"@);
            assert("core::panicking::panic_bounds_check"@ != "unreachable_unchecked"@);
            assert("core::panicking::panic_bounds_check"@ != "suppress_path"@);
            assert("core::panicking::panic_bounds_check"@ != "assume"@);
            assert("core::panicking::panic_bounds_check"@ != "symbolic"@);
            assert("panic"@ != "panic_cold_explicit"@);
            assert("panic"@ != "unwrap_failed"@);
            assert("panic"@ != "unreachable_unchecked"@);
            assert("panic"@ != "suppress_path"@);
            assert("panic"@ != "assume"@);
            assert("panic"@ != "symbolic"@);
            assert("panic_cold_explicit"@ != "unwrap_failed"@);
            assert("panic_cold_explicit"@ != "unreachable_unchecked"@);
            assert("panic_cold_explicit"@ != "suppress_path"@);
            assert("panic_cold_explicit"@ != "assume"@);
            assert("panic_cold_explicit"@ != "symbolic"@);
            assert("unwrap_failed"@ != "unreachable_unchecked"@);
            assert("unwrap_failed"@ != "suppress_path"@);
            assert("unwrap_failed"@ != "assume"@);
            assert("unwrap_failed"@ != "symbolic"@);
            assert("unreachable_unchecked"@ != "suppress_path"@);
            assert("unreachable_unchecked"@ != "assume"@);
            assert("unreachable_unchecked"@ != "symbolic"@);
            assert("suppress_path"@ != "assume"@);
            assert("suppress_path"@ != "symbolic"@);
            assert("assume"@ != "symbolic"@);
        }
        hooks
    }

    /// Registers a named-function hook; a later registration for the
    /// same name wins.
    pub fn add(&mut self, name: &str, action: HookAction)
        ensures
            hook_lookup(final(self).view_hooks(), name@) == Some(action),
            forall|other: Seq<char>|
                other != name@ ==> #[trigger] hook_lookup(final(self).view_hooks(), other)
                    == hook_lookup(old(self).view_hooks(), other),
            final(self).view_intrinsics() == old(self).view_intrinsics(),
    {
        let owned = name.to_owned();
        self.hooks.push(NamedHook { name: owned, action });
        proof {
            assert(self.hooks@.last().name@ == name@);
            assert(self.hooks@.drop_last() =~= old(self).hooks@);
        }
    }

    /// Registers an intrinsic hook.
    pub fn add_intrinsic(&mut self, name: &str, action: HookAction)
        ensures
            hook_lookup(final(self).view_intrinsics(), name@) == Some(action),
            forall|other: Seq<char>|
                other != name@ ==> #[trigger] hook_lookup(final(self).view_intrinsics(), other)
                    == hook_lookup(old(self).view_intrinsics(), other),
            final(self).view_hooks() == old(self).view_hooks(),
    {
        let owned = name.to_owned();
        self.intrinsics.push(NamedHook { name: owned, action });
        proof {
            assert(self.intrinsics@.last().name@ == name@);
            assert(self.intrinsics@.drop_last() =~= old(self).intrinsics@);
        }
    }

    /// The hook for `name`: the intrinsic table is consulted first,
    /// then the named-function table.
    pub fn get(&self, name: &String) -> (r: Option<HookAction>)
        ensures
            r == if hook_lookup(self.view_intrinsics(), name@) is Some {
                hook_lookup(self.view_intrinsics(), name@)
            } else {
                hook_lookup(self.view_hooks(), name@)
            },
    {
        match Self::table_get(&self.intrinsics, name) {
            Some(a) => Some(a),
            None => Self::table_get(&self.hooks, name),
        }
    }

    /// Finds the last registration of `name` in a table.
    fn table_get(table: &Vec<NamedHook>, name: &String) -> (r: Option<HookAction>)
        ensures
            r == hook_lookup(table@, name@),
    {
        let mut i: usize = table.len();
        proof {
            assert(table@.subrange(0, i as int) =~= table@);
        }
        while i > 0
            invariant
                i <= table@.len(),
                hook_lookup(table@, name@) == hook_lookup(table@.subrange(0, i as int), name@),
            decreases i,
        {
            let ghost pre = table@.subrange(0, i as int);
            if table[i - 1].name == *name {
                proof {
                    assert(pre.last() == table@[i - 1]);
                }
                return Some(table[i - 1].action);
            }
            proof {
                assert(pre.last() == table@[i - 1]);
                assert(pre.drop_last() =~= table@.subrange(0, i - 1));
            }
            i = i - 1;
        }
        proof {
            assert(table@.subrange(0, 0) =~= Seq::<NamedHook>::empty());
        }
        None
    }
}

} // verus!
