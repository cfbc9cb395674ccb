//! Tests of the solver layer: scope round trips, equality queries, and
//! solution enumeration over the engine's own backend.

use symex::backend::ConcreteBackend;
use symex::context::Context;
use symex::solver::{Solutions, Solver, SolverError};

#[test]
fn empty_solver_is_satisfiable() {
    let mut solver = Solver::new(ConcreteBackend::new());
    assert_eq!(solver.is_sat(), Ok(true));
}

#[test]
fn push_assert_pop_restores_is_sat() {
    // The scope round trip: push, assert a contradiction, pop; the
    // answer of is_sat is exactly what it was before the push.
    let ctx = Context::new();
    let mut solver = Solver::new(ConcreteBackend::new());
    let before = solver.is_sat();
    assert_eq!(before, Ok(true));
    solver.push(1);
    solver.assert_constraint(&ctx.from_bool(false));
    assert_eq!(solver.is_sat(), Ok(false));
    solver.pop(1);
    assert_eq!(solver.is_sat(), before);
}

#[test]
fn asserted_contradiction_is_unsat() {
    let ctx = Context::new();
    let mut solver = Solver::new(ConcreteBackend::new());
    let x = ctx.unconstrained(8, "x");
    solver.assert_constraint(&x._eq(&ctx.from_u64(1, 8)));
    solver.assert_constraint(&x._eq(&ctx.from_u64(2, 8)));
    assert_eq!(solver.is_sat(), Ok(false));
}

#[test]
fn forced_equality_concretizes() {
    let ctx = Context::new();
    let mut solver = Solver::new(ConcreteBackend::new());
    let x = ctx.unconstrained(32, "x");
    solver.assert_constraint(&x._eq(&ctx.from_u64(42, 32)));
    assert_eq!(solver.is_sat(), Ok(true));
    assert_eq!(solver.get_value(&x), Ok(Some(42)));
}

#[test]
fn is_sat_with_constraint_leaves_no_residue() {
    let ctx = Context::new();
    let mut solver = Solver::new(ConcreteBackend::new());
    let x = ctx.unconstrained(8, "x");
    let forced = x._eq(&ctx.from_u64(5, 8));
    solver.assert_constraint(&forced);
    // An assumption inconsistent with the constraint is unsatisfiable.
    let other = x._eq(&ctx.from_u64(6, 8));
    assert_eq!(solver.is_sat_with_constraint(&other), Ok(false));
    // The assumption did not stick: the solver is still satisfiable.
    assert_eq!(solver.is_sat(), Ok(true));
}

#[test]
fn must_be_equal_on_constants() {
    let ctx = Context::new();
    let mut solver = Solver::new(ConcreteBackend::new());
    let a = ctx.from_u64(7, 16);
    let b = ctx.from_u64(7, 16);
    let c = ctx.from_u64(8, 16);
    assert_eq!(solver.must_be_equal(&a, &b), Ok(true));
    assert_eq!(solver.must_be_equal(&a, &c), Ok(false));
}

#[test]
fn must_be_equal_through_constraint() {
    let ctx = Context::new();
    let mut solver = Solver::new(ConcreteBackend::new());
    let x = ctx.unconstrained(8, "x");
    solver.assert_constraint(&x._eq(&ctx.from_u64(9, 8)));
    assert_eq!(solver.must_be_equal(&x, &ctx.from_u64(9, 8)), Ok(true));
}

#[test]
fn can_equal_finds_a_witness() {
    let ctx = Context::new();
    let mut solver = Solver::new(ConcreteBackend::new());
    let x = ctx.unconstrained(8, "x");
    let seven = ctx.from_u64(7, 8);
    assert_eq!(solver.can_equal(&x, &seven), Ok(true));
}

#[test]
fn get_values_enumerates_exactly_the_forced_value() {
    // Values returned are distinct and each satisfies the constraints;
    // `Exactly` means the solver proved no further value exists.
    let ctx = Context::new();
    let mut solver = Solver::new(ConcreteBackend::new());
    let x = ctx.unconstrained(16, "x");
    solver.assert_constraint(&x._eq(&ctx.from_u64(5, 16)));
    match solver.get_values(&x, 4) {
        Ok(Solutions::Exactly(vs)) => {
            assert_eq!(vs.len(), 1);
            assert_eq!(vs[0].get_constant(), Some(5));
        },
        _ => panic!("expected an exact enumeration"),
    }
    // The enumeration left the constraints as they were.
    assert_eq!(solver.is_sat(), Ok(true));
    assert_eq!(solver.get_value(&x), Ok(Some(5)));
}

#[test]
fn get_values_of_a_constant() {
    let ctx = Context::new();
    let mut solver = Solver::new(ConcreteBackend::new());
    let e = ctx.from_u64(77, 32);
    match solver.get_values(&e, 2) {
        Ok(Solutions::Exactly(vs)) => {
            assert_eq!(vs.len(), 1);
            assert_eq!(vs[0].get_constant(), Some(77));
        },
        _ => panic!("expected an exact enumeration"),
    }
}

#[test]
fn unknown_outside_the_concrete_fragment() {
    // Constraints over two unresolved symbols leave the fragment the
    // engine's backend decides.
    let ctx = Context::new();
    let mut solver = Solver::new(ConcreteBackend::new());
    let x = ctx.unconstrained(8, "x");
    let y = ctx.unconstrained(8, "y");
    solver.assert_constraint(&x.ult(&y));
    solver.assert_constraint(&y.ult(&x));
    assert_eq!(solver.is_sat(), Err(SolverError::Unknown));
}

#[test]
fn candidate_search_decides_single_symbol_inequalities() {
    let ctx = Context::new();
    let mut solver = Solver::new(ConcreteBackend::new());
    let x = ctx.unconstrained(32, "x");
    let ten = ctx.from_u64(10, 32);
    solver.assert_constraint(&x.ult(&ten));
    assert_eq!(solver.is_sat(), Ok(true));
    solver.assert_constraint(&ctx.from_u64(5, 32).ult(&x));
    assert_eq!(solver.is_sat(), Ok(true));
}

#[test]
fn solver_error_messages() {
    assert_eq!(SolverError::Unknown.message(), "Unknown");
    assert_eq!(SolverError::Unsat.message(), "Unsat");
}

#[test]
fn is_sat_with_constraints_combines_assumptions() {
    let ctx = Context::new();
    let mut solver = Solver::new(ConcreteBackend::new());
    let x = ctx.unconstrained(8, "x");
    let both = vec![x._eq(&ctx.from_u64(3, 8)), x._eq(&ctx.from_u64(4, 8))];
    assert_eq!(solver.is_sat_with_constraints(&both), Ok(false));
    let consistent = vec![x._eq(&ctx.from_u64(3, 8)), x.ult(&ctx.from_u64(9, 8))];
    assert_eq!(solver.is_sat_with_constraints(&consistent), Ok(true));
    // No residue: the solver is unchanged.
    assert_eq!(solver.is_sat(), Ok(true));
}
