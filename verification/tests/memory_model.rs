//! Tests of the symbolic memory: allocation placement, unconstrained
//! fresh objects, write/read round trips, and bounds checks.

use symex::backend::ConcreteBackend;
use symex::context::Context;
use symex::memory::{ALLOCATION_BASE, MemoryError, ObjectMemory};
use symex::solver::Solver;

#[test]
fn allocations_are_monotonic_and_aligned() {
    let mut mem = ObjectMemory::new(32);
    let a1 = mem.allocate(32, 4).unwrap();
    assert_eq!(a1, ALLOCATION_BASE);
    // The next allocation starts past the first, aligned up.
    let a2 = mem.allocate(8, 8).unwrap();
    assert_eq!(a2, ALLOCATION_BASE + 8);
    let a3 = mem.allocate(8, 1).unwrap();
    assert_eq!(a3, ALLOCATION_BASE + 9);
}

#[test]
fn fresh_allocation_reads_unconstrained() {
    // Reading a fresh allocation returns an expression of the
    // requested width with no constant value: the fresh symbol.
    let ctx = Context::new();
    let mut mem = ObjectMemory::new(32);
    let mut solver = Solver::new(ConcreteBackend::new());
    let addr = mem.allocate(32, 4).unwrap();
    let addr_e = ctx.from_u64(addr, 32);
    let read = mem.read(&mut solver, &addr_e, 32).unwrap();
    assert_eq!(read.len(), 32);
    assert_eq!(read.get_constant(), None);
}

#[test]
fn write_then_read_returns_the_written_value() {
    // After write(addr, v), read(addr, v.width) must be equal to v
    // under every satisfiable model.
    let ctx = Context::new();
    let mut mem = ObjectMemory::new(32);
    let mut solver = Solver::new(ConcreteBackend::new());
    let addr = mem.allocate(32, 4).unwrap();
    let addr_e = ctx.from_u64(addr, 32);
    let v = ctx.from_u64(0xDEAD_BEEF, 32);
    mem.write(&mut solver, &addr_e, v.clone()).unwrap();
    let read = mem.read(&mut solver, &addr_e, 32).unwrap();
    assert_eq!(solver.must_be_equal(&read, &v), Ok(true));
    assert_eq!(read.get_constant(), Some(0xDEAD_BEEF));
}

#[test]
fn partial_write_splices_bits() {
    let ctx = Context::new();
    let mut mem = ObjectMemory::new(32);
    let mut solver = Solver::new(ConcreteBackend::new());
    let addr = mem.allocate(32, 4).unwrap();
    let addr_e = ctx.from_u64(addr, 32);
    mem.write(&mut solver, &addr_e, ctx.from_u64(0x1122_3344, 32)).unwrap();
    // Overwrite the second byte only.
    let byte1 = ctx.from_u64(addr + 1, 32);
    mem.write(&mut solver, &byte1, ctx.from_u64(0xAB, 8)).unwrap();
    let read = mem.read(&mut solver, &addr_e, 32).unwrap();
    assert_eq!(read.get_constant(), Some(0x1122_AB44));
    // A single-byte read sees exactly the spliced byte.
    let one = mem.read(&mut solver, &byte1, 8).unwrap();
    assert_eq!(one.get_constant(), Some(0xAB));
}

#[test]
fn out_of_bounds_access_is_rejected() {
    let ctx = Context::new();
    let mut mem = ObjectMemory::new(32);
    let mut solver = Solver::new(ConcreteBackend::new());
    let addr = mem.allocate(32, 4).unwrap();
    let addr_e = ctx.from_u64(addr, 32);
    // Reading past the object's 32 bits fails.
    assert!(matches!(mem.read(&mut solver, &addr_e, 64), Err(MemoryError::OutOfBounds)));
    // Reading from an offset that runs over the end fails too.
    let tail = ctx.from_u64(addr + 3, 32);
    assert!(matches!(mem.read(&mut solver, &tail, 16), Err(MemoryError::OutOfBounds)));
    // Writing past the end fails and changes nothing.
    assert!(matches!(
        mem.write(&mut solver, &tail, ctx.from_u64(0, 16)),
        Err(MemoryError::OutOfBounds)
    ));
}

#[test]
fn address_below_every_object_is_out_of_bounds() {
    // A resolved address outside any object is an out-of-range
    // resolution.
    let ctx = Context::new();
    let mut mem = ObjectMemory::new(32);
    let mut solver = Solver::new(ConcreteBackend::new());
    let _ = mem.allocate(32, 4).unwrap();
    let low = ctx.from_u64(16, 32);
    assert!(matches!(mem.read(&mut solver, &low, 8), Err(MemoryError::OutOfBounds)));
}

#[test]
fn resolution_picks_greatest_base_at_or_below() {
    let ctx = Context::new();
    let mut mem = ObjectMemory::new(32);
    let mut solver = Solver::new(ConcreteBackend::new());
    let a1 = mem.allocate(64, 4).unwrap();
    let a2 = mem.allocate(64, 4).unwrap();
    mem.write(&mut solver, &ctx.from_u64(a1, 32), ctx.from_u64(1, 64)).unwrap();
    mem.write(&mut solver, &ctx.from_u64(a2, 32), ctx.from_u64(2, 64)).unwrap();
    let r = mem.read(&mut solver, &ctx.from_u64(a2, 32), 64).unwrap();
    assert_eq!(r.get_constant(), Some(2));
}

#[test]
fn symbolic_address_with_forced_value_resolves() {
    let ctx = Context::new();
    let mut mem = ObjectMemory::new(32);
    let mut solver = Solver::new(ConcreteBackend::new());
    let addr = mem.allocate(32, 4).unwrap();
    mem.write(&mut solver, &ctx.from_u64(addr, 32), ctx.from_u64(99, 32)).unwrap();
    // A symbolic pointer pinned by a constraint resolves to it.
    let p = ctx.unconstrained(32, "p");
    solver.assert_constraint(&p._eq(&ctx.from_u64(addr, 32)));
    let read = mem.read(&mut solver, &p, 32).unwrap();
    assert_eq!(read.get_constant(), Some(99));
}

#[test]
fn memory_error_messages() {
    assert_eq!(MemoryError::OutOfMemory.message(), "OutOfMemory");
    assert_eq!(MemoryError::OutOfBounds.message(), "OutOfBounds");
    assert_eq!(MemoryError::Unresolved.message(), "Unresolved");
}

#[test]
fn zero_sized_allocation_rounds_up_to_a_byte() {
    // A zero-sized allocation still installs an 8-bit object.
    let ctx = Context::new();
    let mut mem = ObjectMemory::new(32);
    let mut solver = Solver::new(ConcreteBackend::new());
    let addr = mem.allocate(0, 4).unwrap();
    let read = mem.read(&mut solver, &ctx.from_u64(addr, 32), 8).unwrap();
    assert_eq!(read.len(), 8);
    // The next allocation starts one byte later.
    let next = mem.allocate(8, 1).unwrap();
    assert_eq!(next, addr + 1);
}

#[test]
fn undecided_symbolic_address_aborts_with_a_solver_error() {
    // An address the backend cannot concretize propagates the solver
    // failure instead of failing the path silently.
    let ctx = Context::new();
    let mut mem = ObjectMemory::new(32);
    let mut solver = Solver::new(ConcreteBackend::new());
    let _ = mem.allocate(32, 4).unwrap();
    let p = ctx.unconstrained(32, "p");
    assert!(matches!(
        mem.read(&mut solver, &p, 8),
        Err(MemoryError::Solver(symex::solver::SolverError::Unknown))
    ));
}
