//! The symbolic memory: a linear allocator and an object store.
//!
//! Memory is a sorted list of non-overlapping objects, each a symbolic
//! bitvector at a concrete base address.  Reads and writes take a
//! symbolic address, concretize it through the solver, pick the object
//! with the greatest base at or below the resolved address, check
//! bounds, and slice or splice the object's value.

use vstd::prelude::*;
use vstd::arithmetic::div_mod::{lemma_fundamental_div_mod, lemma_mod_multiples_basic};
use vstd::arithmetic::mul::lemma_mul_is_commutative;
use vstd::pervasive::VecAdditionalExecFns;
use vstd::string::{StrSliceExecFns, StringExecFns};

use crate::derived::replace_val;
use crate::expr::{Env, Expr, slice_val};
use crate::solver::{Backend, Solver, SolverError, holds, satisfiable};

verus! {

/// Errors of the memory subsystem.
#[derive(Clone, Copy, Debug, PartialEq, Eq, Structural)]
pub enum MemoryError {
    /// The allocator is exhausted.
    OutOfMemory,
    /// A resolved access falls outside the resolved object.
    OutOfBounds,
    /// A symbolic address could not be concretized.
    Unresolved,
    /// The satisfiability backend failed while resolving an address;
    /// this aborts the whole exploration rather than one path.
    Solver(SolverError),
}

impl MemoryError {
    /// A short description of the error.
    pub fn message(&self) -> (r: &'static str) {
        match self {
            MemoryError::OutOfMemory => "OutOfMemory",
            MemoryError::OutOfBounds => "OutOfBounds",
            MemoryError::Unresolved => "Unresolved",
            MemoryError::Solver(e) => e.message(),
        }
    }
}

/// The first address the allocator hands out.
pub const ALLOCATION_BASE: u64 = 0x1000;

/// The number of bytes an allocation of `bits` bits occupies: bits
/// rounded up to whole bytes, and zero-sized allocations rounded up to
/// one byte.
pub open spec fn bytes_of(bits: nat) -> nat {
    if bits == 0 {
        1nat
    } else {
        ((bits + 7) / 8) as nat
    }
}

/// The width an allocation of `bits` bits actually gets: zero-sized
/// allocations are rounded up to 8 bits.
pub open spec fn eff_bits(bits: nat) -> nat {
    if bits == 0 {
        8nat
    } else {
        bits
    }
}

/// `x` rounded up to the next multiple of `a`.
pub open spec fn align_up(x: nat, a: nat) -> nat {
    (((x + a - 1) / (a as int)) * (a as int)) as nat
}

/// Rounding up to a multiple reaches at least the value and is a
/// multiple of the alignment.
pub proof fn lemma_align_up(x: nat, a: nat)
    requires
        a >= 1,
    ensures
        align_up(x, a) >= x,
        align_up(x, a) % a == 0,
        align_up(x, a) < x + a,
{
    let s = x + a - 1;
    lemma_fundamental_div_mod(s as int, a as int);
    lemma_mod_multiples_basic((s / (a as int)) as int, a as int);
    lemma_mul_is_commutative((s / (a as int)) as int, a as int);
}

/// A linear allocator: hands out monotonically increasing aligned
/// addresses and never reuses them.
pub struct LinearAllocator {
    next: u64,
}

impl LinearAllocator {
    /// The next free address.
    pub closed spec fn cursor(&self) -> nat {
        self.next as nat
    }

    /// Creates an allocator starting at [`ALLOCATION_BASE`].
    pub fn new() -> (r: LinearAllocator)
        ensures
            r.cursor() == ALLOCATION_BASE,
    {
        LinearAllocator { next: ALLOCATION_BASE }
    }

    /// Reserves room for `bits` bits aligned to `align` bytes, and
    /// returns the address and the number of bytes reserved.  Succeeds
    /// exactly when the aligned reservation fits the address space,
    /// and fails with `OutOfMemory` otherwise.
    pub fn get_address(&mut self, bits: u64, align: u64) -> (r: Result<(u64, u64), MemoryError>)
        requires
            align >= 1,
        ensures
            r matches Ok(p) ==> p.0 as nat == align_up(old(self).cursor(), align as nat)
                && p.1 as nat == bytes_of(bits as nat)
                && final(self).cursor() == p.0 + p.1
                && p.0 >= old(self).cursor(),
            r matches Err(e) ==> *final(self) == *old(self) && e == MemoryError::OutOfMemory,
            r is Ok <==> align_up(old(self).cursor(), align as nat) + bytes_of(bits as nat)
                <= u64::MAX,
    {
        proof {
            lemma_align_up(self.next as nat, align as nat);
        }
        let bytes: u128 = if bits == 0 {
            1
        } else {
            ((bits as u128) + 7) / 8
        };
        let aligned: u128 = ((self.next as u128 + (align as u128 - 1)) / (align as u128)) * (
        align as u128);
        proof {
            assert(aligned as nat == align_up(old(self).cursor(), align as nat));
            assert(bytes as nat == bytes_of(bits as nat));
        }
        if aligned + bytes > u64::MAX as u128 {
            return Err(MemoryError::OutOfMemory);
        }
        let addr = aligned as u64;
        self.next = addr + bytes as u64;
        Ok((addr, bytes as u64))
    }
}

/// One memory object: a symbolic value of `size` bits based at a
/// concrete address.
pub struct MemoryObject {
    /// The base address.
    pub address: u64,
    /// The size in bits.
    pub size: u64,
    /// The value stored in the object.
    pub bv: Expr,
}

/// Well-formedness of one object: the value matches the size and the
/// object's extent fits the address space.
pub open spec fn obj_wf(o: MemoryObject) -> bool {
    &&& o.bv.wf()
    &&& o.bv.wid() == o.size
    &&& 1 <= o.size <= u32::MAX
    &&& o.address + bytes_of(o.size as nat) <= u64::MAX
}

/// The first address past the object.
pub open spec fn obj_end(o: MemoryObject) -> nat {
    (o.address + bytes_of(o.size as nat)) as nat
}

/// The address-resolution facts: the path's constraints admit a model
/// giving the address the concrete value `v`, and object `i` is the
/// stored object with the greatest base at or below `v`.
pub open spec fn resolution(
    objs: Seq<MemoryObject>,
    cs: Seq<Expr>,
    addr: Expr,
    i: int,
    v: u64,
) -> bool {
    &&& 0 <= i < objs.len()
    &&& objs[i].address <= v
    &&& (forall|j: int|
        0 <= j < objs.len() && (#[trigger] objs[j]).address <= v ==> objs[j].address
            <= objs[i].address)
    &&& (exists|env: Env| #[trigger] holds(env, cs) && addr.eval(env) == v)
}

/// No stored object lies at or below the value.
pub open spec fn unmapped(objs: Seq<MemoryObject>, v: u64) -> bool {
    forall|j: int| 0 <= j < objs.len() ==> (#[trigger] objs[j]).address > v
}

/// A model of the address points below every stored object: the
/// resolved address lies outside any object.
pub open spec fn resolves_unmapped(objs: Seq<MemoryObject>, cs: Seq<Expr>, addr: Expr) -> bool {
    exists|v: u64|
        (exists|env: Env| #[trigger] holds(env, cs) && addr.eval(env) == v) && #[trigger] unmapped(
            objs,
            v,
        )
}

/// What a successful read means: the address resolves (under the
/// solver's constraints) to the concrete value `v`, object `i` is the
/// one addressed, the access lies within it, and the returned
/// expression denotes the addressed bits of that object's value.
pub open spec fn resolved_read(
    objs: Seq<MemoryObject>,
    cs: Seq<Expr>,
    addr: Expr,
    bits: nat,
    e: Expr,
    i: int,
    v: u64,
) -> bool {
    &&& resolution(objs, cs, addr, i, v)
    &&& (v - objs[i].address) * 8 + bits <= objs[i].size
    &&& (forall|env: Env|
        #[trigger] e.eval(env) == slice_val(
            objs[i].bv.eval(env),
            ((v - objs[i].address) * 8) as nat,
            ((v - objs[i].address) * 8 + bits - 1) as nat,
        ))
}

/// What a successful write means: the address resolves to `v` inside
/// object `i`, every other object is untouched, and object `i` keeps
/// its place and size while its value becomes the old value with the
/// written bits replaced.
pub open spec fn resolved_write(
    old_objs: Seq<MemoryObject>,
    new_objs: Seq<MemoryObject>,
    cs: Seq<Expr>,
    addr: Expr,
    value: Expr,
    i: int,
    v: u64,
) -> bool {
    &&& resolution(old_objs, cs, addr, i, v)
    &&& (v - old_objs[i].address) * 8 + value.wid() <= old_objs[i].size
    &&& new_objs.len() == old_objs.len()
    &&& (forall|j: int| 0 <= j < old_objs.len() && j != i ==> new_objs[j] == #[trigger] old_objs[j])
    &&& new_objs[i].address == old_objs[i].address
    &&& new_objs[i].size == old_objs[i].size
    &&& (forall|env: Env|
        #[trigger] new_objs[i].bv.eval(env) == replace_val(
            old_objs[i].bv.eval(env),
            value.eval(env),
            ((v - old_objs[i].address) * 8) as nat,
            value.wid(),
            old_objs[i].size as nat,
        ))
}

/// The object-backed symbolic memory.
pub struct ObjectMemory {
    allocator: LinearAllocator,
    objects: Vec<MemoryObject>,
    ptr_size: u32,
    alloc_id: u64,
}

impl ObjectMemory {
    /// The stored objects, ordered by base address.
    pub closed spec fn view_objects(&self) -> Seq<MemoryObject> {
        self.objects@
    }

    /// The width of pointers handed to reads and writes.
    pub closed spec fn pointer_size(&self) -> nat {
        self.ptr_size as nat
    }

    /// The allocator's next free address.
    pub closed spec fn cursor(&self) -> nat {
        self.allocator.cursor()
    }

    /// The counter that names the next allocation's fresh symbol.
    pub closed spec fn next_alloc_id(&self) -> nat {
        self.alloc_id as nat
    }

    /// The memory invariant: objects are well formed, sorted by
    /// address, never overlapping, and all placed below the allocator
    /// cursor.
    pub closed spec fn inv(&self) -> bool {
        &&& forall|i: int| 0 <= i < self.objects@.len() ==> obj_wf(#[trigger] self.objects@[i])
        &&& forall|i: int, j: int|
            0 <= i < j < self.objects@.len() ==> obj_end(#[trigger] self.objects@[i]) <= (
            #[trigger] self.objects@[j]).address
        &&& forall|i: int|
            0 <= i < self.objects@.len() ==> obj_end(#[trigger] self.objects@[i])
                <= self.allocator.cursor()
        &&& 1 <= self.ptr_size <= 64
    }

    /// Creates an empty memory for pointers of `ptr_size` bits.
    pub fn new(ptr_size: u32) -> (r: ObjectMemory)
        requires
            1 <= ptr_size <= 64,
        ensures
            r.inv(),
            r.view_objects() == Seq::<MemoryObject>::empty(),
            r.pointer_size() == ptr_size,
            r.cursor() == ALLOCATION_BASE,
            r.next_alloc_id() == 0,
    {
        let r = ObjectMemory {
            allocator: LinearAllocator::new(),
            objects: Vec::new(),
            ptr_size,
            alloc_id: 0,
        };
        proof {
            assert(r.objects@ =~= Seq::<MemoryObject>::empty());
        }
        r
    }

    /// Allocates `bits` bits aligned to `align` bytes and installs a
    /// fresh unconstrained object there; zero-sized allocations are
    /// rounded up to 8 bits.  The new object lands past every existing
    /// one, its value is the fresh symbol labelled with the allocation
    /// counter, and the call succeeds exactly when the aligned
    /// reservation fits the address space and the counter is not
    /// exhausted.
    pub fn allocate(&mut self, bits: u64, align: u64) -> (r: Result<u64, MemoryError>)
        requires
            old(self).inv(),
            align >= 1,
            bits <= u32::MAX,
        ensures
            final(self).inv(),
            final(self).pointer_size() == old(self).pointer_size(),
            r matches Ok(addr) ==> {
                &&& addr as nat == align_up(old(self).cursor(), align as nat)
                &&& final(self).cursor() == addr + bytes_of(eff_bits(bits as nat))
                &&& final(self).next_alloc_id() == old(self).next_alloc_id() + 1
                &&& final(self).view_objects().len() == old(self).view_objects().len() + 1
                &&& final(self).view_objects().subrange(
                    0,
                    old(self).view_objects().len() as int,
                ) == old(self).view_objects()
                &&& final(self).view_objects().last().address == addr
                &&& final(self).view_objects().last().size == eff_bits(bits as nat)
                &&& final(self).view_objects().last().bv is Sym
                &&& final(self).view_objects().last().bv.wid() == eff_bits(bits as nat)
                &&& final(self).view_objects().last().bv->name@ == alloc_label(
                    old(self).next_alloc_id(),
                )
                &&& (forall|j: int|
                    0 <= j < old(self).view_objects().len() ==> obj_end(
                        #[trigger] old(self).view_objects()[j],
                    ) <= addr)
            },
            r matches Err(e) ==> *final(self) == *old(self) && e == MemoryError::OutOfMemory,
            r is Ok <==> (align_up(old(self).cursor(), align as nat) + bytes_of(
                eff_bits(bits as nat),
            ) <= u64::MAX && old(self).next_alloc_id() < u64::MAX),
    {
        // Zero-sized allocations still occupy one addressable byte.
        let eff: u64 = if bits == 0 {
            8
        } else {
            bits
        };
        if self.alloc_id == u64::MAX {
            return Err(MemoryError::OutOfMemory);
        }
        let (addr, bytes) = match self.allocator.get_address(eff, align) {
            Ok(p) => p,
            Err(e) => {
                return Err(e);
            },
        };
        let name = alloc_name(self.alloc_id);
        self.alloc_id = self.alloc_id + 1;
        let obj = MemoryObject { address: addr, size: eff, bv: Expr::Sym { w: eff as u32, name } };
        proof {
            assert(obj.bv.wf());
            assert(obj.bv.wid() == eff);
            assert(obj_wf(obj));
        }
        let ghost prev = self.objects@;
        self.objects.push(obj);
        proof {
            assert forall|i: int| 0 <= i < self.objects@.len() implies obj_wf(
                #[trigger] self.objects@[i],
            ) by {
                if i < prev.len() {
                    assert(self.objects@[i] == prev[i]);
                    assert(obj_wf(prev[i]));
                }
            }
            assert forall|i: int, j: int|
                0 <= i < j < self.objects@.len() implies obj_end(#[trigger] self.objects@[i]) <= (
            #[trigger] self.objects@[j]).address by {
                if j < prev.len() {
                    assert(self.objects@[i] == prev[i] && self.objects@[j] == prev[j]);
                    assert(obj_end(prev[i]) <= prev[j].address);
                } else {
                    assert(self.objects@[i] == prev[i]);
                    assert(obj_end(prev[i]) <= old(self).allocator.cursor());
                }
            }
            assert forall|i: int| 0 <= i < self.objects@.len() implies obj_end(
                #[trigger] self.objects@[i],
            ) <= self.allocator.cursor() by {
                if i < prev.len() {
                    assert(self.objects@[i] == prev[i]);
                    assert(obj_end(prev[i]) <= old(self).allocator.cursor());
                }
            }
            assert(self.objects@.subrange(0, prev.len() as int) =~= prev);
            assert forall|j: int| 0 <= j < prev.len() implies obj_end(#[trigger] prev[j])
                <= addr by {
                assert(obj_end(prev[j]) <= old(self).allocator.cursor());
            }
        }
        Ok(addr)
    }

    /// Concretizes the address through the solver and picks the object
    /// with the greatest base at or below the resolved value.
    /// `Ok(None)` means the path's constraints are unsatisfiable; a
    /// model below every object is an out-of-range resolution and
    /// fails with `OutOfBounds`; a failed backend propagates as a
    /// solver error.
    pub fn resolve_address<B: Backend>(
        &self,
        solver: &mut Solver<B>,
        address: &Expr,
    ) -> (r: Result<Option<(u64, usize)>, MemoryError>)
        requires
            self.inv(),
            old(solver).inv(),
            address.wf(),
            address.wid() == self.pointer_size(),
        ensures
            final(solver).inv(),
            final(solver).view_constraints() == old(solver).view_constraints(),
            final(solver).depth() == old(solver).depth(),
            r matches Ok(Some(p)) ==> resolution(
                self.view_objects(),
                old(solver).view_constraints(),
                *address,
                p.1 as int,
                p.0,
            ),
            r matches Ok(None) ==> !satisfiable(old(solver).view_constraints()),
            r == Err::<Option<(u64, usize)>, MemoryError>(MemoryError::OutOfBounds)
                ==> resolves_unmapped(
                self.view_objects(),
                old(solver).view_constraints(),
                *address,
            ),
            r matches Err(e) ==> e == MemoryError::OutOfBounds || e == MemoryError::Solver(
                SolverError::Unknown,
            ),
    {
        let v = match solver.get_value(address) {
            Ok(Some(v)) => v,
            Ok(None) => {
                return Ok(None);
            },
            Err(e) => {
                return Err(MemoryError::Solver(e));
            },
        };
        match self.find_object(v) {
            Some(i) => Ok(Some((v, i))),
            None => {
                proof {
                    assert(unmapped(self.view_objects(), v));
                }
                Err(MemoryError::OutOfBounds)
            },
        }
    }

    /// The mutable-access variant of [`ObjectMemory::resolve_address`]:
    /// the same resolution, for callers about to update the object.
    pub fn resolve_address_mut<B: Backend>(
        &mut self,
        solver: &mut Solver<B>,
        address: &Expr,
    ) -> (r: Result<Option<(u64, usize)>, MemoryError>)
        requires
            old(self).inv(),
            old(solver).inv(),
            address.wf(),
            address.wid() == old(self).pointer_size(),
        ensures
            *final(self) == *old(self),
            final(solver).inv(),
            final(solver).view_constraints() == old(solver).view_constraints(),
            final(solver).depth() == old(solver).depth(),
            r matches Ok(Some(p)) ==> resolution(
                old(self).view_objects(),
                old(solver).view_constraints(),
                *address,
                p.1 as int,
                p.0,
            ),
            r matches Ok(None) ==> !satisfiable(old(solver).view_constraints()),
            r == Err::<Option<(u64, usize)>, MemoryError>(MemoryError::OutOfBounds)
                ==> resolves_unmapped(
                old(self).view_objects(),
                old(solver).view_constraints(),
                *address,
            ),
            r matches Err(e) ==> e == MemoryError::OutOfBounds || e == MemoryError::Solver(
                SolverError::Unknown,
            ),
    {
        self.resolve_address(solver, address)
    }

    /// The index of the object with the greatest base address at or
    /// below `v`, if any.
    fn find_object(&self, v: u64) -> (r: Option<usize>)
        requires
            self.inv(),
        ensures
            r matches Some(i) ==> i < self.view_objects().len()
                && self.view_objects()[i as int].address <= v && (forall|j: int|
                0 <= j < self.view_objects().len() && (#[trigger] self.view_objects()[j]).address
                    <= v ==> self.view_objects()[j].address
                    <= self.view_objects()[i as int].address),
            r is None ==> forall|j: int|
                0 <= j < self.view_objects().len() ==> (#[trigger] self.view_objects()[j]).address
                    > v,
    {
        let mut best: Option<usize> = None;
        let mut i: usize = 0;
        while i < self.objects.len()
            invariant
                self.inv(),
                i <= self.objects@.len(),
                best matches Some(b) ==> b < i && self.objects@[b as int].address <= v && (forall|
                    j: int,
                |
                    0 <= j < i && (#[trigger] self.objects@[j]).address <= v
                        ==> self.objects@[j].address <= self.objects@[b as int].address),
                best is None ==> forall|j: int|
                    0 <= j < i ==> (#[trigger] self.objects@[j]).address > v,
            decreases self.objects@.len() - i,
        {
            if self.objects[i].address <= v {
                match best {
                    Some(b) => {
                        if self.objects[i].address >= self.objects[b].address {
                            best = Some(i);
                        }
                    },
                    None => {
                        best = Some(i);
                    },
                }
            }
            i = i + 1;
        }
        best
    }

    /// Reads `bits` bits at the symbolic address: the resolved
    /// object's value, sliced at the byte offset of the resolved
    /// address.  Out-of-object accesses fail with `OutOfBounds`; an
    /// address resolving below every object (or a dead path) fails
    /// with `Unresolved`; a failed backend propagates as a solver
    /// error.
    pub fn read<B: Backend>(&self, solver: &mut Solver<B>, addr: &Expr, bits: u32) -> (r: Result<
        Expr,
        MemoryError,
    >)
        requires
            self.inv(),
            old(solver).inv(),
            addr.wf(),
            addr.wid() == self.pointer_size(),
            bits >= 1,
        ensures
            final(solver).inv(),
            final(solver).view_constraints() == old(solver).view_constraints(),
            final(solver).depth() == old(solver).depth(),
            r matches Ok(e) ==> e.wf() && e.wid() == bits && (exists|i: int, v: u64|
                #[trigger] resolved_read(
                    self.view_objects(),
                    old(solver).view_constraints(),
                    *addr,
                    bits as nat,
                    e,
                    i,
                    v,
                )),
            // Each error names its cause: a dead path is unresolved, a
            // resolution outside any object or past the resolved
            // object's end is out of bounds.
            r == Err::<Expr, MemoryError>(MemoryError::Unresolved) ==> !satisfiable(
                old(solver).view_constraints(),
            ),
            r == Err::<Expr, MemoryError>(MemoryError::OutOfBounds) ==> resolves_unmapped(
                self.view_objects(),
                old(solver).view_constraints(),
                *addr,
            ) || (exists|i: int, v: u64|
                #[trigger] resolution(
                    self.view_objects(),
                    old(solver).view_constraints(),
                    *addr,
                    i,
                    v,
                ) && (v - self.view_objects()[i].address) * 8 + bits > self.view_objects()[i].size),
            r matches Err(e) ==> (e is Solver ==> e == MemoryError::Solver(SolverError::Unknown)),
            r matches Err(e) ==> !(e is OutOfMemory),
    {
        let (v, i) = match self.resolve_address(solver, addr) {
            Ok(Some(p)) => p,
            Ok(None) => {
                return Err(MemoryError::Unresolved);
            },
            Err(e) => {
                return Err(e);
            },
        };
        let obj = &self.objects[i];
        let byte_offset = v - obj.address;
        // The access must lie inside the resolved object.
        if byte_offset > u64::MAX / 8 {
            proof {
                assert((v - obj.address) * 8 + bits > obj.size);
            }
            return Err(MemoryError::OutOfBounds);
        }
        let bit_offset = byte_offset * 8;
        if bit_offset > u64::MAX - bits as u64 || bit_offset + bits as u64 > obj.size {
            proof {
                assert((v - obj.address) * 8 + bits > obj.size);
            }
            return Err(MemoryError::OutOfBounds);
        }
        let e = obj.bv.slice(bit_offset as u32, (bit_offset + bits as u64 - 1) as u32);
        proof {
            assert(resolved_read(
                self.view_objects(),
                old(solver).view_constraints(),
                *addr,
                bits as nat,
                e,
                i as int,
                v,
            ));
        }
        Ok(e)
    }

    /// Writes `value` at the symbolic address.  A value of exactly the
    /// object's size replaces the object's value; a smaller value is
    /// spliced in at the resolved offset.  The resulting object value
    /// is the old value with the written bits replaced; errors are
    /// reported as for [`ObjectMemory::read`].
    pub fn write<B: Backend>(&mut self, solver: &mut Solver<B>, addr: &Expr, value: Expr) -> (r:
        Result<(), MemoryError>)
        requires
            old(self).inv(),
            old(solver).inv(),
            addr.wf(),
            addr.wid() == old(self).pointer_size(),
            value.wf(),
        ensures
            final(self).inv(),
            final(self).pointer_size() == old(self).pointer_size(),
            final(self).cursor() == old(self).cursor(),
            final(solver).inv(),
            final(solver).view_constraints() == old(solver).view_constraints(),
            final(solver).depth() == old(solver).depth(),
            r is Err ==> final(self).view_objects() == old(self).view_objects(),
            r is Ok ==> exists|i: int, v: u64|
                #[trigger] resolved_write(
                    old(self).view_objects(),
                    final(self).view_objects(),
                    old(solver).view_constraints(),
                    *addr,
                    value,
                    i,
                    v,
                ),
            // Each error names its cause: a dead path is unresolved, a
            // resolution outside any object or past the resolved
            // object's end is out of bounds.
            r == Err::<(), MemoryError>(MemoryError::Unresolved) ==> !satisfiable(
                old(solver).view_constraints(),
            ),
            r == Err::<(), MemoryError>(MemoryError::OutOfBounds) ==> resolves_unmapped(
                old(self).view_objects(),
                old(solver).view_constraints(),
                *addr,
            ) || (exists|i: int, v: u64|
                #[trigger] resolution(
                    old(self).view_objects(),
                    old(solver).view_constraints(),
                    *addr,
                    i,
                    v,
                ) && (v - old(self).view_objects()[i].address) * 8 + value.wid() > old(
                    self,
                ).view_objects()[i].size),
            r matches Err(e) ==> (e is Solver ==> e == MemoryError::Solver(SolverError::Unknown)),
            r matches Err(e) ==> !(e is OutOfMemory),
            // Frames on failure and on the counter.
            final(self).next_alloc_id() == old(self).next_alloc_id(),
            r is Err ==> final(self).cursor() == old(self).cursor(),
    {
        let value_len = value.len();
        let (v, i) = match self.resolve_address_mut(solver, addr) {
            Ok(Some(p)) => p,
            Ok(None) => {
                return Err(MemoryError::Unresolved);
            },
            Err(e) => {
                return Err(e);
            },
        };
        let obj = &self.objects[i];
        let byte_offset = v - obj.address;
        if byte_offset > u64::MAX / 8 {
            proof {
                assert((v - obj.address) * 8 + value.wid() > obj.size);
            }
            return Err(MemoryError::OutOfBounds);
        }
        let bit_offset = byte_offset * 8;
        if bit_offset > u64::MAX - value_len as u64 || bit_offset + value_len as u64 > obj.size {
            proof {
                assert((v - obj.address) * 8 + value.wid() > obj.size);
            }
            return Err(MemoryError::OutOfBounds);
        }
        let new_bv = obj.bv.replace_part(bit_offset as u32, value);
        let new_obj = MemoryObject { address: obj.address, size: obj.size, bv: new_bv };
        let ghost prev = self.objects@;
        self.objects.set(i, new_obj);
        proof {
            assert forall|k: int| 0 <= k < self.objects@.len() implies obj_wf(
                #[trigger] self.objects@[k],
            ) by {
                if k != i {
                    assert(self.objects@[k] == prev[k]);
                }
                assert(obj_wf(prev[k]));
            }
            assert forall|k: int, j: int|
                0 <= k < j < self.objects@.len() implies obj_end(#[trigger] self.objects@[k]) <= (
            #[trigger] self.objects@[j]).address by {
                assert(obj_end(prev[k]) <= prev[j].address);
                assert(obj_end(self.objects@[k]) == obj_end(prev[k]));
                assert(self.objects@[j].address == prev[j].address);
            }
            assert forall|k: int| 0 <= k < self.objects@.len() implies obj_end(
                #[trigger] self.objects@[k],
            ) <= self.allocator.cursor() by {
                assert(obj_end(self.objects@[k]) == obj_end(prev[k]));
                assert(obj_end(prev[k]) <= self.allocator.cursor());
            }
            assert(resolved_write(
                old(self).view_objects(),
                self.view_objects(),
                old(solver).view_constraints(),
                *addr,
                value,
                i as int,
                v,
            ));
        }
        Ok(())
    }
}

impl Clone for MemoryObject {
    /// An object copy is equal to the original.
    fn clone(&self) -> (r: Self)
        ensures
            r == *self,
    {
        MemoryObject { address: self.address, size: self.size, bv: self.bv.clone() }
    }
}

impl ObjectMemory {
    /// The pointer width, at run time.
    pub fn pointer_size_exec(&self) -> (r: u32)
        ensures
            r as nat == self.pointer_size(),
    {
        self.ptr_size
    }
}

impl Clone for ObjectMemory {
    /// A memory copy holds exactly the original's objects: forking a
    /// path copies them.
    fn clone(&self) -> (r: Self)
        ensures
            r.view_objects() == self.view_objects(),
            r.pointer_size() == self.pointer_size(),
            r.cursor() == self.cursor(),
            self.inv() ==> r.inv(),
    {
        let mut objects: Vec<MemoryObject> = Vec::new();
        let mut i: usize = 0;
        while i < self.objects.len()
            invariant
                i <= self.objects@.len(),
                objects@ == self.objects@.subrange(0, i as int),
            decreases self.objects@.len() - i,
        {
            objects.push(self.objects[i].clone());
            proof {
                assert(objects@ =~= self.objects@.subrange(0, i + 1));
            }
            i = i + 1;
        }
        proof {
            assert(objects@ =~= self.objects@);
        }
        ObjectMemory {
            allocator: LinearAllocator { next: self.allocator.next },
            objects,
            ptr_size: self.ptr_size,
            alloc_id: self.alloc_id,
        }
    }
}

/// The character of one decimal digit.
pub open spec fn digit_char(d: nat) -> char {
    if d == 0 {
        '0'
    } else if d == 1 {
        '1'
    } else if d == 2 {
        '2'
    } else if d == 3 {
        '3'
    } else if d == 4 {
        '4'
    } else if d == 5 {
        '5'
    } else if d == 6 {
        '6'
    } else if d == 7 {
        '7'
    } else if d == 8 {
        '8'
    } else {
        '9'
    }
}

/// The decimal digits of `n`, most significant first.
pub open spec fn dec_digits(n: nat) -> Seq<char>
    decreases n,
{
    if n < 10 {
        seq![digit_char(n)]
    } else {
        dec_digits(n / 10).push(digit_char(n % 10))
    }
}

/// The label of the `n`-th allocation: `alloc` followed by the decimal
/// digits of `n`.
pub open spec fn alloc_label(n: nat) -> Seq<char> {
    "alloc"@ + dec_digits(n)
}

/// A decimal digit string has at least one digit, and two for numbers
/// of two digits.
proof fn lemma_dec_digits_len(n: nat)
    ensures
        dec_digits(n).len() >= 1,
        n >= 10 ==> dec_digits(n).len() >= 2,
    decreases n,
{
    if n >= 10 {
        lemma_dec_digits_len(n / 10);
    }
}

/// Decimal digit strings are injective: distinct numbers have distinct
/// digit strings.
proof fn lemma_dec_digits_injective(m: nat, n: nat)
    requires
        dec_digits(m) == dec_digits(n),
    ensures
        m == n,
    decreases m,
{
    lemma_dec_digits_len(m);
    lemma_dec_digits_len(n);
    if m < 10 && n < 10 {
        assert(dec_digits(m)[0] == digit_char(m));
        assert(dec_digits(n)[0] == digit_char(n));
    } else if m < 10 || n < 10 {
        // One string has one digit, the other at least two.
        assert(dec_digits(m).len() == dec_digits(n).len());
    } else {
        assert(dec_digits(m).last() == digit_char(m % 10));
        assert(dec_digits(n).last() == digit_char(n % 10));
        assert(m % 10 == n % 10);
        assert(dec_digits(m).drop_last() =~= dec_digits(m / 10));
        assert(dec_digits(n).drop_last() =~= dec_digits(n / 10));
        lemma_dec_digits_injective(m / 10, n / 10);
    }
}

/// Allocation labels never repeat: distinct allocation counters give
/// distinct labels.  Together with the counter clause of
/// [`ObjectMemory::allocate`], every allocation's fresh symbol is
/// distinct from every other allocation's, so a fresh object is
/// unconstrained: no earlier allocation shares its symbol.
pub proof fn lemma_alloc_label_injective(m: nat, n: nat)
    requires
        alloc_label(m) == alloc_label(n),
    ensures
        m == n,
{
    let p = "alloc"@;
    assert((p + dec_digits(m)).skip(p.len() as int) =~= dec_digits(m));
    assert((p + dec_digits(n)).skip(p.len() as int) =~= dec_digits(n));
    lemma_dec_digits_injective(m, n);
}

/// The label of the `n`-th allocation, built at run time.
fn alloc_name(n: u64) -> (r: String)
    ensures
        r@ == alloc_label(n as nat),
{
    let mut s = String::from_str("alloc");
    append_decimal(&mut s, n);
    proof {
        assert(s@ =~= alloc_label(n as nat));
    }
    s
}

/// Appends the decimal digits of `n`.
pub(crate) fn append_decimal(s: &mut String, n: u64)
    ensures
        final(s)@ == old(s)@ + dec_digits(n as nat),
    decreases n,
{
    let ghost before = s@;
    if n >= 10 {
        append_decimal(s, n / 10);
    }
    let d = n % 10;
    let digit: &str = if d == 0 {
        "0"
    } else if d == 1 {
        "1"
    } else if d == 2 {
        "2"
    } else if d == 3 {
        "3"
    } else if d == 4 {
        "4"
    } else if d == 5 {
        "5"
    } else if d == 6 {
        "6"
    } else if d == 7 {
        "7"
    } else if d == 8 {
        "8"
    } else {
        "9"
    };
    s.append(digit);
    proof {
        reveal_strlit("0");
        reveal_strlit("1");
        reveal_strlit("2");
        reveal_strlit("3");
        reveal_strlit("4");
        reveal_strlit("5");
        reveal_strlit("6");
        reveal_strlit("7");
        reveal_strlit("8");
        reveal_strlit("9");
        assert(digit@ =~= seq![digit_char(d as nat)]);
        if n < 10 {
            assert(s@ =~= before + dec_digits(n as nat));
        } else {
            assert(dec_digits(n as nat) == dec_digits((n / 10) as nat).push(
                digit_char((n % 10) as nat),
            ));
            assert(s@ =~= before + dec_digits(n as nat));
        }
    }
}

} // verus!
