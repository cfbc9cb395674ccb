//! The incremental satisfiability solver.
//!
//! A [`Solver`] holds the constraints asserted so far and a stack of
//! scopes; the actual decision procedure is a [`Backend`], whose
//! contract ties its answers to the expression semantics: `true` means
//! some assignment satisfies every asserted constraint, `false` means
//! none does.  Everything above the backend — scope push and pop,
//! assumption queries, equality queries and solution enumeration — is
//! verified against that contract.

use vstd::prelude::*;

use crate::expr::{Env, Expr};
use crate::semantics::lemma_eval_in_range;

verus! {

/// Errors of the satisfiability layer.
#[derive(Clone, Copy, Debug, PartialEq, Eq, Structural)]
pub enum SolverError {
    /// The backend could not decide the query.
    Unknown,
    /// The constraints are unsatisfiable where satisfiability was
    /// needed.
    Unsat,
}

impl SolverError {
    /// A short description of the error.
    pub fn message(&self) -> (r: &'static str) {
        match self {
            SolverError::Unknown => "Unknown",
            SolverError::Unsat => "Unsat",
        }
    }
}

/// The solutions found for an expression: either all of them, or a
/// sample that reached the requested bound.
pub enum Solutions<E> {
    /// All solutions: no assignment gives any other value.
    Exactly(Vec<E>),
    /// At least these; more may exist.
    AtLeast(Vec<E>),
}

/// Whether `env` satisfies every constraint of `cs` (each a width-1
/// expression valued 1 for "true").
pub open spec fn holds(env: Env, cs: Seq<Expr>) -> bool {
    forall|i: int| 0 <= i < cs.len() ==> #[trigger] cs[i].eval(env) == 1
}

/// Whether some assignment satisfies every constraint of `cs`.
pub open spec fn satisfiable(cs: Seq<Expr>) -> bool {
    exists|env: Env| #[trigger] holds(env, cs)
}

/// Well-formedness of a constraint list: every element is a
/// well-formed expression of width 1.
pub open spec fn wf_constraints(cs: Seq<Expr>) -> bool {
    forall|i: int| 0 <= i < cs.len() ==> ((#[trigger] cs[i]).wf() && cs[i].wid() == 1)
}

/// An assignment satisfies an extended constraint list exactly when it
/// satisfies the original list and the added constraint.
pub proof fn lemma_holds_push(env: Env, cs: Seq<Expr>, c: Expr)
    ensures
        holds(env, cs.push(c)) <==> (holds(env, cs) && c.eval(env) == 1),
{
    if holds(env, cs) && c.eval(env) == 1 {
        assert forall|i: int| 0 <= i < cs.push(c).len() implies #[trigger] cs.push(c)[i].eval(env)
            == 1 by {
            if i < cs.len() {
                assert(cs[i].eval(env) == 1);
            }
        }
    }
    if holds(env, cs.push(c)) {
        assert forall|i: int| 0 <= i < cs.len() implies #[trigger] cs[i].eval(env) == 1 by {
            assert(cs.push(c)[i].eval(env) == 1);
        }
        assert(cs.push(c)[cs.len() as int].eval(env) == 1);
    }
}

/// An assignment that satisfies a constraint list satisfies every
/// prefix of it.
pub proof fn lemma_holds_prefix(env: Env, cs: Seq<Expr>, n: int)
    requires
        0 <= n <= cs.len(),
        holds(env, cs),
    ensures
        holds(env, cs.subrange(0, n)),
{
    assert forall|i: int| 0 <= i < n implies #[trigger] cs.subrange(0, n)[i].eval(env) == 1 by {
        assert(cs[i].eval(env) == 1);
    }
}

/// The satisfiability oracle behind a [`Solver`].
///
/// The engine's own [`crate::backend::ConcreteBackend`] implements
/// this trait with a verified decision procedure for the concrete
/// fragment; an SMT library can implement it outside the verified
/// crate.  `check` and `get_value` answer for the conjunction of the
/// constraints handed to them; `Err(Unknown)` is always allowed.
pub trait Backend: Sized {
    /// Decides whether the constraints are satisfiable.
    fn check(&mut self, constraints: &Vec<Expr>) -> (r: Result<bool, SolverError>)
        requires
            wf_constraints(constraints@),
        ensures
            r matches Ok(b) ==> b == satisfiable(constraints@),
            r matches Err(e) ==> e == SolverError::Unknown,
    ;

    /// Produces the value of `expr` under some satisfying assignment,
    /// `Ok(None)` when the constraints are unsatisfiable, or
    /// `Err(Unknown)`.
    fn get_value(&mut self, constraints: &Vec<Expr>, expr: &Expr) -> (r: Result<
        Option<u64>,
        SolverError,
    >)
        requires
            wf_constraints(constraints@),
            expr.wf(),
        ensures
            r matches Ok(Some(v)) ==> exists|env: Env|
                #[trigger] holds(env, constraints@) && expr.eval(env) == v,
            r matches Ok(None) ==> !satisfiable(constraints@),
            r matches Err(e) ==> e == SolverError::Unknown,
    ;
}

/// An incremental solver: asserted constraints, a stack of scopes, and
/// a decision backend.
pub struct Solver<B: Backend> {
    backend: B,
    constraints: Vec<Expr>,
    scopes: Vec<usize>,
}

impl<B: Backend> Solver<B> {
    /// The constraints currently asserted, oldest first.
    pub closed spec fn view_constraints(&self) -> Seq<Expr> {
        self.constraints@
    }

    /// The number of open scopes.
    pub closed spec fn depth(&self) -> nat {
        self.scopes@.len()
    }

    /// Internal consistency: scope marks are within bounds and ordered.
    pub closed spec fn inv(&self) -> bool {
        &&& wf_constraints(self.constraints@)
        &&& forall|i: int|
            0 <= i < self.scopes@.len() ==> #[trigger] self.scopes@[i] <= self.constraints@.len()
        &&& forall|i: int, j: int|
            0 <= i <= j < self.scopes@.len() ==> #[trigger] self.scopes@[i] <= #[trigger] self.scopes@[j]
    }

    /// The mark recorded for scope `i`: the number of constraints that
    /// were asserted when that scope was opened.
    pub closed spec fn mark_at(&self, i: int) -> nat {
        self.scopes@[i] as nat
    }

    /// The mark of the innermost scope: where a `pop` would truncate.
    pub closed spec fn top_mark(&self) -> nat {
        if self.scopes@.len() == 0 {
            0
        } else {
            self.scopes@[self.scopes@.len() - 1] as nat
        }
    }

    /// Creates a solver with no constraints and no open scope.
    pub fn new(backend: B) -> (r: Solver<B>)
        ensures
            r.inv(),
            r.view_constraints() == Seq::<Expr>::empty(),
            r.depth() == 0,
    {
        let r = Solver { backend, constraints: Vec::new(), scopes: Vec::new() };
        proof {
            assert(r.constraints@ =~= Seq::<Expr>::empty());
        }
        r
    }

    /// Opens `n` nested scopes.
    pub fn push(&mut self, n: u32)
        requires
            old(self).inv(),
        ensures
            final(self).inv(),
            final(self).view_constraints() == old(self).view_constraints(),
            final(self).depth() == old(self).depth() + n,
            n >= 1 ==> final(self).top_mark() == old(self).view_constraints().len(),
    {
        let mut i: u32 = 0;
        while i < n
            invariant
                self.inv(),
                i <= n,
                self.constraints@ == old(self).constraints@,
                self.scopes@.len() == old(self).scopes@.len() + i,
                i >= 1 ==> self.top_mark() == old(self).constraints@.len(),
            decreases n - i,
        {
            let mark = self.constraints.len();
            self.scopes.push(mark);
            i = i + 1;
        }
    }

    /// Closes the innermost `n` scopes, dropping every constraint
    /// asserted since the matching `push`.
    pub fn pop(&mut self, n: u32)
        requires
            old(self).inv(),
            1 <= n <= old(self).depth(),
        ensures
            final(self).inv(),
            final(self).depth() == old(self).depth() - n,
            final(self).view_constraints() == old(self).view_constraints().subrange(
                0,
                old(self).mark_at(old(self).depth() - n) as int,
            ),
            n == 1 ==> final(self).view_constraints() == old(self).view_constraints().subrange(
                0,
                old(self).top_mark() as int,
            ),
    {
        let mut i: u32 = 0;
        let ghost orig = *self;
        while i < n
            invariant
                self.inv(),
                i <= n,
                n <= orig.depth(),
                orig.inv(),
                self.scopes@ == orig.scopes@.subrange(0, (orig.depth() - i) as int),
                i == 0 ==> self.constraints@ == orig.constraints@,
                i >= 1 ==> self.constraints@ == orig.constraints@.subrange(
                    0,
                    orig.scopes@[orig.depth() - i] as int,
                ),
            decreases n - i,
        {
            let mark = self.scopes.pop().unwrap();
            proof {
                assert(self.scopes@ == orig.scopes@.subrange(0, (orig.depth() - i) as int).drop_last());
                assert(orig.scopes@.subrange(0, (orig.depth() - i) as int).drop_last()
                    =~= orig.scopes@.subrange(0, (orig.depth() - i - 1) as int));
                if i >= 1 {
                    assert(orig.scopes@[orig.depth() - i - 1] <= orig.scopes@[orig.depth() - i]);
                }
            }
            self.constraints.truncate(mark);
            proof {
                if i >= 1 {
                    assert(self.constraints@ =~= orig.constraints@.subrange(
                        0,
                        orig.scopes@[orig.depth() - i - 1] as int,
                    ));
                }
            }
            i = i + 1;
        }
    }

    /// Asserts a constraint at the current scope.
    pub fn assert_constraint(&mut self, constraint: &Expr)
        requires
            old(self).inv(),
            constraint.wf(),
            constraint.wid() == 1,
        ensures
            final(self).inv(),
            final(self).view_constraints() == old(self).view_constraints().push(*constraint),
            final(self).depth() == old(self).depth(),
            final(self).top_mark() == old(self).top_mark(),
    {
        self.constraints.push(constraint.clone());
        proof {
            assert(wf_constraints(old(self).constraints@));
            assert forall|i: int| 0 <= i < self.constraints@.len() implies (#[trigger]
            self.constraints@[i].wf()) && self.constraints@[i].wid() == 1 by {
                if i < old(self).constraints@.len() {
                    assert(self.constraints@[i] == old(self).constraints@[i]);
                    assert(old(self).constraints@[i].wf() && old(self).constraints@[i].wid() == 1);
                }
            }
        }
    }

    /// Asks the backend whether the asserted constraints are
    /// satisfiable.
    pub fn is_sat(&mut self) -> (r: Result<bool, SolverError>)
        requires
            old(self).inv(),
        ensures
            final(self).inv(),
            final(self).view_constraints() == old(self).view_constraints(),
            final(self).depth() == old(self).depth(),
            final(self).top_mark() == old(self).top_mark(),
            r matches Ok(b) ==> b == satisfiable(old(self).view_constraints()),
            r matches Err(e) ==> e == SolverError::Unknown,
    {
        self.backend.check(&self.constraints)
    }

    /// Concretizes an expression: the value of `expr` under some
    /// assignment satisfying the asserted constraints, or `Ok(None)`
    /// when no assignment satisfies them.
    pub fn get_value(&mut self, expr: &Expr) -> (r: Result<Option<u64>, SolverError>)
        requires
            old(self).inv(),
            expr.wf(),
        ensures
            final(self).inv(),
            final(self).view_constraints() == old(self).view_constraints(),
            final(self).depth() == old(self).depth(),
            final(self).top_mark() == old(self).top_mark(),
            r matches Ok(Some(v)) ==> exists|env: Env|
                #[trigger] holds(env, old(self).view_constraints()) && expr.eval(env) == v,
            r matches Ok(None) ==> !satisfiable(old(self).view_constraints()),
            r matches Err(e) ==> e == SolverError::Unknown,
    {
        self.backend.get_value(&self.constraints, expr)
    }

    /// Satisfiability under one extra constraint, which leaves no
    /// residue: the asserted constraints are unchanged.
    pub fn is_sat_with_constraint(&mut self, constraint: &Expr) -> (r: Result<bool, SolverError>)
        requires
            old(self).inv(),
            constraint.wf(),
            constraint.wid() == 1,
        ensures
            final(self).inv(),
            final(self).view_constraints() == old(self).view_constraints(),
            final(self).depth() == old(self).depth(),
            r matches Ok(b) ==> b == satisfiable(
                old(self).view_constraints().push(*constraint),
            ),
            r matches Err(e) ==> e == SolverError::Unknown,
    {
        self.push(1);
        self.assert_constraint(constraint);
        let r = self.backend.check(&self.constraints);
        let ghost grown = self.constraints@;
        self.pop(1);
        proof {
            assert(self.constraints@ =~= old(self).constraints@);
        }
        r
    }

    /// Satisfiability under several extra constraints, which leave no
    /// residue: the asserted constraints are unchanged.
    pub fn is_sat_with_constraints(&mut self, constraints: &Vec<Expr>) -> (r: Result<
        bool,
        SolverError,
    >)
        requires
            old(self).inv(),
            wf_constraints(constraints@),
        ensures
            final(self).inv(),
            final(self).view_constraints() == old(self).view_constraints(),
            final(self).depth() == old(self).depth(),
            r matches Ok(b) ==> b == satisfiable(old(self).view_constraints() + constraints@),
            r matches Err(e) ==> e == SolverError::Unknown,
    {
        self.push(1);
        let mut i: usize = 0;
        while i < constraints.len()
            invariant
                self.inv(),
                wf_constraints(constraints@),
                i <= constraints@.len(),
                self.depth() == old(self).depth() + 1,
                self.top_mark() == old(self).view_constraints().len(),
                self.mark_at(old(self).depth() as int) == old(self).view_constraints().len(),
                self.view_constraints() == old(self).view_constraints() + constraints@.subrange(
                    0,
                    i as int,
                ),
            decreases constraints@.len() - i,
        {
            proof {
                assert(constraints@[i as int].wf() && constraints@[i as int].wid() == 1);
            }
            self.assert_constraint(&constraints[i]);
            proof {
                assert(self.view_constraints() =~= old(self).view_constraints()
                    + constraints@.subrange(0, i + 1));
            }
            i = i + 1;
        }
        proof {
            assert(constraints@.subrange(0, constraints@.len() as int) =~= constraints@);
        }
        let r = self.backend.check(&self.constraints);
        self.pop(1);
        proof {
            assert(self.constraints@ =~= old(self).constraints@);
        }
        r
    }

    /// Whether the two expressions must be equal under the asserted
    /// constraints: every satisfying assignment gives them the same
    /// value.
    pub fn must_be_equal(&mut self, lhs: &Expr, rhs: &Expr) -> (r: Result<bool, SolverError>)
        requires
            old(self).inv(),
            lhs.wf(),
            rhs.wf(),
            lhs.wid() == rhs.wid(),
        ensures
            final(self).inv(),
            final(self).view_constraints() == old(self).view_constraints(),
            final(self).depth() == old(self).depth(),
            r matches Ok(b) ==> (b <==> (forall|env: Env|
                #[trigger] holds(env, old(self).view_constraints()) ==> lhs.eval(env) == rhs.eval(
                    env,
                ))),
            r matches Err(e) ==> e == SolverError::Unknown,
    {
        let ghost cs = self.constraints@;
        let ne = lhs._ne(rhs);
        let sat = match self.is_sat_with_constraint(&ne) {
            Ok(b) => b,
            Err(e) => {
                return Err(e);
            },
        };
        proof {
            if sat {
                let env = choose|env: Env| holds(env, cs.push(ne));
                lemma_holds_push(env, cs, ne);
                assert(ne.eval(env) == 1);
                assert(lhs.eval(env) != rhs.eval(env));
            } else {
                assert forall|env: Env| #[trigger] holds(env, cs) implies lhs.eval(env)
                    == rhs.eval(env) by {
                    if lhs.eval(env) != rhs.eval(env) {
                        assert(ne.eval(env) == 1);
                        lemma_holds_push(env, cs, ne);
                        assert(holds(env, cs.push(ne)));
                        assert(satisfiable(cs.push(ne)));
                    }
                }
            }
        }
        Ok(!sat)
    }

    /// Whether the two expressions can be equal under the asserted
    /// constraints: some satisfying assignment gives them the same
    /// value.
    pub fn can_equal(&mut self, lhs: &Expr, rhs: &Expr) -> (r: Result<bool, SolverError>)
        requires
            old(self).inv(),
            lhs.wf(),
            rhs.wf(),
            lhs.wid() == rhs.wid(),
        ensures
            final(self).inv(),
            final(self).view_constraints() == old(self).view_constraints(),
            final(self).depth() == old(self).depth(),
            r matches Ok(b) ==> (b <==> (exists|env: Env|
                #[trigger] holds(env, old(self).view_constraints()) && lhs.eval(env) == rhs.eval(
                    env,
                ))),
            r matches Err(e) ==> e == SolverError::Unknown,
    {
        let ghost cs = self.constraints@;
        let eq = lhs._eq(rhs);
        let sat = match self.is_sat_with_constraint(&eq) {
            Ok(b) => b,
            Err(e) => {
                return Err(e);
            },
        };
        proof {
            if sat {
                let env = choose|env: Env| holds(env, cs.push(eq));
                lemma_holds_push(env, cs, eq);
                assert(eq.eval(env) == 1);
                assert(holds(env, cs));
            } else {
                assert forall|env: Env| !(#[trigger] holds(env, cs) && lhs.eval(env) == rhs.eval(
                    env,
                )) by {
                    if holds(env, cs) && lhs.eval(env) == rhs.eval(env) {
                        assert(eq.eval(env) == 1);
                        lemma_holds_push(env, cs, eq);
                        assert(satisfiable(cs.push(eq)));
                    }
                }
            }
        }
        Ok(sat)
    }
}

/// Every listed solution is a constant of the expression's width.
pub open spec fn solutions_are_constants(vs: Seq<Expr>, w: nat) -> bool {
    forall|j: int|
        0 <= j < vs.len() ==> (#[trigger] vs[j]) is Const && vs[j].wf() && vs[j].wid() == w
}

/// Every listed solution is realizable: some assignment satisfies the
/// constraints and gives the expression that value.
pub open spec fn solutions_sound(vs: Seq<Expr>, expr: Expr, cs: Seq<Expr>) -> bool {
    forall|j: int|
        0 <= j < vs.len() ==> exists|env: Env|
            #[trigger] holds(env, cs) && expr.eval(env) == (#[trigger] vs[j])->v
}

/// The listed solutions are pairwise distinct values.
pub open spec fn solutions_distinct(vs: Seq<Expr>) -> bool {
    forall|j1: int, j2: int|
        0 <= j1 < j2 < vs.len() ==> (#[trigger] vs[j1])->v != (#[trigger] vs[j2])->v
}

/// The listed solutions cover every satisfying assignment: no
/// assignment gives the expression any other value.
pub open spec fn solutions_complete(vs: Seq<Expr>, expr: Expr, cs: Seq<Expr>) -> bool {
    forall|env: Env|
        #[trigger] holds(env, cs) ==> exists|j: int| 0 <= j < vs.len() && expr.eval(env) == vs[j]->v
}

/// A further solution beyond the listed ones exists: some satisfying
/// assignment gives the expression a value outside the list.
pub open spec fn solutions_not_exhausted(vs: Seq<Expr>, expr: Expr, cs: Seq<Expr>) -> bool {
    exists|env: Env|
        #[trigger] holds(env, cs) && (forall|j: int|
            0 <= j < vs.len() ==> expr.eval(env) != (#[trigger] vs[j])->v)
}

impl<B: Backend> Solver<B> {
    /// Enumerates up to `upper_bound` distinct values of `expr` under
    /// the asserted constraints.  `Exactly` means the solver proved no
    /// further value exists; `AtLeast` means the bound was reached and
    /// more may exist.  The asserted constraints are left unchanged.
    pub fn get_values(&mut self, expr: &Expr, upper_bound: usize) -> (r: Result<
        Solutions<Expr>,
        SolverError,
    >)
        requires
            old(self).inv(),
            expr.wf(),
            expr.wid() <= 64,
            upper_bound >= 1,
        ensures
            final(self).inv(),
            final(self).view_constraints() == old(self).view_constraints(),
            final(self).depth() == old(self).depth(),
            r matches Ok(Solutions::Exactly(vs)) ==> vs@.len() <= upper_bound
                && solutions_are_constants(vs@, expr.wid())
                && solutions_sound(vs@, *expr, old(self).view_constraints())
                && solutions_distinct(vs@)
                && solutions_complete(vs@, *expr, old(self).view_constraints()),
            r matches Ok(Solutions::AtLeast(vs)) ==> vs@.len() == upper_bound
                && solutions_are_constants(vs@, expr.wid())
                && solutions_sound(vs@, *expr, old(self).view_constraints())
                && solutions_distinct(vs@)
                && solutions_not_exhausted(vs@, *expr, old(self).view_constraints()),
            r matches Err(e) ==> e == SolverError::Unknown,
    {
        let ghost base = self.constraints@;
        let w = expr.len();
        self.push(1);
        let mut found: Vec<Expr> = Vec::new();
        let mut i: usize = 0;
        while i < upper_bound
            invariant
                self.inv(),
                expr.wf(),
                expr.wid() == w,
                1 <= w <= 64,
                i <= upper_bound,
                found@.len() == i,
                self.depth() == old(self).depth() + 1,
                self.top_mark() == base.len(),
                self.mark_at(old(self).depth() as int) == base.len(),
                base == old(self).view_constraints(),
                old(self).inv(),
                base.len() <= self.view_constraints().len(),
                self.view_constraints().subrange(0, base.len() as int) == base,
                solutions_are_constants(found@, expr.wid()),
                solutions_sound(found@, *expr, base),
                solutions_distinct(found@),
                // Satisfying the current constraints is exactly
                // satisfying the base and avoiding every found value.
                forall|env: Env|
                    #[trigger] holds(env, self.view_constraints()) <==> (holds(env, base)
                        && (forall|j: int|
                            0 <= j < found@.len() ==> expr.eval(env) != (#[trigger] found@[j])->v)),
            decreases upper_bound - i,
        {
            let ghost cs_now = self.constraints@;
            let next = match self.backend.get_value(&self.constraints, expr) {
                Err(e) => {
                    self.pop(1);
                    proof {
                        assert(self.constraints@ =~= base);
                    }
                    return Err(e);
                },
                Ok(next) => next,
            };
            match next {
                None => {
                    // No further assignment: the found values cover
                    // every satisfying assignment of the base.
                    proof {
                        assert forall|env: Env| #[trigger] holds(env, base) implies exists|j: int|
                            0 <= j < found@.len() && expr.eval(env) == found@[j]->v by {
                            if forall|j: int|
                                0 <= j < found@.len() ==> expr.eval(env) != (#[trigger]
                                found@[j])->v {
                                assert(holds(env, cs_now));
                                assert(satisfiable(cs_now));
                            }
                        }
                    }
                    self.pop(1);
                    proof {
                        assert(self.constraints@ =~= base);
                    }
                    return Ok(Solutions::Exactly(found));
                },
                Some(v) => {
                    let ghost env0 = choose|env: Env|
                        holds(env, cs_now) && expr.eval(env) == v as nat;
                    proof {
                        lemma_eval_in_range(*expr, env0);
                        crate::semantics::lemma_pow2_le(expr.wid(), 64);
                        vstd::arithmetic::power2::lemma2_to64();
                    }
                    let ghost old_found = found@;
                    let c = Expr::Const { w, v };
                    proof {
                        assert(c.wf());
                        assert(c.wid() == w);
                    }
                    let ne = expr._ne(&c);
                    found.push(c);
                    self.assert_constraint(&ne);
                    proof {
                        assert(holds(env0, base) && expr.eval(env0) == c->v) by {
                            lemma_holds_prefix(env0, cs_now, base.len() as int);
                            assert(cs_now.subrange(0, base.len() as int) == base);
                        }
                        assert forall|env: Env|
                            #[trigger] holds(env, self.view_constraints()) <==> (holds(env, base)
                                && (forall|j: int|
                                    0 <= j < found@.len() ==> expr.eval(env) != (#[trigger]
                                    found@[j])->v)) by {
                            lemma_holds_push(env, cs_now, ne);
                            assert(c.eval(env) == v);
                            assert(ne.eval(env) == crate::expr::denote(
                                crate::expr::BinOp::Ne,
                                expr.eval(env),
                                c.eval(env),
                                expr.wid(),
                            ));
                            assert(holds(env, cs_now) <==> (holds(env, base) && (forall|j: int|
                                0 <= j < old_found.len() ==> expr.eval(env) != (#[trigger]
                                old_found[j])->v)));
                            assert(found@ == old_found.push(c));
                            if holds(env, self.view_constraints()) {
                                assert(holds(env, cs_now) && ne.eval(env) == 1);
                                assert forall|j: int|
                                    0 <= j < found@.len() implies expr.eval(env) != (#[trigger]
                                    found@[j])->v by {
                                    if j < old_found.len() {
                                        assert(found@[j] == old_found[j]);
                                        assert(expr.eval(env) != old_found[j]->v);
                                    } else {
                                        assert(found@[j] == c);
                                        assert(expr.eval(env) != v);
                                    }
                                }
                            }
                            if holds(env, base) && (forall|j: int|
                                0 <= j < found@.len() ==> expr.eval(env) != (#[trigger]
                                found@[j])->v) {
                                assert forall|j: int|
                                    0 <= j < old_found.len() implies expr.eval(env) != (#[trigger]
                                    old_found[j])->v by {
                                    assert(found@[j] == old_found[j]);
                                    assert(expr.eval(env) != found@[j]->v);
                                }
                                assert(expr.eval(env) != found@[old_found.len() as int]->v);
                                assert(ne.eval(env) == 1);
                            }
                        }
                    }
                },
            }
            i = i + 1;
        }
        // The bound was reached; one more check distinguishes a
        // complete enumeration from a sample.
        let ghost cs_now = self.constraints@;
        let more = match self.is_sat() {
            Err(e) => {
                self.pop(1);
                proof {
                    assert(self.constraints@ =~= base);
                }
                return Err(e);
            },
            Ok(b) => b,
        };
        proof {
            if !more {
                assert forall|env: Env| #[trigger] holds(env, base) implies exists|j: int|
                    0 <= j < found@.len() && expr.eval(env) == found@[j]->v by {
                    if forall|j: int|
                        0 <= j < found@.len() ==> expr.eval(env) != (#[trigger] found@[j])->v {
                        assert(holds(env, cs_now));
                        assert(satisfiable(cs_now));
                    }
                }
            } else {
                let env = choose|env: Env| holds(env, cs_now);
                assert(holds(env, base) && (forall|j: int|
                    0 <= j < found@.len() ==> expr.eval(env) != (#[trigger] found@[j])->v));
                assert(solutions_not_exhausted(found@, *expr, base));
            }
        }
        self.pop(1);
        proof {
            assert(self.constraints@ =~= base);
        }
        if more {
            Ok(Solutions::AtLeast(found))
        } else {
            Ok(Solutions::Exactly(found))
        }
    }
}

/// The innermost scope's mark is the mark of the deepest scope: what
/// [`Solver::push`] records as `top_mark` is what a matching
/// [`Solver::pop`] truncates to.
pub proof fn lemma_top_mark_is_innermost<B: Backend>(s: &Solver<B>)
    requires
        s.depth() >= 1,
    ensures
        s.top_mark() == s.mark_at(s.depth() - 1),
{
}

/// Constraints asserted inside a scope vanish when the scope is
/// popped: the solver returns to exactly the constraints it held
/// before the push, so `is_sat` answers as it did before.  This is the
/// scope round trip that [`Solver::push`], [`Solver::assert_constraint`]
/// and [`Solver::pop`] guarantee together.
pub proof fn lemma_scope_round_trip(before: Seq<Expr>, inside: Seq<Expr>)
    ensures
        (before + inside).subrange(0, before.len() as int) == before,
        satisfiable((before + inside).subrange(0, before.len() as int)) == satisfiable(before),
{
    assert((before + inside).subrange(0, before.len() as int) =~= before);
}


} // verus!
