//! Depth-first path selection.
//!
//! The work list is a stack of pending paths.  Saving a path opens a
//! solver scope so that the path's constraints-so-far are preserved;
//! taking a path closes one scope, so that only the resumed path's
//! constraints are live on the solver.  The discipline is the
//! invariant that the solver's scope depth always equals the number of
//! waiting paths.

use vstd::prelude::*;

use crate::expr::Expr;
use crate::solver::{Backend, Solver};
use crate::state::State;

verus! {

/// One pending path: the state to resume, and constraints to assert
/// before resuming.
pub struct Path {
    /// The state to resume execution from.
    pub state: State,
    /// Constraints asserted when the path is dequeued; an
    /// unsatisfiable set makes the path evaporate as
    /// `AssumptionUnsat`.
    pub constraints: Vec<Expr>,
}

impl Path {
    /// A path resuming at `state`, optionally under one constraint.
    pub fn new(state: State, constraint: Option<Expr>) -> (r: Path)
        ensures
            r.state == state,
            match constraint {
                Some(c) => r.constraints@ == seq![c],
                None => r.constraints@ == Seq::<Expr>::empty(),
            },
    {
        let mut constraints: Vec<Expr> = Vec::new();
        proof {
            assert(constraints@ =~= Seq::<Expr>::empty());
        }
        match constraint {
            Some(c) => {
                constraints.push(c);
                proof {
                    assert(constraints@ =~= seq![c]);
                }
            },
            None => (),
        }
        Path { state, constraints }
    }

    /// A path resuming at `location` within `state`, optionally under
    /// one constraint.
    pub fn new_with_constraint(
        state: State,
        location: crate::state::Location,
        constraint: Option<Expr>,
    ) -> (r: Path)
        ensures
            r.state.current_loc == location,
            match constraint {
                Some(c) => r.constraints@ == seq![c],
                None => r.constraints@ == Seq::<Expr>::empty(),
            },
    {
        let mut state = state;
        state.current_loc = location;
        Path::new(state, constraint)
    }

    /// Every constraint of the path is a well-formed width-1
    /// expression.
    pub open spec fn wf(&self) -> bool {
        &&& self.state.inv()
        &&& forall|i: int|
            0 <= i < self.constraints@.len() ==> ((#[trigger] self.constraints@[i]).wf()
                && self.constraints@[i].wid() == 1)
    }
}

/// Depth-first search path exploration: the most recently saved path
/// is the next to run.
pub struct DFSPathSelection {
    paths: Vec<Path>,
}

impl DFSPathSelection {
    /// The pending paths, oldest first.
    pub closed spec fn view_paths(&self) -> Seq<Path> {
        self.paths@
    }

    /// All pending paths are well formed.
    pub closed spec fn inv(&self) -> bool {
        forall|i: int| 0 <= i < self.paths@.len() ==> (#[trigger] self.paths@[i]).wf()
    }

    /// Creates an empty work list.
    pub fn new() -> (r: DFSPathSelection)
        ensures
            r.inv(),
            r.view_paths() == Seq::<Path>::empty(),
    {
        let r = DFSPathSelection { paths: Vec::new() };
        proof {
            assert(r.paths@ =~= Seq::<Path>::empty());
        }
        r
    }

    /// Saves a path for later exploration, opening a solver scope so
    /// that the constraints live now stay live for it.
    pub fn save_path<B: Backend>(&mut self, path: Path, solver: &mut Solver<B>)
        requires
            old(self).inv(),
            old(solver).inv(),
            path.wf(),
        ensures
            final(self).inv(),
            final(self).view_paths() == old(self).view_paths().push(path),
            final(solver).inv(),
            final(solver).view_constraints() == old(solver).view_constraints(),
            final(solver).depth() == old(solver).depth() + 1,
            final(solver).top_mark() == old(solver).view_constraints().len(),
    {
        solver.push(1);
        let ghost prev = self.paths@;
        self.paths.push(path);
        proof {
            assert forall|i: int| 0 <= i < self.paths@.len() implies (#[trigger]
            self.paths@[i]).wf() by {
                if i < prev.len() {
                    assert(self.paths@[i] == prev[i]);
                    assert(prev[i].wf());
                }
            }
        }
    }

    /// Takes the most recently saved path, closing one solver scope so
    /// that the solver holds exactly the constraints that were live
    /// when the path was saved.
    pub fn get_path<B: Backend>(&mut self, solver: &mut Solver<B>) -> (r: Option<Path>)
        requires
            old(self).inv(),
            old(solver).inv(),
            old(solver).depth() == old(self).view_paths().len(),
        ensures
            final(self).inv(),
            final(solver).inv(),
            final(solver).depth() == final(self).view_paths().len(),
            r matches Some(p) ==> p.wf() && old(self).view_paths().len() >= 1
                && final(self).view_paths() == old(self).view_paths().drop_last()
                && p == old(self).view_paths().last(),
            // Resuming drops exactly what was asserted since the
            // matching save: the solver returns to that save's mark.
            r is Some ==> final(solver).view_constraints() == old(
                solver,
            ).view_constraints().subrange(0, old(solver).top_mark() as int),
            r is None ==> *final(self) == *old(self) && *final(solver) == *old(solver) && old(
                self,
            ).view_paths().len() == 0,
    {
        if self.paths.len() == 0 {
            return None;
        }
        let path = self.paths.pop().unwrap();
        solver.pop(1);
        proof {
            assert(path.wf());
        }
        Some(path)
    }

    /// How many paths wait to be explored.
    pub fn waiting_paths(&self) -> (r: usize)
        ensures
            r == self.view_paths().len(),
    {
        self.paths.len()
    }
}

} // verus!
