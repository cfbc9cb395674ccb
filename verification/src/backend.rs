//! The engine's own satisfiability backend.
//!
//! [`ConcreteBackend`] decides the concrete fragment of the constraint
//! language: it folds constraints to constants, propagates equalities
//! that force a symbol to a constant value, and searches a small set of
//! candidate values for one remaining symbol.  A `true` answer always
//! carries an explicit witness assignment and a `false` answer a proof
//! that no assignment exists, so the backend meets the [`Backend`]
//! contract without any trusted step.  Queries outside the fragment
//! answer `Unknown`.

use vstd::prelude::*;
use vstd::arithmetic::power2::{pow2, lemma_pow2_adds, lemma_pow2_pos, lemma2_to64};
use vstd::arithmetic::div_mod::{lemma_small_mod, lemma_mod_mod, lemma_basic_div};

use crate::expr::{BinOp, Env, Expr, denote, sym_value};
use crate::ops::{fold_binop, mask_u64, pow2_u128, pow2_u64};
use crate::semantics::{lemma_eval_in_range, lemma_pow2_le};
use crate::solver::{Backend, SolverError, holds, satisfiable, wf_constraints};

verus! {

/// One forced symbol: `name`, read at width `w`, has the value `v`.
pub struct Binding {
    /// The symbol's name.
    pub name: String,
    /// The width at which the symbol is read.
    pub w: u32,
    /// The forced value, below `2^w`.
    pub v: u64,
}

/// Well-formedness of a partial assignment: values fit their widths
/// and no name appears twice.
pub open spec fn rho_wf(rho: Seq<Binding>) -> bool {
    &&& forall|j: int|
        0 <= j < rho.len() ==> 1 <= (#[trigger] rho[j]).w <= 64 && (rho[j].v as nat) < pow2(
            rho[j].w as nat,
        )
    &&& forall|j1: int, j2: int|
        0 <= j1 < j2 < rho.len() ==> (#[trigger] rho[j1]).name@ != (#[trigger] rho[j2]).name@
}

/// Whether an assignment gives every bound symbol its forced value.
pub open spec fn matches_env(env: Env, rho: Seq<Binding>) -> bool {
    forall|j: int|
        0 <= j < rho.len() ==> sym_value(env, (#[trigger] rho[j]).name@, rho[j].w as nat)
            == rho[j].v
}

/// The canonical assignment built from a partial assignment: each
/// bound name maps to its forced value, everything else is absent.
pub open spec fn env_of(rho: Seq<Binding>) -> Env
    decreases rho.len(),
{
    if rho.len() == 0 {
        Map::empty()
    } else {
        env_of(rho.drop_last()).insert(rho.last().name@, rho.last().v as nat)
    }
}

/// A prefix of a well-formed partial assignment is well formed.
proof fn lemma_rho_wf_prefix(rho: Seq<Binding>, n: int)
    requires
        rho_wf(rho),
        0 <= n <= rho.len(),
    ensures
        rho_wf(rho.subrange(0, n)),
{
    let pre = rho.subrange(0, n);
    assert forall|j: int|
        0 <= j < pre.len() implies 1 <= (#[trigger] pre[j]).w <= 64 && (pre[j].v as nat) < pow2(
        pre[j].w as nat,
    ) by {
        assert(pre[j] == rho[j]);
        assert(1 <= rho[j].w <= 64 && (rho[j].v as nat) < pow2(rho[j].w as nat));
    }
    assert forall|j1: int, j2: int|
        0 <= j1 < j2 < pre.len() implies (#[trigger] pre[j1]).name@ != (#[trigger]
    pre[j2]).name@ by {
        assert(pre[j1] == rho[j1] && pre[j2] == rho[j2]);
        assert(rho[j1].name@ != rho[j2].name@);
    }
}

/// The canonical assignment matches the partial assignment it was
/// built from.
pub proof fn lemma_env_of_matches(rho: Seq<Binding>)
    requires
        rho_wf(rho),
    ensures
        matches_env(env_of(rho), rho),
    decreases rho.len(),
{
    if rho.len() == 0 {
    } else {
        let dl = rho.drop_last();
        let last = rho.last();
        assert(dl =~= rho.subrange(0, rho.len() - 1));
        lemma_rho_wf_prefix(rho, rho.len() - 1);
        lemma_env_of_matches(dl);
        let env = env_of(rho);
        assert forall|j: int|
            0 <= j < rho.len() implies sym_value(env, (#[trigger] rho[j]).name@, rho[j].w as nat)
                == rho[j].v by {
            if j < rho.len() - 1 {
                assert(rho[j].name@ != last.name@);
                assert(env[rho[j].name@] == env_of(dl)[rho[j].name@]);
                assert(dl[j] == rho[j]);
                assert(sym_value(env_of(dl), rho[j].name@, rho[j].w as nat) == rho[j].v);
            } else {
                assert(env[last.name@] == last.v as nat);
                lemma_small_mod(last.v as nat, pow2(last.w as nat));
            }
        }
    }
}

/// Finds the binding of `name`, if any.
fn find_binding(rho: &Vec<Binding>, name: &String) -> (r: Option<usize>)
    ensures
        r matches Some(i) ==> i < rho@.len() && rho@[i as int].name@ == name@,
        r is None ==> forall|j: int| 0 <= j < rho@.len() ==> (#[trigger] rho@[j]).name@ != name@,
{
    let mut i: usize = 0;
    while i < rho.len()
        invariant
            i <= rho@.len(),
            forall|j: int| 0 <= j < i ==> (#[trigger] rho@[j]).name@ != name@,
        decreases rho@.len() - i,
    {
        if rho[i].name == *name {
            return Some(i);
        }
        i = i + 1;
    }
    None
}

/// The value of symbol `name` read at width `w` under every assignment
/// matching `rho`, when the name is bound at a width at least `w`.
fn lookup_sym(name: &String, w: u32, rho: &Vec<Binding>) -> (r: Option<u64>)
    requires
        rho_wf(rho@),
        w >= 1,
    ensures
        r matches Some(v) ==> forall|env: Env|
            #[trigger] matches_env(env, rho@) ==> sym_value(env, name@, w as nat) == v,
{
    match find_binding(rho, name) {
        None => None,
        Some(i) => {
            let b_w = rho[i].w;
            let b_v = rho[i].v;
            if w > b_w {
                return None;
            }
            proof {
                lemma_pow2_pos(w as nat);
            }
            let v = if w == b_w {
                b_v
            } else {
                b_v % pow2_u64(w)
            };
            proof {
                lemma_pow2_pos(w as nat);
                assert forall|env: Env| #[trigger]
                    matches_env(env, rho@) implies sym_value(env, name@, w as nat) == v by {
                    let raw: nat = if env.dom().contains(name@) {
                        env[name@]
                    } else {
                        0nat
                    };
                    assert(sym_value(env, rho@[i as int].name@, b_w as nat) == b_v);
                    assert(raw % pow2(b_w as nat) == b_v);
                    if w == b_w {
                    } else {
                        lemma_pow2_adds(w as nat, (b_w - w) as nat);
                        lemma_pow2_pos((b_w - w) as nat);
                        lemma_mod_mod(raw as int, pow2(w as nat) as int, pow2((b_w - w) as nat) as int);
                        assert(raw % pow2(w as nat) == (raw % pow2(b_w as nat)) % pow2(w as nat));
                    }
                }
            }
            Some(v)
        },
    }
}

/// Evaluates an expression under every assignment matching `rho`: a
/// returned value is the expression's value under each of them.
/// `None` means the expression is not decided by `rho` (or leaves the
/// 64-bit fragment).
fn eval_under(e: &Expr, rho: &Vec<Binding>) -> (r: Option<u64>)
    requires
        e.wf(),
        rho_wf(rho@),
    ensures
        r matches Some(v) ==> forall|env: Env|
            #[trigger] matches_env(env, rho@) ==> e.eval(env) == v,
        r matches Some(v) ==> (v as nat) < pow2(e.wid()),
    decreases *e,
{
    let r: Option<u64> = match e {
        Expr::Const { v, .. } => Some(*v),
        Expr::Sym { w, name } => lookup_sym(name, *w, rho),
        Expr::Not { e: inner } => {
            match eval_under(inner, rho) {
                Some(v) => {
                    let wi = inner.len();
                    if wi <= 64 {
                        let m = mask_u64(wi);
                        proof {
                            lemma_pow2_pos(wi as nat);
                            assert forall|env: Env| #[trigger]
                                matches_env(env, rho@) implies e.eval(env) == m - v by {
                                assert(inner.eval(env) == v);
                                lemma_small_mod(v as nat, pow2(wi as nat));
                            }
                        }
                        Some(m - v)
                    } else {
                        None
                    }
                },
                None => None,
            }
        },
        Expr::Binop { op, a, b } => {
            match eval_under(a, rho) {
                Some(va) => match eval_under(b, rho) {
                    Some(vb) => {
                        let wa = a.len();
                        if wa <= 64 {
                            let f = fold_binop(*op, va, vb, wa);
                            proof {
                                if f is Some {
                                    let fv = f->Some_0;
                                    crate::semantics::lemma_denote_in_range(
                                        *op,
                                        va as nat,
                                        vb as nat,
                                        wa as nat,
                                    );
                                    lemma2_to64();
                                    assert forall|env: Env| #[trigger]
                                        matches_env(env, rho@) implies e.eval(env) == fv by {
                                        assert(a.eval(env) == va);
                                        assert(b.eval(env) == vb);
                                    }
                                }
                            }
                            f
                        } else {
                            None
                        }
                    },
                    None => None,
                },
                None => None,
            }
        },
        Expr::Ite { c, t, e: el } => {
            match eval_under(c, rho) {
                Some(vc) => {
                    let picked = if vc == 1 {
                        eval_under(t, rho)
                    } else {
                        eval_under(el, rho)
                    };
                    proof {
                        if picked is Some {
                            let pv = picked->Some_0;
                            assert forall|env: Env| #[trigger]
                                matches_env(env, rho@) implies e.eval(env) == pv by {
                                assert(c.eval(env) == vc);
                            }
                        }
                    }
                    picked
                },
                None => None,
            }
        },
        Expr::Slice { lo, hi, e: inner } => {
            proof {
                assert(inner.wf() && *lo <= *hi && (*hi as nat) < inner.wid());
                crate::ops::lemma_wf_wid_pos(**inner);
            }
            match eval_under(inner, rho) {
                Some(v) => {
                    let len = *hi - *lo + 1;
                    if *lo >= 64 {
                        proof {
                            lemma_pow2_le(64, *lo as nat);
                            lemma2_to64();
                            lemma_pow2_pos(*lo as nat);
                            lemma_pow2_pos(len as nat);
                            assert forall|env: Env| #[trigger]
                                matches_env(env, rho@) implies e.eval(env) == 0 by {
                                assert(inner.eval(env) == v);
                                lemma_basic_div(v as int, pow2(*lo as nat) as int);
                            }
                        }
                        Some(0)
                    } else {
                        proof {
                            lemma_pow2_pos(*lo as nat);
                            lemma_pow2_pos(len as nat);
                        }
                        let q = v / pow2_u64(*lo);
                        let res = if len >= 64 {
                            proof {
                                lemma_pow2_le(64, len as nat);
                                lemma2_to64();
                                assert forall|env: Env| #[trigger]
                                    matches_env(env, rho@) implies e.eval(env) == q by {
                                    assert(inner.eval(env) == v);
                                    lemma_small_mod(q as nat, pow2(len as nat));
                                }
                            }
                            q
                        } else {
                            let res2 = q % pow2_u64(len);
                            proof {
                                assert forall|env: Env| #[trigger]
                                    matches_env(env, rho@) implies e.eval(env) == res2 by {
                                    assert(inner.eval(env) == v);
                                }
                            }
                            res2
                        };
                        Some(res)
                    }
                },
                None => None,
            }
        },
        Expr::Concat { hi_e, lo_e } => {
            match eval_under(hi_e, rho) {
                Some(vh) => match eval_under(lo_e, rho) {
                    Some(vl) => {
                        let wl = lo_e.len();
                        if wl >= 64 {
                            if vh == 0 {
                                proof {
                                    assert forall|env: Env| #[trigger]
                                        matches_env(env, rho@) implies e.eval(env) == vl by {
                                        assert(hi_e.eval(env) == 0);
                                        assert(lo_e.eval(env) == vl);
                                    }
                                }
                                Some(vl)
                            } else {
                                None
                            }
                        } else {
                            let f = pow2_u128(wl);
                            proof {
                                lemma_pow2_le(wl as nat, 63);
                                lemma2_to64();
                                vstd::arithmetic::power2::lemma2_to64_rest();
                                assert((vh as u128) * (f as u128) <= 0xFFFFFFFFFFFFFFFF
                                    * 0x8000000000000000) by (nonlinear_arith)
                                    requires
                                        vh <= 0xFFFFFFFFFFFFFFFFu64,
                                        f <= 0x8000000000000000u128,
                                ;
                            }
                            let total = (vh as u128) * f + (vl as u128);
                            if total <= 0xFFFFFFFFFFFFFFFF {
                                proof {
                                    assert forall|env: Env| #[trigger]
                                        matches_env(env, rho@) implies e.eval(env) == total by {
                                        assert(hi_e.eval(env) == vh);
                                        assert(lo_e.eval(env) == vl);
                                    }
                                }
                                Some(total as u64)
                            } else {
                                None
                            }
                        }
                    },
                    None => None,
                },
                None => None,
            }
        },
        Expr::ZeroExt { e: inner, .. } => {
            let r0 = eval_under(inner, rho);
            proof {
                if r0 is Some {
                    let v = r0->Some_0;
                    assert forall|env: Env| #[trigger]
                        matches_env(env, rho@) implies e.eval(env) == v by {
                        assert(inner.eval(env) == v);
                    }
                }
            }
            r0
        },
        Expr::SignExt { w, e: inner } => {
            match eval_under(inner, rho) {
                Some(v) => {
                    let wi = inner.len();
                    if wi > 64 {
                        proof {
                            lemma_pow2_le(64, (wi - 1) as nat);
                            lemma2_to64();
                            assert forall|env: Env| #[trigger]
                                matches_env(env, rho@) implies e.eval(env) == v by {
                                assert(inner.eval(env) == v);
                            }
                        }
                        Some(v)
                    } else {
                        let half = pow2_u128(wi - 1);
                        if (v as u128) < half {
                            proof {
                                assert forall|env: Env| #[trigger]
                                    matches_env(env, rho@) implies e.eval(env) == v by {
                                    assert(inner.eval(env) == v);
                                }
                            }
                            Some(v)
                        } else if *w <= 64 {
                            proof {
                                lemma_pow2_le(wi as nat, *w as nat);
                                lemma_pow2_le(*w as nat, 64);
                                lemma2_to64();
                            }
                            let grown = mask_u64(*w) - mask_u64(wi);
                            proof {
                                assert forall|env: Env| #[trigger]
                                    matches_env(env, rho@) implies e.eval(env) == v + grown by {
                                    assert(inner.eval(env) == v);
                                }
                            }
                            Some(v + grown)
                        } else {
                            None
                        }
                    }
                },
                None => None,
            }
        },
    };
    proof {
        if r is Some {
            lemma_env_of_matches(rho@);
            assert(matches_env(env_of(rho@), rho@));
            lemma_eval_in_range(*e, env_of(rho@));
        }
    }
    r
}

/// Collects the symbols that the constraints force to a constant
/// value: every constraint of the shape `sym == const` (either way
/// round) binds the symbol.  `None` means two constraints force the
/// same symbol to different values, so nothing satisfies them.
fn collect_forced(cs: &Vec<Expr>) -> (r: Option<Vec<Binding>>)
    requires
        wf_constraints(cs@),
    ensures
        r matches Some(rho) ==> rho_wf(rho@) && (forall|env: Env|
            #[trigger] holds(env, cs@) ==> matches_env(env, rho@)),
        r is None ==> !satisfiable(cs@),
{
    let mut rho: Vec<Binding> = Vec::new();
    let mut i: usize = 0;
    while i < cs.len()
        invariant
            wf_constraints(cs@),
            i <= cs@.len(),
            rho_wf(rho@),
            forall|env: Env| #[trigger] holds(env, cs@) ==> matches_env(env, rho@),
        decreases cs@.len() - i,
    {
        let c = &cs[i];
        if let Expr::Binop { op: BinOp::Eq, a, b } = c {
            proof {
                assert(cs@[i as int].wf());
                assert(a.wf() && b.wf() && a.wid() == b.wid());
            }
            match (&**a, &**b) {
                (Expr::Sym { w, name }, Expr::Const { v, .. }) => {
                    proof {
                        assert forall|env: Env| #[trigger]
                            holds(env, cs@) implies sym_value(env, name@, *w as nat) == *v by {
                            assert(cs@[i as int].eval(env) == 1);
                            assert(c.eval(env) == denote(
                                BinOp::Eq,
                                a.eval(env),
                                b.eval(env),
                                a.wid(),
                            ));
                        }
                    }
                    if record_forced(&mut rho, name, *w, *v, Ghost(cs@)) {
                        return None;
                    }
                },
                (Expr::Const { v, .. }, Expr::Sym { w, name }) => {
                    proof {
                        assert forall|env: Env| #[trigger]
                            holds(env, cs@) implies sym_value(env, name@, *w as nat) == *v by {
                            assert(cs@[i as int].eval(env) == 1);
                            assert(c.eval(env) == denote(
                                BinOp::Eq,
                                a.eval(env),
                                b.eval(env),
                                a.wid(),
                            ));
                        }
                    }
                    if record_forced(&mut rho, name, *w, *v, Ghost(cs@)) {
                        return None;
                    }
                },
                _ => {},
            }
        }
        i = i + 1;
    }
    Some(rho)
}

/// Records one forced symbol in the partial assignment.  Returns true
/// when the new value contradicts an already recorded one, which
/// refutes the constraints.
fn record_forced(
    rho: &mut Vec<Binding>,
    name: &String,
    w: u32,
    v: u64,
    Ghost(cs): Ghost<Seq<Expr>>,
) -> (contradiction: bool)
    requires
        rho_wf(old(rho)@),
        1 <= w <= 64,
        (v as nat) < pow2(w as nat),
        forall|env: Env| #[trigger] holds(env, cs) ==> matches_env(env, old(rho)@),
        forall|env: Env| #[trigger] holds(env, cs) ==> sym_value(env, name@, w as nat) == v,
    ensures
        !contradiction ==> rho_wf(final(rho)@) && (forall|env: Env|
            #[trigger] holds(env, cs) ==> matches_env(env, final(rho)@)),
        contradiction ==> !satisfiable(cs),
{
    let ghost prev = rho@;
    match find_binding(rho, name) {
        Some(j) => {
            let b_w = rho[j].w;
            let b_v = rho[j].v;
            if b_w == w && b_v != v {
                proof {
                    assert forall|env: Env| !(#[trigger] holds(env, cs)) by {
                        if holds(env, cs) {
                            assert(matches_env(env, prev));
                            assert(sym_value(env, prev[j as int].name@, b_w as nat) == b_v);
                            assert(sym_value(env, name@, w as nat) == v);
                        }
                    }
                }
                true
            } else {
                false
            }
        },
        None => {
            rho.push(Binding { name: name.clone(), w, v });
            proof {
                assert forall|j1: int, j2: int|
                    0 <= j1 < j2 < rho@.len() implies (#[trigger] rho@[j1]).name@ != (#[trigger]
                rho@[j2]).name@ by {
                    if j2 < prev.len() {
                        assert(rho@[j1] == prev[j1] && rho@[j2] == prev[j2]);
                        assert(prev[j1].name@ != prev[j2].name@);
                    } else {
                        assert(rho@[j1] == prev[j1]);
                        assert(prev[j1].name@ != name@);
                    }
                }
                assert forall|j: int|
                    0 <= j < rho@.len() implies 1 <= (#[trigger] rho@[j]).w <= 64 && (
                rho@[j].v as nat) < pow2(rho@[j].w as nat) by {
                    if j < prev.len() {
                        assert(rho@[j] == prev[j]);
                        assert(1 <= prev[j].w <= 64 && (prev[j].v as nat) < pow2(
                            prev[j].w as nat,
                        ));
                    }
                }
                assert forall|env: Env| #[trigger] holds(env, cs) implies matches_env(
                    env,
                    rho@,
                ) by {
                    assert(matches_env(env, prev));
                    assert forall|j: int|
                        0 <= j < rho@.len() implies sym_value(
                        env,
                        (#[trigger] rho@[j]).name@,
                        rho@[j].w as nat,
                    ) == rho@[j].v by {
                        if j < prev.len() {
                            assert(rho@[j] == prev[j]);
                            assert(sym_value(env, prev[j].name@, prev[j].w as nat) == prev[j].v);
                        } else {
                            assert(sym_value(env, name@, w as nat) == v);
                        }
                    }
                }
            }
            false
        },
    }
}

/// The outcome of evaluating every constraint under a partial
/// assignment.
enum Scan {
    /// Every constraint evaluates to true under every matching
    /// assignment.
    AllTrue,
    /// Some constraint evaluates to false under every matching
    /// assignment.
    Refuted,
    /// At least one constraint is not decided by the assignment.
    Open,
}

/// Evaluates every constraint under `rho`.
fn scan_constraints(cs: &Vec<Expr>, rho: &Vec<Binding>) -> (r: Scan)
    requires
        wf_constraints(cs@),
        rho_wf(rho@),
    ensures
        r is AllTrue ==> forall|env: Env|
            #[trigger] matches_env(env, rho@) ==> holds(env, cs@),
        r is Refuted ==> forall|env: Env| #[trigger] matches_env(env, rho@) ==> !holds(env, cs@),
{
    let mut i: usize = 0;
    let mut open = false;
    while i < cs.len()
        invariant
            wf_constraints(cs@),
            rho_wf(rho@),
            i <= cs@.len(),
            !open ==> forall|env: Env, j: int|
                #[trigger] matches_env(env, rho@) && 0 <= j < i ==> (#[trigger] cs@[j]).eval(env)
                    == 1,
        decreases cs@.len() - i,
    {
        match eval_under(&cs[i], rho) {
            Some(v) => {
                if v != 1 {
                    proof {
                        assert forall|env: Env| #[trigger]
                            matches_env(env, rho@) implies !holds(env, cs@) by {
                            assert(cs@[i as int].eval(env) == v);
                        }
                    }
                    return Scan::Refuted;
                }
            },
            None => {
                open = true;
            },
        }
        i = i + 1;
    }
    if open {
        Scan::Open
    } else {
        proof {
            assert forall|env: Env| #[trigger] matches_env(env, rho@) implies holds(env, cs@) by {
                assert forall|j: int| 0 <= j < cs@.len() implies (#[trigger] cs@[j]).eval(env)
                    == 1 by {}
            }
        }
        Scan::AllTrue
    }
}

/// Collects candidate values for the witness search: constants
/// appearing in the expression and their neighbours.
fn collect_candidates(e: &Expr, out: &mut Vec<u64>, budget: u32)
    decreases budget, *e,
{
    if budget == 0 {
        return;
    }
    if out.len() >= 24 {
        return;
    }
    match e {
        Expr::Const { v, .. } => {
            out.push(*v);
            if *v < 0xFFFFFFFFFFFFFFFF {
                out.push(*v + 1);
            }
            if *v > 0 {
                out.push(*v - 1);
            }
        },
        Expr::Sym { .. } => {},
        Expr::Not { e: inner } => collect_candidates(inner, out, budget - 1),
        Expr::Binop { a, b, .. } => {
            collect_candidates(a, out, budget - 1);
            collect_candidates(b, out, budget - 1);
        },
        Expr::Ite { c, t, e: el } => {
            collect_candidates(c, out, budget - 1);
            collect_candidates(t, out, budget - 1);
            collect_candidates(el, out, budget - 1);
        },
        Expr::Slice { e: inner, .. } => collect_candidates(inner, out, budget - 1),
        Expr::Concat { hi_e, lo_e } => {
            collect_candidates(hi_e, out, budget - 1);
            collect_candidates(lo_e, out, budget - 1);
        },
        Expr::ZeroExt { e: inner, .. } => collect_candidates(inner, out, budget - 1),
        Expr::SignExt { e: inner, .. } => collect_candidates(inner, out, budget - 1),
    }
}

/// Finds one symbol (of width at most 64) that the assignment does not
/// bind yet.
fn find_unbound_sym(e: &Expr, rho: &Vec<Binding>, budget: u32) -> (r: Option<(String, u32)>)
    ensures
        r matches Some(p) ==> 1 <= p.1 <= 64 && (forall|j: int|
            0 <= j < rho@.len() ==> (#[trigger] rho@[j]).name@ != p.0@),
    decreases budget, *e,
{
    if budget == 0 {
        return None;
    }
    match e {
        Expr::Const { .. } => None,
        Expr::Sym { w, name } => {
            if *w >= 1 && *w <= 64 && find_binding(rho, name).is_none() {
                Some((name.clone(), *w))
            } else {
                None
            }
        },
        Expr::Not { e: inner } => find_unbound_sym(inner, rho, budget - 1),
        Expr::Binop { a, b, .. } => {
            match find_unbound_sym(a, rho, budget - 1) {
                Some(p) => Some(p),
                None => find_unbound_sym(b, rho, budget - 1),
            }
        },
        Expr::Ite { c, t, e: el } => {
            match find_unbound_sym(c, rho, budget - 1) {
                Some(p) => Some(p),
                None => match find_unbound_sym(t, rho, budget - 1) {
                    Some(p) => Some(p),
                    None => find_unbound_sym(el, rho, budget - 1),
                },
            }
        },
        Expr::Slice { e: inner, .. } => find_unbound_sym(inner, rho, budget - 1),
        Expr::Concat { hi_e, lo_e } => {
            match find_unbound_sym(hi_e, rho, budget - 1) {
                Some(p) => Some(p),
                None => find_unbound_sym(lo_e, rho, budget - 1),
            }
        },
        Expr::ZeroExt { e: inner, .. } => find_unbound_sym(inner, rho, budget - 1),
        Expr::SignExt { e: inner, .. } => find_unbound_sym(inner, rho, budget - 1),
    }
}

/// The verdict of the decision procedure on a constraint list.
enum Verdict {
    /// Satisfiable, with a witness assignment.
    Sat(Vec<Binding>),
    /// Proved unsatisfiable.
    Unsat,
    /// Outside the decided fragment.
    Undecided,
}

/// Decides the constraints where the concrete fragment allows:
/// propagate forced equalities, evaluate, and if one symbol is left
/// open, try a small set of candidate values for it.
fn solve(cs: &Vec<Expr>) -> (r: Verdict)
    requires
        wf_constraints(cs@),
    ensures
        r matches Verdict::Sat(rho) ==> rho_wf(rho@) && holds(env_of(rho@), cs@),
        r is Unsat ==> !satisfiable(cs@),
{
    let rho = match collect_forced(cs) {
        None => {
            return Verdict::Unsat;
        },
        Some(rho) => rho,
    };
    match scan_constraints(cs, &rho) {
        Scan::AllTrue => {
            proof {
                lemma_env_of_matches(rho@);
            }
            return Verdict::Sat(rho);
        },
        Scan::Refuted => {
            proof {
                assert forall|env: Env| !(#[trigger] holds(env, cs@)) by {
                    if holds(env, cs@) {
                        assert(matches_env(env, rho@));
                    }
                }
            }
            return Verdict::Unsat;
        },
        Scan::Open => {},
    }
    // One unresolved symbol: search a few candidate values for it.
    let mut sym: Option<(String, u32)> = None;
    let mut k: usize = 0;
    while k < cs.len()
        invariant
            sym matches Some(p) ==> 1 <= p.1 <= 64 && (forall|j: int|
                0 <= j < rho@.len() ==> (#[trigger] rho@[j]).name@ != p.0@),
        decreases cs@.len() - k,
    {
        if sym.is_none() {
            sym = find_unbound_sym(&cs[k], &rho, 64);
        }
        k = k + 1;
    }
    let (name, w) = match sym {
        None => {
            return Verdict::Undecided;
        },
        Some(p) => p,
    };
    let mut candidates: Vec<u64> = Vec::new();
    candidates.push(0);
    candidates.push(1);
    let m = mask_u64(w);
    candidates.push(m);
    let mut k2: usize = 0;
    while k2 < cs.len()
        decreases cs@.len() - k2,
    {
        collect_candidates(&cs[k2], &mut candidates, 64);
        k2 = k2 + 1;
    }
    let ghost base_rho = rho@;
    let mut ci: usize = 0;
    while ci < candidates.len()
        invariant
            wf_constraints(cs@),
            rho_wf(rho@),
            rho@ == base_rho,
            1 <= w <= 64,
            m as nat == pow2(w as nat) - 1,
            forall|j: int| 0 <= j < rho@.len() ==> (#[trigger] rho@[j]).name@ != name@,
        decreases candidates@.len() - ci,
    {
        let raw = candidates[ci];
        let v = if raw <= m {
            raw
        } else {
            proof {
                lemma_pow2_pos(w as nat);
                lemma2_to64();
                assert(w < 64) by {
                    if w == 64 {
                        assert(m == 0xFFFFFFFFFFFFFFFFu64);
                    }
                }
            }
            raw % pow2_u64(w)
        };
        let mut rho2: Vec<Binding> = Vec::new();
        let mut cj: usize = 0;
        while cj < rho.len()
            invariant
                cj <= rho@.len(),
                rho2@.len() == cj,
                forall|j: int| 0 <= j < cj ==> #[trigger] rho2@[j] == rho@[j],
            decreases rho@.len() - cj,
        {
            let b = &rho[cj];
            rho2.push(Binding { name: b.name.clone(), w: b.w, v: b.v });
            cj = cj + 1;
        }
        proof {
            assert(rho2@ =~= rho@);
        }
        rho2.push(Binding { name: name.clone(), w, v });
        proof {
            lemma_pow2_pos(w as nat);
            let ghost full = rho2@;
            assert forall|j: int|
                0 <= j < full.len() implies 1 <= (#[trigger] full[j]).w <= 64 && (
            full[j].v as nat) < pow2(full[j].w as nat) by {
                if j < base_rho.len() {
                    assert(full[j] == base_rho[j]);
                    assert(1 <= base_rho[j].w <= 64 && (base_rho[j].v as nat) < pow2(
                        base_rho[j].w as nat,
                    ));
                }
            }
            assert forall|j1: int, j2: int|
                0 <= j1 < j2 < full.len() implies (#[trigger] full[j1]).name@ != (#[trigger]
            full[j2]).name@ by {
                if j2 < base_rho.len() {
                    assert(full[j1] == base_rho[j1] && full[j2] == base_rho[j2]);
                    assert(base_rho[j1].name@ != base_rho[j2].name@);
                } else {
                    assert(full[j1] == base_rho[j1]);
                    assert(base_rho[j1].name@ != name@);
                }
            }
        }
        match scan_constraints(cs, &rho2) {
            Scan::AllTrue => {
                proof {
                    lemma_env_of_matches(rho2@);
                }
                return Verdict::Sat(rho2);
            },
            _ => {},
        }
        ci = ci + 1;
    }
    Verdict::Undecided
}

/// The engine's satisfiability backend for the concrete fragment.
///
/// It answers `Ok(true)` only with an explicit witness assignment in
/// hand, `Ok(false)` only with a refutation, and `Err(Unknown)` for
/// everything beyond the fragment (in particular for constraints over
/// several unresolved symbols).
pub struct ConcreteBackend {}

impl ConcreteBackend {
    /// Creates the backend.
    pub fn new() -> (r: ConcreteBackend) {
        ConcreteBackend {  }
    }
}

impl Backend for ConcreteBackend {
    fn check(&mut self, constraints: &Vec<Expr>) -> (r: Result<bool, SolverError>) {
        match solve(constraints) {
            Verdict::Sat(rho) => {
                proof {
                    assert(holds(env_of(rho@), constraints@));
                }
                Ok(true)
            },
            Verdict::Unsat => Ok(false),
            Verdict::Undecided => Err(SolverError::Unknown),
        }
    }

    fn get_value(&mut self, constraints: &Vec<Expr>, expr: &Expr) -> (r: Result<
        Option<u64>,
        SolverError,
    >) {
        match solve(constraints) {
            Verdict::Sat(rho) => {
                match eval_under(expr, &rho) {
                    Some(v) => {
                        proof {
                            lemma_env_of_matches(rho@);
                            assert(holds(env_of(rho@), constraints@) && expr.eval(env_of(rho@))
                                == v);
                        }
                        Ok(Some(v))
                    },
                    None => Err(SolverError::Unknown),
                }
            },
            Verdict::Unsat => Ok(None),
            Verdict::Undecided => Err(SolverError::Unknown),
        }
    }
}

} // verus!
