//! The search core: unit propagation by clause scanning and complete
//! branching over the unassigned variables, bounded by decision and conflict
//! budgets.

use vstd::prelude::*;

use crate::model::agrees;
use crate::model::all_assigned;
use crate::model::assign_lit;
use crate::model::assignment_of;
use crate::model::clause_false_under;
use crate::model::clause_holds;
use crate::model::clause_wf;
use crate::model::forced;
use crate::model::formula_holds;
use crate::model::formula_wf;
use crate::model::lemma_agrees_assign;
use crate::model::lemma_count_update;
use crate::model::lemma_false_clause;
use crate::model::lemma_status_truth;
use crate::model::lit_holds;
use crate::model::lit_status;
use crate::model::lit_var;
use crate::model::no_agreeing_model;
use crate::model::passign_wf;
use crate::model::unassigned_all;
use crate::model::unassigned_count;
use crate::model::valid_lit;

verus! {

/// Resource bounds for one solve invocation.  A disabled limit is never
/// consulted, so an unlimited search can only end in a definite answer.
pub struct Budget {
    pub limit_decisions: bool,
    pub decisions_left: u64,
    pub limit_conflicts: bool,
    pub conflicts_left: u64,
}

impl Budget {
    /// Some limit is in force.
    pub open spec fn limited(&self) -> bool {
        self.limit_decisions || self.limit_conflicts
    }
}

/// What one scan of the clause database found.
pub enum ScanOutcome {
    /// Some clause has every literal falsified.
    Conflict,
    /// Some clause forces this literal: every other literal of the clause is
    /// falsified and this one is unassigned.
    Unit(i32),
    /// No clause is falsified and none is unit.
    Quiet,
}

/// How one clause stands under a partial assignment, as the scan reads it.
pub enum ClauseEval {
    /// Some literal already holds.
    Satisfied,
    /// Every literal is falsified.
    Falsified,
    /// Exactly one position is unassigned and no literal holds: that literal
    /// is forced.
    Unit(i32),
    /// At least two positions are unassigned and no literal holds yet.
    Open,
}

/// The scan's reading of a clause from position `j` on, having seen
/// `n_open` unassigned positions so far, the first holding `open_lit`.
pub open spec fn clause_eval_from(c: Seq<i32>, p: Seq<u8>, j: int, n_open: int, open_lit: i32) -> ClauseEval
    decreases c.len() - j,
{
    if j < 0 || j >= c.len() {
        if n_open == 0 {
            ClauseEval::Falsified
        } else {
            ClauseEval::Unit(open_lit)
        }
    } else if lit_status(p, c[j]) == 1 {
        ClauseEval::Satisfied
    } else if lit_status(p, c[j]) == 0 {
        if n_open == 0 {
            clause_eval_from(c, p, j + 1, 1, c[j])
        } else {
            ClauseEval::Open
        }
    } else {
        clause_eval_from(c, p, j + 1, n_open, open_lit)
    }
}

/// The scan's reading of a whole clause.
pub open spec fn clause_eval(c: Seq<i32>, p: Seq<u8>) -> ClauseEval {
    clause_eval_from(c, p, 0, 0, 0)
}

/// What a scan of the clause database from clause `i` on finds: the first
/// falsified or unit clause decides, in clause order.
pub open spec fn scan_eval_from(f: Seq<Seq<i32>>, p: Seq<u8>, i: int) -> ScanOutcome
    decreases f.len() - i,
{
    if i < 0 || i >= f.len() {
        ScanOutcome::Quiet
    } else {
        match clause_eval(f[i], p) {
            ClauseEval::Falsified => ScanOutcome::Conflict,
            ClauseEval::Unit(l) => ScanOutcome::Unit(l),
            _ => scan_eval_from(f, p, i + 1),
        }
    }
}

/// What a scan of the whole clause database finds.
pub open spec fn scan_eval(f: Seq<Seq<i32>>, p: Seq<u8>) -> ScanOutcome {
    scan_eval_from(f, p, 0)
}

/// A unit literal reported by the clause scan is valid and unassigned.
proof fn lemma_clause_eval_unit(c: Seq<i32>, p: Seq<u8>, j: int, n_open: int, open_lit: i32, nv: int)
    requires
        clause_wf(c, nv),
        passign_wf(p, nv),
        n_open == 0 || n_open == 1,
        n_open == 1 ==> valid_lit(open_lit, nv) && lit_status(p, open_lit) == 0,
    ensures
        clause_eval_from(c, p, j, n_open, open_lit) matches ClauseEval::Unit(x) ==> valid_lit(
            x,
            nv,
        ) && lit_status(p, x) == 0,
    decreases c.len() - j,
{
    if 0 <= j < c.len() {
        if lit_status(p, c[j]) == 1 {
        } else if lit_status(p, c[j]) == 0 {
            if n_open == 0 {
                lemma_clause_eval_unit(c, p, j + 1, 1, c[j], nv);
            }
        } else {
            lemma_clause_eval_unit(c, p, j + 1, n_open, open_lit, nv);
        }
    }
}

/// A unit literal reported by the database scan is valid and unassigned.
proof fn lemma_scan_eval_unit(f: Seq<Seq<i32>>, p: Seq<u8>, i: int, nv: int)
    requires
        formula_wf(f, nv),
        passign_wf(p, nv),
    ensures
        scan_eval_from(f, p, i) matches ScanOutcome::Unit(l) ==> valid_lit(l, nv) && lit_status(
            p,
            l,
        ) == 0,
    decreases f.len() - i,
{
    if 0 <= i < f.len() {
        lemma_clause_eval_unit(f[i], p, 0, 0, 0, nv);
        lemma_scan_eval_unit(f, p, i + 1, nv);
    }
}

/// The partial assignment that unit propagation reaches: while the scan
/// reports a unit literal, it is assigned; a falsified database or a quiet
/// one ends the run.
pub open spec fn propagate_result(f: Seq<Seq<i32>>, p: Seq<u8>) -> Seq<u8>
    decreases unassigned_count(p)
        when formula_wf(f, p.len() - 1) && passign_wf(p, p.len() - 1)
        via propagate_result_decreases
{
    match scan_eval(f, p) {
        ScanOutcome::Unit(l) => propagate_result(f, assign_lit(p, l)),
        _ => p,
    }
}

#[via_fn]
proof fn propagate_result_decreases(f: Seq<Seq<i32>>, p: Seq<u8>) {
    match scan_eval(f, p) {
        ScanOutcome::Unit(l) => {
            lemma_scan_eval_unit(f, p, 0, p.len() - 1);
            assert(p[lit_var(l)] == 0);
            lemma_count_update(
                p,
                lit_var(l),
                if l >= 0 {
                    1u8
                } else {
                    2u8
                },
            );
        },
        _ => {},
    }
}

/// Propagation from `p` ends at a falsified clause.
pub open spec fn propagation_conflicts(f: Seq<Seq<i32>>, p: Seq<u8>) -> bool {
    scan_eval(f, propagate_result(f, p)) is Conflict
}

/// The least unassigned variable from `v` on, or `p.len()` when every
/// variable from `v` on is assigned.
pub open spec fn first_open(p: Seq<u8>, v: int) -> int
    decreases p.len() - v,
{
    if v < 0 || v >= p.len() {
        p.len() as int
    } else if p[v] == 0 {
        v
    } else {
        first_open(p, v + 1)
    }
}

/// Bounds and meaning of `first_open`.
proof fn lemma_first_open(p: Seq<u8>, v: int)
    requires
        0 <= v <= p.len(),
    ensures
        v <= first_open(p, v) <= p.len(),
        first_open(p, v) < p.len() ==> p[first_open(p, v)] == 0,
        forall|w: int| v <= w < first_open(p, v) ==> p[w] != 0,
    decreases p.len() - v,
{
    if v < p.len() && p[v] != 0 {
        lemma_first_open(p, v + 1);
    }
}

/// Propagation keeps the assignment well formed, its length, and does not
/// raise the number of unassigned variables.
proof fn lemma_propagate_props(f: Seq<Seq<i32>>, p: Seq<u8>)
    requires
        formula_wf(f, p.len() - 1),
        passign_wf(p, p.len() - 1),
    ensures
        propagate_result(f, p).len() == p.len(),
        passign_wf(propagate_result(f, p), p.len() - 1),
        unassigned_count(propagate_result(f, p)) <= unassigned_count(p),
    decreases unassigned_count(p),
{
    match scan_eval(f, p) {
        ScanOutcome::Unit(l) => {
            lemma_scan_eval_unit(f, p, 0, p.len() - 1);
            assert(p[lit_var(l)] == 0);
            lemma_count_update(
                p,
                lit_var(l),
                if l >= 0 {
                    1u8
                } else {
                    2u8
                },
            );
            assert(passign_wf(assign_lit(p, l), p.len() - 1));
            lemma_propagate_props(f, assign_lit(p, l));
        },
        _ => {},
    }
}

/// Spec-level verdict of the search: the model found, a refutation, or a
/// halt on an exhausted budget.
pub enum SearchVerdict {
    /// The fully assigned partial assignment the search reports.
    Model(Seq<u8>),
    /// No agreeing total assignment satisfies the formula.
    Refuted,
    /// A budget ran out.
    Halted,
}

/// The search procedure itself, as a function: propagate, stop on conflict
/// or a full assignment, otherwise charge the decision budget and try the
/// first unassigned variable true then false.  The executable search returns
/// exactly this verdict and leaves the budget exactly as this computes it.
pub open spec fn search_eval(f: Seq<Seq<i32>>, p: Seq<u8>, b: Budget) -> (SearchVerdict, Budget)
    decreases unassigned_count(p)
        when formula_wf(f, p.len() - 1) && passign_wf(p, p.len() - 1)
        via search_eval_decreases
{
    let q = propagate_result(f, p);
    if scan_eval(f, q) is Conflict {
        if b.limit_conflicts {
            if b.conflicts_left == 0 {
                (SearchVerdict::Halted, b)
            } else {
                (
                    SearchVerdict::Refuted,
                    Budget {
                        limit_decisions: b.limit_decisions,
                        decisions_left: b.decisions_left,
                        limit_conflicts: b.limit_conflicts,
                        conflicts_left: (b.conflicts_left - 1) as u64,
                    },
                )
            }
        } else {
            (SearchVerdict::Refuted, b)
        }
    } else {
        let v = first_open(q, 1);
        if v >= q.len() {
            (SearchVerdict::Model(q), b)
        } else if b.limit_decisions && b.decisions_left == 0 {
            (SearchVerdict::Halted, b)
        } else {
            let b1 = if b.limit_decisions {
                Budget {
                    limit_decisions: b.limit_decisions,
                    decisions_left: (b.decisions_left - 1) as u64,
                    limit_conflicts: b.limit_conflicts,
                    conflicts_left: b.conflicts_left,
                }
            } else {
                b
            };
            let r1 = search_eval(f, q.update(v, 1u8), b1);
            if r1.0 is Refuted {
                search_eval(f, q.update(v, 2u8), r1.1)
            } else {
                r1
            }
        }
    }
}

#[via_fn]
proof fn search_eval_decreases(f: Seq<Seq<i32>>, p: Seq<u8>, b: Budget) {
    lemma_propagate_props(f, p);
    let q = propagate_result(f, p);
    if !(scan_eval(f, q) is Conflict) && q.len() >= 1 {
        lemma_first_open(q, 1);
        let v = first_open(q, 1);
        if v < q.len() {
            lemma_count_update(q, v, 1u8);
            lemma_count_update(q, v, 2u8);
            assert(passign_wf(q.update(v, 1u8), p.len() - 1));
            assert(passign_wf(q.update(v, 2u8), p.len() - 1));
        }
    }
}

/// Result of the search over all total assignments that agree with the
/// starting partial assignment.
pub enum SearchOutcome {
    /// A fully assigned partial assignment whose reading satisfies the formula.
    Satisfied(Vec<u8>),
    /// No total assignment agreeing with the starting point satisfies the
    /// formula.
    Unsatisfied,
    /// A decision or conflict limit ran out before the subtree was settled.
    Interrupted,
}

/// Status of literal `l` under the partial assignment `p`.
fn status_of(p: &Vec<u8>, l: i32) -> (s: u8)
    requires
        passign_wf(p@, p@.len() - 1),
        valid_lit(l, p@.len() - 1),
    ensures
        s == lit_status(p@, l),
{
    let v: usize = if l >= 0 {
        l as usize
    } else {
        (-l) as usize
    };
    let x = p[v];
    if l >= 0 {
        x
    } else if x == 1 {
        2
    } else if x == 2 {
        1
    } else {
        0
    }
}

/// Scan every clause for a falsified or unit clause.
fn scan(f: &Vec<Vec<i32>>, p: &Vec<u8>, nv: usize) -> (r: ScanOutcome)
    requires
        formula_wf(f.deep_view(), nv as int),
        passign_wf(p@, nv as int),
    ensures
        r == scan_eval(f.deep_view(), p@),
        match r {
            ScanOutcome::Conflict => no_agreeing_model(f.deep_view(), p@),
            ScanOutcome::Unit(l) => valid_lit(l, nv as int) && lit_status(p@, l) == 0 && forced(
                f.deep_view(),
                p@,
                l,
            ),
            ScanOutcome::Quiet => forall|i: int|
                0 <= i < f.deep_view().len() ==> !clause_false_under(
                    p@,
                    #[trigger] f.deep_view()[i],
                ),
        },
{
    let ghost fv = f.deep_view();
    let mut i: usize = 0;
    while i < f.len()
        invariant
            formula_wf(fv, nv as int),
            passign_wf(p@, nv as int),
            fv == f.deep_view(),
            f@.len() == fv.len(),
            i <= f@.len(),
            forall|k: int| 0 <= k < i ==> !clause_false_under(p@, #[trigger] fv[k]),
            scan_eval(fv, p@) == scan_eval_from(fv, p@, i as int),
        decreases f@.len() - i,
    {
        let c: &Vec<i32> = &f[i];
        proof {
            assert(c@ =~= fv[i as int]);
            assert(clause_wf(c@, nv as int));
        }
        let mut j: usize = 0;
        let mut open_lit: i32 = 0;
        let mut n_open: usize = 0;
        let mut satisfied = false;
        while j < c.len()
            invariant_except_break
                !satisfied,
                n_open <= 1,
                clause_eval(c@, p@) == clause_eval_from(c@, p@, j as int, n_open as int, open_lit),
                forall|k: int| 0 <= k < j ==> lit_status(p@, #[trigger] c@[k]) != 1,
                n_open == 0 ==> forall|k: int| 0 <= k < j ==> lit_status(p@, #[trigger] c@[k]) == 2,
                n_open == 1 ==> valid_lit(open_lit, nv as int) && lit_status(p@, open_lit) == 0 && (
                exists|k0: int| 0 <= k0 < j && c@[k0] == open_lit) && forall|k: int|
                    0 <= k < j && #[trigger] c@[k] != open_lit ==> lit_status(p@, c@[k]) == 2,
            invariant
                j <= c@.len(),
                passign_wf(p@, nv as int),
                clause_wf(c@, nv as int),
            ensures
                satisfied ==> clause_eval(c@, p@) == ClauseEval::Satisfied,
                !satisfied && n_open == 0 ==> clause_eval(c@, p@) == ClauseEval::Falsified,
                !satisfied && n_open == 1 ==> clause_eval(c@, p@) == ClauseEval::Unit(open_lit),
                !satisfied && n_open >= 2 ==> clause_eval(c@, p@) == ClauseEval::Open,
                satisfied ==> exists|k: int| 0 <= k < c@.len() && lit_status(p@, #[trigger] c@[k])
                    == 1,
                !satisfied && n_open == 0 ==> clause_false_under(p@, c@),
                !satisfied && n_open == 1 ==> valid_lit(open_lit, nv as int) && lit_status(
                    p@,
                    open_lit,
                ) == 0 && forall|k: int|
                    0 <= k < c@.len() && #[trigger] c@[k] != open_lit ==> lit_status(p@, c@[k])
                        == 2,
                !satisfied && n_open >= 2 ==> exists|k: int|
                    0 <= k < c@.len() && lit_status(p@, #[trigger] c@[k]) == 0,
            decreases c@.len() - j,
        {
            let l = c[j];
            let s = status_of(p, l);
            if s == 1 {
                proof {
                    assert(clause_eval_from(c@, p@, j as int, n_open as int, open_lit)
                        == ClauseEval::Satisfied);
                }
                satisfied = true;
                break ;
            }
            if s == 0 {
                if n_open == 0 {
                    open_lit = l;
                    n_open = 1;
                } else {
                    proof {
                        let k0 = choose|k0: int| 0 <= k0 < j && c@[k0] == open_lit;
                        assert(0 <= k0 < c@.len() && lit_status(p@, c@[k0]) == 0);
                        assert(clause_eval_from(c@, p@, j as int, n_open as int, open_lit)
                            == ClauseEval::Open);
                    }
                    n_open = 2;
                    break ;
                }
            }
            j += 1;
        }
        if !satisfied && n_open == 0 {
            proof {
                assert forall|a: Seq<bool>| a.len() == p@.len() && agrees(a, p@) implies
                    !formula_holds(a, fv) by {
                    if formula_holds(a, fv) {
                        lemma_false_clause(a, p@, c@);
                        assert(clause_holds(a, fv[i as int]));
                    }
                }
            }
            proof {
                assert(scan_eval_from(fv, p@, i as int) == ScanOutcome::Conflict);
            }
            return ScanOutcome::Conflict;
        }
        if !satisfied && n_open == 1 {
            proof {
                assert forall|a: Seq<bool>|
                    a.len() == p@.len() && agrees(a, p@) && formula_holds(a, fv) implies lit_holds(
                    a,
                    open_lit,
                ) by {
                    assert(clause_holds(a, fv[i as int]));
                    let k = choose|k: int| 0 <= k < c@.len() && lit_holds(a, #[trigger] c@[k]);
                    if c@[k] != open_lit {
                        lemma_status_truth(a, p@, c@[k]);
                    }
                }
            }
            proof {
                assert(scan_eval_from(fv, p@, i as int) == ScanOutcome::Unit(open_lit));
            }
            return ScanOutcome::Unit(open_lit);
        }
        proof {
            assert(scan_eval_from(fv, p@, i as int) == scan_eval_from(fv, p@, i as int + 1));
            if satisfied {
                let k = choose|k: int| 0 <= k < c@.len() && lit_status(p@, #[trigger] c@[k]) == 1;
                assert(!clause_false_under(p@, fv[i as int]));
            } else {
                let k = choose|k: int| 0 <= k < c@.len() && lit_status(p@, #[trigger] c@[k]) == 0;
                assert(!clause_false_under(p@, fv[i as int]));
            }
        }
        i += 1;
    }
    proof {
        assert(scan_eval_from(fv, p@, i as int) == ScanOutcome::Quiet);
    }
    ScanOutcome::Quiet
}

/// A fresh partial assignment with every variable unassigned.
pub(crate) fn blank_passign(nv: usize) -> (p: Vec<u8>)
    requires
        nv < usize::MAX,
    ensures
        passign_wf(p@, nv as int),
        p@ == unassigned_all(nv as int),
        forall|k: int| 0 <= k < p@.len() ==> p@[k] == 0,
{
    let mut p: Vec<u8> = Vec::new();
    let mut i: usize = 0;
    while i < nv + 1
        invariant
            nv < usize::MAX,
            i <= nv + 1,
            p@.len() == i as int,
            forall|k: int| 0 <= k < i ==> p@[k] == 0,
        decreases nv + 1 - i,
    {
        p.push(0);
        i += 1;
    }
    proof {
        assert(p@ =~= unassigned_all(nv as int));
    }
    p
}

/// Copy a vector of plain values, so that one branch of the search can be
/// tried without losing the starting point of the other.
pub(crate) fn copy_vec<T: Copy>(p: &Vec<T>) -> (r: Vec<T>)
    ensures
        r@ == p@,
{
    let mut r: Vec<T> = Vec::new();
    let mut i: usize = 0;
    while i < p.len()
        invariant
            i <= p@.len(),
            r@ =~= p@.take(i as int),
        decreases p@.len() - i,
    {
        r.push(p[i]);
        proof {
            assert(r@ =~= p@.take(i as int + 1));
        }
        i += 1;
    }
    proof {
        assert(r@ =~= p@);
    }
    r
}

/// Outcome of running unit propagation to a fixpoint.
pub(crate) enum PropagateOutcome {
    /// Some clause has every literal falsified.
    Conflict,
    /// No clause is falsified and none is unit.
    Quiet,
}

/// Run unit propagation to a fixpoint, assigning every forced literal.
///
/// Every satisfying total assignment that agreed with the partial assignment
/// before the call still agrees with it after the call: propagation only adds
/// forced values.
pub(crate) fn propagate(f: &Vec<Vec<i32>>, p: &mut Vec<u8>, nv: usize) -> (r: PropagateOutcome)
    requires
        formula_wf(f.deep_view(), nv as int),
        passign_wf(old(p)@, nv as int),
    ensures
        passign_wf(final(p)@, nv as int),
        final(p)@.len() == old(p)@.len(),
        unassigned_count(final(p)@) <= unassigned_count(old(p)@),
        forall|a: Seq<bool>|
            a.len() == old(p)@.len() && agrees(a, old(p)@) && formula_holds(a, f.deep_view())
                ==> agrees(a, final(p)@),
        final(p)@ == propagate_result(f.deep_view(), old(p)@),
        (r is Conflict) == (scan_eval(f.deep_view(), final(p)@) is Conflict),
        r is Conflict ==> no_agreeing_model(f.deep_view(), final(p)@),
        r is Quiet ==> forall|i: int|
            0 <= i < f.deep_view().len() ==> !clause_false_under(
                final(p)@,
                #[trigger] f.deep_view()[i],
            ),
{
    let ghost p0 = old(p)@;
    let ghost fv = f.deep_view();
    loop
        invariant
            formula_wf(fv, nv as int),
            fv == f.deep_view(),
            passign_wf(p@, nv as int),
            p@.len() == p0.len(),
            p0 == old(p)@,
            unassigned_count(p@) <= unassigned_count(p0),
            propagate_result(fv, p0) == propagate_result(fv, p@),
            forall|a: Seq<bool>|
                a.len() == p0.len() && agrees(a, p0) && formula_holds(a, fv) ==> agrees(a, p@),
        decreases unassigned_count(p@),
    {
        match scan(f, p, nv) {
            ScanOutcome::Conflict => {
                proof {
                    assert(propagate_result(fv, p@) == p@);
                }
                return PropagateOutcome::Conflict;
            },
            ScanOutcome::Unit(l) => {
                let ghost p_before = p@;
                proof {
                    assert forall|a: Seq<bool>|
                        a.len() == p0.len() && agrees(a, p0) && formula_holds(a, fv) implies agrees(
                        a,
                        assign_lit(p_before, l),
                    ) by {
                        assert(agrees(a, p_before));
                        assert(lit_holds(a, l));
                        lemma_agrees_assign(a, p_before, l);
                    }
                    assert(p_before[lit_var(l)] == 0);
                    lemma_count_update(
                        p_before,
                        lit_var(l),
                        if l >= 0 {
                            1u8
                        } else {
                            2u8
                        },
                    );
                }
                let v: usize = if l >= 0 {
                    l as usize
                } else {
                    (-l) as usize
                };
                p[v] = if l >= 0 {
                    1
                } else {
                    2
                };
                proof {
                    assert(v as int == lit_var(l));
                    assert(p@ =~= assign_lit(p_before, l));
                    assert(propagate_result(fv, p_before) == propagate_result(fv, p@));
                }
            },
            ScanOutcome::Quiet => {
                proof {
                    assert(propagate_result(fv, p@) == p@);
                }
                return PropagateOutcome::Quiet;
            },
        }
    }
}

/// Search the subtree of total assignments that agree with `p`.
///
/// Propagates unit clauses to a fixpoint, then branches on the first
/// unassigned variable.  A `Satisfied` result carries a full assignment that
/// satisfies the formula; `Unsatisfied` means no agreeing total assignment
/// satisfies it; `Interrupted` can only arise when some limit is in force.
pub fn search(f: &Vec<Vec<i32>>, p: Vec<u8>, nv: usize, budget: &mut Budget) -> (r: SearchOutcome)
    requires
        formula_wf(f.deep_view(), nv as int),
        passign_wf(p@, nv as int),
    ensures
        final(budget).limit_decisions == old(budget).limit_decisions,
        final(budget).limit_conflicts == old(budget).limit_conflicts,
        final(budget).decisions_left <= old(budget).decisions_left,
        final(budget).conflicts_left <= old(budget).conflicts_left,
        r matches SearchOutcome::Satisfied(m) ==> passign_wf(m@, nv as int) && all_assigned(m@)
            && formula_holds(assignment_of(m@), f.deep_view()),
        r is Unsatisfied ==> no_agreeing_model(f.deep_view(), p@),
        r is Interrupted ==> old(budget).limited(),
        r is Interrupted ==> (final(budget).limit_decisions && final(budget).decisions_left == 0)
            || (final(budget).limit_conflicts && final(budget).conflicts_left == 0),
        *final(budget) == search_eval(f.deep_view(), p@, *old(budget)).1,
        r matches SearchOutcome::Satisfied(m) ==> search_eval(f.deep_view(), p@, *old(budget)).0
            == SearchVerdict::Model(m@),
        r is Unsatisfied ==> search_eval(f.deep_view(), p@, *old(budget)).0 is Refuted,
        r is Interrupted ==> search_eval(f.deep_view(), p@, *old(budget)).0 is Halted,
    decreases unassigned_count(p@),
{
    let ghost p0 = p@;
    let ghost fv = f.deep_view();
    let ghost b0 = *old(budget);
    let mut p = p;
    let propagated = propagate(f, &mut p, nv);
    let ghost q = p@;
    proof {
        assert(q == propagate_result(fv, p0));
    }
    match propagated {
        PropagateOutcome::Conflict => {
            proof {
                assert(scan_eval(fv, q) is Conflict);
            }
            if budget.limit_conflicts {
                if budget.conflicts_left == 0 {
                    proof {
                        assert(search_eval(fv, p0, b0) == (SearchVerdict::Halted, b0));
                    }
                    return SearchOutcome::Interrupted;
                }
                budget.conflicts_left = budget.conflicts_left - 1;
            }
            proof {
                assert(search_eval(fv, p0, b0).0 is Refuted);
                assert(search_eval(fv, p0, b0).1 == *budget);
            }
            proof {
                assert forall|a: Seq<bool>| a.len() == p0.len() && agrees(a, p0) implies
                    !formula_holds(a, fv) by {
                    if formula_holds(a, fv) {
                        assert(agrees(a, p@));
                        assert(!formula_holds(a, fv));
                    }
                }
            }
            return SearchOutcome::Unsatisfied;
        },
        PropagateOutcome::Quiet => {},
    }
    let mut v: usize = 1;
    while v < p.len() && p[v] != 0
        invariant
            passign_wf(p@, nv as int),
            1 <= v <= p@.len(),
            forall|w: int| 1 <= w < v ==> p@[w] != 0,
            p@ == q,
            first_open(q, 1) == first_open(q, v as int),
        decreases p@.len() - v,
    {
        v += 1;
    }
    proof {
        assert(first_open(q, 1) == v as int);
        assert(scan_eval(fv, q) !is Conflict);
    }
    if v == p.len() {
        proof {
            let a = assignment_of(p@);
            assert(agrees(a, p@));
            assert forall|i: int| 0 <= i < fv.len() implies clause_holds(a, #[trigger] fv[i]) by {
                assert(!clause_false_under(p@, fv[i]));
                let k = choose|k: int|
                    0 <= k < fv[i].len() && lit_status(p@, #[trigger] fv[i][k]) != 2;
                let l = fv[i][k];
                assert(valid_lit(l, nv as int));
                assert(p@[lit_var(l)] != 0);
                assert(lit_status(p@, l) == 1);
                lemma_status_truth(a, p@, l);
                assert(lit_holds(a, l));
            }
        }
        proof {
            assert(search_eval(fv, p0, b0) == (SearchVerdict::Model(q), b0));
        }
        return SearchOutcome::Satisfied(p);
    }
    if budget.limit_decisions {
        if budget.decisions_left == 0 {
            proof {
                assert(search_eval(fv, p0, b0) == (SearchVerdict::Halted, b0));
            }
            return SearchOutcome::Interrupted;
        }
        budget.decisions_left = budget.decisions_left - 1;
    }
    let ghost b1 = *budget;
    proof {
        lemma_count_update(p@, v as int, 1u8);
        lemma_count_update(p@, v as int, 2u8);
    }
    let ghost p_quiet = p@;
    proof {
        let r1 = search_eval(fv, q.update(v as int, 1u8), b1);
        if r1.0 is Refuted {
            assert(search_eval(fv, p0, b0) == search_eval(fv, q.update(v as int, 2u8), r1.1));
        } else {
            assert(search_eval(fv, p0, b0) == r1);
        }
    }
    let mut branch = copy_vec(&p);
    branch[v] = 1;
    let ghost b1v = branch@;
    match search(f, branch, nv, budget) {
        SearchOutcome::Satisfied(m) => {
            return SearchOutcome::Satisfied(m);
        },
        SearchOutcome::Interrupted => {
            return SearchOutcome::Interrupted;
        },
        SearchOutcome::Unsatisfied => {},
    }
    p[v] = 2;
    let ghost b2 = p@;
    match search(f, p, nv, budget) {
        SearchOutcome::Satisfied(m) => SearchOutcome::Satisfied(m),
        SearchOutcome::Interrupted => SearchOutcome::Interrupted,
        SearchOutcome::Unsatisfied => {
            proof {
                assert(b1v =~= p_quiet.update(v as int, 1u8));
                assert(b2 =~= p_quiet.update(v as int, 2u8));
                assert forall|a: Seq<bool>| a.len() == p0.len() && agrees(a, p0) implies
                    !formula_holds(a, fv) by {
                    if formula_holds(a, fv) {
                        assert(agrees(a, p_quiet));
                        if a[v as int] {
                            assert(agrees(a, b1v));
                        } else {
                            assert(agrees(a, b2));
                        }
                    }
                }
            }
            SearchOutcome::Unsatisfied
        },
    }
}

} // verus!
