//! Inprocessing passes over the clause database: forward subsumption and
//! pure-literal elimination.  Each pass preserves the set of satisfying
//! assignments (subsumption) or satisfiability with a recorded reconstruction
//! rule (elimination), and each is idempotent: a second run on its own output
//! changes nothing.

use vstd::prelude::*;

use crate::model::agrees;
use crate::model::assign_lit;
use crate::model::clause_holds;
use crate::model::clause_wf;
use crate::model::formula_holds;
use crate::model::formula_wf;
use crate::model::lemma_agrees_assign;
use crate::model::lit_holds;
use crate::model::lit_var;
use crate::model::passign_wf;
use crate::model::satisfiable;
use crate::model::valid_lit;
use crate::model::unassigned_all;
use crate::search::propagate;
use crate::search::propagate_result;
use crate::search::propagation_conflicts;
use crate::search::scan_eval;
use crate::search::PropagateOutcome;

verus! {

/// Every literal of `c` also occurs in `d`: `c` subsumes `d`.
pub open spec fn clause_sub(c: Seq<i32>, d: Seq<i32>) -> bool {
    forall|i: int| 0 <= i < c.len() ==> d.contains(#[trigger] c[i])
}

/// No clause is subsumed by an earlier one.
pub open spec fn subsumption_reduced(f: Seq<Seq<i32>>) -> bool {
    forall|i: int, j: int| 0 <= i < j < f.len() ==> !clause_sub(#[trigger] f[i], #[trigger] f[j])
}

/// The literal `l` occurs in some clause of `f`.
pub open spec fn occurs(f: Seq<Seq<i32>>, l: i32) -> bool {
    exists|i: int, j: int| 0 <= i < f.len() && 0 <= j < f[i].len() && #[trigger] f[i][j] == l
}

/// The opposite literal.
pub open spec fn neg_lit(l: i32) -> i32 {
    (-(l as int)) as i32
}

/// A subsuming clause entails the subsumed one.
pub proof fn lemma_sub_entails(a: Seq<bool>, c: Seq<i32>, d: Seq<i32>)
    requires
        clause_sub(c, d),
        clause_holds(a, c),
    ensures
        clause_holds(a, d),
{
    let i = choose|i: int| 0 <= i < c.len() && lit_holds(a, #[trigger] c[i]);
    assert(d.contains(c[i]));
    let j = choose|j: int| 0 <= j < d.len() && d[j] == c[i];
    assert(lit_holds(a, d[j]));
}

/// Does the clause contain the literal?
fn contains_lit(d: &Vec<i32>, l: i32) -> (r: bool)
    ensures
        r == d@.contains(l),
{
    let mut k: usize = 0;
    while k < d.len()
        invariant
            k <= d@.len(),
            forall|t: int| 0 <= t < k ==> d@[t] != l,
        decreases d@.len() - k,
    {
        if d[k] == l {
            return true;
        }
        k += 1;
    }
    false
}

/// Does `c` subsume `d`?
fn clause_subset(c: &Vec<i32>, d: &Vec<i32>) -> (r: bool)
    ensures
        r == clause_sub(c@, d@),
{
    let mut k: usize = 0;
    while k < c.len()
        invariant
            k <= c@.len(),
            forall|t: int| 0 <= t < k ==> d@.contains(#[trigger] c@[t]),
        decreases c@.len() - k,
    {
        if !contains_lit(d, c[k]) {
            return false;
        }
        k += 1;
    }
    true
}

/// Is the clause subsumed by some clause already kept?
fn subsumed_by_any(kept: &Vec<Vec<i32>>, c: &Vec<i32>) -> (r: bool)
    ensures
        r == exists|j: int|
            0 <= j < kept.deep_view().len() && clause_sub(#[trigger] kept.deep_view()[j], c@),
{
    let ghost kv = kept.deep_view();
    let mut j: usize = 0;
    while j < kept.len()
        invariant
            kv == kept.deep_view(),
            kept@.len() == kv.len(),
            j <= kv.len(),
            forall|t: int| 0 <= t < j ==> !clause_sub(#[trigger] kv[t], c@),
        decreases kv.len() - j,
    {
        let d = &kept[j];
        proof {
            assert(d@ =~= kv[j as int]);
        }
        if clause_subset(d, c) {
            return true;
        }
        j += 1;
    }
    false
}

/// Forward subsumption: drop every clause that is a superset of an earlier
/// kept clause (duplicates among them).
///
/// The result holds under exactly the same total assignments as the input,
/// the result is subsumption-reduced, and a subsumption-reduced input comes
/// back unchanged, so running the pass twice in a row changes nothing on the
/// second run.
#[verifier::rlimit(50)]
pub fn subsume(f: &Vec<Vec<i32>>) -> (r: Vec<Vec<i32>>)
    ensures
        forall|j: int|
            0 <= j < r.deep_view().len() ==> exists|i: int|
                0 <= i < f.deep_view().len() && #[trigger] r.deep_view()[j] == f.deep_view()[i],
        forall|a: Seq<bool>|
            formula_holds(a, r.deep_view()) <==> formula_holds(a, #[trigger] f.deep_view()),
        subsumption_reduced(r.deep_view()),
        subsumption_reduced(f.deep_view()) ==> r.deep_view() == f.deep_view(),
{
    let ghost fv = f.deep_view();
    let mut kept: Vec<Vec<i32>> = Vec::new();
    let ghost mut kd: Seq<Seq<i32>> = Seq::empty();
    let ghost mut origin: Seq<int> = Seq::empty();
    let ghost mut cover: Seq<int> = Seq::empty();
    let mut i: usize = 0;
    proof {
        assert(kd =~= kept.deep_view());
    }
    while i < f.len()
        invariant
            fv == f.deep_view(),
            f@.len() == fv.len(),
            i <= fv.len(),
            kd == kept.deep_view(),
            origin.len() == kd.len(),
            forall|j: int|
                0 <= j < kd.len() ==> 0 <= #[trigger] origin[j] < i && kd[j] == fv[origin[j]],
            cover.len() == i as int,
            forall|i0: int|
                0 <= i0 < i ==> 0 <= #[trigger] cover[i0] < kd.len() && clause_sub(
                    kd[cover[i0]],
                    fv[i0],
                ),
            subsumption_reduced(kd),
            subsumption_reduced(fv) ==> kd =~= fv.take(i as int),
        decreases fv.len() - i,
    {
        let c = &f[i];
        proof {
            assert(c@ =~= fv[i as int]);
        }
        if !subsumed_by_any(&kept, c) {
            let copy = crate::search::copy_vec(c);
            let ghost prev = kept@;
            let ghost kd_old = kd;
            kept.push(copy);
            proof {
                assert forall|j: int| 0 <= j < kept.deep_view().len() implies #[trigger] kept
                    .deep_view()[j] == kd_old.push(fv[i as int])[j] by {
                    if j < prev.len() {
                        assert(kept@[j] == prev[j]);
                    } else {
                        assert(kept@[j] == copy);
                    }
                }
                assert(kept.deep_view() =~= kd_old.push(fv[i as int]));
                kd = kd_old.push(fv[i as int]);
                origin = origin.push(i as int);
                cover = cover.push(kd_old.len() as int);
                assert forall|t: int| 0 <= t < fv[i as int].len() implies fv[i as int].contains(
                    #[trigger] fv[i as int][t],
                ) by {
                }
                assert(clause_sub(fv[i as int], fv[i as int]));
                assert forall|t: int, u: int| 0 <= t < u < kd.len() implies !clause_sub(
                    #[trigger] kd[t],
                    #[trigger] kd[u],
                ) by {
                    if u < kd.len() - 1 {
                        assert(!clause_sub(kd_old[t], kd_old[u]));
                    } else {
                        assert(!clause_sub(kd_old[t], c@));
                    }
                }
                if subsumption_reduced(fv) {
                    assert(kd =~= fv.take(i as int + 1));
                }
            }
        } else {
            proof {
                let j0 = choose|j: int|
                    0 <= j < kept.deep_view().len() && clause_sub(
                        #[trigger] kept.deep_view()[j],
                        c@,
                    );
                cover = cover.push(j0);
                if subsumption_reduced(fv) {
                    assert(kd[j0] == fv[j0]);
                    assert(clause_sub(fv[j0], fv[i as int]));
                    assert(false);
                }
            }
        }
        i += 1;
    }
    proof {
        assert(fv.take(fv.len() as int) =~= fv);
        assert forall|j: int| #![trigger kd[j]] 0 <= j < kd.len() implies exists|i0: int|
            0 <= i0 < fv.len() && kd[j] == #[trigger] fv[i0] by {
            assert(kd[j] == fv[origin[j]]);
        }
        assert forall|a: Seq<bool>| formula_holds(a, kd) <==> formula_holds(
            a,
            #[trigger] f.deep_view(),
        ) by {
            if formula_holds(a, fv) {
                assert forall|j: int| 0 <= j < kd.len() implies clause_holds(
                    a,
                    #[trigger] kd[j],
                ) by {
                    assert(clause_holds(a, fv[origin[j]]));
                }
            }
            if formula_holds(a, kd) {
                assert forall|i0: int| 0 <= i0 < fv.len() implies clause_holds(
                    a,
                    #[trigger] fv[i0],
                ) by {
                    assert(clause_holds(a, kd[cover[i0]]));
                    lemma_sub_entails(a, kd[cover[i0]], fv[i0]);
                }
            }
        }
        if subsumption_reduced(fv) {
            assert(kd == fv);
        }
    }
    kept
}

/// Truth of a clause that never mentions the variable of `l` is unchanged by
/// the reconstruction rule for `l`.
pub proof fn lemma_clause_stable(a: Seq<bool>, l: i32, c: Seq<i32>)
    requires
        valid_lit(l, a.len() - 1),
        clause_wf(c, a.len() - 1),
        forall|t: int| 0 <= t < c.len() ==> #[trigger] c[t] != l && c[t] != neg_lit(l),
    ensures
        clause_holds(witness_extend(a, l), c) == clause_holds(a, c),
{
    let b = witness_extend(a, l);
    assert forall|t: int| 0 <= t < c.len() implies lit_holds(b, #[trigger] c[t]) == lit_holds(
        a,
        c[t],
    ) by {
        assert(valid_lit(c[t], a.len() - 1));
        assert(lit_var(c[t]) != lit_var(l));
    }
}

/// The total assignment extended by the reconstruction rule for an
/// eliminated literal: its variable is set so that the literal holds.
pub open spec fn witness_extend(a: Seq<bool>, l: i32) -> Seq<bool> {
    a.update(lit_var(l), l >= 0)
}

/// Does the literal occur anywhere in the formula?
fn occurs_in(f: &Vec<Vec<i32>>, l: i32) -> (r: bool)
    ensures
        r == occurs(f.deep_view(), l),
{
    let ghost fv = f.deep_view();
    let mut i: usize = 0;
    while i < f.len()
        invariant
            fv == f.deep_view(),
            f@.len() == fv.len(),
            i <= fv.len(),
            forall|i0: int, j: int|
                0 <= i0 < i && 0 <= j < fv[i0].len() ==> #[trigger] fv[i0][j] != l,
        decreases fv.len() - i,
    {
        let c = &f[i];
        proof {
            assert(c@ =~= fv[i as int]);
        }
        if contains_lit(c, l) {
            proof {
                let j = choose|j: int| 0 <= j < c@.len() && c@[j] == l;
                assert(fv[i as int][j] == l);
            }
            return true;
        }
        proof {
            assert forall|j: int| 0 <= j < fv[i as int].len() implies #[trigger] fv[i as int][j]
                != l by {
                if fv[i as int][j] == l {
                    assert(c@.contains(l));
                }
            }
        }
        i += 1;
    }
    proof {
        if occurs(fv, l) {
            let (i0, j) = choose|i0: int, j: int|
                0 <= i0 < fv.len() && 0 <= j < fv[i0].len() && #[trigger] fv[i0][j] == l;
            assert(false);
        }
    }
    false
}

/// Bounded variable elimination in its pure-literal case.
///
/// When the opposite of `l` never occurs, resolving the occurrence lists of
/// `l` and its negation produces no resolvents, so eliminating the variable
/// just drops every clause containing `l`.  The recorded reconstruction rule
/// extends a satisfying assignment of the result to one of the input by
/// making `l` hold; satisfiability is therefore preserved exactly.  When the
/// opposite literal does occur the variable is not pure and nothing changes:
/// `None` is returned.
#[verifier::rlimit(50)]
pub fn eliminate_pure(f: &Vec<Vec<i32>>, l: i32, nv: usize) -> (r: Option<Vec<Vec<i32>>>)
    requires
        formula_wf(f.deep_view(), nv as int),
        valid_lit(l, nv as int),
    ensures
        r is None <==> occurs(f.deep_view(), neg_lit(l)),
        r matches Some(g) ==> {
            &&& formula_wf(g.deep_view(), nv as int)
            &&& !occurs(g.deep_view(), l)
            &&& !occurs(g.deep_view(), neg_lit(l))
            &&& forall|a: Seq<bool>|
                formula_holds(a, #[trigger] f.deep_view()) ==> formula_holds(a, g.deep_view())
            &&& forall|a: Seq<bool>|
                a.len() == nv + 1 && formula_holds(a, #[trigger] g.deep_view())
                    ==> formula_holds(witness_extend(a, l), f.deep_view())
            &&& (satisfiable(f.deep_view(), nv as int) <==> satisfiable(
                g.deep_view(),
                nv as int,
            ))
            &&& (!occurs(f.deep_view(), l) ==> g.deep_view() == f.deep_view())
        },
{
    let ghost fv = f.deep_view();
    let m = -l;
    proof {
        assert(m == neg_lit(l));
    }
    if occurs_in(f, m) {
        return None;
    }
    let mut g: Vec<Vec<i32>> = Vec::new();
    let ghost mut gd: Seq<Seq<i32>> = Seq::empty();
    let ghost mut origin: Seq<int> = Seq::empty();
    let ghost mut whereat: Seq<int> = Seq::empty();
    let ghost mut cover: Seq<int> = Seq::empty();
    let mut i: usize = 0;
    proof {
        assert(gd =~= g.deep_view());
    }
    while i < f.len()
        invariant
            fv == f.deep_view(),
            f@.len() == fv.len(),
            i <= fv.len(),
            gd == g.deep_view(),
            origin.len() == gd.len(),
            forall|j: int|
                0 <= j < gd.len() ==> 0 <= #[trigger] origin[j] < i && gd[j] == fv[origin[j]],
            forall|j: int, t: int|
                0 <= j < gd.len() && 0 <= t < gd[j].len() ==> #[trigger] gd[j][t] != l,
            whereat.len() == i as int,
            cover.len() == i as int,
            forall|i0: int|
                0 <= i0 < i && #[trigger] whereat[i0] >= 0 ==> whereat[i0] < fv[i0].len()
                    && fv[i0][whereat[i0]] == l,
            forall|i0: int|
                0 <= i0 < i && #[trigger] whereat[i0] < 0 ==> 0 <= cover[i0] < gd.len()
                    && gd[cover[i0]] == fv[i0],
            (forall|i0: int, j: int|
                0 <= i0 < i && 0 <= j < fv[i0].len() ==> #[trigger] fv[i0][j] != l) ==> gd
                =~= fv.take(i as int),
        decreases fv.len() - i,
    {
        let c = &f[i];
        proof {
            assert(c@ =~= fv[i as int]);
        }
        if contains_lit(c, l) {
            proof {
                let j = choose|j: int| 0 <= j < c@.len() && c@[j] == l;
                whereat = whereat.push(j);
                cover = cover.push(-1);
                assert(fv[i as int][j] == l);
            }
        } else {
            let copy = crate::search::copy_vec(c);
            let ghost prev = g@;
            let ghost gd_old = gd;
            g.push(copy);
            proof {
                assert forall|j: int| 0 <= j < g.deep_view().len() implies #[trigger] g
                    .deep_view()[j] == gd_old.push(fv[i as int])[j] by {
                    if j < prev.len() {
                        assert(g@[j] == prev[j]);
                    } else {
                        assert(g@[j] == copy);
                    }
                }
                assert(g.deep_view() =~= gd_old.push(fv[i as int]));
                gd = gd_old.push(fv[i as int]);
                origin = origin.push(i as int);
                whereat = whereat.push(-1);
                cover = cover.push(gd_old.len() as int);
                assert forall|j: int, t: int|
                    0 <= j < gd.len() && 0 <= t < gd[j].len() implies #[trigger] gd[j][t]
                    != l by {
                    if j < gd_old.len() {
                        assert(gd[j] == gd_old[j]);
                    } else {
                        assert(gd[j] == c@);
                        if c@[t] == l {
                            assert(c@.contains(l));
                        }
                    }
                }
                if forall|i0: int, j: int|
                    0 <= i0 < i + 1 && 0 <= j < fv[i0].len() ==> #[trigger] fv[i0][j] != l {
                    assert(gd =~= fv.take(i as int + 1));
                }
            }
        }
        i += 1;
    }
    proof {
        assert(fv.take(fv.len() as int) =~= fv);
        assert forall|j: int, t: int|
            0 <= j < gd.len() && 0 <= t < gd[j].len() implies #[trigger] gd[j][t]
            != neg_lit(l) by {
            assert(gd[j] == fv[origin[j]]);
            if fv[origin[j]][t] == m {
                assert(occurs(fv, m));
            }
        }
        if occurs(gd, l) {
            let (j, t) = choose|j: int, t: int|
                0 <= j < gd.len() && 0 <= t < gd[j].len() && #[trigger] gd[j][t] == l;
            assert(false);
        }
        if occurs(gd, neg_lit(l)) {
            let (j, t) = choose|j: int, t: int|
                0 <= j < gd.len() && 0 <= t < gd[j].len() && #[trigger] gd[j][t] == neg_lit(l);
            assert(false);
        }
        assert forall|j: int| 0 <= j < gd.len() implies clause_wf(
            #[trigger] gd[j],
            nv as int,
        ) by {
            assert(gd[j] == fv[origin[j]]);
            assert(clause_wf(fv[origin[j]], nv as int));
        }
        assert forall|a: Seq<bool>| #![trigger formula_holds(a, fv)] formula_holds(
            a,
            fv,
        ) implies formula_holds(a, gd) by {
            assert forall|j: int| 0 <= j < gd.len() implies clause_holds(
                a,
                #[trigger] gd[j],
            ) by {
                assert(clause_holds(a, fv[origin[j]]));
            }
        }
        assert forall|a: Seq<bool>| #![trigger formula_holds(a, gd)] a.len() == nv + 1
            && formula_holds(a, gd) implies formula_holds(witness_extend(a, l), fv) by {
            let b = witness_extend(a, l);
            assert forall|i0: int| 0 <= i0 < fv.len() implies clause_holds(
                b,
                #[trigger] fv[i0],
            ) by {
                if whereat[i0] >= 0 {
                    let t = whereat[i0];
                    assert(fv[i0][t] == l);
                    assert(lit_holds(b, l));
                } else {
                    assert(gd[cover[i0]] == fv[i0]);
                    assert(clause_holds(a, gd[cover[i0]]));
                    assert(clause_wf(fv[i0], nv as int));
                    assert forall|t: int| 0 <= t < fv[i0].len() implies #[trigger] fv[i0][t] != 0
                        && fv[i0][t] != i32::MIN && fv[i0][t] != l && fv[i0][t] != neg_lit(
                        l,
                    ) by {
                        assert(valid_lit(fv[i0][t], nv as int));
                        assert(gd[cover[i0]][t] != l);
                        if fv[i0][t] == m {
                            assert(occurs(fv, m));
                        }
                    }
                    lemma_clause_stable(a, l, fv[i0]);
                }
            }
        }
        if satisfiable(fv, nv as int) {
            let a = choose|a: Seq<bool>| a.len() == nv + 1 && formula_holds(a, fv);
            assert(formula_holds(a, gd));
            assert(satisfiable(gd, nv as int));
        }
        if satisfiable(gd, nv as int) {
            let a = choose|a: Seq<bool>| a.len() == nv + 1 && formula_holds(a, gd);
            assert(formula_holds(witness_extend(a, l), fv));
            assert(witness_extend(a, l).len() == nv + 1);
            assert(satisfiable(fv, nv as int));
        }
        if !occurs(fv, l) {
            assert forall|i0: int, j: int|
                0 <= i0 < fv.len() && 0 <= j < fv[i0].len() implies #[trigger] fv[i0][j]
                != l by {
                if fv[i0][j] == l {
                    assert(occurs(fv, l));
                }
            }
            assert(gd == fv);
        }
    }
    Some(g)
}

/// Failed-literal probing: tentatively make `l` hold and propagate.
///
/// The result is pinned to the propagation procedure itself: `true` exactly
/// when unit propagation from the lone assumption of `l` reaches a falsified
/// clause.  In that case every satisfying total assignment makes the
/// opposite of `l` hold, so the opposite literal may be asserted outright.
/// Probing never changes the clause database, so re-running it reports the
/// same.
pub fn probe(f: &Vec<Vec<i32>>, l: i32, nv: usize) -> (r: bool)
    requires
        formula_wf(f.deep_view(), nv as int),
        valid_lit(l, nv as int),
        nv < usize::MAX,
    ensures
        r == propagation_conflicts(
            f.deep_view(),
            crate::model::assign_lit(unassigned_all(nv as int), l),
        ),
        r ==> forall|a: Seq<bool>|
            a.len() == nv + 1 && formula_holds(a, #[trigger] f.deep_view()) ==> lit_holds(
                a,
                neg_lit(l),
            ),
{
    let ghost fv = f.deep_view();
    let mut p = crate::search::blank_passign(nv);
    let ghost blank = p@;
    let v: usize = if l >= 0 {
        l as usize
    } else {
        (-l) as usize
    };
    p[v] = if l >= 0 {
        1
    } else {
        2
    };
    let ghost started = p@;
    proof {
        assert(started =~= crate::model::assign_lit(blank, l));
    }
    let propagated = propagate(f, &mut p, nv);
    proof {
        assert(blank == unassigned_all(nv as int));
        assert(p@ == propagate_result(fv, started));
        assert((propagated is Conflict) == propagation_conflicts(fv, started));
    }
    match propagated {
        PropagateOutcome::Conflict => {
            proof {
                assert forall|a: Seq<bool>| #![trigger formula_holds(a, fv)] a.len() == nv + 1
                    && formula_holds(a, fv) implies lit_holds(a, neg_lit(l)) by {
                    assert(agrees(a, blank));
                    if lit_holds(a, l) {
                        lemma_agrees_assign(a, blank, l);
                        assert(agrees(a, started));
                        assert(agrees(a, p@));
                        assert(!formula_holds(a, fv));
                    }
                    assert(neg_lit(l) as int == -(l as int));
                    assert(lit_holds(a, neg_lit(l)));
                }
            }
            true
        },
        PropagateOutcome::Quiet => false,
    }
}

/// Falsifying a one-longer prefix of a clause falsifies the shorter prefix
/// and the added literal.
proof fn lemma_prefix_step(a: Seq<bool>, c: Seq<i32>, t: int)
    requires
        0 <= t < c.len(),
        !clause_holds(a, c.take(t + 1)),
    ensures
        !clause_holds(a, c.take(t)),
        !lit_holds(a, c[t]),
{
    if clause_holds(a, c.take(t)) {
        let i = choose|i: int| 0 <= i < c.take(t).len() && lit_holds(a, #[trigger] c.take(t)[i]);
        assert(lit_holds(a, c.take(t + 1)[i]));
        assert(clause_holds(a, c.take(t + 1)));
    }
    if lit_holds(a, c[t]) {
        assert(lit_holds(a, c.take(t + 1)[t]));
        assert(clause_holds(a, c.take(t + 1)));
    }
}

/// Where the vivification of a clause stops, starting from the partial
/// assignment `p` with `t` literals of `c` already assumed: the number of
/// assumed literals at the first propagation conflict, or `None` when the
/// negations of all of `c` can be assumed without one.
pub open spec fn vivify_stop(f: Seq<Seq<i32>>, c: Seq<i32>, p: Seq<u8>, t: int) -> Option<int>
    decreases c.len() - t,
{
    if t < 0 || t >= c.len() {
        None
    } else {
        let q = propagate_result(f, p);
        if scan_eval(f, q) is Conflict {
            Some(t)
        } else {
            vivify_stop(f, c, assign_lit(q, neg_lit(c[t])), t + 1)
        }
    }
}

/// Vivification: re-derive a clause literal by literal under unit
/// propagation.
///
/// The negations of the clause's literals are assumed one at a time, with
/// propagation run to a fixpoint in between.  If a falsified clause turns up
/// before the whole clause has been assumed, the formula already entails the
/// assumed prefix, and the clause may be replaced by that strictly shorter
/// prefix without changing the satisfying assignments.  The result is pinned
/// to that procedure: the clause is shortened if and only if such a conflict
/// exists, and to exactly the prefix at the first one.
#[verifier::rlimit(50)]
pub fn vivify_clause(f: &Vec<Vec<i32>>, ci: usize, nv: usize) -> (r: Option<Vec<i32>>)
    requires
        formula_wf(f.deep_view(), nv as int),
        ci < f@.len(),
        nv < usize::MAX,
    ensures
        (r is Some) == (vivify_stop(
            f.deep_view(),
            f.deep_view()[ci as int],
            unassigned_all(nv as int),
            0,
        ) is Some),
        r matches Some(s) ==> vivify_stop(
            f.deep_view(),
            f.deep_view()[ci as int],
            unassigned_all(nv as int),
            0,
        ) == Some(s@.len() as int),
        r matches Some(s) ==> {
            &&& s@.len() < f.deep_view()[ci as int].len()
            &&& s@ == f.deep_view()[ci as int].take(s@.len() as int)
            &&& clause_wf(s@, nv as int)
            &&& forall|a: Seq<bool>|
                a.len() == nv + 1 && formula_holds(a, #[trigger] f.deep_view())
                    ==> clause_holds(a, s@)
            &&& forall|a: Seq<bool>|
                a.len() == nv + 1 ==> (formula_holds(a, #[trigger] f.deep_view())
                    <==> formula_holds(a, f.deep_view().update(ci as int, s@)))
        },
{
    let ghost fv = f.deep_view();
    let c = &f[ci];
    proof {
        assert(c@ =~= fv[ci as int]);
        assert(clause_wf(c@, nv as int));
    }
    let mut p = crate::search::blank_passign(nv);
    let mut t: usize = 0;
    while t < c.len()
        invariant
            fv == f.deep_view(),
            formula_wf(fv, nv as int),
            ci < fv.len(),
            c@ == fv[ci as int],
            nv < usize::MAX,
            t <= c@.len(),
            passign_wf(p@, nv as int),
            vivify_stop(fv, c@, unassigned_all(nv as int), 0) == vivify_stop(
                fv,
                c@,
                p@,
                t as int,
            ),
            forall|a: Seq<bool>|
                a.len() == nv + 1 && formula_holds(a, fv) && !clause_holds(a, c@.take(t as int))
                    ==> agrees(a, p@),
        decreases c@.len() - t,
    {
        let ghost p_entry = p@;
        let propagated = propagate(f, &mut p, nv);
        proof {
            assert(p@ == propagate_result(fv, p_entry));
            assert((propagated is Conflict) == (scan_eval(fv, p@) is Conflict));
        }
        match propagated {
            PropagateOutcome::Conflict => {
                let mut s: Vec<i32> = Vec::new();
                let mut k: usize = 0;
                while k < t
                    invariant
                        c@ == fv[ci as int],
                        k <= t,
                        t <= c@.len(),
                        s@ == c@.take(k as int),
                    decreases t - k,
                {
                    s.push(c[k]);
                    proof {
                        assert(s@ =~= c@.take(k as int + 1));
                    }
                    k += 1;
                }
                proof {
                    assert(s@ == c@.take(t as int));
                    assert forall|i: int| 0 <= i < s@.len() implies c@.contains(
                        #[trigger] s@[i],
                    ) by {
                        assert(s@[i] == c@[i]);
                    }
                    assert(clause_sub(s@, c@));
                    assert forall|a: Seq<bool>|
                        a.len() == nv + 1 && formula_holds(a, fv) implies clause_holds(
                        a,
                        s@,
                    ) by {
                        if !clause_holds(a, c@.take(t as int)) {
                            assert(agrees(a, p_entry));
                            assert(agrees(a, p@));
                            assert(!formula_holds(a, fv));
                        }
                    }
                    let g = fv.update(ci as int, s@);
                    assert forall|a: Seq<bool>| a.len() == nv + 1 implies (formula_holds(a, fv)
                        <==> formula_holds(a, g)) by {
                        if formula_holds(a, fv) {
                            assert forall|j: int| 0 <= j < g.len() implies clause_holds(
                                a,
                                #[trigger] g[j],
                            ) by {
                                if j == ci {
                                    assert(clause_holds(a, s@));
                                    assert(g[j] == s@);
                                } else {
                                    assert(g[j] == fv[j]);
                                    assert(clause_holds(a, fv[j]));
                                }
                            }
                        }
                        if formula_holds(a, g) {
                            assert forall|j: int| 0 <= j < fv.len() implies clause_holds(
                                a,
                                #[trigger] fv[j],
                            ) by {
                                if j == ci {
                                    assert(clause_holds(a, g[ci as int]));
                                    assert(g[ci as int] == s@);
                                    lemma_sub_entails(a, s@, c@);
                                } else {
                                    assert(clause_holds(a, g[j]));
                                    assert(g[j] == fv[j]);
                                }
                            }
                        }
                    }
                    assert(vivify_stop(fv, c@, p_entry, t as int) == Some(t as int));
                    assert(s@.len() == t as int);
                }
                return Some(s);
            },
            PropagateOutcome::Quiet => {},
        }
        let l = c[t];
        let m = -l;
        let ghost p_before = p@;
        proof {
            assert(valid_lit(l, nv as int));
            assert(valid_lit(m, nv as int));
            assert forall|a: Seq<bool>|
                a.len() == nv + 1 && formula_holds(a, fv) && !clause_holds(
                    a,
                    c@.take(t as int + 1),
                ) implies agrees(a, assign_lit(p_before, m)) by {
                lemma_prefix_step(a, c@, t as int);
                assert(agrees(a, p_entry));
                assert(agrees(a, p_before));
                assert(!lit_holds(a, l));
                assert(lit_holds(a, m));
                lemma_agrees_assign(a, p_before, m);
            }
        }
        let v: usize = if m >= 0 {
            m as usize
        } else {
            (-m) as usize
        };
        p[v] = if m >= 0 {
            1
        } else {
            2
        };
        proof {
            assert(v as int == lit_var(m));
            assert(p@ =~= assign_lit(p_before, m));
            assert(m == neg_lit(c@[t as int]));
            assert(vivify_stop(fv, c@, p_entry, t as int) == vivify_stop(
                fv,
                c@,
                p@,
                t as int + 1,
            ));
        }
        t += 1;
    }
    proof {
        assert(vivify_stop(fv, c@, p@, t as int) is None);
    }
    None
}

/// Copy a clause database unchanged, for a solve that skips subsumption.
pub(crate) fn copy_formula(f: &Vec<Vec<i32>>) -> (r: Vec<Vec<i32>>)
    ensures
        r.deep_view() == f.deep_view(),
{
    let ghost fv = f.deep_view();
    let mut r: Vec<Vec<i32>> = Vec::new();
    let mut i: usize = 0;
    while i < f.len()
        invariant
            fv == f.deep_view(),
            f@.len() == fv.len(),
            i <= fv.len(),
            r.deep_view() == fv.take(i as int),
        decreases fv.len() - i,
    {
        let c = &f[i];
        proof {
            assert(c@ =~= fv[i as int]);
        }
        let copy = crate::search::copy_vec(c);
        let ghost prev = r@;
        let ghost before = r.deep_view();
        r.push(copy);
        proof {
            assert forall|j: int| 0 <= j < r.deep_view().len() implies #[trigger] r.deep_view()[j]
                == before.push(fv[i as int])[j] by {
                if j < prev.len() {
                    assert(r@[j] == prev[j]);
                } else {
                    assert(r@[j] == copy);
                }
            }
            assert(r.deep_view() =~= before.push(fv[i as int]));
            assert(r.deep_view() =~= fv.take(i as int + 1));
        }
        i += 1;
    }
    proof {
        assert(fv.take(fv.len() as int) =~= fv);
    }
    r
}

/// Run the toggled inprocessing passes over a clause database: vivification
/// of every clause, then failed-literal probing of every variable in both
/// polarities, each discovered forced literal added as a unit clause.  The
/// result is well formed and holds under exactly the same total assignments
/// over the variable range as the input.
#[verifier::rlimit(50)]
pub(crate) fn inprocess(db: Vec<Vec<i32>>, n: usize, vivification: bool, probing: bool) -> (r:
    Vec<Vec<i32>>)
    requires
        formula_wf(db.deep_view(), n as int),
        n <= i32::MAX as usize,
    ensures
        formula_wf(r.deep_view(), n as int),
        !vivification && !probing ==> r.deep_view() == db.deep_view(),
        forall|a: Seq<bool>|
            #![trigger formula_holds(a, r.deep_view())]
            a.len() == n + 1 ==> (formula_holds(a, r.deep_view()) <==> formula_holds(
                a,
                db.deep_view(),
            )),
{
    let ghost f0 = db.deep_view();
    let mut db = db;
    if vivification {
        let mut ci: usize = 0;
        while ci < db.len()
            invariant
                n <= i32::MAX as usize,
                formula_wf(db.deep_view(), n as int),
                forall|a: Seq<bool>|
                    #![trigger formula_holds(a, f0)]
                    a.len() == n + 1 ==> (formula_holds(a, db.deep_view()) <==> formula_holds(
                        a,
                        f0,
                    )),
            decreases db@.len() - ci,
        {
            let ghost before = db.deep_view();
            match vivify_clause(&db, ci, n) {
                Some(s) => {
                    let ghost sv = s@;
                    let ghost prev = db@;
                    db[ci] = s;
                    proof {
                        assert forall|j: int| 0 <= j < db.deep_view().len() implies #[trigger] db
                            .deep_view()[j] == before.update(ci as int, sv)[j] by {
                            if j == ci {
                                assert(db@[j]@ == sv);
                            } else {
                                assert(db@[j] == prev[j]);
                            }
                        }
                        assert(db.deep_view() =~= before.update(ci as int, sv));
                        assert forall|j: int| 0 <= j < db.deep_view().len() implies clause_wf(
                            #[trigger] db.deep_view()[j],
                            n as int,
                        ) by {
                            if j != ci {
                                assert(db.deep_view()[j] == before[j]);
                                assert(clause_wf(before[j], n as int));
                            }
                        }
                        assert forall|a: Seq<bool>| a.len() == n + 1 implies (formula_holds(
                            a,
                            db.deep_view(),
                        ) <==> formula_holds(a, f0)) by {
                            assert(formula_holds(a, before) <==> formula_holds(a, f0));
                            assert(formula_holds(a, before) <==> formula_holds(
                                a,
                                before.update(ci as int, sv),
                            ));
                        }
                    }
                },
                None => {},
            }
            ci += 1;
        }
    }
    if probing {
        let mut w: usize = 1;
        while w <= n
            invariant
                n <= i32::MAX as usize,
                1 <= w <= n + 1,
                formula_wf(db.deep_view(), n as int),
                forall|a: Seq<bool>|
                    #![trigger formula_holds(a, f0)]
                    a.len() == n + 1 ==> (formula_holds(a, db.deep_view()) <==> formula_holds(
                        a,
                        f0,
                    )),
            decreases n as int + 1 - w,
        {
            let v: i32 = w as i32;
            let mut pol: usize = 0;
            while pol < 2
                invariant
                    n <= i32::MAX as usize,
                    1 <= v as int <= n as int,
                    pol <= 2,
                    formula_wf(db.deep_view(), n as int),
                    forall|a: Seq<bool>|
                        #![trigger formula_holds(a, f0)]
                        a.len() == n + 1 ==> (formula_holds(a, db.deep_view()) <==> formula_holds(
                            a,
                            f0,
                        )),
                decreases 2 - pol,
            {
                let l: i32 = if pol == 0 {
                    v
                } else {
                    -v
                };
                if probe(&db, l, n) {
                    let nl: i32 = -l;
                    let mut unit: Vec<i32> = Vec::new();
                    unit.push(nl);
                    let ghost before = db.deep_view();
                    let ghost prev = db@;
                    let ghost uv = unit@;
                    db.push(unit);
                    proof {
                        assert(nl == neg_lit(l));
                        assert(uv =~= seq![nl]);
                        assert forall|j: int| 0 <= j < db.deep_view().len() implies #[trigger] db
                            .deep_view()[j] == before.push(uv)[j] by {
                            if j < prev.len() {
                                assert(db@[j] == prev[j]);
                            } else {
                                assert(db@[j]@ == uv);
                            }
                        }
                        assert(db.deep_view() =~= before.push(uv));
                        assert forall|j: int| 0 <= j < db.deep_view().len() implies clause_wf(
                            #[trigger] db.deep_view()[j],
                            n as int,
                        ) by {
                            if j < before.len() {
                                assert(db.deep_view()[j] == before[j]);
                                assert(clause_wf(before[j], n as int));
                            } else {
                                assert(db.deep_view()[j] == uv);
                                assert(valid_lit(nl, n as int));
                            }
                        }
                        assert forall|a: Seq<bool>| a.len() == n + 1 implies (formula_holds(
                            a,
                            db.deep_view(),
                        ) <==> formula_holds(a, f0)) by {
                            assert(formula_holds(a, before) <==> formula_holds(a, f0));
                            if formula_holds(a, before) {
                                assert(lit_holds(a, neg_lit(l)));
                                assert(clause_holds(a, uv)) by {
                                    assert(lit_holds(a, uv[0]));
                                }
                                assert forall|j: int|
                                    0 <= j < db.deep_view().len() implies clause_holds(
                                    a,
                                    #[trigger] db.deep_view()[j],
                                ) by {
                                    if j < before.len() {
                                        assert(clause_holds(a, before[j]));
                                    }
                                }
                            }
                            if formula_holds(a, db.deep_view()) {
                                assert forall|j: int| 0 <= j < before.len() implies clause_holds(
                                    a,
                                    #[trigger] before[j],
                                ) by {
                                    assert(clause_holds(a, db.deep_view()[j]));
                                }
                            }
                        }
                    }
                }
                pol += 1;
            }
            w += 1;
        }
    }
    db
}

} // verus!
