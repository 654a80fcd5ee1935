//! Mathematical model of CNF formulas, assignments and partial assignments.
//!
//! A literal is a non-zero `i32` whose magnitude names a variable (1-based)
//! and whose sign gives the polarity.  A clause is a sequence of literals, a
//! formula a sequence of clauses.  A total assignment is a `Seq<bool>` indexed
//! by variable (index 0 is unused); a partial assignment is a `Seq<u8>` with
//! 0 for unassigned, 1 for true and 2 for false.

use vstd::prelude::*;

verus! {

/// The variable index named by a literal.
pub open spec fn lit_var(l: i32) -> int {
    if l >= 0 {
        l as int
    } else {
        -(l as int)
    }
}

/// A literal is valid for a formula over variables `1..=nv`.
pub open spec fn valid_lit(l: i32, nv: int) -> bool {
    l != 0 && l != i32::MIN && lit_var(l) <= nv
}

/// Every literal of the clause is valid.
pub open spec fn clause_wf(c: Seq<i32>, nv: int) -> bool {
    forall|i: int| 0 <= i < c.len() ==> valid_lit(#[trigger] c[i], nv)
}

/// Every clause of the formula is well formed.
pub open spec fn formula_wf(f: Seq<Seq<i32>>, nv: int) -> bool {
    forall|i: int| 0 <= i < f.len() ==> clause_wf(#[trigger] f[i], nv)
}

/// Truth of a literal under a total assignment.
pub open spec fn lit_holds(a: Seq<bool>, l: i32) -> bool {
    if l >= 0 {
        a[l as int]
    } else {
        !a[lit_var(l)]
    }
}

/// A clause holds when some literal of it holds.
pub open spec fn clause_holds(a: Seq<bool>, c: Seq<i32>) -> bool {
    exists|i: int| 0 <= i < c.len() && lit_holds(a, #[trigger] c[i])
}

/// A formula holds when every clause of it holds.
pub open spec fn formula_holds(a: Seq<bool>, f: Seq<Seq<i32>>) -> bool {
    forall|i: int| 0 <= i < f.len() ==> clause_holds(a, #[trigger] f[i])
}

/// The formula over variables `1..=nv` has a satisfying total assignment.
pub open spec fn satisfiable(f: Seq<Seq<i32>>, nv: int) -> bool {
    exists|a: Seq<bool>| a.len() == nv + 1 && formula_holds(a, f)
}

/// Value of an entry of a partial assignment: 0 unassigned, 1 true, 2 false.
pub open spec fn passign_wf(p: Seq<u8>, nv: int) -> bool {
    p.len() == nv + 1 && forall|v: int| 0 <= v < p.len() ==> #[trigger] p[v] <= 2
}

/// Status of a literal under a partial assignment:
/// 0 unassigned, 1 the literal holds, 2 the literal is falsified.
pub open spec fn lit_status(p: Seq<u8>, l: i32) -> u8 {
    let v = lit_var(l);
    if l >= 0 {
        p[v]
    } else if p[v] == 1 {
        2
    } else if p[v] == 2 {
        1
    } else {
        0
    }
}

/// A total assignment agrees with every variable the partial one assigns.
pub open spec fn agrees(a: Seq<bool>, p: Seq<u8>) -> bool {
    a.len() == p.len() && forall|v: int|
        0 <= v < p.len() ==> ((#[trigger] p[v] == 1 ==> a[v]) && (p[v] == 2 ==> !a[v]))
}

/// Every literal of the clause is falsified by the partial assignment.
pub open spec fn clause_false_under(p: Seq<u8>, c: Seq<i32>) -> bool {
    forall|i: int| 0 <= i < c.len() ==> lit_status(p, #[trigger] c[i]) == 2
}

/// The partial assignment extended so that literal `l` holds.
pub open spec fn assign_lit(p: Seq<u8>, l: i32) -> Seq<u8> {
    p.update(lit_var(l), if l >= 0 { 1u8 } else { 2u8 })
}

/// Every variable from 1 up is assigned.
pub open spec fn all_assigned(p: Seq<u8>) -> bool {
    forall|v: int| 1 <= v < p.len() ==> #[trigger] p[v] != 0
}

/// The total assignment read off a fully assigned partial one.
pub open spec fn assignment_of(p: Seq<u8>) -> Seq<bool> {
    Seq::new(p.len(), |v: int| p[v] == 1)
}

/// The partial assignment over variables `1..=nv` with nothing assigned.
pub open spec fn unassigned_all(nv: int) -> Seq<u8> {
    Seq::new((nv + 1) as nat, |v: int| 0u8)
}

/// Number of unassigned entries; the termination measure of the search.
pub open spec fn unassigned_count(p: Seq<u8>) -> nat
    decreases p.len(),
{
    if p.len() == 0 {
        0
    } else {
        unassigned_count(p.drop_last()) + if p.last() == 0 {
            1nat
        } else {
            0nat
        }
    }
}

/// No total assignment that agrees with `p` satisfies `f`.
pub open spec fn no_agreeing_model(f: Seq<Seq<i32>>, p: Seq<u8>) -> bool {
    forall|a: Seq<bool>| a.len() == p.len() && agrees(a, p) ==> !formula_holds(a, f)
}

/// Every satisfying total assignment that agrees with `p` makes `l` hold.
pub open spec fn forced(f: Seq<Seq<i32>>, p: Seq<u8>, l: i32) -> bool {
    forall|a: Seq<bool>|
        a.len() == p.len() && agrees(a, p) && formula_holds(a, f) ==> lit_holds(a, l)
}

/// The larger of two integers.
pub open spec fn int_max(a: int, b: int) -> int {
    if a >= b {
        a
    } else {
        b
    }
}

/// The largest variable index named in a clause, 0 for the empty clause.
pub open spec fn max_var_of(c: Seq<i32>) -> int
    decreases c.len(),
{
    if c.len() == 0 {
        0
    } else {
        int_max(max_var_of(c.drop_last()), lit_var(c.last()))
    }
}

/// Every literal of a clause stays within the clause's largest variable.
pub proof fn lemma_max_var_bound(c: Seq<i32>)
    ensures
        0 <= max_var_of(c),
        forall|i: int| 0 <= i < c.len() ==> lit_var(#[trigger] c[i]) <= max_var_of(c),
    decreases c.len(),
{
    if c.len() > 0 {
        lemma_max_var_bound(c.drop_last());
        assert forall|i: int| 0 <= i < c.len() implies lit_var(#[trigger] c[i]) <= max_var_of(
            c,
        ) by {
            if i < c.len() - 1 {
                assert(c.drop_last()[i] == c[i]);
            }
        }
    }
}

/// A settled literal keeps or loses its truth exactly as its status says.
pub proof fn lemma_status_truth(a: Seq<bool>, p: Seq<u8>, l: i32)
    requires
        agrees(a, p),
        valid_lit(l, p.len() - 1),
    ensures
        lit_status(p, l) == 1 ==> lit_holds(a, l),
        lit_status(p, l) == 2 ==> !lit_holds(a, l),
{
}

/// Making a literal that already holds explicit keeps agreement.
pub proof fn lemma_agrees_assign(a: Seq<bool>, p: Seq<u8>, l: i32)
    requires
        agrees(a, p),
        valid_lit(l, p.len() - 1),
        lit_holds(a, l),
    ensures
        agrees(a, assign_lit(p, l)),
{
}

/// A clause with every literal falsified cannot hold under an agreeing total
/// assignment.
pub proof fn lemma_false_clause(a: Seq<bool>, p: Seq<u8>, c: Seq<i32>)
    requires
        agrees(a, p),
        clause_wf(c, p.len() - 1),
        clause_false_under(p, c),
    ensures
        !clause_holds(a, c),
{
    assert forall|i: int| 0 <= i < c.len() implies !lit_holds(a, #[trigger] c[i]) by {
        lemma_status_truth(a, p, c[i]);
    }
}

/// Assigning an unassigned entry lowers the count of unassigned entries by
/// exactly one.
pub proof fn lemma_count_update(p: Seq<u8>, v: int, x: u8)
    requires
        0 <= v < p.len(),
        p[v] == 0,
        x != 0,
    ensures
        unassigned_count(p.update(v, x)) + 1 == unassigned_count(p),
    decreases p.len(),
{
    let q = p.update(v, x);
    if v == p.len() - 1 {
        assert(q.drop_last() =~= p.drop_last());
    } else {
        assert(q.drop_last() =~= p.drop_last().update(v, x));
        lemma_count_update(p.drop_last(), v, x);
    }
}

/// Widening the variable range keeps a formula well formed.
pub proof fn lemma_formula_wf_widen(f: Seq<Seq<i32>>, nv1: int, nv2: int)
    requires
        formula_wf(f, nv1),
        nv1 <= nv2,
    ensures
        formula_wf(f, nv2),
{
    assert forall|i: int| 0 <= i < f.len() implies clause_wf(#[trigger] f[i], nv2) by {
        assert(clause_wf(f[i], nv1));
    }
}

} // verus!
