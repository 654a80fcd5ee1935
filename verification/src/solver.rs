//! The solver session: clause ingestion, bounded solving, and model queries.
//!
//! A session moves from accepting clauses to exactly one terminal state:
//! satisfied, unsatisfied, or interrupted by a limit.  The outcome of `solve`
//! is proved against the clause model: a satisfied session carries a total
//! assignment under which every added clause holds, and an unsatisfied answer
//! is only given when no total assignment satisfies the clauses.

use vstd::prelude::*;

use crate::model::all_assigned;
use crate::model::assignment_of;
use crate::model::clause_wf;
use crate::model::formula_holds;
use crate::model::formula_wf;
use crate::model::int_max;
use crate::model::lemma_formula_wf_widen;
use crate::model::lemma_max_var_bound;
use crate::model::lit_holds;
use crate::model::lit_var;
use crate::model::max_var_of;
use crate::model::passign_wf;
use crate::model::satisfiable;
use crate::model::unassigned_all;
use crate::search::search;
use crate::search::search_eval;
use crate::search::Budget;
use crate::search::SearchOutcome;
use crate::search::SearchVerdict;
use crate::simplify::copy_formula;
use crate::simplify::inprocess;
use crate::simplify::subsume;

verus! {

/// The phase of a solver session.
#[derive(Clone, Copy, Debug, PartialEq, Eq, Structural)]
pub enum SolverState {
    /// Accepting clauses; `solve` has not yet run.
    Input,
    /// The last solve found a satisfying assignment.
    Satisfied,
    /// The last solve showed that no satisfying assignment exists.
    Unsatisfied,
    /// The last solve was stopped by a decision or conflict limit.
    Interrupted,
}

/// Error reported for a misused configuration call.
#[derive(Clone, Debug, PartialEq, Eq)]
pub struct Error {
    pub msg: String,
}

impl Error {
    /// Wrap a message.
    pub fn new(msg: &str) -> (e: Error)
        ensures
            e.msg@ == msg@,
    {
        Error { msg: msg.to_owned() }
    }
}

/// Which inprocessing techniques a solve runs.  Every recognized technique
/// is listed here and independently toggleable; each pass preserves the
/// satisfying assignments, so the toggles affect effort, never answers.
#[derive(Clone, Copy, Debug, PartialEq, Eq, Structural)]
pub struct SolverConfig {
    /// Drop clauses subsumed by an earlier clause before searching.
    pub subsumption: bool,
    /// Shorten clauses by re-deriving them under unit propagation.
    pub vivification: bool,
    /// Probe literals and assert the opposite of each failed one.
    pub probing: bool,
}

impl Default for SolverConfig {
    /// Every technique enabled.
    fn default() -> (c: SolverConfig)
        ensures
            c == (SolverConfig { subsumption: true, vivification: true, probing: true }),
    {
        SolverConfig { subsumption: true, vivification: true, probing: true }
    }
}

/// The budget a solve runs under, read off the configured limits.
pub open spec fn budget_of(dl: Option<u32>, cl: Option<u32>) -> Budget {
    Budget {
        limit_decisions: dl is Some,
        decisions_left: match dl {
            Option::Some(d) => d as u64,
            Option::None => 0u64,
        },
        limit_conflicts: cl is Some,
        conflicts_left: match cl {
            Option::Some(c) => c as u64,
            Option::None => 0u64,
        },
    }
}

/// A single-use solving session over clauses of non-zero integer literals, as
/// in the DIMACS convention: a positive literal asserts its variable, a
/// negative one denies it.
pub struct Solver {
    state: SolverState,
    config: SolverConfig,
    num_vars: i32,
    clauses: Vec<Vec<i32>>,
    model: Vec<u8>,
    decision_limit: Option<u32>,
    conflict_limit: Option<u32>,
}

impl Solver {
    /// The clauses added so far, each a sequence of literals.
    pub closed spec fn formula(&self) -> Seq<Seq<i32>> {
        self.clauses.deep_view()
    }

    /// The largest variable index reserved or mentioned so far.
    pub closed spec fn max_var(&self) -> int {
        self.num_vars as int
    }

    /// The phase the session is in.
    pub closed spec fn status(&self) -> SolverState {
        self.state
    }

    /// The phase the session is in, readable at run time, so a caller can
    /// test that the session still accepts clauses before adding or solving.
    pub fn state(&self) -> (st: SolverState)
        ensures
            st == self.status(),
    {
        self.state
    }

    /// The total assignment found by the last satisfied solve, indexed by
    /// variable; entry 0 is unused.
    pub closed spec fn model_values(&self) -> Seq<bool> {
        assignment_of(self.model@)
    }

    /// The decision limit currently in force, if any.
    pub closed spec fn decision_limit_spec(&self) -> Option<u32> {
        self.decision_limit
    }

    /// The conflict limit currently in force, if any.
    pub closed spec fn conflict_limit_spec(&self) -> Option<u32> {
        self.conflict_limit
    }

    /// The inprocessing configuration the session was built with.
    pub closed spec fn config_spec(&self) -> SolverConfig {
        self.config
    }

    /// Some limit is in force for the next solve.
    pub open spec fn limited(&self) -> bool {
        self.decision_limit_spec() is Some || self.conflict_limit_spec() is Some
    }

    /// Session invariant: the clause database is well formed, and a satisfied
    /// session carries a full assignment under which every clause holds.
    pub closed spec fn wf(&self) -> bool {
        &&& 0 <= self.num_vars
        &&& formula_wf(self.formula(), self.max_var())
        &&& self.status() is Satisfied ==> {
            &&& passign_wf(self.model@, self.max_var())
            &&& all_assigned(self.model@)
            &&& formula_holds(self.model_values(), self.formula())
        }
    }

    /// Construct a fresh session with no clauses, no limits, and every
    /// inprocessing technique enabled.
    pub fn new() -> (s: Solver)
        ensures
            s.wf(),
            s.status() is Input,
            s.formula() == Seq::<Seq<i32>>::empty(),
            s.max_var() == 0,
            !s.limited(),
            s.config_spec() == (SolverConfig {
                subsumption: true,
                vivification: true,
                probing: true,
            }),
    {
        Solver::with_config(
            SolverConfig { subsumption: true, vivification: true, probing: true },
        )
    }

    /// Construct a fresh session with the given inprocessing configuration,
    /// fixed for the session's lifetime.
    pub fn with_config(config: SolverConfig) -> (s: Solver)
        ensures
            s.wf(),
            s.status() is Input,
            s.formula() == Seq::<Seq<i32>>::empty(),
            s.max_var() == 0,
            !s.limited(),
            s.config_spec() == config,
    {
        let s = Solver {
            state: SolverState::Input,
            config,
            num_vars: 0,
            clauses: Vec::new(),
            model: Vec::new(),
            decision_limit: None,
            conflict_limit: None,
        };
        proof {
            assert(s.clauses.deep_view() =~= Seq::<Seq<i32>>::empty());
        }
        s
    }

    /// Raise the reserved maximum variable index.
    pub fn reserve(&mut self, max_var: i32)
        requires
            old(self).wf(),
            old(self).status() is Input,
            max_var > 0,
        ensures
            final(self).wf(),
            final(self).status() is Input,
            final(self).formula() == old(self).formula(),
            final(self).max_var() == int_max(old(self).max_var(), max_var as int),
            final(self).decision_limit_spec() == old(self).decision_limit_spec(),
            final(self).conflict_limit_spec() == old(self).conflict_limit_spec(),
            final(self).config_spec() == old(self).config_spec(),
    {
        if max_var > self.num_vars {
            proof {
                lemma_formula_wf_widen(self.formula(), self.num_vars as int, max_var as int);
            }
            self.num_vars = max_var;
        }
    }

    /// The name and version of this solving engine.
    pub fn signature(&self) -> (r: &str)
        ensures
            r@ == "cat-solver-0.1.0"@,
    {
        "cat-solver-0.1.0"
    }

    /// Add a clause, given as its literals.  Literals must be non-zero and
    /// not `i32::MIN`; the reserved variable range grows as needed.
    pub fn add_clause(&mut self, clause: &[i32])
        requires
            old(self).wf(),
            old(self).status() is Input,
            forall|i: int|
                0 <= i < clause@.len() ==> #[trigger] clause@[i] != 0 && clause@[i] != i32::MIN,
        ensures
            final(self).wf(),
            final(self).status() is Input,
            final(self).formula() == old(self).formula().push(clause@),
            final(self).max_var() == int_max(old(self).max_var(), max_var_of(clause@)),
            final(self).decision_limit_spec() == old(self).decision_limit_spec(),
            final(self).conflict_limit_spec() == old(self).conflict_limit_spec(),
            final(self).config_spec() == old(self).config_spec(),
    {
        let ghost old_nv = self.num_vars as int;
        let mut cv: Vec<i32> = Vec::new();
        let mut j: usize = 0;
        while j < clause.len()
            invariant
                old(self).wf(),
                j <= clause@.len(),
                forall|i: int|
                    0 <= i < clause@.len() ==> #[trigger] clause@[i] != 0 && clause@[i]
                        != i32::MIN,
                cv@ == clause@.take(j as int),
                self.state == old(self).state,
                self.config == old(self).config,
                self.clauses == old(self).clauses,
                self.model == old(self).model,
                self.decision_limit == old(self).decision_limit,
                self.conflict_limit == old(self).conflict_limit,
                old_nv == old(self).num_vars as int,
                self.num_vars as int == int_max(old_nv, max_var_of(clause@.take(j as int))),
                0 <= old_nv <= self.num_vars as int,
                formula_wf(self.clauses.deep_view(), self.num_vars as int),
            decreases clause@.len() - j,
        {
            let l = clause[j];
            let a: i32 = if l >= 0 {
                l
            } else {
                -l
            };
            if a > self.num_vars {
                proof {
                    lemma_formula_wf_widen(
                        self.clauses.deep_view(),
                        self.num_vars as int,
                        a as int,
                    );
                }
                self.num_vars = a;
            }
            cv.push(l);
            proof {
                assert(clause@.take(j as int + 1).drop_last() =~= clause@.take(j as int));
                assert(clause@.take(j as int + 1).last() == clause@[j as int]);
                assert(cv@ =~= clause@.take(j as int + 1));
            }
            j += 1;
        }
        proof {
            assert(clause@.take(clause@.len() as int) =~= clause@);
            assert(cv@ == clause@);
            lemma_max_var_bound(clause@);
        }
        let ghost before = self.clauses.deep_view();
        let ghost prev = self.clauses@;
        self.clauses.push(cv);
        proof {
            assert forall|i: int| 0 <= i < self.clauses.deep_view().len() implies #[trigger] self
                .clauses.deep_view()[i] == before.push(clause@)[i] by {
                if i < prev.len() {
                    assert(self.clauses@[i] == prev[i]);
                } else {
                    assert(self.clauses@[i] == cv);
                }
            }
            assert(self.clauses.deep_view() =~= before.push(clause@));
            assert(clause_wf(clause@, self.num_vars as int));
            assert forall|i: int| 0 <= i < self.clauses.deep_view().len() implies clause_wf(
                #[trigger] self.clauses.deep_view()[i],
                self.num_vars as int,
            ) by {
                if i < before.len() {
                    assert(before[i] == self.clauses.deep_view()[i]);
                }
            }
        }
    }

    /// Set a named limit for the next solve: `"decisions"` bounds the number
    /// of branching decisions, `"conflicts"` the number of falsified clauses
    /// met during search.  Any other name is rejected.
    pub fn set_limit(&mut self, name: &str, limit: u32) -> (r: Result<(), Error>)
        requires
            old(self).wf(),
        ensures
            final(self).wf(),
            final(self).status() == old(self).status(),
            final(self).formula() == old(self).formula(),
            final(self).max_var() == old(self).max_var(),
            final(self).model_values() == old(self).model_values(),
            final(self).config_spec() == old(self).config_spec(),
            name@ == "conflicts"@ ==> r is Ok && final(self).conflict_limit_spec() == Some(limit)
                && final(self).decision_limit_spec() == old(self).decision_limit_spec(),
            name@ == "decisions"@ ==> r is Ok && final(self).decision_limit_spec() == Some(limit)
                && final(self).conflict_limit_spec() == old(self).conflict_limit_spec(),
            name@ != "conflicts"@ && name@ != "decisions"@ ==> (r matches Err(e) && e.msg@
                == "unknown limit"@ && final(self).decision_limit_spec() == old(
                self).decision_limit_spec() && final(self).conflict_limit_spec() == old(
                self).conflict_limit_spec()),
    {
        proof {
            reveal_strlit("conflicts");
            reveal_strlit("decisions");
        }
        let given = name.to_owned();
        if given == "conflicts".to_owned() {
            proof {
                assert(name@ != "decisions"@) by {
                    assert("conflicts"@[0] == 'c' && "decisions"@[0] == 'd');
                }
            }
            self.conflict_limit = Some(limit);
            Ok(())
        } else if given == "decisions".to_owned() {
            proof {
                assert(name@ == "decisions"@);
                assert(name@ != "conflicts"@);
            }
            self.decision_limit = Some(limit);
            Ok(())
        } else {
            proof {
                assert(name@ != "conflicts"@);
                assert(name@ != "decisions"@);
            }
            Err(Error::new("unknown limit"))
        }
    }

    /// Solve the conjunction of the added clauses.
    ///
    /// Returns `Some(true)` with the session satisfied when a satisfying
    /// assignment was found, `Some(false)` when no total assignment over the
    /// reserved variables satisfies the clauses, and `None` only when a limit
    /// interrupted the search.  Both limits are cleared.  An unlimited solve
    /// always returns a definite, correct answer.
    pub fn solve(&mut self) -> (r: Option<bool>)
        requires
            old(self).wf(),
            old(self).status() is Input,
        ensures
            final(self).wf(),
            final(self).formula() == old(self).formula(),
            final(self).max_var() == old(self).max_var(),
            final(self).config_spec() == old(self).config_spec(),
            !final(self).limited(),
            r == Some(true) ==> final(self).status() is Satisfied
                && final(self).model_values().len() == old(self).max_var() + 1 && formula_holds(
                final(self).model_values(),
                old(self).formula(),
            ),
            r == Some(false) ==> final(self).status() is Unsatisfied && !satisfiable(
                old(self).formula(),
                old(self).max_var(),
            ),
            r is None ==> final(self).status() is Interrupted && old(self).limited(),
            !old(self).limited() ==> r is Some,
            !old(self).limited() && satisfiable(old(self).formula(), old(self).max_var()) ==> r
                == Some(true),
            !old(self).limited() && !satisfiable(old(self).formula(), old(self).max_var()) ==> r
                == Some(false),
            old(self).config_spec() == (SolverConfig {
                subsumption: false,
                vivification: false,
                probing: false,
            }) ==> {
                let se = search_eval(
                    old(self).formula(),
                    unassigned_all(old(self).max_var()),
                    budget_of(old(self).decision_limit_spec(), old(self).conflict_limit_spec()),
                );
                &&& (r == Some(true) <==> se.0 is Model)
                &&& (r == Some(false) <==> se.0 is Refuted)
                &&& (r is None <==> se.0 is Halted)
                &&& (se.0 matches SearchVerdict::Model(m) ==> final(self).model_values()
                    == assignment_of(m))
            },
    {
        let n: usize = self.num_vars as usize;
        proof {
            assert(n as int <= i32::MAX as int);
        }
        let p = crate::search::blank_passign(n);
        let ghost blank = p@;
        let (limit_decisions, decisions_left): (bool, u64) = match self.decision_limit {
            Some(d) => (true, d as u64),
            None => (false, 0),
        };
        let (limit_conflicts, conflicts_left): (bool, u64) = match self.conflict_limit {
            Some(c) => (true, c as u64),
            None => (false, 0),
        };
        let mut budget = Budget { limit_decisions, decisions_left, limit_conflicts, conflicts_left };
        let ghost orig = self.clauses.deep_view();
        let base: Vec<Vec<i32>>;
        if self.config.subsumption {
            let reduced = subsume(&self.clauses);
            proof {
                assert forall|j: int| 0 <= j < reduced.deep_view().len() implies clause_wf(
                    #[trigger] reduced.deep_view()[j],
                    n as int,
                ) by {
                    let i0 = choose|i0: int|
                        0 <= i0 < self.clauses.deep_view().len() && reduced.deep_view()[j]
                            == #[trigger] self.clauses.deep_view()[i0];
                    assert(clause_wf(self.clauses.deep_view()[i0], n as int));
                }
                assert(forall|a: Seq<bool>|
                    formula_holds(a, reduced.deep_view()) <==> formula_holds(a, orig));
            }
            base = reduced;
        } else {
            base = copy_formula(&self.clauses);
            proof {
                assert(base.deep_view() == orig);
            }
        }
        proof {
            assert(formula_wf(base.deep_view(), n as int));
            assert(forall|a: Seq<bool>|
                formula_holds(a, base.deep_view()) <==> formula_holds(a, orig));
        }
        let ghost basev = base.deep_view();
        let db = inprocess(base, n, self.config.vivification, self.config.probing);
        proof {
            assert forall|a: Seq<bool>| a.len() == n + 1 implies (formula_holds(a, db.deep_view())
                <==> formula_holds(a, orig)) by {
                assert(formula_holds(a, db.deep_view()) <==> formula_holds(a, basev));
                assert(formula_holds(a, basev) <==> formula_holds(a, orig));
            }
        }
        let outcome = search(&db, p, n, &mut budget);
        self.decision_limit = None;
        self.conflict_limit = None;
        match outcome {
            SearchOutcome::Satisfied(m) => {
                self.model = m;
                self.state = SolverState::Satisfied;
                proof {
                    assert(formula_holds(assignment_of(self.model@), db.deep_view()));
                    assert(assignment_of(self.model@).len() == n + 1);
                    assert(formula_holds(assignment_of(self.model@), self.clauses.deep_view()));
                    assert(satisfiable(self.formula(), self.max_var())) by {
                        assert(assignment_of(self.model@).len() == self.max_var() + 1
                            && formula_holds(assignment_of(self.model@), self.formula()));
                    }
                }
                Some(true)
            },
            SearchOutcome::Unsatisfied => {
                self.state = SolverState::Unsatisfied;
                proof {
                    assert forall|a: Seq<bool>| a.len() == old(self).max_var() + 1 implies
                        !formula_holds(a, old(self).formula()) by {
                        assert(crate::model::agrees(a, blank));
                        assert(a.len() == blank.len());
                        if formula_holds(a, old(self).formula()) {
                            assert(formula_holds(a, db.deep_view()));
                            assert(false);
                        }
                    }
                    assert(!satisfiable(old(self).formula(), old(self).max_var()));
                }
                Some(false)
            },
            SearchOutcome::Interrupted => {
                self.state = SolverState::Interrupted;
                None
            },
        }
    }

    /// Value of a literal under the model of a satisfied session: `Some(b)`
    /// for a literal over a reserved variable, where `b` is its truth under
    /// the model, and `None` for a variable the formula never reserved, whose
    /// value is irrelevant to satisfaction.
    pub fn value(&self, lit: i32) -> (r: Option<bool>)
        requires
            self.wf(),
            self.status() is Satisfied,
            lit != 0,
            lit != i32::MIN,
        ensures
            lit_var(lit) <= self.max_var() ==> r == Some(lit_holds(self.model_values(), lit)),
            lit_var(lit) > self.max_var() ==> r is None,
    {
        let v: usize = if lit >= 0 {
            lit as usize
        } else {
            (-lit) as usize
        };
        if v >= self.model.len() {
            None
        } else {
            let x = self.model[v];
            if lit >= 0 {
                Some(x == 1)
            } else {
                Some(x != 1)
            }
        }
    }
}

impl Default for Solver {
    /// A fresh session, as `Solver::new` builds it.
    fn default() -> (s: Solver)
        ensures
            s.wf(),
            s.status() is Input,
            s.formula() == Seq::<Seq<i32>>::empty(),
            s.max_var() == 0,
            !s.limited(),
    {
        Solver::new()
    }
}

} // verus!

