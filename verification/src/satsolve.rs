use vstd::prelude::*;

use crate::assignment::Assignment;
use crate::cnf::{cnf_sat, lit_sat, Cnf, LiteralTpl, Var};
use crate::watchedliterals::{
    has_conflict, pair_has, unit_prop, unit_with, var_of, watch_ok, UpdateResult, WatchedLiterals,
};

verus! {

/// One level of the decision stack: the assignment after the decision and
/// its propagations, the decided variable, a monotone lower bound for the
/// next decision, and whether the opposite polarity was already tried.
#[derive(Debug, PartialEq)]
pub struct DecisionLevel {
    pub assignment: Assignment,
    pub changed_var: Var,
    pub next_var_at_least: Var,
    pub flipped: bool,
}

impl DecisionLevel {
    /// A usable level: its assignment is well-formed and covers the decided
    /// variable.
    pub open(crate) spec fn wf(self) -> bool {
        &&& self.assignment.wf()
        &&& self.assignment.as_map().contains_key(self.changed_var)
    }
}

/// Statistics about the solving process.
pub struct Stats {
    /// How often a full assignment was checked against the formula.
    pub tries: usize,
}

/// Outcome of propagating one new assignment to a fixpoint.
#[must_use]
pub enum ExecuteAssignmentResult {
    Unsatisfiable,
    AssignmentDone,
}

/// Outcome of backtracking the decision stack.
#[derive(Debug, PartialEq, Eq)]
pub enum BacktrackResult {
    UnsatisfiableFormula,
    ContinueWith(LiteralTpl),
}

/// The total map `t` gives every variable of `m` the same value.
pub open spec fn agrees(t: Map<Var, bool>, m: Map<Var, bool>) -> bool {
    forall|v: Var| #[trigger] m.contains_key(v) ==> t.contains_key(v) && t[v] == m[v]
}

/// Two singleton clauses demand opposite polarities of one variable.
pub open spec fn singleton_conflict(f: Seq<Seq<LiteralTpl>>) -> bool {
    exists|i: int, j: int|
        0 <= i < f.len() && 0 <= j < f.len() && f[i].len() == 1 && f[j].len() == 1 && var_of(
            #[trigger] f[i][0],
        ) == var_of(#[trigger] f[j][0]) && f[i][0].1 != f[j][0].1
}

/// Every literal of clause `i` (which has at least two of them) is
/// contradicted by some singleton clause of the formula.
pub open spec fn clause_refuted_by_singletons(f: Seq<Seq<LiteralTpl>>, i: int) -> bool {
    &&& 0 <= i < f.len()
    &&& f[i].len() >= 2
    &&& forall|j: int|
        0 <= j < f[i].len() ==> exists|k: int|
            0 <= k < f.len() && f[k].len() == 1 && f[k][0] == (
            (#[trigger] f[i][j]).0,
            !f[i][j].1,
            )
}

/// Some clause is wholly contradicted by singleton clauses: the initial
/// propagation is bound to run into it.
pub open spec fn refuted_by_singletons(f: Seq<Seq<LiteralTpl>>) -> bool {
    exists|i: int| clause_refuted_by_singletons(f, i)
}

/// The assignment of the innermost decision level, or the initial
/// assignment below any decision.
pub open spec fn top_map(dls: Seq<DecisionLevel>, init: Assignment) -> Map<Var, bool> {
    if dls.len() == 0 {
        init.as_map()
    } else {
        dls.last().assignment.as_map()
    }
}

/// The lowest variable index the search considers next.
pub open spec fn start_var(dls: Seq<DecisionLevel>) -> int {
    1 + (if dls.len() == 0 {
        0
    } else {
        dls.last().next_var_at_least as int
    })
}

/// A literal that some clause forces must hold in every satisfying total
/// assignment that agrees with the forcing partial assignment.
proof fn lemma_forced(
    t: Map<Var, bool>,
    f: Seq<Seq<LiteralTpl>>,
    m: Map<Var, bool>,
    x: LiteralTpl,
)
    requires
        agrees(t, m),
        cnf_sat(f, t),
        unit_prop(f, m, x),
    ensures
        t.contains_key(x.0) && t[x.0] == x.1,
{
    let i = choose|i: int| 0 <= i < f.len() && unit_with(#[trigger] f[i], m, x);
    assert(crate::cnf::clause_sat(f[i], t));
    let j = choose|j: int| 0 <= j < f[i].len() && lit_sat(t, f[i][j]);
    if f[i][j] != x {
        assert(crate::cnf::lit_false(m, f[i][j]));
        assert(t[f[i][j].0] == m[f[i][j].0]);
        assert(false);
    }
}

/// A conflict clause rules out every satisfying total assignment that
/// agrees with the conflicting partial assignment.
proof fn lemma_conflict(t: Map<Var, bool>, f: Seq<Seq<LiteralTpl>>, m: Map<Var, bool>)
    requires
        agrees(t, m),
        has_conflict(f, m),
    ensures
        !cnf_sat(f, t),
{
    let i = choose|i: int| 0 <= i < f.len() && crate::watchedliterals::all_false(#[trigger] f[i], m);
    if cnf_sat(f, t) {
        assert(crate::cnf::clause_sat(f[i], t));
        let j = choose|j: int| 0 <= j < f[i].len() && lit_sat(t, f[i][j]);
        assert(crate::cnf::lit_false(m, f[i][j]));
        assert(t[f[i][j].0] == m[f[i][j].0]);
        assert(false);
    }
}

/// How many of the variables below `n` the map assigns.
pub open spec fn count_assigned_below(m: Map<Var, bool>, n: int) -> int
    decreases n,
{
    if n <= 0 {
        0
    } else {
        count_assigned_below(m, n - 1) + (if m.contains_key((n - 1) as Var) {
            1int
        } else {
            0int
        })
    }
}

/// The count lies between 0 and `n`.
proof fn lemma_count_bounds(m: Map<Var, bool>, n: int)
    ensures
        0 <= count_assigned_below(m, n),
        count_assigned_below(m, n) <= (if n >= 0 {
            n
        } else {
            0
        }),
    decreases n,
{
    if n > 0 {
        lemma_count_bounds(m, n - 1);
    }
}

/// A map assigning every variable of another assigns at least as many below
/// any bound.
proof fn lemma_count_monotone(m1: Map<Var, bool>, m2: Map<Var, bool>, n: int)
    requires
        forall|v: Var| #[trigger] m1.contains_key(v) ==> m2.contains_key(v),
    ensures
        count_assigned_below(m1, n) <= count_assigned_below(m2, n),
    decreases n,
{
    if n > 0 {
        lemma_count_monotone(m1, m2, n - 1);
    }
}

/// Inserting a fresh variable below the bound raises the count by one.
proof fn lemma_count_insert_fresh(m: Map<Var, bool>, n: int, v: Var, b: bool)
    requires
        !m.contains_key(v),
        0 <= v < n,
        n <= u32::MAX as int + 1,
    ensures
        count_assigned_below(m.insert(v, b), n) == count_assigned_below(m, n) + 1,
    decreases n,
{
    if n > 0 {
        if v == (n - 1) as Var {
            lemma_count_same_domain(m.insert(v, b), m, n - 1);
        } else {
            lemma_count_insert_fresh(m, n - 1, v, b);
        }
    }
}

/// Maps assigning the same variables have the same count; used for maps
/// that differ only in values, or not at all, on the considered range.
proof fn lemma_count_same_domain(m1: Map<Var, bool>, m2: Map<Var, bool>, n: int)
    requires
        forall|w: Var| n > 0 && 0 <= w < n ==> (#[trigger] m1.contains_key(w) <==> m2.contains_key(
            w,
        )),
    ensures
        count_assigned_below(m1, n) == count_assigned_below(m2, n),
    decreases n,
{
    if n > 0 {
        lemma_count_same_domain(m1, m2, n - 1);
        assert(m1.contains_key((n - 1) as Var) <==> m2.contains_key((n - 1) as Var));
    }
}

/// A variable below the bound that is unassigned keeps the count below the
/// bound.
proof fn lemma_count_missing(m: Map<Var, bool>, n: int, v: Var)
    requires
        !m.contains_key(v),
        0 <= v < n,
        n <= u32::MAX as int + 1,
    ensures
        count_assigned_below(m, n) <= n - 1,
    decreases n,
{
    lemma_count_bounds(m, n - 1);
    if v == (n - 1) as Var {
    } else {
        lemma_count_missing(m, n - 1, v);
    }
}

/// Checks the formula against an assignment, counting the evaluation (the
/// counter saturates at its type's maximum).
fn check_assignment(cnf: &Cnf, a: &Assignment, stats: &mut Stats) -> (r: bool)
    requires
        a.wf(),
    ensures
        r == cnf_sat(cnf.sem(), a.as_map()),
        final(stats).tries == (if old(stats).tries < usize::MAX {
            old(stats).tries + 1int
        } else {
            usize::MAX as int
        }),
{
    let result = cnf.is_satisfied(&a);
    if stats.tries < usize::MAX {
        stats.tries += 1;
    }
    result
}

/// Picks the lowest unassigned variable at or above the current level's
/// lower bound, or `None` when every variable below the highest one is
/// assigned.
#[verifier::loop_isolation(false)]
pub fn choose_next_var(
    max: Var,
    dec_levels: &[DecisionLevel],
    initial_assignment: &Assignment,
) -> (r: Option<Var>)
    requires
        initial_assignment.wf(),
        dec_levels@.len() > 0 ==> dec_levels@.last().assignment.wf()
            && dec_levels@.last().next_var_at_least < u32::MAX,
    ensures
        ({
            let a = top_map(dec_levels@, *initial_assignment);
            let start = start_var(dec_levels@);
            match r {
                Some(v) => start <= v < max && !a.contains_key(v) && (forall|w: Var|
                    start <= w < v ==> a.contains_key(w)),
                None => forall|w: Var| start <= w < max ==> a.contains_key(w),
            }
        }),
{
    // start with 1 + the bound recorded at the innermost level
    let mut var: Var = 1 + (if dec_levels.len() > 0 {
        dec_levels[dec_levels.len() - 1].next_var_at_least
    } else {
        0
    });
    let a = if dec_levels.len() > 0 {
        &dec_levels[dec_levels.len() - 1].assignment
    } else {
        initial_assignment
    };
    let ghost start = start_var(dec_levels@);
    // advance past assigned variables, giving up at the highest variable
    loop
        invariant
            a.wf(),
            a.as_map() == top_map(dec_levels@, *initial_assignment),
            start <= var,
            forall|w: Var| start <= w < var ==> top_map(dec_levels@, *initial_assignment).contains_key(w),
        decreases (if var <= max {
            max - var
        } else {
            0
        }),
    {
        if var >= max {
            return None;
        }
        if a.get(var).is_some() {
            var = var + 1;
        } else {
            return Some(var);
        }
    }
}

/// Calculates an assignment satisfying all clauses with only a single
/// literal, `None` when two such clauses conflict.
#[verifier::loop_isolation(false)]
pub fn get_assignment_from_single_clauses(cnf: &Cnf) -> (r: Option<Assignment>)
    requires
        cnf.wf(),
    ensures
        ({
            let f = cnf.sem();
            match r {
                None => singleton_conflict(f),
                Some(a) => {
                    &&& a.wf()
                    &&& forall|i: int|
                        0 <= i < f.len() && (#[trigger] f[i]).len() == 1 ==> lit_sat(
                            a.as_map(),
                            f[i][0],
                        )
                    &&& forall|v: Var| #[trigger]
                        a.as_map().contains_key(v) ==> exists|i: int|
                            0 <= i < f.len() && (#[trigger] f[i]).len() == 1 && f[i][0] == (
                            v,
                            a.as_map()[v],
                            )
                    &&& !singleton_conflict(f)
                },
            }
        }),
{
    let ghost f = cnf.sem();
    let mut assignment = Assignment::new();
    let mut k: usize = 0;
    while k < cnf.clauses.len()
        invariant
            assignment.wf(),
            k <= f.len(),
            forall|i: int|
                0 <= i < k && (#[trigger] f[i]).len() == 1 ==> lit_sat(
                    assignment.as_map(),
                    f[i][0],
                ),
            forall|v: Var| #[trigger]
                assignment.as_map().contains_key(v) ==> exists|i: int|
                    0 <= i < k && (#[trigger] f[i]).len() == 1 && f[i][0] == (
                    v,
                    assignment.as_map()[v],
                    ),
        decreases f.len() - k,
    {
        let lits = cnf.clauses[k].literals();
        proof {
            assert(lits@ == f[k as int]);
        }
        if lits.len() == 1 {
            let lit = lits[0];
            match assignment.get_lit(lit) {
                Some(true) => {
                    // an earlier singleton already demands this literal
                },
                Some(false) => {
                    // an earlier singleton demands the opposite polarity
                    proof {
                        let i = choose|i: int|
                            0 <= i < k && (#[trigger] f[i]).len() == 1 && f[i][0] == (
                            lit.0,
                            assignment.as_map()[lit.0],
                            );
                        assert(var_of(f[i][0]) == var_of(f[k as int][0]));
                        assert(f[i][0].1 != f[k as int][0].1);
                    }
                    return None;
                },
                None => {
                    let ghost before = assignment.as_map();
                    assignment.change(lit.0, lit.1);
                    proof {
                        assert forall|v: Var| #[trigger]
                            assignment.as_map().contains_key(v) implies exists|i: int|
                            0 <= i < k + 1 && (#[trigger] f[i]).len() == 1 && f[i][0] == (
                            v,
                            assignment.as_map()[v],
                            ) by {
                            if v == lit.0 {
                                assert(f[k as int].len() == 1 && f[k as int][0] == (
                                v,
                                assignment.as_map()[v],
                                ));
                            } else {
                                assert(before.contains_key(v));
                            }
                        }
                    }
                },
            }
        }
        k += 1;
    }
    proof {
        if singleton_conflict(f) {
            let (i, j): (int, int) = choose|i: int, j: int|
                0 <= i < f.len() && 0 <= j < f.len() && (#[trigger] f[i]).len() == 1 && (
                #[trigger] f[j]).len() == 1 && var_of(f[i][0]) == var_of(f[j][0]) && f[i][0].1
                    != f[j][0].1;
            assert(lit_sat(assignment.as_map(), f[i][0]));
            assert(lit_sat(assignment.as_map(), f[j][0]));
            assert(false);
        }
    }
    Some(assignment)
}

/// Backtracks the decision stack: the innermost untried level is flipped to
/// the opposite polarity of its decided variable, deeper exhausted levels
/// are popped; with every level exhausted the stack empties and the formula
/// is reported unsatisfiable.
#[verifier::loop_isolation(false)]
pub fn backtrack(dec_levels: &mut Vec<DecisionLevel>) -> (r: BacktrackResult)
    requires
        forall|i: int| 0 <= i < old(dec_levels)@.len() ==> (#[trigger] old(dec_levels)@[i]).wf(),
    ensures
        ({
            let s = old(dec_levels)@;
            match r {
                BacktrackResult::UnsatisfiableFormula => (forall|i: int|
                    0 <= i < s.len() ==> (#[trigger] s[i]).flipped) && final(dec_levels)@.len()
                    == 0,
                BacktrackResult::ContinueWith(l) => ({
                    let k = final(dec_levels)@.len() - 1;
                    &&& 1 <= final(dec_levels)@.len() <= s.len()
                    &&& !s[k].flipped
                    &&& forall|i: int| k < i < s.len() ==> (#[trigger] s[i]).flipped
                    &&& forall|i: int| 0 <= i < k ==> final(dec_levels)@[i] == s[i]
                    &&& final(dec_levels)@[k].flipped == true
                    &&& final(dec_levels)@[k].changed_var == s[k].changed_var
                    &&& final(dec_levels)@[k].next_var_at_least == s[k].next_var_at_least
                    &&& final(dec_levels)@[k].assignment.wf()
                    &&& final(dec_levels)@[k].assignment.as_map() == s[k].assignment.as_map(
                    ).insert(s[k].changed_var, !s[k].assignment.as_map()[s[k].changed_var])
                    &&& l == (s[k].changed_var, !s[k].assignment.as_map()[s[k].changed_var])
                }),
            }
        }),
{
    let ghost s = old(dec_levels)@;
    loop
        invariant
            forall|i: int| 0 <= i < s.len() ==> (#[trigger] s[i]).wf(),
            dec_levels@.len() <= s.len(),
            dec_levels@ == s.take(dec_levels@.len() as int),
            forall|i: int| dec_levels@.len() <= i < s.len() ==> (#[trigger] s[i]).flipped,
        decreases dec_levels@.len(),
    {
        match dec_levels.pop() {
            Some(mut dl) => {
                let ghost k = dec_levels@.len() as int;
                proof {
                    assert(dl == s[k]);
                    assert(dec_levels@ == s.take(k + 1).drop_last());
                    assert(s.take(k + 1).drop_last() =~= s.take(k));
                }
                if !dl.flipped {
                    // this level has not been flipped yet, so try it out
                    dl.flipped = true;
                    let old_assignment = dl.assignment.get(dl.changed_var).unwrap();
                    let new_assignment = (dl.changed_var, !old_assignment);
                    dl.assignment.change(new_assignment.0, new_assignment.1);
                    dec_levels.push(dl);
                    proof {
                        assert(final(dec_levels)@.len() == k + 1);
                        assert forall|i: int| 0 <= i < k implies final(dec_levels)@[i] == s[
                        i] by {
                            assert(final(dec_levels)@[i] == s.take(k)[i]);
                        }
                    }
                    return BacktrackResult::ContinueWith(new_assignment);
                } else {
                    // this level has already been flipped, backtrack further
                }
            },
            None => {
                // every level was exhausted: all assignments were tried
                proof {
                    assert(dec_levels@.len() == 0);
                }
                return BacktrackResult::UnsatisfiableFormula;
            },
        }
    }
}

/// Propagates a decision (`new_literal`) in the given assignment using the
/// watched literals, to a fixpoint.
///
/// The assignment must already contain the new literal; resulting
/// propagations mutate it, and the watched index is updated along the way.
/// Every variable assigned on entry keeps its value. Returns
/// `AssignmentDone` when the fixpoint is reached without conflict; then
/// every total assignment that satisfies the formula and agrees with the
/// entry assignment also agrees with the final one; every clause that
/// entered healthy (a watch satisfied or unassigned) or watching the new
/// literal's falsified sibling leaves healthy again under the final
/// assignment, and so not in conflict; a clause of the latter kind that was
/// unit under the entry assignment has its forced variable assigned; and a
/// clause with every literal already false keeps its watches untouched.
/// Returns `Unsatisfiable` on a conflict; then no total assignment agreeing
/// with the entry assignment satisfies the formula.
#[verifier::loop_isolation(false)]
#[verifier::rlimit(60)]
pub fn propagate_assignment(
    new_literal: LiteralTpl,
    assignment: &mut Assignment,
    cnf: &Cnf,
    watchedliterals: &mut WatchedLiterals,
) -> (r: ExecuteAssignmentResult)
    requires
        cnf.wf(),
        old(assignment).wf(),
        old(watchedliterals).wf(cnf.sem()),
        lit_sat(old(assignment).as_map(), new_literal),
    ensures
        final(assignment).wf(),
        final(watchedliterals).wf(cnf.sem()),
        forall|v: Var| #[trigger]
            old(assignment).as_map().contains_key(v)
                ==> final(assignment).as_map().contains_key(v) && final(assignment).as_map()[v]
                == old(assignment).as_map()[v],
        forall|t: Map<Var, bool>|
            #![trigger agrees(t, old(assignment).as_map())]
            agrees(t, old(assignment).as_map()) && cnf_sat(cnf.sem(), t) ==> agrees(
                t,
                final(assignment).as_map(),
            ),
        (r is Unsatisfiable ==> forall|t: Map<Var, bool>|
            #![trigger agrees(t, old(assignment).as_map())]
            agrees(t, old(assignment).as_map()) ==> !cnf_sat(cnf.sem(), t)),
        (r is AssignmentDone ==> forall|i: int|
            0 <= i < cnf.sem().len() && cnf.sem()[i].len() >= 2 && (watch_ok(
                old(assignment).as_map(),
                (#[trigger] old(watchedliterals).pairs()[i])->0,
            ) || pair_has(
                old(watchedliterals).pairs()[i]->0,
                (new_literal.0, !new_literal.1),
            )) ==> watch_ok(final(assignment).as_map(), final(watchedliterals).pairs()[i]->0)
                && !crate::watchedliterals::all_false(cnf.sem()[i], final(assignment).as_map())),
        (r is AssignmentDone ==> forall|i: int|
            0 <= i < cnf.sem().len() && cnf.sem()[i].len() >= 2 && crate::watchedliterals::all_false(
                cnf.sem()[i],
                old(assignment).as_map(),
            ) ==> final(watchedliterals).pairs()[i] == (#[trigger] old(watchedliterals).pairs()[i])),
        (r is AssignmentDone ==> forall|i: int, l: LiteralTpl|
            #![trigger old(watchedliterals).pairs()[i], unit_with(cnf.sem()[i], old(assignment).as_map(), l)]
            0 <= i < cnf.sem().len() && old(watchedliterals).pairs()[i] is Some && pair_has(
                old(watchedliterals).pairs()[i]->0,
                (new_literal.0, !new_literal.1),
            ) && unit_with(cnf.sem()[i], old(assignment).as_map(), l)
                ==> final(assignment).as_map().contains_key(var_of(l))),
{
    let ghost f = cnf.sem();
    let ghost m0 = old(assignment).as_map();
    let ghost flit0 = (new_literal.0, !new_literal.1);
    let max = cnf.highest_var();
    let ghost bound = max as int + 1;
    // literals waiting to be propagated, in first-in first-out order
    let mut queue: Vec<LiteralTpl> = Vec::new();
    queue.push(new_literal);
    let mut head: usize = 0;
    proof {
        assert(queue@[0] == new_literal);
        assert forall|i: int|
            0 <= i < f.len() && f[i].len() >= 2 && (watch_ok(
                m0,
                (#[trigger] old(watchedliterals).pairs()[i])->0,
            ) || pair_has(old(watchedliterals).pairs()[i]->0, flit0)) implies watch_ok(
            assignment.as_map(),
            watchedliterals.pairs()[i]->0,
        ) || (exists|qi: int|
            0 <= qi < queue@.len() && pair_has(
                watchedliterals.pairs()[i]->0,
                ((#[trigger] queue@[qi]).0, !queue@[qi].1),
            )) by {
            if watch_ok(m0, old(watchedliterals).pairs()[i]->0) {
                assert(watch_ok(assignment.as_map(), watchedliterals.pairs()[i]->0));
            } else {
                assert(pair_has(
                    watchedliterals.pairs()[i]->0,
                    ((queue@[0]).0, !queue@[0].1),
                ));
            }
        }
    }
    let ghost mut fuel: int = bound - count_assigned_below(assignment.as_map(), bound);
    while head < queue.len()
        invariant
            fuel == bound - count_assigned_below(assignment.as_map(), bound),
            assignment.wf(),
            watchedliterals.wf(f),
            head <= queue@.len(),
            forall|v: Var| #[trigger]
                m0.contains_key(v) ==> assignment.as_map().contains_key(v)
                    && assignment.as_map()[v] == m0[v],
            forall|t: Map<Var, bool>|
                #![trigger agrees(t, m0)]
                agrees(t, m0) && cnf_sat(f, t) ==> agrees(t, assignment.as_map()),
            forall|qi: int|
                head <= qi < queue@.len() ==> assignment.as_map().contains_key(
                    var_of(#[trigger] queue@[qi]),
                ),
            queue@.len() >= 1 && queue@[0] == new_literal,
            head == 0 ==> assignment.as_map() == m0,
            head == 0 ==> watchedliterals.pairs() == old(watchedliterals).pairs(),
            forall|i: int|
                0 <= i < f.len() && f[i].len() >= 2 && (watch_ok(
                    m0,
                    (#[trigger] old(watchedliterals).pairs()[i])->0,
                ) || pair_has(old(watchedliterals).pairs()[i]->0, flit0)) ==> watch_ok(
                    assignment.as_map(),
                    watchedliterals.pairs()[i]->0,
                ) || (exists|qi: int|
                    head <= qi < queue@.len() && pair_has(
                        watchedliterals.pairs()[i]->0,
                        ((#[trigger] queue@[qi]).0, !queue@[qi].1),
                    )),
            head >= 1 ==> (forall|i: int, l: LiteralTpl|
                #![trigger old(watchedliterals).pairs()[i], unit_with(f[i], m0, l)]
                0 <= i < f.len() && old(watchedliterals).pairs()[i] is Some && pair_has(
                    old(watchedliterals).pairs()[i]->0,
                    flit0,
                ) && unit_with(f[i], m0, l) ==> assignment.as_map().contains_key(var_of(l))),
            forall|i: int|
                0 <= i < f.len() && f[i].len() >= 2 && crate::watchedliterals::all_false(
                    f[i],
                    m0,
                ) ==> watchedliterals.pairs()[i] == (#[trigger] old(watchedliterals).pairs()[i]),
        decreases fuel, queue@.len() - head,
    {
        proof {
            lemma_count_bounds(assignment.as_map(), bound);
        }
        let prop = queue[head];
        let ghost m_upd = assignment.as_map();
        let ghost pairs_pre = watchedliterals.pairs();
        let ghost flit_x = (prop.0, !prop.1);
        let result = watchedliterals.update(cnf, &assignment, prop);
        match result {
            UpdateResult::Unsatisfiable => {
                // a clause lost its last literal: no extension can work
                proof {
                    assert forall|t: Map<Var, bool>|
                        #![trigger agrees(t, m0)]
                        agrees(t, m0) implies !cnf_sat(f, t) by {
                        if cnf_sat(f, t) {
                            assert(agrees(t, m_upd));
                            lemma_conflict(t, f, m_upd);
                        }
                    }
                }
                return ExecuteAssignmentResult::Unsatisfiable;
            },
            UpdateResult::Satisfiable { propagations: new_propagations } => {
                proof {
                    // re-examining the watchers of the popped literal leaves
                    // every tracked clause healthy or excused by a literal
                    // that is still pending
                    assert forall|i: int|
                        0 <= i < f.len() && f[i].len() >= 2 && (watch_ok(
                            m0,
                            (#[trigger] old(watchedliterals).pairs()[i])->0,
                        ) || pair_has(old(watchedliterals).pairs()[i]->0, flit0)) implies watch_ok(
                        assignment.as_map(),
                        watchedliterals.pairs()[i]->0,
                    ) || (exists|qi: int|
                        head < qi < queue@.len() && pair_has(
                            watchedliterals.pairs()[i]->0,
                            ((#[trigger] queue@[qi]).0, !queue@[qi].1),
                        )) by {
                        assert(pairs_pre[i] is Some);
                        if watch_ok(m_upd, pairs_pre[i]->0) || pair_has(pairs_pre[i]->0, flit_x) {
                            assert(watch_ok(m_upd, watchedliterals.pairs()[i]->0));
                            assert(watch_ok(assignment.as_map(), watchedliterals.pairs()[i]->0));
                        } else {
                            assert(watch_ok(assignment.as_map(), pairs_pre[i]->0) || (exists|qi: int|
                                head <= qi < queue@.len() && pair_has(
                                    pairs_pre[i]->0,
                                    ((#[trigger] queue@[qi]).0, !queue@[qi].1),
                                )));
                            let qi = choose|qi: int|
                                head <= qi < queue@.len() && pair_has(
                                    pairs_pre[i]->0,
                                    ((#[trigger] queue@[qi]).0, !queue@[qi].1),
                                );
                            assert(qi != head);
                            assert(watchedliterals.pairs()[i] == pairs_pre[i]);
                            assert(head < qi < queue@.len() && pair_has(
                                watchedliterals.pairs()[i]->0,
                                ((queue@[qi]).0, !queue@[qi].1),
                            ));
                        }
                    }
                }
                proof {
                    // a clause with every literal already false cannot have
                    // been re-watched: any outcome of examining it would
                    // need a satisfied, unassigned or gathered literal
                    assert forall|i: int|
                        0 <= i < f.len() && f[i].len() >= 2 && crate::watchedliterals::all_false(
                            f[i],
                            m0,
                        ) implies watchedliterals.pairs()[i] == (
                    #[trigger] old(watchedliterals).pairs()[i]) by {
                        assert(crate::watchedliterals::all_false(f[i], m_upd)) by {
                            assert forall|jx: int|
                                0 <= jx < f[i].len() implies crate::cnf::lit_false(
                                m_upd,
                                #[trigger] f[i][jx],
                            ) by {
                                assert(crate::cnf::lit_false(m0, f[i][jx]));
                                assert(m0.contains_key(f[i][jx].0));
                            }
                        }
                        if pair_has(pairs_pre[i]->0, flit_x) {
                            assert(crate::watchedliterals::processed_pair_post(
                                pairs_pre[i]->0,
                                watchedliterals.pairs()[i]->0,
                                f[i],
                                m_upd,
                                flit_x,
                                new_propagations@,
                            ));
                            let other = crate::watchedliterals::pair_other(
                                pairs_pre[i]->0,
                                flit_x,
                            );
                            assert(f[i].contains(other));
                            let jo = choose|jo: int| 0 <= jo < f[i].len() && f[i][jo] == other;
                            assert(crate::cnf::lit_false(m_upd, f[i][jo]));
                            if !(watchedliterals.pairs()[i]->0 == pairs_pre[i]->0 && (lit_sat(
                                m_upd,
                                other,
                            ) || (unit_with(f[i], m_upd, other) && new_propagations@.contains(
                                other,
                            )))) {
                                let lw = choose|lw: LiteralTpl|
                                    watchedliterals.pairs()[i]->0
                                        == crate::watchedliterals::swapped_pair(
                                        pairs_pre[i]->0,
                                        flit_x,
                                        lw,
                                    ) && #[trigger] f[i].contains(lw) && lw != other
                                        && !crate::cnf::lit_false(m_upd, lw) && (unit_with(
                                        f[i],
                                        m_upd,
                                        lw,
                                    ) ==> new_propagations@.contains(lw));
                                let jw = choose|jw: int| 0 <= jw < f[i].len() && f[i][jw] == lw;
                                assert(crate::cnf::lit_false(m_upd, f[i][jw]));
                                assert(false);
                            }
                            assert(false);
                        } else {
                            assert(pairs_pre[i] is Some);
                            assert(watchedliterals.pairs()[i] == pairs_pre[i]);
                        }
                    }
                }
                // store the forced literals, writing each into the
                // assignment as it is enqueued
                let ghost pairs_pre_post = watchedliterals.pairs();
                let ghost q0 = queue@.len() as int;
                let mut pi: usize = 0;
                while pi < new_propagations.len()
                    invariant
                        assignment.wf(),
                        watchedliterals.wf(f),
                        head < queue@.len(),
                        head < q0,
                        queue@.len() == q0 + pi,
                        forall|x: int|
                            0 <= x < new_propagations@.len() ==> unit_prop(
                                f,
                                m_upd,
                                #[trigger] new_propagations@[x],
                            ),
                        pi <= new_propagations@.len(),
                        forall|v: Var| #[trigger]
                            m_upd.contains_key(v) ==> assignment.as_map().contains_key(v)
                                && assignment.as_map()[v] == m_upd[v],
                        forall|v: Var| #[trigger]
                            m0.contains_key(v) ==> assignment.as_map().contains_key(v)
                                && assignment.as_map()[v] == m0[v],
                        forall|t: Map<Var, bool>|
                            #![trigger agrees(t, m0)]
                            agrees(t, m0) && cnf_sat(f, t) ==> agrees(t, assignment.as_map()),
                        forall|qi: int|
                            head <= qi < queue@.len() ==> assignment.as_map().contains_key(
                                var_of(#[trigger] queue@[qi]),
                            ),
                        pi == 0 ==> assignment.as_map() == m_upd,
                        queue@.len() >= 1 && queue@[0] == new_literal,
                        watchedliterals.pairs() == pairs_pre_post,
                        forall|k: int|
                            0 <= k < pi ==> assignment.as_map().contains_key(
                                var_of(#[trigger] new_propagations@[k]),
                            ),
                        forall|i: int|
                            0 <= i < f.len() && f[i].len() >= 2 && (watch_ok(
                                m0,
                                (#[trigger] old(watchedliterals).pairs()[i])->0,
                            ) || pair_has(old(watchedliterals).pairs()[i]->0, flit0)) ==> watch_ok(
                                assignment.as_map(),
                                watchedliterals.pairs()[i]->0,
                            ) || (exists|qi: int|
                                head < qi < queue@.len() && pair_has(
                                    watchedliterals.pairs()[i]->0,
                                    ((#[trigger] queue@[qi]).0, !queue@[qi].1),
                                )),
                        count_assigned_below(assignment.as_map(), bound) >= count_assigned_below(
                            m_upd,
                            bound,
                        ) + (if pi > 0 {
                            1int
                        } else {
                            0int
                        }),
                    decreases new_propagations@.len() - pi,
                {
                    let (prop_var, prop_val) = new_propagations[pi];
                    let ghost m_before = assignment.as_map();
                    let ghost qpre = queue@;
                    queue.push((prop_var, prop_val));
                    assignment.change(prop_var, prop_val);
                    proof {
                        let x = new_propagations@[pi as int];
                        assert(unit_prop(f, m_upd, x));
                        // the forced variable lies within the formula's range
                        let i = choose|i: int|
                            0 <= i < f.len() && unit_with(#[trigger] f[i], m_upd, x);
                        let j = choose|j: int| 0 <= j < f[i].len() && f[i][j] == x;
                        assert(var_of(x) <= max);
                        assert(!m_upd.contains_key(prop_var));
                        if m_before.contains_key(prop_var) {
                            // only possible for later propagations of this
                            // round; the count was already raised
                            assert(pi > 0);
                            lemma_count_same_domain(assignment.as_map(), m_before, bound);
                        } else {
                            lemma_count_insert_fresh(m_before, bound, prop_var, prop_val);
                            lemma_count_monotone(m_upd, m_before, bound);
                        }
                        // a forced literal holds in every agreeing model
                        assert forall|t: Map<Var, bool>|
                            #![trigger agrees(t, m0)]
                            agrees(t, m0) && cnf_sat(f, t) implies agrees(
                            t,
                            assignment.as_map(),
                        ) by {
                            assert(agrees(t, m_before));
                            assert(agrees(t, m_upd));
                            lemma_forced(t, f, m_upd, x);
                        }
                        // a watch falsified by this write is the negation of
                        // the literal just put in the queue
                        assert forall|i: int|
                            0 <= i < f.len() && f[i].len() >= 2 && (watch_ok(
                                m0,
                                (#[trigger] old(watchedliterals).pairs()[i])->0,
                            ) || pair_has(old(watchedliterals).pairs()[i]->0, flit0)) implies watch_ok(
                            assignment.as_map(),
                            watchedliterals.pairs()[i]->0,
                        ) || (exists|qi: int|
                            head < qi < queue@.len() && pair_has(
                                watchedliterals.pairs()[i]->0,
                                ((#[trigger] queue@[qi]).0, !queue@[qi].1),
                            )) by {
                            let p = watchedliterals.pairs()[i]->0;
                            assert(queue@ == qpre.push((prop_var, prop_val)));
                            assert(forall|qi: int|
                                0 <= qi < qpre.len() ==> queue@[qi] == #[trigger] qpre[qi]);
                            if watch_ok(m_before, p) {
                                if watch_ok(assignment.as_map(), p) {
                                } else {
                                    // both slots false now, one was not
                                    // false before this single write
                                    assert(assignment.as_map() == m_before.insert(
                                        prop_var,
                                        prop_val,
                                    ));
                                    if !crate::cnf::lit_false(m_before, p.0) {
                                        assert(crate::cnf::lit_false(
                                            assignment.as_map(),
                                            p.0,
                                        ));
                                        assert(p.0 == (prop_var, !prop_val));
                                    } else {
                                        assert(!crate::cnf::lit_false(m_before, p.1));
                                        assert(crate::cnf::lit_false(
                                            assignment.as_map(),
                                            p.1,
                                        ));
                                        assert(p.1 == (prop_var, !prop_val));
                                    }
                                    assert(pair_has(p, (prop_var, !prop_val)));
                                    assert(queue@[queue@.len() - 1] == (prop_var, prop_val));
                                    assert(head < queue@.len() - 1);
                                }
                            } else {
                                let qi = choose|qi: int|
                                    head < qi < qpre.len() && pair_has(
                                        p,
                                        ((#[trigger] qpre[qi]).0, !qpre[qi].1),
                                    );
                                assert(queue@[qi] == qpre[qi]);
                                assert(head < qi < queue@.len() && pair_has(
                                    p,
                                    ((queue@[qi]).0, !queue@[qi].1),
                                ));
                            }
                        }
                    }
                    pi += 1;
                }
                proof {
                    if new_propagations@.len() == 0 {
                        assert(assignment.as_map() == m_upd);
                    }
                    if head == 0 {
                        // the seed round: every clause watching the seed's
                        // falsified sibling had its forced literal gathered
                        // and written
                        assert(m_upd == m0);
                        assert(prop == new_literal);
                        assert(flit_x == flit0);
                        assert forall|i: int, l: LiteralTpl|
                            #![trigger old(watchedliterals).pairs()[i], unit_with(f[i], m0, l)]
                            0 <= i < f.len() && old(watchedliterals).pairs()[i] is Some
                                && pair_has(old(watchedliterals).pairs()[i]->0, flit0)
                                && unit_with(f[i], m0, l) implies assignment.as_map().contains_key(
                            var_of(l),
                        ) by {
                            let oldp = pairs_pre[i]->0;
                            assert(pairs_pre[i] == old(watchedliterals).pairs()[i]);
                            assert(crate::watchedliterals::processed_pair_post(
                                oldp,
                                pairs_pre_post[i]->0,
                                f[i],
                                m0,
                                flit0,
                                new_propagations@,
                            ));
                            let other = crate::watchedliterals::pair_other(oldp, flit0);
                            assert(f[i].contains(other));
                            assert(new_propagations@.contains(l)) by {
                                if pairs_pre_post[i]->0 == oldp && (lit_sat(m0, other)
                                    || (unit_with(f[i], m0, other) && new_propagations@.contains(
                                    other,
                                ))) {
                                    if lit_sat(m0, other) {
                                        // a satisfied literal contradicts the
                                        // clause being unit
                                        let jo = choose|jo: int|
                                            0 <= jo < f[i].len() && f[i][jo] == other;
                                        if other != l {
                                            assert(crate::cnf::lit_false(m0, f[i][jo]));
                                            assert(false);
                                        } else {
                                            assert(crate::cnf::lit_unassigned(m0, l));
                                            assert(false);
                                        }
                                    } else {
                                        crate::watchedliterals::lemma_unit_lit_unique(
                                            f[i],
                                            m0,
                                            other,
                                            l,
                                        );
                                    }
                                } else {
                                    let lw = choose|lw: LiteralTpl|
                                        pairs_pre_post[i]->0 == crate::watchedliterals::swapped_pair(
                                            oldp,
                                            flit0,
                                            lw,
                                        ) && #[trigger] f[i].contains(lw) && lw != other
                                            && !crate::cnf::lit_false(m0, lw) && (unit_with(
                                            f[i],
                                            m0,
                                            lw,
                                        ) ==> new_propagations@.contains(lw));
                                    let jw = choose|jw: int|
                                        0 <= jw < f[i].len() && f[i][jw] == lw;
                                    if lw != l {
                                        assert(crate::cnf::lit_false(m0, f[i][jw]));
                                        assert(false);
                                    }
                                }
                            }
                            let k = choose|k: int|
                                0 <= k < new_propagations@.len() && new_propagations@[k] == l;
                            assert(assignment.as_map().contains_key(
                                var_of(new_propagations@[k]),
                            ));
                        }
                    } else {
                        // literals written in earlier rounds stay written
                        assert forall|i: int, l: LiteralTpl|
                            #![trigger old(watchedliterals).pairs()[i], unit_with(f[i], m0, l)]
                            0 <= i < f.len() && old(watchedliterals).pairs()[i] is Some
                                && pair_has(old(watchedliterals).pairs()[i]->0, flit0)
                                && unit_with(f[i], m0, l) implies assignment.as_map().contains_key(
                            var_of(l),
                        ) by {
                            assert(m_upd.contains_key(var_of(l)));
                        }
                    }
                }
            },
        }
        proof {
            lemma_count_bounds(assignment.as_map(), bound);
            assert(count_assigned_below(assignment.as_map(), bound) > count_assigned_below(
                m_upd,
                bound,
            ) || assignment.as_map() == m_upd);
            fuel = bound - count_assigned_below(assignment.as_map(), bound);
        }
        head += 1;
    }
    proof {
        // the queue has drained: no excuse is pending, so every tracked
        // clause keeps a watch that is satisfied or unassigned, and hence
        // is not in conflict
        assert forall|i: int|
            0 <= i < f.len() && f[i].len() >= 2 && (watch_ok(
                m0,
                (#[trigger] old(watchedliterals).pairs()[i])->0,
            ) || pair_has(old(watchedliterals).pairs()[i]->0, flit0)) implies watch_ok(
            assignment.as_map(),
            watchedliterals.pairs()[i]->0,
        ) && !crate::watchedliterals::all_false(f[i], assignment.as_map()) by {
            assert(watch_ok(assignment.as_map(), watchedliterals.pairs()[i]->0));
            let p = watchedliterals.pairs()[i]->0;
            assert(watchedliterals.pairs()[i] is Some);
            assert(f[i].contains(crate::watchedliterals::fst(p)) && f[i].contains(
                crate::watchedliterals::snd(p),
            ));
            if !crate::cnf::lit_false(assignment.as_map(), p.0) {
                let js = choose|js: int| 0 <= js < f[i].len() && f[i][js] == p.0;
                assert(!crate::cnf::lit_false(assignment.as_map(), f[i][js]));
            } else {
                let js = choose|js: int| 0 <= js < f[i].len() && f[i][js] == p.1;
                assert(!crate::cnf::lit_false(assignment.as_map(), f[i][js]));
            }
        }
    }
    ExecuteAssignmentResult::AssignmentDone
}

/// The polarity a fresh decision tries first; the opposite branch is
/// reached only by flipping on backtrack.
const FIRST_TRY: bool = false;

/// States of the search driver's main loop.
enum State {
    CheckCurrentLevel,
    AssignNewVar,
    NewDecLevelWithAssignment(LiteralTpl),
    PropagateAssignment(LiteralTpl),
    Backtrack,
}

/// Rank of a state inside one round of the main loop, used as the least
/// significant part of the loop's termination measure.
spec fn state_tag(s: State) -> int {
    match s {
        State::PropagateAssignment(_) => 4,
        State::CheckCurrentLevel => 3,
        State::AssignNewVar => 2,
        State::NewDecLevelWithAssignment(_) => 1,
        State::Backtrack => 0,
    }
}

/// Two to the power of `d`, and 1 for nonpositive `d`.
spec fn pow2i(d: int) -> int
    decreases d,
{
    if d <= 0 {
        1
    } else {
        2 * pow2i(d - 1)
    }
}

proof fn lemma_pow2i_pos(d: int)
    ensures
        pow2i(d) >= 1,
    decreases d,
{
    if d > 0 {
        lemma_pow2i_pos(d - 1);
    }
}

/// The flipped flags of the decision stack, in order.
spec fn flags_of(s: Seq<DecisionLevel>) -> Seq<bool> {
    s.map_values(|dl: DecisionLevel| dl.flipped)
}

/// How much of the search tree of depth `d` is still unexplored at a stack
/// with the given flipped flags: an unflipped level keeps its whole sibling
/// subtree, and the current node keeps its own subtree.
spec fn mu(fl: Seq<bool>, d: int) -> int
    decreases fl.len(),
{
    if fl.len() == 0 {
        pow2i(d)
    } else {
        (if fl[0] {
            0int
        } else {
            pow2i(d - 1)
        }) + mu(fl.subrange(1, fl.len() as int), d - 1)
    }
}

proof fn lemma_mu_pos(fl: Seq<bool>, d: int)
    ensures
        mu(fl, d) >= 1,
    decreases fl.len(),
{
    if fl.len() == 0 {
        lemma_pow2i_pos(d);
    } else {
        lemma_pow2i_pos(d - 1);
        lemma_mu_pos(fl.subrange(1, fl.len() as int), d - 1);
    }
}

/// Opening a fresh (unflipped) level keeps the unexplored measure: the new
/// level's two subtrees together are the current node's subtree.
proof fn lemma_mu_push_false(fl: Seq<bool>, d: int)
    requires
        fl.len() < d,
    ensures
        mu(fl.push(false), d) == mu(fl, d),
    decreases fl.len(),
{
    if fl.len() == 0 {
        assert(fl.push(false)[0] == false);
        assert(fl.push(false).subrange(1, 1) =~= Seq::<bool>::empty());
        assert(mu(Seq::<bool>::empty(), d - 1) == pow2i(d - 1));
        assert(mu(fl.push(false), d) == pow2i(d - 1) + pow2i(d - 1));
        assert(pow2i(d) == 2 * pow2i(d - 1));
    } else {
        assert(fl.push(false).subrange(1, fl.push(false).len() as int) =~= fl.subrange(
            1,
            fl.len() as int,
        ).push(false));
        assert(fl.push(false)[0] == fl[0]);
        lemma_mu_push_false(fl.subrange(1, fl.len() as int), d - 1);
    }
}

/// Flipping the innermost untried level, popping the exhausted levels above
/// it, strictly shrinks the unexplored measure.
proof fn lemma_mu_flip(fl: Seq<bool>, d: int, k: int)
    requires
        0 <= k < fl.len(),
        !fl[k],
        forall|i: int| k < i < fl.len() ==> fl[i],
    ensures
        mu(fl.take(k + 1).update(k, true), d) < mu(fl, d),
    decreases k,
{
    let rest = fl.subrange(1, fl.len() as int);
    if k == 0 {
        let fl2 = fl.take(1).update(0, true);
        assert(fl2.len() == 1);
        assert(fl2[0] == true);
        assert(fl2.subrange(1, 1) =~= Seq::<bool>::empty());
        assert(mu(Seq::<bool>::empty(), d - 1) == pow2i(d - 1));
        assert(mu(fl2, d) == pow2i(d - 1));
        assert(mu(fl, d) == pow2i(d - 1) + mu(rest, d - 1));
        lemma_mu_pos(rest, d - 1);
    } else {
        assert forall|i: int| k - 1 < i < rest.len() implies rest[i] by {
            assert(fl[i + 1]);
        }
        lemma_mu_flip(rest, d - 1, k - 1);
        let fl2 = fl.take(k + 1).update(k, true);
        assert(fl2[0] == fl[0]);
        assert(fl2.subrange(1, fl2.len() as int) =~= rest.take(k).update(k - 1, true));
        assert(mu(fl2, d) == (if fl[0] {
            0int
        } else {
            pow2i(d - 1)
        }) + mu(rest.take(k).update(k - 1, true), d - 1));
    }
}

/// Searches for a satisfying assignment by unit propagation over watched
/// literals and chronological backtracking; variables are tried in
/// ascending order, `false` first, and a backtrack flips the innermost
/// untried decision in place.
///
/// Returns the verdict together with the number of full-formula
/// evaluations. A `true` verdict is sound: it comes with a satisfying
/// assignment having been found, so some map satisfies the formula. The
/// empty formula is reported `true`, a formula with an empty clause
/// `false`, and a formula with two contradicting singleton clauses
/// `false`, all without any evaluation; a nonempty formula of singleton
/// clauses only, without such a contradiction, is reported `true` by the
/// single initial evaluation.
#[verifier::loop_isolation(false)]
#[verifier::rlimit(60)]
pub fn is_satisfiable(cnf: &Cnf) -> (r: (bool, Stats))
    requires
        cnf.wf(),
    ensures
        r.0 ==> exists|m: Map<Var, bool>| cnf_sat(cnf.sem(), m),
        cnf.sem().len() == 0 ==> r.0 && r.1.tries == 0,
        (exists|i: int| 0 <= i < cnf.sem().len() && (#[trigger] cnf.sem()[i]).len() == 0) ==> !r.0
            && r.1.tries == 0,
        singleton_conflict(cnf.sem()) ==> !r.0 && r.1.tries == 0,
        ((forall|i: int| 0 <= i < cnf.sem().len() ==> (#[trigger] cnf.sem()[i]).len() == 1)
            && cnf.sem().len() > 0 && !singleton_conflict(cnf.sem())) ==> r.0 && r.1.tries == 1,
        refuted_by_singletons(cnf.sem()) ==> !r.0 && r.1.tries == 0,
{
    let ghost f = cnf.sem();
    let mut stats = Stats { tries: 0 };

    // fast checks
    if cnf.clauses.len() == 0 {
        proof {
            assert(cnf_sat(f, Map::<Var, bool>::empty()));
        }
        return (true, stats);
    }
    let mut ci: usize = 0;
    while ci < cnf.clauses.len()
        invariant
            ci <= f.len(),
            forall|i: int| 0 <= i < ci ==> (#[trigger] f[i]).len() >= 1,
        decreases f.len() - ci,
    {
        if cnf.clauses[ci].is_empty() {
            proof {
                assert(f[ci as int].len() == 0);
            }
            return (false, stats);
        }
        ci += 1;
    }

    // solve
    let mut watchedliterals = WatchedLiterals::new(&cnf);

    // first get clauses with single literals, they have to be true
    let mut initial_assignment = match get_assignment_from_single_clauses(&cnf) {
        Some(a) => a,
        None => {
            // two singleton clauses conflict
            return (false, stats);
        },
    };
    let assignments_vec = initial_assignment.literals();
    let ghost m_gathered = initial_assignment.as_map();
    proof {
        // the singleton clauses falsify every literal of a clause they
        // wholly contradict, and the literal list carries a seed for it
        assert forall|i: int, j: int|
            clause_refuted_by_singletons(f, i) && 0 <= j < f[i].len() implies crate::cnf::lit_false(
            m_gathered,
            #[trigger] f[i][j],
        ) by {
            let k0 = choose|k0: int|
                0 <= k0 < f.len() && f[k0].len() == 1 && f[k0][0] == ((f[i][j]).0, !f[i][j].1);
            assert(lit_sat(m_gathered, f[k0][0]));
        }
        assert forall|i: int| clause_refuted_by_singletons(f, i) implies exists|k2: int|
            0 <= k2 < assignments_vec@.len() && assignments_vec@[k2] == (
            (f[i][0]).0,
            !f[i][0].1,
        ) by {
            assert(crate::cnf::lit_false(m_gathered, f[i][0]));
            let idx = choose|idx: int|
                0 <= idx < assignments_vec@.len() && assignments_vec@[idx].0 == (f[i][0]).0;
            assert(lit_sat(m_gathered, assignments_vec@[idx]));
            assert(assignments_vec@[idx] == ((f[i][0]).0, !f[i][0].1));
        }
    }

    // propagate the initial literals
    let mut k: usize = 0;
    while k < assignments_vec.len()
        invariant
            initial_assignment.wf(),
            watchedliterals.wf(f),
            k <= assignments_vec@.len(),
            forall|v: Var| #[trigger]
                m_gathered.contains_key(v) ==> initial_assignment.as_map().contains_key(v)
                    && initial_assignment.as_map()[v] == m_gathered[v],
            forall|x: int|
                0 <= x < assignments_vec@.len() ==> lit_sat(
                    initial_assignment.as_map(),
                    #[trigger] assignments_vec@[x],
                ),
            forall|i: int|
                clause_refuted_by_singletons(f, i) ==> watchedliterals.pairs()[i] == Some(
                    ((#[trigger] f[i])[0], f[i][1]),
                ),
            forall|i: int|
                clause_refuted_by_singletons(f, i) ==> exists|k2: int|
                    k <= k2 < assignments_vec@.len() && assignments_vec@[k2] == (
                    ((#[trigger] f[i])[0]).0,
                    !f[i][0].1,
                    ),
        decreases assignments_vec@.len() - k,
    {
        let new_literal = assignments_vec[k];
        let ghost m_pre = initial_assignment.as_map();
        match propagate_assignment(new_literal, &mut initial_assignment, cnf, &mut watchedliterals)
         {
            ExecuteAssignmentResult::Unsatisfiable => {
                // conflict while still at decision level zero
                proof {
                    if (forall|i: int| 0 <= i < f.len() ==> (#[trigger] f[i]).len() == 1) {
                        assert forall|i: int| 0 <= i < f.len() implies crate::cnf::clause_sat(
                            #[trigger] f[i],
                            m_pre,
                        ) by {
                            assert(lit_sat(m_pre, f[i][0]));
                        }
                        assert(cnf_sat(f, m_pre));
                        assert(agrees(m_pre, m_pre));
                        assert(false);
                    }
                }
                return (false, stats);
            },
            ExecuteAssignmentResult::AssignmentDone => {
                proof {
                    assert forall|i: int|
                        clause_refuted_by_singletons(f, i) implies watchedliterals.pairs()[i]
                        == Some(((#[trigger] f[i])[0], f[i][1])) && crate::watchedliterals::all_false(
                        f[i],
                        initial_assignment.as_map(),
                    ) by {
                        assert(crate::watchedliterals::all_false(f[i], m_pre)) by {
                            assert forall|j: int|
                                0 <= j < f[i].len() implies crate::cnf::lit_false(
                                m_pre,
                                #[trigger] f[i][j],
                            ) by {
                                assert(crate::cnf::lit_false(m_gathered, f[i][j]));
                                assert(m_gathered.contains_key(f[i][j].0));
                            }
                        }
                        assert(crate::watchedliterals::all_false(
                            f[i],
                            initial_assignment.as_map(),
                        )) by {
                            assert forall|j: int|
                                0 <= j < f[i].len() implies crate::cnf::lit_false(
                                initial_assignment.as_map(),
                                #[trigger] f[i][j],
                            ) by {
                                assert(crate::cnf::lit_false(m_gathered, f[i][j]));
                                assert(m_gathered.contains_key(f[i][j].0));
                            }
                        }
                    }
                    // the refuting seed cannot have been this round's: the
                    // examined clause would have been found in conflict
                    assert forall|i: int|
                        clause_refuted_by_singletons(f, i) implies exists|k2: int|
                        k + 1 <= k2 < assignments_vec@.len() && assignments_vec@[k2] == (
                        ((#[trigger] f[i])[0]).0,
                        !f[i][0].1,
                    ) by {
                        let k2 = choose|k2: int|
                            k <= k2 < assignments_vec@.len() && assignments_vec@[k2] == (
                            ((f[i])[0]).0,
                            !f[i][0].1,
                            );
                        if k2 == k {
                            assert(new_literal == ((f[i][0]).0, !f[i][0].1));
                            assert((new_literal.0, !new_literal.1) == f[i][0]);
                            assert(pair_has(Some(((f[i])[0], f[i][1]))->0, f[i][0]));
                            assert(!crate::watchedliterals::all_false(
                                f[i],
                                initial_assignment.as_map(),
                            ));
                            assert(false);
                        }
                    }
                }
            },
        }
        k += 1;
    }
    proof {
        // no clause wholly contradicted by singletons survives the initial
        // propagation without a conflict
        if refuted_by_singletons(f) {
            let i = choose|i: int| clause_refuted_by_singletons(f, i);
            assert(false);
        }
        assert(!refuted_by_singletons(f));
    }

    let max = cnf.highest_var();
    let ghost d_bound: int = max as int + 1;
    proof {
        // a nonempty formula without empty clauses names a variable, so the
        // highest variable is at least 1
        cnf.clauses@[0].lemma_lits_vars_ge1();
        assert(f[0].len() >= 1);
        assert(f[0][0].0 >= 1);
        assert(max >= 1);
    }

    if stats.tries < usize::MAX {
        stats.tries += 1;
    }
    if cnf.is_satisfied(&initial_assignment) {
        proof {
            assert(cnf_sat(f, initial_assignment.as_map()));
        }
        return (true, stats);
    }
    proof {
        // with only singleton clauses the initial assignment already
        // satisfies the formula, so the search below is never reached
        if (forall|i: int| 0 <= i < f.len() ==> (#[trigger] f[i]).len() == 1)
            && !singleton_conflict(f) {
            assert forall|i: int| 0 <= i < f.len() implies crate::cnf::clause_sat(
                #[trigger] f[i],
                initial_assignment.as_map(),
            ) by {
                assert(lit_sat(m_gathered, f[i][0]));
                assert(lit_sat(initial_assignment.as_map(), f[i][0]));
            }
            assert(false);
        }
    }

    let mut dec_levels: Vec<DecisionLevel> = Vec::new();
    let mut state = State::CheckCurrentLevel;

    loop
        invariant
            initial_assignment.wf(),
            watchedliterals.wf(f),
            dec_levels@.len() <= max as int + 1,
            forall|i: int| 0 <= i < dec_levels@.len() ==> (#[trigger] dec_levels@[i]).wf(),
            forall|i: int|
                0 <= i < dec_levels@.len() ==> (#[trigger] dec_levels@[i]).next_var_at_least < max,
            forall|i: int|
                0 <= i < dec_levels@.len() ==> count_assigned_below(
                    (#[trigger] dec_levels@[i]).assignment.as_map(),
                    d_bound,
                ) >= i + 1,
            (state matches State::NewDecLevelWithAssignment(l) ==> 1 <= l.0 < max && !top_map(
                dec_levels@,
                initial_assignment,
            ).contains_key(l.0)),
            (state matches State::PropagateAssignment(l) ==> dec_levels@.len() > 0 && lit_sat(
                top_map(dec_levels@, initial_assignment),
                l,
            )),
        decreases mu(flags_of(dec_levels@), d_bound), max as int + 1 - dec_levels@.len(), state_tag(state),
    {
        proof {
            lemma_mu_pos(flags_of(dec_levels@), d_bound);
        }
        match state {
            State::CheckCurrentLevel => {
                // check for satisfiability
                if dec_levels.len() > 0 {
                    let idx = dec_levels.len() - 1;
                    if check_assignment(cnf, &dec_levels[idx].assignment, &mut stats) {
                        proof {
                            assert(cnf_sat(f, dec_levels@[idx as int].assignment.as_map()));
                        }
                        return (true, stats);
                    }
                }
                state = State::AssignNewVar;
            },
            State::AssignNewVar => {
                // pick a new variable to set
                let var = choose_next_var(max, dec_levels.as_slice(), &initial_assignment);
                match var {
                    None => {
                        // assignment complete, therefore backtrack
                        state = State::Backtrack;
                    },
                    Some(v) => {
                        state = State::NewDecLevelWithAssignment((v, FIRST_TRY));
                    },
                }
            },
            State::NewDecLevelWithAssignment(new_assigned_lit) => {
                let len = dec_levels.len();
                let ghost old_top = top_map(dec_levels@, initial_assignment);
                let new_assignment = if len > 0 {
                    dec_levels[len - 1].assignment.with(new_assigned_lit.0, new_assigned_lit.1)
                } else {
                    initial_assignment.with(new_assigned_lit.0, new_assigned_lit.1)
                };
                let nval = if len > 0 {
                    dec_levels[len - 1].next_var_at_least
                } else {
                    0
                };
                let next_var_at_least = if new_assigned_lit.0 == nval + 1 {
                    new_assigned_lit.0
                } else {
                    nval
                };
                proof {
                    // the stack is strictly shallower than the variable
                    // range, so opening a level keeps the measure
                    lemma_count_missing(old_top, d_bound, new_assigned_lit.0);
                    if len > 0 {
                        assert(count_assigned_below(old_top, d_bound) >= len);
                    }
                    lemma_mu_push_false(flags_of(dec_levels@), d_bound);
                    lemma_count_insert_fresh(old_top, d_bound, new_assigned_lit.0,
                        new_assigned_lit.1);
                    lemma_count_bounds(old_top, d_bound);
                }
                let ghost old_stack = dec_levels@;
                dec_levels.push(
                    DecisionLevel {
                        assignment: new_assignment,
                        changed_var: new_assigned_lit.0,
                        next_var_at_least,
                        flipped: false,
                    },
                );
                proof {
                    assert(flags_of(dec_levels@) =~= flags_of(old_stack).push(false));
                    assert(top_map(dec_levels@, initial_assignment) == old_top.insert(
                        new_assigned_lit.0,
                        new_assigned_lit.1,
                    ));
                }
                state = State::PropagateAssignment(new_assigned_lit);
            },
            State::PropagateAssignment(new_assigned_lit) => {
                // the current decision level already has the assignment set,
                // but it needs to be propagated
                let ghost old_stack = dec_levels@;
                match dec_levels.pop() {
                    Some(mut dl) => {
                        let ghost m_level_pre = dl.assignment.as_map();
                        let result = propagate_assignment(
                            new_assigned_lit,
                            &mut dl.assignment,
                            cnf,
                            &mut watchedliterals,
                        );
                        dec_levels.push(dl);
                        proof {
                            assert(dec_levels@ =~= old_stack.update(
                                old_stack.len() - 1,
                                dec_levels@.last(),
                            ));
                            assert(flags_of(dec_levels@) =~= flags_of(old_stack));
                            lemma_count_monotone(
                                m_level_pre,
                                dec_levels@.last().assignment.as_map(),
                                d_bound,
                            );
                        }
                        match result {
                            ExecuteAssignmentResult::Unsatisfiable => {
                                // assignment caused unsatisfiability
                                state = State::Backtrack;
                            },
                            ExecuteAssignmentResult::AssignmentDone => {
                                state = State::CheckCurrentLevel;
                            },
                        }
                    },
                    None => {
                        proof {
                            assert(false);
                        }
                        state = State::Backtrack;
                    },
                }
            },
            State::Backtrack => {
                let ghost old_stack = dec_levels@;
                let result = backtrack(&mut dec_levels);
                match result {
                    BacktrackResult::UnsatisfiableFormula => {
                        // every branch has been tried
                        return (false, stats);
                    },
                    BacktrackResult::ContinueWith(new_assignment) => {
                        proof {
                            let k = dec_levels@.len() - 1;
                            assert(flags_of(dec_levels@) =~= flags_of(old_stack).take(
                                k + 1,
                            ).update(k, true));
                            lemma_mu_flip(flags_of(old_stack), d_bound, k);
                            lemma_mu_pos(flags_of(dec_levels@), d_bound);
                            lemma_count_same_domain(
                                dec_levels@[k].assignment.as_map(),
                                old_stack[k].assignment.as_map(),
                                d_bound,
                            );
                            assert(lit_sat(
                                top_map(dec_levels@, initial_assignment),
                                new_assignment,
                            ));
                        }
                        proof {
                            let k = dec_levels@.len() - 1;
                            assert forall|i: int|
                                0 <= i < dec_levels@.len() implies (#[trigger] dec_levels@[
                            i]).wf() by {
                                if i < k {
                                    assert(dec_levels@[i] == old_stack[i]);
                                    assert(old_stack[i].wf());
                                }
                            }
                            assert forall|i: int|
                                0 <= i < dec_levels@.len() implies (#[trigger] dec_levels@[
                            i]).next_var_at_least < max by {
                                if i < k {
                                    assert(dec_levels@[i] == old_stack[i]);
                                    assert(old_stack[i].next_var_at_least < max);
                                } else {
                                    assert(old_stack[k].next_var_at_least < max);
                                }
                            }
                            assert forall|i: int|
                                0 <= i < dec_levels@.len() implies count_assigned_below(
                                (#[trigger] dec_levels@[i]).assignment.as_map(),
                                d_bound,
                            ) >= i + 1 by {
                                if i < k {
                                    assert(dec_levels@[i] == old_stack[i]);
                                    assert(count_assigned_below(
                                        old_stack[i].assignment.as_map(),
                                        d_bound,
                                    ) >= i + 1);
                                } else {
                                    assert(count_assigned_below(
                                        old_stack[k].assignment.as_map(),
                                        d_bound,
                                    ) >= k + 1);
                                }
                            }
                        }
                        state = State::PropagateAssignment(new_assignment);
                    },
                }
            },
        }
    }
}

} // verus!
