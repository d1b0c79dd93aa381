use vstd::prelude::*;

use crate::assignment::Assignment;
use crate::cnf::{lit_false, lit_sat, lit_unassigned, Clause, Cnf, LiteralTpl, Var};

verus! {

/// The pair holds the literal in one of its two slots.
pub open spec fn pair_has(p: (LiteralTpl, LiteralTpl), l: LiteralTpl) -> bool {
    p.0 == l || p.1 == l
}

/// The first slot of a watched pair.
pub open spec fn fst(p: (LiteralTpl, LiteralTpl)) -> LiteralTpl {
    p.0
}

/// The second slot of a watched pair.
pub open spec fn snd(p: (LiteralTpl, LiteralTpl)) -> LiteralTpl {
    p.1
}

/// The variable of a literal.
pub open spec fn var_of(l: LiteralTpl) -> Var {
    l.0
}

/// The slot of the pair whose variable is not `v`.
pub open spec fn other_by_var(p: (LiteralTpl, LiteralTpl), v: Var) -> LiteralTpl {
    if var_of(p.0) == v {
        p.1
    } else {
        p.0
    }
}

/// The slot of the pair that is not `l` (the slots hold distinct
/// literals).
pub open spec fn pair_other(p: (LiteralTpl, LiteralTpl), l: LiteralTpl) -> LiteralTpl {
    if p.0 == l {
        p.1
    } else {
        p.0
    }
}

/// The pair with its `old_wl` slot rewritten to `new_wl`.
pub open spec fn swapped_pair(
    p: (LiteralTpl, LiteralTpl),
    old_wl: LiteralTpl,
    new_wl: LiteralTpl,
) -> (LiteralTpl, LiteralTpl) {
    if p.0 == old_wl {
        (new_wl, p.1)
    } else {
        (p.0, new_wl)
    }
}

/// At least one watched literal of the pair is satisfied or unassigned.
pub open spec fn watch_ok(m: Map<Var, bool>, p: (LiteralTpl, LiteralTpl)) -> bool {
    !lit_false(m, p.0) || !lit_false(m, p.1)
}

/// The clause forces `l`: `l` is its only non-falsified literal and is
/// unassigned.
pub open spec fn unit_with(c: Seq<LiteralTpl>, m: Map<Var, bool>, l: LiteralTpl) -> bool {
    &&& c.contains(l)
    &&& lit_unassigned(m, l)
    &&& forall|j: int| 0 <= j < c.len() && c[j] != l ==> lit_false(m, #[trigger] c[j])
}

/// Every literal of the clause is falsified: the clause is in conflict.
pub open spec fn all_false(c: Seq<LiteralTpl>, m: Map<Var, bool>) -> bool {
    forall|j: int| 0 <= j < c.len() ==> lit_false(m, #[trigger] c[j])
}

/// Some clause of the formula forces `x` under `m`.
pub open spec fn unit_prop(f: Seq<Seq<LiteralTpl>>, m: Map<Var, bool>, x: LiteralTpl) -> bool {
    exists|i: int| 0 <= i < f.len() && unit_with(#[trigger] f[i], m, x)
}

/// Some clause of the formula is in conflict under `m`.
pub open spec fn has_conflict(f: Seq<Seq<LiteralTpl>>, m: Map<Var, bool>) -> bool {
    exists|i: int| 0 <= i < f.len() && all_false(#[trigger] f[i], m)
}

/// A clause forces at most one literal.
pub proof fn lemma_unit_lit_unique(c: Seq<LiteralTpl>, m: Map<Var, bool>, l1: LiteralTpl, l2: LiteralTpl)
    requires
        unit_with(c, m, l1),
        unit_with(c, m, l2),
    ensures
        l1 == l2,
{
    if l1 != l2 {
        let j = choose|j: int| 0 <= j < c.len() && c[j] == l2;
        assert(lit_false(m, c[j]));
        assert(false);
    }
}

/// What one `update` round does to a clause that watched the falsified
/// literal `flit`: either the pair is kept, because its other watch
/// satisfies the clause or has just been forced (and then gathered into the
/// propagations), or the falsified slot alone is rewritten to a
/// non-falsified literal of the clause, again gathered when it is forced.
/// The slot holding the other watch is kept either way.
pub open spec fn processed_pair_post(
    oldp: (LiteralTpl, LiteralTpl),
    newp: (LiteralTpl, LiteralTpl),
    c: Seq<LiteralTpl>,
    m: Map<Var, bool>,
    flit: LiteralTpl,
    props: Seq<LiteralTpl>,
) -> bool {
    let other = pair_other(oldp, flit);
    ||| (newp == oldp && (lit_sat(m, other) || (unit_with(c, m, other) && props.contains(other))))
    ||| (exists|l: LiteralTpl|
        newp == swapped_pair(oldp, flit, l) && #[trigger] c.contains(l) && l != other && !lit_false(
            m,
            l,
        ) && (unit_with(c, m, l) ==> props.contains(l)))
}

/// The processed-clause description survives gathering further
/// propagations: the list only grows at the end.
pub proof fn lemma_processed_pair_post_grows(
    oldp: (LiteralTpl, LiteralTpl),
    newp: (LiteralTpl, LiteralTpl),
    c: Seq<LiteralTpl>,
    m: Map<Var, bool>,
    flit: LiteralTpl,
    props1: Seq<LiteralTpl>,
    props2: Seq<LiteralTpl>,
)
    requires
        processed_pair_post(oldp, newp, c, m, flit, props1),
        props2 == props1 || props2 == props1.push(props2.last()),
    ensures
        processed_pair_post(oldp, newp, c, m, flit, props2),
{
    assert forall|x: LiteralTpl| props1.contains(x) implies props2.contains(x) by {
        let k = choose|k: int| 0 <= k < props1.len() && props1[k] == x;
        assert(props2[k] == x);
    }
    let other = pair_other(oldp, flit);
    if newp == oldp && (lit_sat(m, other) || (unit_with(c, m, other) && props1.contains(other))) {
    } else {
        let l = choose|l: LiteralTpl|
            newp == swapped_pair(oldp, flit, l) && #[trigger] c.contains(l) && l != other
                && !lit_false(m, l) && (unit_with(c, m, l) ==> props1.contains(l));
        assert(newp == swapped_pair(oldp, flit, l) && c.contains(l) && l != other && !lit_false(
            m,
            l,
        ) && (unit_with(c, m, l) ==> props2.contains(l)));
    }
}

/// The clause indices that the access list records for a literal, in order.
pub open spec fn watchers_of(am: Seq<(LiteralTpl, usize)>, l: LiteralTpl) -> Seq<usize>
    decreases am.len(),
{
    if am.len() == 0 {
        Seq::empty()
    } else {
        let rest = watchers_of(am.drop_last(), l);
        if am.last().0 == l {
            rest.push(am.last().1)
        } else {
            rest
        }
    }
}

/// The access list records `(l, i)` exactly when `i` is among `l`'s
/// watchers.
pub proof fn lemma_watchers_of_contains(am: Seq<(LiteralTpl, usize)>, l: LiteralTpl)
    ensures
        forall|i: usize| #[trigger]
            watchers_of(am, l).contains(i) <==> am.contains((l, i)),
    decreases am.len(),
{
    if am.len() > 0 {
        lemma_watchers_of_contains(am.drop_last(), l);
        assert forall|i: usize| #[trigger] watchers_of(am, l).contains(i) implies am.contains(
            (l, i),
        ) by {
            let rest = watchers_of(am.drop_last(), l);
            if am.last().0 == l && i == am.last().1 {
                assert(am[am.len() - 1] == (l, i));
            } else {
                assert(rest.contains(i)) by {
                    let q = choose|q: int|
                        0 <= q < watchers_of(am, l).len() && watchers_of(am, l)[q] == i;
                    if am.last().0 == l {
                        assert(watchers_of(am, l) == rest.push(am.last().1));
                        assert(q < rest.len());
                        assert(rest[q] == i);
                    }
                }
                assert(am.drop_last().contains((l, i)));
                let q = choose|q: int|
                    0 <= q < am.drop_last().len() && am.drop_last()[q] == (l, i);
                assert(am[q] == (l, i));
            }
        }
        assert forall|i: usize| am.contains((l, i)) implies #[trigger] watchers_of(
            am,
            l,
        ).contains(i) by {
            let q = choose|q: int| 0 <= q < am.len() && am[q] == (l, i);
            let rest = watchers_of(am.drop_last(), l);
            if q == am.len() - 1 {
                assert(am.last() == (l, i));
                assert(watchers_of(am, l).last() == i);
            } else {
                assert(am.drop_last()[q] == (l, i));
                assert(rest.contains(i));
                let q2 = choose|q2: int| 0 <= q2 < rest.len() && rest[q2] == i;
                assert(watchers_of(am, l)[q2] == i);
            }
        }
    }
}

/// With distinct access entries, a literal's watcher list repeats no index.
pub proof fn lemma_watchers_of_distinct(am: Seq<(LiteralTpl, usize)>, l: LiteralTpl)
    requires
        forall|q1: int, q2: int| 0 <= q1 < q2 < am.len() ==> am[q1] != am[q2],
    ensures
        forall|r1: int, r2: int|
            0 <= r1 < r2 < watchers_of(am, l).len() ==> watchers_of(am, l)[r1] != watchers_of(
                am,
                l,
            )[r2],
    decreases am.len(),
{
    if am.len() > 0 {
        assert forall|q1: int, q2: int|
            0 <= q1 < q2 < am.drop_last().len() implies am.drop_last()[q1]
            != am.drop_last()[q2] by {
            assert(am[q1] == am.drop_last()[q1]);
            assert(am[q2] == am.drop_last()[q2]);
        }
        lemma_watchers_of_distinct(am.drop_last(), l);
        let rest = watchers_of(am.drop_last(), l);
        if am.last().0 == l {
            lemma_watchers_of_contains(am.drop_last(), l);
            if rest.contains(am.last().1) {
                assert(am.drop_last().contains((l, am.last().1)));
                let q = choose|q: int|
                    0 <= q < am.drop_last().len() && am.drop_last()[q] == (l, am.last().1);
                assert(am[q] == am[am.len() - 1]);
                assert(false);
            }
            assert forall|r1: int, r2: int|
                0 <= r1 < r2 < watchers_of(am, l).len() implies watchers_of(am, l)[r1]
                != watchers_of(am, l)[r2] by {
                if r2 == watchers_of(am, l).len() - 1 {
                    assert(watchers_of(am, l)[r1] == rest[r1]);
                    assert(rest.contains(rest[r1]));
                }
            }
        }
    }
}

/// The two-watched-literals index of a formula.
///
/// For every clause of at least two literals it designates two of them as
/// watched, and keeps an inverted access list from each literal to the
/// clauses watching it.
#[derive(Debug)]
pub struct WatchedLiterals {
    /// The watched pair of each clause, indexed by clause index; `None` for
    /// clauses of fewer than two literals.
    pub(crate) watched_literals: Vec<Option<(LiteralTpl, LiteralTpl)>>,
    /// The inverted index: one entry per (watched literal, clause index)
    /// pair.
    pub(crate) access_map: Vec<(LiteralTpl, usize)>,
}

/// Outcome of updating the index for one newly assigned literal.
#[derive(Debug, PartialEq)]
pub enum UpdateResult {
    Unsatisfiable,
    Satisfiable { propagations: Vec<LiteralTpl> },
}

/// Outcome of the replacement search for one clause (see
/// [`WatchedLiterals::find_replacement_literal`]).
#[derive(Debug, PartialEq, Eq)]
pub enum FindOtherSuitableLiteral {
    /// The given (second) watched literal is already satisfying.
    GivenLiteralSatisfying,
    /// Another literal (not the given one) satisfies the clause.
    OtherLiteralSatisfying(LiteralTpl),
    /// At least two literals are unassigned; the reported one is not the
    /// given one.
    MultipleUnassigned(LiteralTpl),
    /// All literals are false except the given one, which is unassigned: the
    /// clause has become unit on the given literal.
    UnitClauseWithGiven,
    /// All literals are false except the reported unassigned one: the clause
    /// has become unit on it.
    UnitClause(LiteralTpl),
    /// All literals are false: the clause has become unsatisfiable.
    UnsatisfiableClause,
}

/// What the caller of `check_clause_after_update` must do with the clause's
/// falsified watch.
#[derive(Debug, PartialEq, Eq)]
pub enum CheckClauseAfterUpdateResult {
    KeepLiteral,
    SwapTo(LiteralTpl),
    UnsatisfiableClause,
}

impl WatchedLiterals {
    /// The watched pair of each clause.
    pub open(crate) spec fn pairs(self) -> Seq<Option<(LiteralTpl, LiteralTpl)>> {
        self.watched_literals@
    }

    /// The access list's entries.
    pub open(crate) spec fn amap(self) -> Seq<(LiteralTpl, usize)> {
        self.access_map@
    }

    /// Internal consistency of watched pairs and access list (I2): every
    /// entry names a clause that watches its literal, every watched literal
    /// of every clause has exactly one entry, and a pair watches two
    /// distinct variables.
    pub open(crate) spec fn linked(self) -> bool {
        &&& forall|q: int|
            0 <= q < self.amap().len() ==> (#[trigger] self.amap()[q]).1 < self.pairs().len()
                && self.pairs()[self.amap()[q].1 as int] is Some && pair_has(
                self.pairs()[self.amap()[q].1 as int]->0,
                self.amap()[q].0,
            )
        &&& forall|i: int|
            0 <= i < self.pairs().len() && (#[trigger] self.pairs()[i]) is Some ==> var_of(
                fst(self.pairs()[i]->0),
            ) != var_of(snd(self.pairs()[i]->0))
        &&& forall|i: int|
            0 <= i < self.pairs().len() && (#[trigger] self.pairs()[i]) is Some ==> self.amap(
            ).contains((fst(self.pairs()[i]->0), i as usize)) && self.amap().contains(
                (snd(self.pairs()[i]->0), i as usize),
            )
        &&& forall|q1: int, q2: int|
            0 <= q1 < q2 < self.amap().len() ==> self.amap()[q1] != self.amap()[q2]
    }

    /// The index fits the formula (I1): one slot per clause, watched exactly
    /// for clauses of two or more literals, and watched literals belong to
    /// their clause.
    pub open(crate) spec fn shape(self, f: Seq<Seq<LiteralTpl>>) -> bool {
        &&& self.pairs().len() == f.len()
        &&& forall|i: int|
            0 <= i < f.len() ==> ((#[trigger] self.pairs()[i]) is Some <==> f[i].len() >= 2)
        &&& forall|i: int|
            0 <= i < f.len() && (#[trigger] self.pairs()[i]) is Some ==> f[i].contains(
                fst(self.pairs()[i]->0),
            ) && f[i].contains(snd(self.pairs()[i]->0))
    }

    /// Well-formedness of the index against a formula: I1 and I2 together.
    pub open(crate) spec fn wf(self, f: Seq<Seq<LiteralTpl>>) -> bool {
        self.linked() && self.shape(f)
    }

    /// The watched pair of the given clause, `None` for clauses of fewer
    /// than two literals.
    pub fn watched_pair(&self, clause_idx: usize) -> (r: Option<(LiteralTpl, LiteralTpl)>)
        requires
            clause_idx < self.pairs().len(),
        ensures
            r == self.pairs()[clause_idx as int],
    {
        self.watched_literals[clause_idx]
    }

    /// How many clauses the index covers.
    pub fn len(&self) -> (r: usize)
        ensures
            r == self.pairs().len(),
    {
        self.watched_literals.len()
    }

    /// The clauses currently watching the given literal, in access-list
    /// order.
    pub fn watchers(&self, lit: LiteralTpl) -> (r: Vec<usize>)
        ensures
            r@ == watchers_of(self.amap(), lit),
    {
        let mut r: Vec<usize> = Vec::new();
        let mut q: usize = 0;
        while q < self.access_map.len()
            invariant
                q <= self.amap().len(),
                r@ == watchers_of(self.amap().take(q as int), lit),
            decreases self.amap().len() - q,
        {
            let (l, i) = self.access_map[q];
            proof {
                assert(self.amap().take(q + 1).drop_last() =~= self.amap().take(q as int));
                assert(self.amap().take(q + 1).last() == self.amap()[q as int]);
            }
            if l.0 == lit.0 && l.1 == lit.1 {
                r.push(i);
            }
            q += 1;
        }
        proof {
            assert(self.amap().take(self.amap().len() as int) =~= self.amap());
        }
        r
    }

    /// Returns a new index for the given formula: for each clause of at
    /// least two literals, its first two literals are watched.
    pub fn new(cnf: &Cnf) -> (r: WatchedLiterals)
        requires
            cnf.wf(),
        ensures
            r.wf(cnf.sem()),
            forall|i: int|
                0 <= i < cnf.sem().len() && cnf.sem()[i].len() >= 2 ==> (#[trigger] r.pairs()[i])
                    == Some((cnf.sem()[i][0], cnf.sem()[i][1])),
    {
        let ghost f = cnf.sem();
        let n = cnf.clauses.len();
        let mut watched_literals: Vec<Option<(LiteralTpl, LiteralTpl)>> = Vec::new();
        let mut k: usize = 0;
        while k < n
            invariant
                k <= n,
                watched_literals@.len() == k,
                forall|i: int| 0 <= i < k ==> (#[trigger] watched_literals@[i]) is None,
            decreases n - k,
        {
            watched_literals.push(None);
            k += 1;
        }
        let mut wl = WatchedLiterals { watched_literals, access_map: Vec::new() };
        let mut clause_idx: usize = 0;
        while clause_idx < n
            invariant
                cnf.wf(),
                f == cnf.sem(),
                n == cnf.clauses@.len(),
                clause_idx <= n,
                wl.pairs().len() == n,
                wl.linked(),
                forall|i: int|
                    0 <= i < clause_idx ==> ((#[trigger] wl.pairs()[i]) is Some <==> f[i].len()
                        >= 2),
                forall|i: int|
                    0 <= i < clause_idx && (#[trigger] wl.pairs()[i]) is Some ==> wl.pairs()[i]
                        == Some((f[i][0], f[i][1])) && f[i].contains(fst(wl.pairs()[i]->0))
                        && f[i].contains(snd(wl.pairs()[i]->0)),
                forall|i: int| clause_idx <= i < n ==> (#[trigger] wl.pairs()[i]) is None,
            decreases n - clause_idx,
        {
            let cls = &cnf.clauses[clause_idx];
            let lits = cls.literals();
            if lits.len() >= 2 {
                let l0 = lits[0];
                let l1 = lits[1];
                proof {
                    assert(cls.lits() == f[clause_idx as int]);
                    cls.lemma_lits_distinct();
                    assert(l0 == f[clause_idx as int][0]);
                    assert(l1 == f[clause_idx as int][1]);
                    assert(l0.0 != l1.0);
                    assert(f[clause_idx as int].contains(l0));
                    assert(f[clause_idx as int].contains(l1));
                    assert(forall|q: int|
                        0 <= q < wl.amap().len() ==> (#[trigger] wl.amap()[q]).1 != clause_idx);
                }
                let ghost old_wl = wl;
                wl.set_watch(clause_idx, l0, l1);
                proof {
                    assert forall|i: int|
                        0 <= i < wl.pairs().len() && (#[trigger] wl.pairs()[i]) is Some implies wl.amap().contains(
                        (fst(wl.pairs()[i]->0), i as usize),
                    ) && wl.amap().contains((snd(wl.pairs()[i]->0), i as usize)) by {
                        if i == clause_idx {
                            assert(wl.amap()[wl.amap().len() - 2] == (l0, clause_idx));
                            assert(wl.amap()[wl.amap().len() - 1] == (l1, clause_idx));
                        } else {
                            assert(old_wl.amap().contains(
                                (fst(old_wl.pairs()[i]->0), i as usize),
                            ));
                            assert(old_wl.amap().contains(
                                (snd(old_wl.pairs()[i]->0), i as usize),
                            ));
                            let q0 = choose|q0: int|
                                0 <= q0 < old_wl.amap().len() && old_wl.amap()[q0] == (
                                fst(old_wl.pairs()[i]->0),
                                i as usize,
                                );
                            let q1 = choose|q1: int|
                                0 <= q1 < old_wl.amap().len() && old_wl.amap()[q1] == (
                                snd(old_wl.pairs()[i]->0),
                                i as usize,
                                );
                            assert(wl.amap()[q0] == (fst(wl.pairs()[i]->0), i as usize));
                            assert(wl.amap()[q1] == (snd(wl.pairs()[i]->0), i as usize));
                        }
                    }
                }
            }
            clause_idx += 1;
        }
        wl
    }

    /// Records the two literals as the watched pair of a clause that has
    /// none yet, appending both to the access list.
    pub fn set_watch(&mut self, clause_idx: usize, lit0: LiteralTpl, lit1: LiteralTpl)
        requires
            clause_idx < old(self).pairs().len(),
            old(self).pairs()[clause_idx as int] is None,
        ensures
            final(self).pairs() == old(self).pairs().update(
                clause_idx as int,
                Some((lit0, lit1)),
            ),
            final(self).amap() == old(self).amap().push((lit0, clause_idx)).push(
                (lit1, clause_idx),
            ),
    {
        self.watched_literals[clause_idx] = Some((lit0, lit1));
        self.access_map.push((lit0, clause_idx));
        self.access_map.push((lit1, clause_idx));
    }

    /// Finds a literal suitable to replace a falsified watch in the clause,
    /// acknowledging the clause's second watched literal.
    ///
    /// The first eligible literal in the clause's stored order is chosen.
    pub fn find_replacement_literal(
        cls: &Clause,
        assignment: &Assignment,
        second_wl: LiteralTpl,
    ) -> (r: FindOtherSuitableLiteral)
        requires
            cls.wf(),
            assignment.wf(),
            cls.lits().contains(second_wl),
        ensures
            ({
                let c = cls.lits();
                let m = assignment.as_map();
                match r {
                    FindOtherSuitableLiteral::GivenLiteralSatisfying => lit_sat(m, second_wl),
                    FindOtherSuitableLiteral::OtherLiteralSatisfying(l) => c.contains(l) && l
                        != second_wl && lit_sat(m, l) && !lit_sat(m, second_wl),
                    FindOtherSuitableLiteral::MultipleUnassigned(l) => c.contains(l) && l
                        != second_wl && lit_unassigned(m, l) && !lit_sat(m, second_wl) && (
                    exists|l2: LiteralTpl|
                        #[trigger] c.contains(l2) && l2 != l && lit_unassigned(m, l2)),
                    FindOtherSuitableLiteral::UnitClauseWithGiven => unit_with(c, m, second_wl),
                    FindOtherSuitableLiteral::UnitClause(l) => l != second_wl && unit_with(
                        c,
                        m,
                        l,
                    ),
                    FindOtherSuitableLiteral::UnsatisfiableClause => all_false(c, m),
                }
            }),
    {
        let ghost c = cls.lits();
        let ghost m = assignment.as_map();
        // a satisfying second watch needs no replacement
        if let Some(true) = assignment.get_lit(second_wl) {
            return FindOtherSuitableLiteral::GivenLiteralSatisfying;
        }
        proof {
            cls.lemma_lits_distinct();
        }
        let lits = cls.literals();
        let mut unassigned_literal: Option<LiteralTpl> = None;
        let mut i: usize = 0;
        while i < lits.len()
            invariant
                cls.wf(),
                assignment.wf(),
                c == cls.lits(),
                m == assignment.as_map(),
                lits@ == c,
                cls.lits().contains(second_wl),
                !lit_sat(m, second_wl),
                i <= lits@.len(),
                forall|j1: int, j2: int| 0 <= j1 < j2 < c.len() ==> c[j1] != c[j2],
                match unassigned_literal {
                    None => forall|j: int| 0 <= j < i ==> lit_false(m, #[trigger] c[j]),
                    Some(s) => {
                        &&& exists|j: int| 0 <= j < i && c[j] == s
                        &&& lit_unassigned(m, s)
                        &&& forall|j: int|
                            0 <= j < i && c[j] != s ==> lit_false(m, #[trigger] c[j])
                    },
                },
            decreases lits@.len() - i,
        {
            let lit = lits[i];
            match assignment.get_lit(lit) {
                Some(true) => {
                    // a satisfied literal can never be the (unsatisfied)
                    // second watch
                    proof {
                        assert(lit != second_wl);
                    }
                    return FindOtherSuitableLiteral::OtherLiteralSatisfying(lit);
                },
                Some(false) => {},
                None => {
                    match unassigned_literal {
                        Some(stored_lit) => {
                            // two unassigned literals: report one that is
                            // not the second watch, preferring the earlier
                            proof {
                                let j = choose|j: int| 0 <= j < i && c[j] == stored_lit;
                                assert(c[j] != c[i as int]);
                            }
                            proof {
                                assert(c.contains(stored_lit)) by {
                                    let j = choose|j: int| 0 <= j < i && c[j] == stored_lit;
                                    assert(c[j] == stored_lit);
                                }
                                assert(c.contains(lit)) by {
                                    assert(c[i as int] == lit);
                                }
                            }
                            if stored_lit.0 == second_wl.0 && stored_lit.1 == second_wl.1 {
                                return FindOtherSuitableLiteral::MultipleUnassigned(lit);
                            } else {
                                return FindOtherSuitableLiteral::MultipleUnassigned(stored_lit);
                            }
                        },
                        None => {
                            unassigned_literal = Some(lit);
                        },
                    }
                },
            }
            i += 1;
        }
        match unassigned_literal {
            Some(lit) => {
                if lit.0 == second_wl.0 && lit.1 == second_wl.1 {
                    FindOtherSuitableLiteral::UnitClauseWithGiven
                } else {
                    FindOtherSuitableLiteral::UnitClause(lit)
                }
            },
            None => FindOtherSuitableLiteral::UnsatisfiableClause,
        }
    }

    /// Moves the watch of one clause from `old_wl` to `new_wl`: the access
    /// entry for `old_wl` is dropped by swap-and-pop, the pair slot is
    /// rewritten in place, and an entry for `new_wl` is appended.
    #[verifier::loop_isolation(false)]
    pub fn replace_watched_literal(
        &mut self,
        clause_idx: usize,
        old_wl: LiteralTpl,
        new_wl: LiteralTpl,
    )
        requires
            old(self).linked(),
            clause_idx < old(self).pairs().len(),
            old(self).pairs()[clause_idx as int] is Some,
            pair_has(old(self).pairs()[clause_idx as int]->0, old_wl),
            var_of(new_wl) != var_of(
                pair_other(old(self).pairs()[clause_idx as int]->0, old_wl),
            ),
        ensures
            final(self).linked(),
            final(self).pairs() == old(self).pairs().update(
                clause_idx as int,
                Some(swapped_pair(old(self).pairs()[clause_idx as int]->0, old_wl, new_wl)),
            ),
            forall|l: LiteralTpl, i: usize|
                #[trigger] final(self).amap().contains((l, i)) <==> ((old(self).amap().contains(
                    (l, i),
                ) && !(l == old_wl && i == clause_idx)) || (l == new_wl && i == clause_idx)),
    {
        let ghost pr = self.pairs()[clause_idx as int]->0;
        let ghost target = (old_wl, clause_idx);
        let ghost a0 = self.amap();
        proof {
            assert(a0.contains(target));
        }
        // find the access entry that records the old watch
        let q = find_entry(&self.access_map, old_wl, clause_idx);
        proof {
            assert(a0[q as int] == target);
        }
        // swap-and-pop the entry, keeping all others
        self.access_map.swap_remove(q);
        let ghost a1 = self.amap();
        proof {
            assert(a1 == a0.update(q as int, a0.last()).drop_last());
            assert forall|x: (LiteralTpl, usize)| #[trigger]
                a1.contains(x) implies a0.contains(x) && x != target by {
                let k = choose|k: int| 0 <= k < a1.len() && a1[k] == x;
                if k == q {
                    assert(a0[a0.len() - 1] == x);
                    assert(x != target);
                } else {
                    assert(a0[k] == x);
                    assert(x != target);
                }
            }
            assert forall|x: (LiteralTpl, usize)|
                a0.contains(x) && x != target implies #[trigger] a1.contains(x) by {
                let k = choose|k: int| 0 <= k < a0.len() && a0[k] == x;
                assert(k != q);
                if k == a0.len() - 1 {
                    assert(q < a0.len() - 1);
                    assert(a1[q as int] == x);
                } else {
                    assert(a1[k] == x);
                }
            }
            assert forall|q1: int, q2: int|
                0 <= q1 < q2 < a1.len() implies a1[q1] != a1[q2] by {
                if q1 == q {
                    assert(a1[q1] == a0[a0.len() - 1]);
                    assert(a1[q2] == a0[q2]);
                } else if q2 == q {
                    assert(a1[q2] == a0[a0.len() - 1]);
                    assert(a1[q1] == a0[q1]);
                } else {
                    assert(a1[q1] == a0[q1]);
                    assert(a1[q2] == a0[q2]);
                }
            }
        }
        // rewrite the watched pair in place
        let (w0, w1) = self.watched_literals[clause_idx].unwrap();
        if w0.0 == old_wl.0 && w0.1 == old_wl.1 {
            self.watched_literals[clause_idx] = Some((new_wl, w1));
        } else {
            self.watched_literals[clause_idx] = Some((w0, new_wl));
        }
        // record the new watch
        self.access_map.push((new_wl, clause_idx));
        proof {
            let a2 = self.amap();
            let npr = swapped_pair(pr, old_wl, new_wl);
            assert(self.pairs() == old(self).pairs().update(clause_idx as int, Some(npr)));
            assert(pair_other(pr, old_wl) == (if pr.0 == old_wl {
                pr.1
            } else {
                pr.0
            }));
            assert forall|l: LiteralTpl, i: usize| #[trigger]
                a2.contains((l, i)) implies ((a0.contains((l, i)) && !(l == old_wl && i
                == clause_idx)) || (l == new_wl && i == clause_idx)) by {
                let k = choose|k: int| 0 <= k < a2.len() && a2[k] == (l, i);
                if k == a2.len() - 1 {
                } else {
                    assert(a1[k] == (l, i));
                    assert(a1.contains((l, i)));
                }
            }
            assert forall|l: LiteralTpl, i: usize|
                ((a0.contains((l, i)) && !(l == old_wl && i == clause_idx)) || (l == new_wl && i
                == clause_idx)) implies #[trigger] a2.contains((l, i)) by {
                if l == new_wl && i == clause_idx {
                    assert(a2[a2.len() - 1] == (l, i));
                } else {
                    assert(a1.contains((l, i)));
                    let k = choose|k: int| 0 <= k < a1.len() && a1[k] == (l, i);
                    assert(a2[k] == (l, i));
                }
            }
            // the pushed entry is fresh, so entries stay distinct
            assert(!a1.contains((new_wl, clause_idx))) by {
                if a1.contains((new_wl, clause_idx)) {
                    assert(a0.contains((new_wl, clause_idx)));
                    let k = choose|k: int|
                        0 <= k < a0.len() && a0[k] == (new_wl, clause_idx);
                    assert(pair_has(pr, new_wl));
                    assert(false);
                }
            }
            assert forall|q1: int, q2: int|
                0 <= q1 < q2 < a2.len() implies a2[q1] != a2[q2] by {
                if q2 == a2.len() - 1 {
                    assert(a2[q1] == a1[q1]);
                    assert(a1.contains(a1[q1]));
                } else {
                    assert(a2[q1] == a1[q1]);
                    assert(a2[q2] == a1[q2]);
                }
            }
            // every entry still points at a clause watching its literal
            assert forall|qq: int|
                0 <= qq < a2.len() implies (#[trigger] a2[qq]).1 < self.pairs().len()
                && self.pairs()[a2[qq].1 as int] is Some && pair_has(
                self.pairs()[a2[qq].1 as int]->0,
                a2[qq].0,
            ) by {
                if qq == a2.len() - 1 {
                } else {
                    assert(a1.contains(a1[qq]));
                    assert(a0.contains(a1[qq]));
                    let e = a1[qq];
                    if e.1 == clause_idx {
                        assert(pair_has(pr, e.0));
                        assert(e != target);
                        assert(e.0 != old_wl || e.1 != clause_idx);
                        if e.0 == old_wl {
                            assert(false);
                        }
                        assert(e.0 == pair_other(pr, old_wl));
                        assert(pair_has(npr, e.0));
                    }
                }
            }
            // every watched literal still has its entry
            assert forall|i: int|
                0 <= i < self.pairs().len() && (#[trigger] self.pairs()[i]) is Some implies self.amap().contains(
                (fst(self.pairs()[i]->0), i as usize),
            ) && self.amap().contains((snd(self.pairs()[i]->0), i as usize)) by {
                if i == clause_idx {
                    assert(a2[a2.len() - 1] == (new_wl, clause_idx));
                    let kept = pair_other(pr, old_wl);
                    assert(kept != old_wl);
                    assert(a0.contains((kept, clause_idx)));
                    assert(a1.contains((kept, clause_idx)));
                    let k = choose|k: int|
                        0 <= k < a1.len() && a1[k] == (kept, clause_idx);
                    assert(a2[k] == (kept, clause_idx));
                    assert(pair_has(npr, new_wl) && pair_has(npr, kept));
                    assert(fst(npr) == new_wl || fst(npr) == kept);
                    assert(snd(npr) == new_wl || snd(npr) == kept);
                } else {
                    assert(i < old(self).watched_literals.len());
                    let e0 = (fst(old(self).pairs()[i]->0), i as usize);
                    let e1 = (snd(old(self).pairs()[i]->0), i as usize);
                    assert(a0.contains(e0) && a0.contains(e1));
                    assert(e0 != target && e1 != target);
                    assert(a1.contains(e0) && a1.contains(e1));
                    let k0 = choose|k0: int| 0 <= k0 < a1.len() && a1[k0] == e0;
                    let k1 = choose|k1: int| 0 <= k1 < a1.len() && a1[k1] == e1;
                    assert(a2[k0] == e0);
                    assert(a2[k1] == e1);
                }
            }
        }
    }

    /// Classifies one clause whose watched literal `(v, !val)` was just
    /// falsified by the assignment of `new_assignment = (v, val)`, pushing a
    /// forced propagation when the clause has become unit.
    ///
    /// The index itself is left untouched; the caller performs the swap the
    /// result asks for.
    pub fn check_clause_after_update(
        &mut self,
        clause_idx: usize,
        clause: &Clause,
        assignment: &Assignment,
        new_assignment: LiteralTpl,
        propagations: &mut Vec<LiteralTpl>,
    ) -> (r: CheckClauseAfterUpdateResult)
        requires
            clause.wf(),
            assignment.wf(),
            clause_idx < old(self).pairs().len(),
            old(self).pairs()[clause_idx as int] is Some,
            ({
                let pr = old(self).pairs()[clause_idx as int]->0;
                &&& (var_of(fst(pr)) == var_of(new_assignment) || var_of(snd(pr)) == var_of(
                    new_assignment,
                ))
                &&& var_of(fst(pr)) != var_of(snd(pr))
                &&& clause.lits().contains(fst(pr))
                &&& clause.lits().contains(snd(pr))
            }),
        ensures
            final(self).pairs() == old(self).pairs(),
            final(self).amap() == old(self).amap(),
            ({
                let pr = old(self).pairs()[clause_idx as int]->0;
                let other = other_by_var(pr, var_of(new_assignment));
                let c = clause.lits();
                let m = assignment.as_map();
                match r {
                    CheckClauseAfterUpdateResult::KeepLiteral => if lit_sat(m, other) {
                        final(propagations)@ == old(propagations)@
                    } else {
                        unit_with(c, m, other) && final(propagations)@ == old(
                            propagations,
                        )@.push(other)
                    },
                    CheckClauseAfterUpdateResult::SwapTo(l) => c.contains(l) && l != other
                        && !lit_false(m, l) && !lit_sat(m, other) && (if unit_with(c, m, l) {
                        final(propagations)@ == old(propagations)@.push(l)
                    } else {
                        final(propagations)@ == old(propagations)@
                    }),
                    CheckClauseAfterUpdateResult::UnsatisfiableClause => all_false(c, m)
                        && final(propagations)@ == old(propagations)@,
                }
            }),
    {
        let (wl0, wl1) = self.watched_literals[clause_idx].unwrap();
        let other_wl = if wl0.0 == new_assignment.0 {
            wl1
        } else {
            wl0
        };
        proof {
            assert(other_wl == other_by_var(
                old(self).pairs()[clause_idx as int]->0,
                var_of(new_assignment),
            ));
        }
        match Self::find_replacement_literal(clause, assignment, other_wl) {
            FindOtherSuitableLiteral::GivenLiteralSatisfying => {
                // the second watch satisfies the clause: nothing to do
                CheckClauseAfterUpdateResult::KeepLiteral
            },
            FindOtherSuitableLiteral::OtherLiteralSatisfying(other_lit) => {
                // a satisfying literal elsewhere: watch it instead; a
                // satisfied clause is not unit
                proof {
                    assert(!unit_with(clause.lits(), assignment.as_map(), other_lit));
                }
                CheckClauseAfterUpdateResult::SwapTo(other_lit)
            },
            FindOtherSuitableLiteral::MultipleUnassigned(other_lit) => {
                // another unassigned literal: watch it instead; a second
                // unassigned literal rules the clause out as unit
                proof {
                    let c = clause.lits();
                    let m = assignment.as_map();
                    let l2 = choose|l2: LiteralTpl|
                        #[trigger] c.contains(l2) && l2 != other_lit && lit_unassigned(m, l2);
                    if unit_with(c, m, other_lit) {
                        let j2 = choose|j2: int| 0 <= j2 < c.len() && c[j2] == l2;
                        assert(lit_false(m, c[j2]));
                        assert(false);
                    }
                }
                CheckClauseAfterUpdateResult::SwapTo(other_lit)
            },
            FindOtherSuitableLiteral::UnitClauseWithGiven => {
                // the second watch has become forced: propagate it, watches
                // unchanged
                propagations.push(other_wl);
                CheckClauseAfterUpdateResult::KeepLiteral
            },
            FindOtherSuitableLiteral::UnitClause(other_lit) => {
                // the only unassigned literal is elsewhere: propagate it and
                // watch it
                proof {
                    assert(!lit_sat(assignment.as_map(), other_wl)) by {
                        let c = clause.lits();
                        let j = choose|j: int| 0 <= j < c.len() && c[j] == other_wl;
                        assert(lit_false(assignment.as_map(), c[j]));
                    }
                }
                propagations.push(other_lit);
                CheckClauseAfterUpdateResult::SwapTo(other_lit)
            },
            FindOtherSuitableLiteral::UnsatisfiableClause => {
                // every literal is false: conflict
                CheckClauseAfterUpdateResult::UnsatisfiableClause
            },
        }
    }

    /// Processes a newly assigned literal `(v, val)`: every clause watching
    /// the falsified sibling `(v, !val)` is re-examined, watches are swapped
    /// where possible, forced literals are gathered, and a clause with every
    /// literal false aborts with a conflict.
    ///
    /// The index stays well-formed (I1, I2); after a conflict-free update,
    /// every re-examined or previously healthy clause again has a watched
    /// literal that is satisfied or unassigned under the given assignment,
    /// and every gathered propagation is forced by some clause.
    #[verifier::loop_isolation(false)]
    #[verifier::rlimit(30)]
    pub fn update(
        &mut self,
        cnf: &Cnf,
        assignment: &Assignment,
        new_assignment: LiteralTpl,
    ) -> (r: UpdateResult)
        requires
            cnf.wf(),
            assignment.wf(),
            old(self).wf(cnf.sem()),
            assignment.as_map().contains_key(var_of(new_assignment)),
        ensures
            final(self).wf(cnf.sem()),
            ({
                let f = cnf.sem();
                let m = assignment.as_map();
                let flit = (new_assignment.0, !new_assignment.1);
                match r {
                    UpdateResult::Unsatisfiable => {
                        &&& exists|i: int|
                            0 <= i < f.len() && (#[trigger] old(self).pairs()[i]) is Some
                                && pair_has(old(self).pairs()[i]->0, flit) && all_false(f[i], m)
                        &&& forall|i: int|
                            0 <= i < f.len() && (#[trigger] old(self).pairs()[i]) is Some
                                && !pair_has(old(self).pairs()[i]->0, flit)
                                ==> final(self).pairs()[i] == old(self).pairs()[i]
                    },
                    UpdateResult::Satisfiable { propagations } => {
                        &&& forall|x: int|
                            0 <= x < propagations@.len() ==> exists|i: int|
                                0 <= i < f.len() && (#[trigger] old(self).pairs()[i]) is Some
                                    && pair_has(old(self).pairs()[i]->0, flit) && unit_with(
                                    f[i],
                                    m,
                                    #[trigger] propagations@[x],
                                )
                        &&& forall|i: int|
                            0 <= i < f.len() && f[i].len() >= 2 && (watch_ok(
                                m,
                                (#[trigger] old(self).pairs()[i])->0,
                            ) || pair_has(old(self).pairs()[i]->0, flit)) ==> watch_ok(
                                m,
                                final(self).pairs()[i]->0,
                            )
                        &&& forall|i: int|
                            0 <= i < f.len() && (#[trigger] old(self).pairs()[i]) is Some
                                && !pair_has(old(self).pairs()[i]->0, flit)
                                ==> final(self).pairs()[i] == old(self).pairs()[i]
                        &&& forall|i: int|
                            0 <= i < f.len() && (#[trigger] old(self).pairs()[i]) is Some
                                && pair_has(old(self).pairs()[i]->0, flit)
                                ==> processed_pair_post(
                                old(self).pairs()[i]->0,
                                final(self).pairs()[i]->0,
                                f[i],
                                m,
                                flit,
                                propagations@,
                            )
                        &&& forall|i: int|
                            0 <= i < f.len() && (#[trigger] old(self).pairs()[i]) is Some
                                && pair_has(old(self).pairs()[i]->0, flit) ==> !all_false(f[i], m)
                    },
                }
            }),
    {
        let ghost f = cnf.sem();
        let ghost m = assignment.as_map();
        let (var, val) = new_assignment;
        // every clause watching the falsified sibling literal
        let watched_literal = (var, !val);
        let snapshot = self.watchers(watched_literal);
        proof {
            lemma_watchers_of_contains(self.amap(), watched_literal);
            lemma_watchers_of_distinct(self.amap(), watched_literal);
            assert forall|jj: int|
                0 <= jj < snapshot@.len() implies (#[trigger] snapshot@[jj]) < f.len()
                && self.pairs()[snapshot@[jj] as int] is Some && pair_has(
                self.pairs()[snapshot@[jj] as int]->0,
                watched_literal,
            ) by {
                assert(watchers_of(self.amap(), watched_literal).contains(snapshot@[jj]));
                assert(self.amap().contains((watched_literal, snapshot@[jj])));
                let q = choose|q: int|
                    0 <= q < self.amap().len() && self.amap()[q] == (
                    watched_literal,
                    snapshot@[jj],
                    );
            }
        }
        let mut propagations: Vec<LiteralTpl> = Vec::new();
        let mut j: usize = 0;
        while j < snapshot.len()
            invariant
                self.wf(f),
                j <= snapshot@.len(),
                forall|x: int|
                    0 <= x < propagations@.len() ==> exists|i: int|
                        0 <= i < f.len() && (#[trigger] old(self).pairs()[i]) is Some && pair_has(
                            old(self).pairs()[i]->0,
                            watched_literal,
                        ) && unit_with(f[i], m, #[trigger] propagations@[x]),
                forall|i: int|
                    0 <= i < f.len() && (#[trigger] old(self).pairs()[i]) is Some && !pair_has(
                        old(self).pairs()[i]->0,
                        watched_literal,
                    ) ==> self.pairs()[i] == old(self).pairs()[i],
                forall|jj: int|
                    j <= jj < snapshot@.len() ==> self.pairs()[(#[trigger] snapshot@[jj]) as int]
                        == old(self).pairs()[snapshot@[jj] as int],
                forall|jj: int|
                    0 <= jj < j ==> watch_ok(
                        m,
                        self.pairs()[(#[trigger] snapshot@[jj]) as int]->0,
                    ),
                forall|jj: int|
                    0 <= jj < j ==> processed_pair_post(
                        old(self).pairs()[(#[trigger] snapshot@[jj]) as int]->0,
                        self.pairs()[snapshot@[jj] as int]->0,
                        f[snapshot@[jj] as int],
                        m,
                        watched_literal,
                        propagations@,
                    ),
            decreases snapshot@.len() - j,
        {
            let clause_idx = snapshot[j];
            let ghost old_props = propagations;
            proof {
                assert(self.pairs()[clause_idx as int] == old(self).pairs()[clause_idx as int]);
                assert(pair_has(self.pairs()[clause_idx as int]->0, watched_literal));
            }
            let ghost pr = self.pairs()[clause_idx as int]->0;
            let clause = &cnf.clauses[clause_idx];
            proof {
                assert(clause.lits() == f[clause_idx as int]);
                assert(var_of(fst(pr)) == var || var_of(snd(pr)) == var);
            }
            let result = self.check_clause_after_update(
                clause_idx,
                clause,
                assignment,
                new_assignment,
                &mut propagations,
            );
            let ghost other = other_by_var(pr, var);
            match result {
                CheckClauseAfterUpdateResult::KeepLiteral => {
                    proof {
                        assert(pair_has(pr, other));
                        assert(!lit_false(m, other));
                        assert(watch_ok(m, self.pairs()[clause_idx as int]->0));
                        assert(pair_other(pr, watched_literal) == other);
                        assert(processed_pair_post(
                            pr,
                            self.pairs()[clause_idx as int]->0,
                            f[clause_idx as int],
                            m,
                            watched_literal,
                            propagations@,
                        )) by {
                            if !lit_sat(m, other) {
                                assert(propagations@.last() == other);
                                assert(propagations@.contains(other));
                            }
                        }
                        assert forall|x: int|
                            0 <= x < propagations@.len() implies exists|i: int|
                            0 <= i < f.len() && (#[trigger] old(self).pairs()[i]) is Some
                                && pair_has(old(self).pairs()[i]->0, watched_literal) && unit_with(
                                f[i],
                                m,
                                #[trigger] propagations@[x],
                            ) by {
                            if x == propagations@.len() - 1 && propagations@ != old_props@ {
                                assert(old(self).pairs()[clause_idx as int] is Some && pair_has(
                                    old(self).pairs()[clause_idx as int]->0,
                                    watched_literal,
                                ) && unit_with(f[clause_idx as int], m, propagations@[x]));
                            }
                        }
                    }
                },
                CheckClauseAfterUpdateResult::SwapTo(new_wl) => {
                    proof {
                        clause.lemma_lits_distinct();
                        let cl = clause.lits();
                        assert(pair_other(pr, watched_literal) == other);
                        let j1 = choose|j1: int| 0 <= j1 < cl.len() && cl[j1] == new_wl;
                        let j2 = choose|j2: int| 0 <= j2 < cl.len() && cl[j2] == other;
                        assert(cl[j1] != cl[j2]);
                        assert(var_of(new_wl) != var_of(other));
                        assert forall|x: int|
                            0 <= x < propagations@.len() implies exists|i: int|
                            0 <= i < f.len() && (#[trigger] old(self).pairs()[i]) is Some
                                && pair_has(old(self).pairs()[i]->0, watched_literal) && unit_with(
                                f[i],
                                m,
                                #[trigger] propagations@[x],
                            ) by {
                            if x == propagations@.len() - 1 && propagations@ != old_props@ {
                                assert(old(self).pairs()[clause_idx as int] is Some && pair_has(
                                    old(self).pairs()[clause_idx as int]->0,
                                    watched_literal,
                                ) && unit_with(f[clause_idx as int], m, propagations@[x]));
                            }
                        }
                    }
                    self.replace_watched_literal(clause_idx, watched_literal, new_wl);
                    proof {
                        let npr = swapped_pair(pr, watched_literal, new_wl);
                        assert(pair_has(npr, new_wl));
                        assert(!lit_false(m, new_wl));
                        assert(watch_ok(m, npr));
                        // the pair now watches two literals of the clause
                        assert(pair_other(pr, watched_literal) == other);
                        assert(f[clause_idx as int].contains(new_wl));
                        assert(f[clause_idx as int].contains(fst(npr)) && f[
                            clause_idx as int].contains(snd(npr)));
                        assert(self.shape(f));
                        assert(processed_pair_post(
                            pr,
                            self.pairs()[clause_idx as int]->0,
                            f[clause_idx as int],
                            m,
                            watched_literal,
                            propagations@,
                        )) by {
                            if unit_with(f[clause_idx as int], m, new_wl) {
                                assert(propagations@.last() == new_wl);
                                assert(propagations@.contains(new_wl));
                            }
                            assert(self.pairs()[clause_idx as int]->0 == swapped_pair(
                                pr,
                                watched_literal,
                                new_wl,
                            ));
                        }
                    }
                },
                CheckClauseAfterUpdateResult::UnsatisfiableClause => {
                    proof {
                        assert(all_false(f[clause_idx as int], m));
                        assert(old(self).pairs()[clause_idx as int] is Some && pair_has(
                            old(self).pairs()[clause_idx as int]->0,
                            watched_literal,
                        ));
                    }
                    return UpdateResult::Unsatisfiable;
                },
            }
            proof {
                assert forall|jj: int|
                    0 <= jj < j + 1 implies processed_pair_post(
                    old(self).pairs()[(#[trigger] snapshot@[jj]) as int]->0,
                    self.pairs()[snapshot@[jj] as int]->0,
                    f[snapshot@[jj] as int],
                    m,
                    watched_literal,
                    propagations@,
                ) by {
                    if jj < j {
                        lemma_processed_pair_post_grows(
                            old(self).pairs()[snapshot@[jj] as int]->0,
                            self.pairs()[snapshot@[jj] as int]->0,
                            f[snapshot@[jj] as int],
                            m,
                            watched_literal,
                            old_props@,
                            propagations@,
                        );
                    }
                }
            }
            j += 1;
        }
        proof {
            assert forall|i: int|
                0 <= i < f.len() && f[i].len() >= 2 && (watch_ok(
                    m,
                    (#[trigger] old(self).pairs()[i])->0,
                ) || pair_has(old(self).pairs()[i]->0, watched_literal)) implies watch_ok(
                m,
                self.pairs()[i]->0,
            ) by {
                if pair_has(old(self).pairs()[i]->0, watched_literal) {
                    assert(old(self).amap().contains((watched_literal, i as usize)));
                    assert(snapshot@.contains(i as usize));
                    let jj = choose|jj: int|
                        0 <= jj < snapshot@.len() && snapshot@[jj] == i as usize;
                    assert(watch_ok(m, self.pairs()[snapshot@[jj] as int]->0));
                } else {
                    assert(self.pairs()[i] == old(self).pairs()[i]);
                }
            }
            assert forall|i: int|
                0 <= i < f.len() && (#[trigger] old(self).pairs()[i]) is Some && pair_has(
                    old(self).pairs()[i]->0,
                    watched_literal,
                ) implies processed_pair_post(
                old(self).pairs()[i]->0,
                self.pairs()[i]->0,
                f[i],
                m,
                watched_literal,
                propagations@,
            ) by {
                assert(old(self).amap().contains((watched_literal, i as usize)));
                assert(snapshot@.contains(i as usize));
                let jj = choose|jj: int| 0 <= jj < snapshot@.len() && snapshot@[jj] == i as usize;
                assert(i < old(self).watched_literals.len());
                assert(snapshot@[jj] as int == i);
                assert(processed_pair_post(
                    old(self).pairs()[snapshot@[jj] as int]->0,
                    self.pairs()[snapshot@[jj] as int]->0,
                    f[snapshot@[jj] as int],
                    m,
                    watched_literal,
                    propagations@,
                ));
            }
            // a re-examined clause always keeps some non-falsified literal,
            // so none of the falsified literal's watchers is in conflict
            assert forall|i: int|
                0 <= i < f.len() && (#[trigger] old(self).pairs()[i]) is Some && pair_has(
                    old(self).pairs()[i]->0,
                    watched_literal,
                ) implies !all_false(f[i], m) by {
                let oldp = old(self).pairs()[i]->0;
                let other = pair_other(oldp, watched_literal);
                assert(f[i].contains(fst(oldp)) && f[i].contains(snd(oldp)));
                assert(f[i].contains(other));
                if self.pairs()[i]->0 == oldp && (lit_sat(m, other) || (unit_with(f[i], m, other)
                    && propagations@.contains(other))) {
                    let jo = choose|jo: int| 0 <= jo < f[i].len() && f[i][jo] == other;
                    assert(!lit_false(m, f[i][jo]));
                } else {
                    let lw = choose|lw: LiteralTpl|
                        self.pairs()[i]->0 == swapped_pair(oldp, watched_literal, lw)
                            && #[trigger] f[i].contains(lw) && lw != other && !lit_false(m, lw)
                            && (unit_with(f[i], m, lw) ==> propagations@.contains(lw));
                    let jw = choose|jw: int| 0 <= jw < f[i].len() && f[i][jw] == lw;
                    assert(!lit_false(m, f[i][jw]));
                }
            }
        }
        UpdateResult::Satisfiable { propagations }
    }
}

/// Position of the given (literal, clause) entry in the access list.
fn find_entry(am: &Vec<(LiteralTpl, usize)>, lit: LiteralTpl, idx: usize) -> (q: usize)
    requires
        am@.contains((lit, idx)),
    ensures
        q < am@.len(),
        am@[q as int] == (lit, idx),
{
    let mut q: usize = 0;
    loop
        invariant
            q < am@.len(),
            exists|x: int| q <= x < am@.len() && am@[x] == (lit, idx),
        decreases am@.len() - q,
    {
        let (el, ei) = am[q];
        if el.0 == lit.0 && el.1 == lit.1 && ei == idx {
            return q;
        }
        proof {
            let x = choose|x: int| q <= x < am@.len() && am@[x] == (lit, idx);
            assert(x > q);
            assert(q < am.len());
        }
        q += 1;
    }
}

/// After an `update` for a newly assigned literal `(v, val)` that does not
/// report a conflict, every clause of at least two literals again has a
/// watched literal that is satisfied or unassigned, provided that held
/// before the assignment was made.
///
/// The hypotheses are exactly what `update`'s contract gives for the
/// conflict-free case, together with the watch invariant for the assignment
/// before `v` was set.
pub proof fn lemma_watch_invariant_restored(
    pre: WatchedLiterals,
    post: WatchedLiterals,
    f: Seq<Seq<LiteralTpl>>,
    m_prev: Map<Var, bool>,
    v: Var,
    val: bool,
)
    requires
        !m_prev.contains_key(v),
        forall|i: int|
            0 <= i < f.len() && f[i].len() >= 2 ==> watch_ok(m_prev, (#[trigger] pre.pairs()[i])->0),
        forall|i: int|
            0 <= i < f.len() && f[i].len() >= 2 && (watch_ok(
                m_prev.insert(v, val),
                (#[trigger] pre.pairs()[i])->0,
            ) || pair_has(pre.pairs()[i]->0, (v, !val))) ==> watch_ok(
                m_prev.insert(v, val),
                post.pairs()[i]->0,
            ),
    ensures
        forall|i: int|
            0 <= i < f.len() && f[i].len() >= 2 ==> watch_ok(
                m_prev.insert(v, val),
                (#[trigger] post.pairs()[i])->0,
            ),
{
    let m = m_prev.insert(v, val);
    assert forall|i: int| 0 <= i < f.len() && f[i].len() >= 2 implies watch_ok(
        m,
        (#[trigger] post.pairs()[i])->0,
    ) by {
        let p = pre.pairs()[i]->0;
        assert(watch_ok(m_prev, p));
        if !lit_false(m_prev, p.0) {
            if p.0.0 != v {
                assert(!lit_false(m, p.0));
            } else if p.0 == (v, val) {
                assert(!lit_false(m, p.0));
            } else {
                assert(p.0 == (v, !val));
            }
        } else {
            if p.1.0 != v {
                assert(!lit_false(m, p.1));
            } else if p.1 == (v, val) {
                assert(!lit_false(m, p.1));
            } else {
                assert(p.1 == (v, !val));
            }
        }
    }
}

} // verus!
