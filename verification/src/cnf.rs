use vstd::prelude::*;

use crate::assignment::Assignment;

verus! {

/// A propositional variable, identified by an unsigned integer that is at least 1.
/// Zero is reserved and never names a variable.
pub type Var = u32;

/// A literal: a variable together with a polarity. `true` asserts the
/// variable, `false` negates it.
pub type LiteralTpl = (Var, bool);

/// The literal is satisfied: its variable is assigned and the value agrees
/// with the polarity.
pub open spec fn lit_sat(m: Map<Var, bool>, lit: LiteralTpl) -> bool {
    m.contains_key(lit.0) && m[lit.0] == lit.1
}

/// The literal is falsified: its variable is assigned and the value
/// disagrees with the polarity.
pub open spec fn lit_false(m: Map<Var, bool>, lit: LiteralTpl) -> bool {
    m.contains_key(lit.0) && m[lit.0] != lit.1
}

/// The literal's variable is not assigned at all.
pub open spec fn lit_unassigned(m: Map<Var, bool>, lit: LiteralTpl) -> bool {
    !m.contains_key(lit.0)
}

/// A clause (sequence of literals) is satisfied when at least one of its
/// literals is satisfied.
pub open spec fn clause_sat(c: Seq<LiteralTpl>, m: Map<Var, bool>) -> bool {
    exists|j: int| 0 <= j < c.len() && lit_sat(m, c[j])
}

/// A formula (sequence of clauses) is satisfied when every clause is.
pub open spec fn cnf_sat(f: Seq<Seq<LiteralTpl>>, m: Map<Var, bool>) -> bool {
    forall|i: int| 0 <= i < f.len() ==> clause_sat(f[i], m)
}

/// A collection of literals (positive or negative variables) in logical
/// disjunction. Two clauses are equal when they hold the same literal sets,
/// whatever the stored order.
///
/// Invariant (`wf`): no variable occurs twice, in particular never with both
/// polarities, and every variable is at least 1.
#[derive(Debug)]
pub struct Clause {
    pub(crate) positive: Vec<Var>,
    pub(crate) negative: Vec<Var>,
}

impl Clause {
    /// The sequence of positively occurring variables.
    pub open(crate) spec fn pos(self) -> Seq<Var> {
        self.positive@
    }

    /// The sequence of negatively occurring variables.
    pub open(crate) spec fn neg(self) -> Seq<Var> {
        self.negative@
    }

    /// The clause's literals: the positive ones in order, then the negative
    /// ones in order.
    pub open(crate) spec fn lits(self) -> Seq<LiteralTpl> {
        self.positive@.map_values(|v: Var| (v, true)) + self.negative@.map_values(
            |v: Var| (v, false),
        )
    }

    /// Well-formedness: variables are distinct across both polarity lists and
    /// at least 1.
    pub open(crate) spec fn wf(self) -> bool {
        &&& forall|a: int, b: int|
            0 <= a < b < self.positive@.len() ==> self.positive@[a] != self.positive@[b]
        &&& forall|a: int, b: int|
            0 <= a < b < self.negative@.len() ==> self.negative@[a] != self.negative@[b]
        &&& forall|a: int, b: int|
            0 <= a < self.positive@.len() && 0 <= b < self.negative@.len() ==> self.positive@[a]
                != self.negative@[b]
        &&& forall|a: int| 0 <= a < self.positive@.len() ==> self.positive@[a] >= 1
        &&& forall|a: int| 0 <= a < self.negative@.len() ==> self.negative@[a] >= 1
    }

    /// In a well-formed clause, distinct positions hold literals of distinct
    /// variables.
    pub proof fn lemma_lits_distinct(self)
        requires
            self.wf(),
        ensures
            forall|j1: int, j2: int|
                0 <= j1 < j2 < self.lits().len() ==> self.lits()[j1].0 != self.lits()[j2].0,
    {
        let p = self.positive@.len() as int;
        assert forall|j1: int, j2: int|
            0 <= j1 < j2 < self.lits().len() implies self.lits()[j1].0 != self.lits()[j2].0 by {
            if j1 < p && j2 < p {
                assert(self.positive@[j1] != self.positive@[j2]);
            } else if j1 < p {
                assert(self.positive@[j1] != self.negative@[j2 - p]);
            } else {
                assert(self.negative@[j1 - p] != self.negative@[j2 - p]);
            }
        }
    }

    /// Every literal of a well-formed clause names a variable of at least 1.
    pub proof fn lemma_lits_vars_ge1(self)
        requires
            self.wf(),
        ensures
            forall|j: int| 0 <= j < self.lits().len() ==> (#[trigger] self.lits()[j]).0 >= 1,
    {
        let p = self.positive@.len() as int;
        assert forall|j: int| 0 <= j < self.lits().len() implies (#[trigger] self.lits()[j]).0
            >= 1 by {
            if j < p {
                assert(self.lits()[j] == (self.positive@[j], true));
            } else {
                assert(self.lits()[j] == (self.negative@[j - p], false));
            }
        }
    }

    /// Returns the empty clause.
    pub fn new() -> (r: Clause)
        ensures
            r.pos() == Seq::<Var>::empty(),
            r.neg() == Seq::<Var>::empty(),
            r.lits().len() == 0,
            r.wf(),
    {
        let r = Clause { positive: Vec::new(), negative: Vec::new() };
        assert(r.lits() =~= Seq::<LiteralTpl>::empty());
        r
    }

    /// The variables occurring positively, in stored order.
    pub fn positives(&self) -> (r: Vec<Var>)
        ensures
            r@ == self.pos(),
    {
        copy_vars(&self.positive)
    }

    /// The variables occurring negatively, in stored order.
    pub fn negatives(&self) -> (r: Vec<Var>)
        ensures
            r@ == self.neg(),
    {
        copy_vars(&self.negative)
    }

    /// Returns all literals of this clause: positive ones first, then
    /// negative ones.
    pub fn literals(&self) -> (r: Vec<LiteralTpl>)
        ensures
            r@ == self.lits(),
    {
        let ghost p = self.positive@.len() as int;
        let mut r: Vec<LiteralTpl> = Vec::new();
        let mut i: usize = 0;
        while i < self.positive.len()
            invariant
                i <= self.positive.len(),
                r@.len() == i,
                forall|k: int| 0 <= k < i ==> r@[k] == (self.positive@[k], true),
            decreases self.positive.len() - i,
        {
            r.push((self.positive[i], true));
            i += 1;
        }
        let mut i: usize = 0;
        while i < self.negative.len()
            invariant
                p == self.positive@.len(),
                i <= self.negative.len(),
                r@.len() == p + i,
                forall|k: int| 0 <= k < p ==> r@[k] == (self.positive@[k], true),
                forall|k: int| 0 <= k < i ==> r@[p + k] == (self.negative@[k], false),
            decreases self.negative.len() - i,
        {
            r.push((self.negative[i], false));
            i += 1;
        }
        proof {
            assert forall|k: int| 0 <= k < r@.len() implies r@[k] == self.lits()[k] by {
                if k < p {
                    assert(self.lits()[k] == (self.positive@[k], true));
                } else {
                    assert(self.lits()[k] == (self.negative@[k - p], false));
                }
            }
            assert(r@ =~= self.lits());
        }
        r
    }

    /// Adds a positive literal to this clause if it is not already present.
    ///
    /// The negated literal must not be part of this clause already.
    pub fn add_positive(&mut self, var: Var)
        requires
            old(self).wf(),
            var >= 1,
            !old(self).neg().contains(var),
        ensures
            final(self).wf(),
            final(self).neg() == old(self).neg(),
            final(self).pos() == if old(self).pos().contains(var) {
                old(self).pos()
            } else {
                old(self).pos().push(var)
            },
    {
        if !contains_var(&self.positive, var) {
            self.positive.push(var);
        }
    }

    /// Adds a negative literal to this clause if it is not already present.
    ///
    /// The positive literal of the variable must not be part of this clause
    /// already.
    pub fn add_negative(&mut self, var: Var)
        requires
            old(self).wf(),
            var >= 1,
            !old(self).pos().contains(var),
        ensures
            final(self).wf(),
            final(self).pos() == old(self).pos(),
            final(self).neg() == if old(self).neg().contains(var) {
                old(self).neg()
            } else {
                old(self).neg().push(var)
            },
    {
        if !contains_var(&self.negative, var) {
            self.negative.push(var);
        }
    }

    /// Returns whether the variable occurs in this clause, and with which
    /// polarity: `Some(true)` for positive, `Some(false)` for negative,
    /// `None` when it does not occur.
    pub fn get(&self, var: Var) -> (r: Option<bool>)
        ensures
            r == if self.pos().contains(var) {
                Some(true)
            } else if self.neg().contains(var) {
                Some(false)
            } else {
                None::<bool>
            },
    {
        if contains_var(&self.positive, var) {
            Some(true)
        } else if contains_var(&self.negative, var) {
            Some(false)
        } else {
            None
        }
    }

    /// Checks whether the given assignment satisfies this clause.
    pub fn is_satisfied(&self, assignment: &Assignment) -> (r: bool)
        requires
            assignment.wf(),
        ensures
            r == clause_sat(self.lits(), assignment.as_map()),
    {
        let ghost m = assignment.as_map();
        let ghost p = self.positive@.len() as int;
        let mut i: usize = 0;
        while i < self.positive.len()
            invariant
                assignment.wf(),
                m == assignment.as_map(),
                i <= self.positive.len(),
                forall|j: int| 0 <= j < i ==> !lit_sat(m, (self.positive@[j], true)),
            decreases self.positive.len() - i,
        {
            if let Some(true) = assignment.get(self.positive[i]) {
                assert(lit_sat(m, self.lits()[i as int]));
                return true;
            }
            i += 1;
        }
        let mut i: usize = 0;
        while i < self.negative.len()
            invariant
                assignment.wf(),
                m == assignment.as_map(),
                p == self.positive@.len(),
                i <= self.negative.len(),
                forall|j: int| 0 <= j < self.positive@.len() ==> !lit_sat(
                    m,
                    (self.positive@[j], true),
                ),
                forall|j: int| 0 <= j < i ==> !lit_sat(m, (self.negative@[j], false)),
            decreases self.negative.len() - i,
        {
            if let Some(false) = assignment.get(self.negative[i]) {
                proof {
                    assert(self.lits().len() == p + self.negative@.len());
                    assert(self.lits()[p + i] == (self.negative@[i as int], false));
                    assert(lit_sat(m, self.lits()[p + i]));
                }
                return true;
            }
            i += 1;
        }
        proof {
            assert(p == self.positive@.len());
        }
        assert forall|j: int| 0 <= j < self.lits().len() implies !lit_sat(m, self.lits()[j]) by {
            if j < p {
                assert(self.lits()[j] == (self.positive@[j], true));
            } else {
                assert(self.lits()[j] == (self.negative@[j - p], false));
            }
        }
        false
    }

    /// A clause is empty when it has no literals; the empty clause is
    /// unsatisfiable.
    pub fn is_empty(&self) -> (r: bool)
        ensures
            r == (self.lits().len() == 0),
    {
        self.positive.is_empty() && self.negative.is_empty()
    }
}

impl PartialEq for Clause {
    /// Set equality of the literal collections: every variable of each
    /// polarity list occurs in the other clause's matching list.
    fn eq(&self, other: &Self) -> (r: bool) {
        let p1 = vars_subset(&self.positive, &other.positive);
        let p2 = vars_subset(&other.positive, &self.positive);
        let n1 = vars_subset(&self.negative, &other.negative);
        let n2 = vars_subset(&other.negative, &self.negative);
        proof {
            if p1 {
                assert forall|a: int|
                    0 <= a < self.pos().len() implies other.pos().contains(
                    #[trigger] self.pos()[a],
                ) by {
                    assert(other.positive@.contains(self.positive@[a]));
                }
            } else {
                let i = choose|i: int|
                    0 <= i < self.positive@.len() && !other.positive@.contains(
                        self.positive@[i],
                    );
                assert(!other.pos().contains(self.pos()[i]));
            }
            if p2 {
                assert forall|a: int|
                    0 <= a < other.pos().len() implies self.pos().contains(
                    #[trigger] other.pos()[a],
                ) by {
                    assert(self.positive@.contains(other.positive@[a]));
                }
            } else {
                let i = choose|i: int|
                    0 <= i < other.positive@.len() && !self.positive@.contains(
                        other.positive@[i],
                    );
                assert(!self.pos().contains(other.pos()[i]));
            }
            if n2 {
                assert forall|a: int|
                    0 <= a < other.neg().len() implies self.neg().contains(
                    #[trigger] other.neg()[a],
                ) by {
                    assert(self.negative@.contains(other.negative@[a]));
                }
            } else {
                let i = choose|i: int|
                    0 <= i < other.negative@.len() && !self.negative@.contains(
                        other.negative@[i],
                    );
                assert(!self.neg().contains(other.neg()[i]));
            }
            if n1 {
                assert forall|a: int|
                    0 <= a < self.neg().len() implies other.neg().contains(
                    #[trigger] self.neg()[a],
                ) by {
                    assert(other.negative@.contains(self.negative@[a]));
                }
            } else {
                let i = choose|i: int|
                    0 <= i < self.negative@.len() && !other.negative@.contains(
                        self.negative@[i],
                    );
                assert(!other.neg().contains(self.neg()[i]));
            }
        }
        p1 && p2 && n1 && n2
    }
}

impl vstd::std_specs::cmp::PartialEqSpecImpl for Clause {
    open spec fn obeys_eq_spec() -> bool {
        true
    }

    open spec fn eq_spec(&self, other: &Clause) -> bool {
        &&& forall|a: int| 0 <= a < self.pos().len() ==> other.pos().contains(#[trigger] self.pos()[a])
        &&& forall|a: int|
            0 <= a < other.pos().len() ==> self.pos().contains(#[trigger] other.pos()[a])
        &&& forall|a: int| 0 <= a < self.neg().len() ==> other.neg().contains(#[trigger] self.neg()[a])
        &&& forall|a: int|
            0 <= a < other.neg().len() ==> self.neg().contains(#[trigger] other.neg()[a])
    }
}

/// Whether every variable of `a` occurs in `b`.
fn vars_subset(a: &Vec<Var>, b: &Vec<Var>) -> (r: bool)
    ensures
        r == (forall|i: int| 0 <= i < a@.len() ==> b@.contains(#[trigger] a@[i])),
{
    let mut i: usize = 0;
    while i < a.len()
        invariant
            i <= a@.len(),
            forall|j: int| 0 <= j < i ==> b@.contains(#[trigger] a@[j]),
        decreases a@.len() - i,
    {
        if !contains_var(b, a[i]) {
            return false;
        }
        i += 1;
    }
    true
}

/// A collection of clauses in logical conjunction.
#[derive(Debug, PartialEq)]
pub struct Cnf {
    pub clauses: Vec<Clause>,
}

impl Cnf {
    /// The formula's mathematical value: the sequence of its clauses'
    /// literal sequences.
    pub open(crate) spec fn sem(self) -> Seq<Seq<LiteralTpl>> {
        self.clauses@.map_values(|c: Clause| c.lits())
    }

    /// Well-formedness: every clause is well-formed.
    pub open(crate) spec fn wf(self) -> bool {
        forall|i: int| 0 <= i < self.clauses@.len() ==> (#[trigger] self.clauses@[i]).wf()
    }

    /// Returns the empty formula, which is trivially satisfied.
    pub fn new() -> (r: Cnf)
        ensures
            r.sem().len() == 0,
            r.wf(),
    {
        Cnf { clauses: Vec::new() }
    }

    /// Wraps the given clauses as a formula.
    pub fn new_with(clauses: Vec<Clause>) -> (r: Cnf)
        ensures
            r.clauses@ == clauses@,
    {
        Cnf { clauses }
    }

    /// The highest variable occurring in any clause, or 0 for a formula with
    /// no literals at all.
    pub fn highest_var(&self) -> (r: Var)
        ensures
            forall|i: int, j: int|
                0 <= i < self.sem().len() && 0 <= j < self.sem()[i].len() ==> self.sem()[i][j].0
                    <= r,
            r != 0 ==> exists|i: int, j: int|
                0 <= i < self.sem().len() && 0 <= j < self.sem()[i].len() && self.sem()[i][j].0
                    == r,
    {
        let mut cur: Var = 0;
        let mut i: usize = 0;
        while i < self.clauses.len()
            invariant
                i <= self.clauses.len(),
                forall|k: int, j: int|
                    0 <= k < i && 0 <= j < self.sem()[k].len() ==> self.sem()[k][j].0 <= cur,
                cur != 0 ==> exists|k: int, j: int|
                    0 <= k < i && 0 <= j < self.sem()[k].len() && self.sem()[k][j].0 == cur,
            decreases self.clauses.len() - i,
        {
            let cls = &self.clauses[i];
            let ghost l = cls.lits();
            let p = cls.positive.len();
            let mut j: usize = 0;
            while j < p
                invariant
                    p == cls.positive.len(),
                    cls == &self.clauses[i as int],
                    i < self.clauses.len(),
                    j <= p,
                    forall|k: int, j2: int|
                        0 <= k < i && 0 <= j2 < self.sem()[k].len() ==> self.sem()[k][j2].0 <= cur,
                    forall|j2: int| 0 <= j2 < j ==> cls.positive@[j2] <= cur,
                    cur != 0 ==> exists|k: int, j2: int|
                        0 <= k < i + 1 && 0 <= j2 < self.sem()[k].len() && self.sem()[k][j2].0
                            == cur,
                decreases p - j,
            {
                if cls.positive[j] > cur {
                    cur = cls.positive[j];
                    assert(self.sem()[i as int][j as int].0 == cur);
                }
                j += 1;
            }
            let n = cls.negative.len();
            let mut j: usize = 0;
            while j < n
                invariant
                    n == cls.negative.len(),
                    cls == &self.clauses[i as int],
                    i < self.clauses.len(),
                    j <= n,
                    forall|k: int, j2: int|
                        0 <= k < i && 0 <= j2 < self.sem()[k].len() ==> self.sem()[k][j2].0 <= cur,
                    forall|j2: int| 0 <= j2 < cls.positive@.len() ==> cls.positive@[j2] <= cur,
                    forall|j2: int| 0 <= j2 < j ==> cls.negative@[j2] <= cur,
                    cur != 0 ==> exists|k: int, j2: int|
                        0 <= k < i + 1 && 0 <= j2 < self.sem()[k].len() && self.sem()[k][j2].0
                            == cur,
                decreases n - j,
            {
                if cls.negative[j] > cur {
                    cur = cls.negative[j];
                    assert(self.sem()[i as int][cls.positive@.len() + j].0 == cur);
                }
                j += 1;
            }
            assert forall|j2: int|
                0 <= j2 < self.sem()[i as int].len() implies self.sem()[i as int][j2].0 <= cur by {
                let pl = cls.positive@.len() as int;
                if j2 < pl {
                    assert(l[j2] == (cls.positive@[j2], true));
                } else {
                    assert(l[j2] == (cls.negative@[j2 - pl], false));
                }
            }
            i += 1;
        }
        cur
    }

    /// Checks whether the given assignment satisfies every clause of this
    /// formula.
    pub fn is_satisfied(&self, assignment: &Assignment) -> (r: bool)
        requires
            assignment.wf(),
        ensures
            r == cnf_sat(self.sem(), assignment.as_map()),
    {
        let mut i: usize = 0;
        while i < self.clauses.len()
            invariant
                assignment.wf(),
                i <= self.clauses.len(),
                forall|k: int| 0 <= k < i ==> clause_sat(self.sem()[k], assignment.as_map()),
            decreases self.clauses.len() - i,
        {
            if !self.clauses[i].is_satisfied(assignment) {
                assert(!clause_sat(self.sem()[i as int], assignment.as_map()));
                return false;
            }
            i += 1;
        }
        true
    }
}

/// Polarity with which a variable can occur in a clause, or not at all.
pub enum LiteralInfo {
    POSITIVE,
    NEGATIVE,
    NoOcc,
}

/// Whether the vector contains the given variable.
fn contains_var(v: &Vec<Var>, var: Var) -> (r: bool)
    ensures
        r == v@.contains(var),
{
    let mut i: usize = 0;
    while i < v.len()
        invariant
            i <= v.len(),
            forall|j: int| 0 <= j < i ==> v@[j] != var,
        decreases v.len() - i,
    {
        if v[i] == var {
            return true;
        }
        i += 1;
    }
    false
}

/// A fresh vector with the same variables.
fn copy_vars(v: &Vec<Var>) -> (r: Vec<Var>)
    ensures
        r@ == v@,
{
    let mut r: Vec<Var> = Vec::new();
    let mut i: usize = 0;
    while i < v.len()
        invariant
            i <= v.len(),
            r@ =~= v@.take(i as int),
        decreases v.len() - i,
    {
        r.push(v[i]);
        assert(v@.take(i + 1).drop_last() =~= v@.take(i as int));
        i += 1;
    }
    assert(v@.take(v@.len() as int) =~= v@);
    r
}

} // verus!
