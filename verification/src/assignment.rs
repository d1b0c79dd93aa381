use vstd::prelude::*;

use crate::cnf::{lit_sat, LiteralTpl, Var};

verus! {

/// The partial map described by an association list, later entries
/// overriding earlier ones.
pub open spec fn pairs_map(s: Seq<(Var, bool)>) -> Map<Var, bool>
    decreases s.len(),
{
    if s.len() == 0 {
        Map::empty()
    } else {
        pairs_map(s.drop_last()).insert(s.last().0, s.last().1)
    }
}

/// The truth value assigned to a variable, `None` when unassigned.
pub open spec fn map_get(m: Map<Var, bool>, var: Var) -> Option<bool> {
    if m.contains_key(var) {
        Some(m[var])
    } else {
        None
    }
}

/// Status of a literal: `Some(true)` when satisfied, `Some(false)` when
/// falsified, `None` when its variable is unassigned.
pub open spec fn lit_status(m: Map<Var, bool>, lit: LiteralTpl) -> Option<bool> {
    if m.contains_key(lit.0) {
        Some(m[lit.0] == lit.1)
    } else {
        None
    }
}

/// A partial function from variables to Boolean values.
#[derive(Clone, Debug, PartialEq)]
pub struct Assignment {
    pub(crate) pairs: Vec<(Var, bool)>,
}

impl Assignment {
    /// The mathematical value of this assignment: a finite partial map.
    pub open(crate) spec fn as_map(self) -> Map<Var, bool> {
        pairs_map(self.pairs@)
    }

    /// Well-formedness: each variable is recorded at most once.
    pub open(crate) spec fn wf(self) -> bool {
        forall|i: int, j: int|
            0 <= i < j < self.pairs@.len() ==> self.pairs@[i].0 != self.pairs@[j].0
    }

    /// Returns the empty assignment.
    pub fn new() -> (r: Assignment)
        ensures
            r.wf(),
            r.as_map() == Map::<Var, bool>::empty(),
    {
        Assignment { pairs: Vec::new() }
    }

    /// Returns the assignment that assigns exactly one variable.
    pub fn new_with(var: Var, val: bool) -> (r: Assignment)
        ensures
            r.wf(),
            r.as_map() == Map::<Var, bool>::empty().insert(var, val),
    {
        let mut it = Assignment { pairs: Vec::new() };
        it.change(var, val);
        it
    }

    /// Gets the value (true or false) that is assigned to this variable or
    /// `None` if it is unassigned.
    pub fn get(&self, var: Var) -> (r: Option<bool>)
        requires
            self.wf(),
        ensures
            r == map_get(self.as_map(), var),
    {
        let mut i: usize = 0;
        while i < self.pairs.len()
            invariant
                self.wf(),
                i <= self.pairs.len(),
                forall|j: int| 0 <= j < i ==> self.pairs@[j].0 != var,
            decreases self.pairs.len() - i,
        {
            if self.pairs[i].0 == var {
                proof {
                    lemma_pairs_map_index(self.pairs@, i as int);
                }
                return Some(self.pairs[i].1);
            }
            i += 1;
        }
        proof {
            lemma_pairs_map_keys(self.pairs@);
        }
        None
    }

    /// Gets whether this literal is satisfied, falsified or unassigned.
    ///
    /// If the literal is satisfied (its variable carries the literal's
    /// polarity) this returns `Some(true)`; if it is falsified,
    /// `Some(false)`; if the variable is unassigned, `None`.
    pub fn get_lit(&self, lit: LiteralTpl) -> (r: Option<bool>)
        requires
            self.wf(),
        ensures
            r == lit_status(self.as_map(), lit),
    {
        match self.get(lit.0) {
            Some(val) => Some(val == lit.1),
            None => None,
        }
    }

    /// Checks whether this assignment satisfies the given literal.
    pub fn satisfies(&self, lit: LiteralTpl) -> (r: bool)
        requires
            self.wf(),
        ensures
            r == lit_sat(self.as_map(), lit),
    {
        match self.get(lit.0) {
            Some(val) => val == lit.1,
            None => false,
        }
    }

    /// Records a value for the variable, overwriting any earlier one.
    pub fn change(&mut self, var: Var, val: bool)
        requires
            old(self).wf(),
        ensures
            final(self).wf(),
            final(self).as_map() == old(self).as_map().insert(var, val),
            final(self).as_map().dom() == old(self).as_map().dom().insert(var),
    {
        proof {
            lemma_pairs_map_keys(self.pairs@);
        }
        let mut i: usize = 0;
        while i < self.pairs.len()
            invariant
                old(self) == self,
                old(self).wf(),
                i <= self.pairs.len(),
                forall|j: int| 0 <= j < i ==> self.pairs@[j].0 != var,
            decreases self.pairs.len() - i,
        {
            if self.pairs[i].0 == var {
                self.pairs[i] = (var, val);
                proof {
                    assert(old(self).wf());
                    assert(forall|a: int, b: int|
                        0 <= a < b < old(self).pairs@.len() ==> old(self).pairs@[a].0 != old(
                            self,
                        ).pairs@[b].0);
                    assert(self.pairs@ == old(self).pairs@.update(i as int, (var, val)));
                    assert(old(self).pairs@[i as int].0 == var);
                    lemma_pairs_map_update(old(self).pairs@, i as int, val);
                    assert(forall|j: int|
                        0 <= j < self.pairs@.len() ==> self.pairs@[j].0 == old(self).pairs@[j].0);
                    assert(self.as_map().dom() =~= old(self).as_map().dom().insert(var));
                }
                return ;
            }
            i += 1;
        }
        self.pairs.push((var, val));
        proof {
            assert(self.pairs@.drop_last() =~= old(self).pairs@);
            assert(self.as_map() == pairs_map(self.pairs@));
            assert(self.as_map() == pairs_map(old(self).pairs@).insert(var, val));
            assert(self.as_map().dom() =~= old(self).as_map().dom().insert(var));
        }
    }

    /// Returns a copy of this assignment extended (or overwritten) with the
    /// given value; the original is unchanged.
    pub fn with(&self, var: Var, val: bool) -> (r: Assignment)
        requires
            self.wf(),
        ensures
            r.wf(),
            r.as_map() == self.as_map().insert(var, val),
    {
        let mut new = self.duplicate();
        new.change(var, val);
        new
    }

    /// Returns a copy of this assignment extended with every literal of the
    /// list in order, each overwriting any earlier value for its variable.
    pub fn with_all(&self, map: &Vec<LiteralTpl>) -> (r: Assignment)
        requires
            self.wf(),
        ensures
            r.wf(),
            r.as_map() == insert_all(self.as_map(), map@),
    {
        let mut this = self.duplicate();
        let mut i: usize = 0;
        while i < map.len()
            invariant
                this.wf(),
                i <= map.len(),
                this.as_map() == insert_all(self.as_map(), map@.take(i as int)),
            decreases map.len() - i,
        {
            this.change(map[i].0, map[i].1);
            proof {
                assert(map@.take(i + 1).drop_last() =~= map@.take(i as int));
            }
            i += 1;
        }
        proof {
            assert(map@.take(map@.len() as int) =~= map@);
        }
        this
    }

    /// The highest variable this assignment gives a value, `None` when it is
    /// empty.
    pub fn highest_assigned_var(&self) -> (r: Option<Var>)
        requires
            self.wf(),
        ensures
            match r {
                None => self.as_map().dom() =~= Set::<Var>::empty(),
                Some(v) => self.as_map().contains_key(v) && forall|w: Var|
                    self.as_map().contains_key(w) ==> w <= v,
            },
    {
        proof {
            lemma_pairs_map_keys(self.pairs@);
        }
        if self.pairs.len() == 0 {
            proof {
                assert(self.as_map().dom() =~= Set::<Var>::empty());
            }
            return None;
        }
        let mut best: Var = self.pairs[0].0;
        let mut i: usize = 1;
        while i < self.pairs.len()
            invariant
                self.wf(),
                1 <= i <= self.pairs.len(),
                exists|j: int| 0 <= j < i && self.pairs@[j].0 == best,
                forall|j: int| 0 <= j < i ==> self.pairs@[j].0 <= best,
            decreases self.pairs.len() - i,
        {
            if self.pairs[i].0 > best {
                best = self.pairs[i].0;
            }
            i += 1;
        }
        Some(best)
    }

    /// The recorded (variable, value) pairs, in stored order: each variable
    /// of the assignment exactly once.
    pub fn literals(&self) -> (r: Vec<LiteralTpl>)
        requires
            self.wf(),
        ensures
            forall|i: int, j: int| 0 <= i < j < r@.len() ==> r@[i].0 != r@[j].0,
            forall|i: int| 0 <= i < r@.len() ==> lit_sat(self.as_map(), #[trigger] r@[i]),
            forall|v: Var|
                self.as_map().contains_key(v) ==> exists|i: int| 0 <= i < r@.len() && r@[i].0 == v,
    {
        proof {
            lemma_pairs_map_keys(self.pairs@);
            assert forall|i: int| 0 <= i < self.pairs@.len() implies lit_sat(
                self.as_map(),
                #[trigger] self.pairs@[i],
            ) by {
                lemma_pairs_map_index(self.pairs@, i);
            }
        }
        let mut r: Vec<LiteralTpl> = Vec::new();
        let mut i: usize = 0;
        while i < self.pairs.len()
            invariant
                i <= self.pairs.len(),
                r@ =~= self.pairs@.take(i as int),
            decreases self.pairs.len() - i,
        {
            r.push(self.pairs[i]);
            assert(self.pairs@.take(i + 1).drop_last() =~= self.pairs@.take(i as int));
            i += 1;
        }
        assert(self.pairs@.take(self.pairs@.len() as int) =~= self.pairs@);
        r
    }

    /// A fresh assignment with the same contents.
    fn duplicate(&self) -> (r: Assignment)
        ensures
            r.pairs@ == self.pairs@,
    {
        let mut pairs: Vec<(Var, bool)> = Vec::new();
        let mut i: usize = 0;
        while i < self.pairs.len()
            invariant
                i <= self.pairs.len(),
                pairs@ =~= self.pairs@.take(i as int),
            decreases self.pairs.len() - i,
        {
            pairs.push(self.pairs[i]);
            assert(self.pairs@.take(i + 1).drop_last() =~= self.pairs@.take(i as int));
            i += 1;
        }
        assert(self.pairs@.take(self.pairs@.len() as int) =~= self.pairs@);
        Assignment { pairs }
    }
}

/// The map of an association list, extended with the literals of `s` in
/// order.
pub open spec fn insert_all(m: Map<Var, bool>, s: Seq<LiteralTpl>) -> Map<Var, bool>
    decreases s.len(),
{
    if s.len() == 0 {
        m
    } else {
        insert_all(m, s.drop_last()).insert(s.last().0, s.last().1)
    }
}

/// The keys of an association list's map are exactly the recorded variables.
pub proof fn lemma_pairs_map_keys(s: Seq<(Var, bool)>)
    ensures
        forall|v: Var|
            pairs_map(s).contains_key(v) <==> exists|i: int| 0 <= i < s.len() && s[i].0 == v,
    decreases s.len(),
{
    if s.len() > 0 {
        lemma_pairs_map_keys(s.drop_last());
        assert forall|v: Var| pairs_map(s).contains_key(v) implies exists|i: int|
            0 <= i < s.len() && s[i].0 == v by {
            if v == s.last().0 {
                assert(s[s.len() - 1].0 == v);
            } else {
                assert(pairs_map(s.drop_last()).contains_key(v));
                let i = choose|i: int| 0 <= i < s.drop_last().len() && s.drop_last()[i].0 == v;
                assert(s.drop_last()[i] == s[i]);
                assert(s[i].0 == v);
            }
        }
        assert forall|v: Var| (exists|i: int| 0 <= i < s.len() && s[i].0 == v) implies pairs_map(
            s,
        ).contains_key(v) by {
            let i = choose|i: int| 0 <= i < s.len() && s[i].0 == v;
            if i < s.len() - 1 {
                assert(s.drop_last()[i].0 == v);
                assert(exists|j: int| 0 <= j < s.drop_last().len() && s.drop_last()[j].0 == v);
                assert(pairs_map(s.drop_last()).contains_key(v));
            } else {
                assert(v == s.last().0);
            }
        }
    }
}

/// With distinct variables, the map's value for a recorded variable is the
/// recorded value.
pub proof fn lemma_pairs_map_index(s: Seq<(Var, bool)>, i: int)
    requires
        forall|a: int, b: int| 0 <= a < b < s.len() ==> s[a].0 != s[b].0,
        0 <= i < s.len(),
    ensures
        pairs_map(s).contains_key(s[i].0),
        pairs_map(s)[s[i].0] == s[i].1,
    decreases s.len(),
{
    if i == s.len() - 1 {
    } else {
        lemma_pairs_map_index(s.drop_last(), i);
        assert(s.drop_last()[i] == s[i]);
        assert(s[i].0 != s.last().0);
    }
}

/// Updating the entry of a recorded variable in place updates the map, as an
/// insertion would.
proof fn lemma_pairs_map_update(s: Seq<(Var, bool)>, i: int, val: bool)
    requires
        forall|a: int, b: int| 0 <= a < b < s.len() ==> s[a].0 != s[b].0,
        0 <= i < s.len(),
    ensures
        pairs_map(s.update(i, (s[i].0, val))) == pairs_map(s).insert(s[i].0, val),
    decreases s.len(),
{
    let t = s.update(i, (s[i].0, val));
    if i == s.len() - 1 {
        assert(t.drop_last() =~= s.drop_last());
        assert(pairs_map(t) =~= pairs_map(s).insert(s[i].0, val));
    } else {
        lemma_pairs_map_update(s.drop_last(), i, val);
        assert(t.drop_last() =~= s.drop_last().update(i, (s[i].0, val)));
        assert(t.last() == s.last());
        assert(s.drop_last()[i] == s[i]);
        assert(pairs_map(t) == pairs_map(s.drop_last()).insert(s[i].0, val).insert(
            s.last().0,
            s.last().1,
        ));
        assert(s[i].0 != s.last().0);
        assert(pairs_map(s.drop_last()).insert(s[i].0, val).insert(s.last().0, s.last().1)
            =~= pairs_map(s.drop_last()).insert(s.last().0, s.last().1).insert(s[i].0, val));
    }
}

/// Extending an assignment and then reading it back: the extended variable
/// carries the new value and every other variable is unchanged.
pub proof fn lemma_with_get(m: Map<Var, bool>, var: Var, val: bool)
    ensures
        map_get(m.insert(var, val), var) == Some(val),
        forall|w: Var| w != var ==> map_get(m.insert(var, val), w) == map_get(m, w),
{
}

} // verus!
