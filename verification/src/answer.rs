//! Per-worker solution record and the order-insensitive reduction that
//! merges the records after termination.

use vstd::prelude::*;

use crate::state::{State, StateV, views_of};

verus! {

/// Mathematical model of a solution record.
#[verifier::ext_equal]
pub struct AnswerV {
    pub best: int,
    pub solutions: Seq<StateV>,
}

/// A worker's running record of the best states found at the final
/// position: the maximal delivered amount and every state achieving it.
pub struct Answer {
    /// Largest carried amount seen at the final position, zero if none.
    pub best_delivered: u16,
    /// Every recorded state at the final position carrying `best_delivered`.
    pub solutions: Vec<State>,
}

impl View for Answer {
    type V = AnswerV;

    open spec fn view(&self) -> AnswerV {
        AnswerV { best: self.best_delivered as int, solutions: views_of(self.solutions@) }
    }
}

/// Effect of recording one state: only states at the final position count; a
/// strictly better one resets the record, an equal one joins it.
pub open spec fn answer_insert(a: AnswerV, s: StateV, d: int) -> AnswerV {
    if s.key.x == d - 1 {
        if s.held > a.best {
            AnswerV { best: s.held, solutions: seq![s] }
        } else if s.held == a.best {
            AnswerV { best: a.best, solutions: a.solutions.push(s) }
        } else {
            a
        }
    } else {
        a
    }
}

/// Effect of merging another worker's record into this one.
pub open spec fn answer_extend(a: AnswerV, b: AnswerV) -> AnswerV {
    if b.best > a.best {
        b
    } else if b.best == a.best {
        AnswerV { best: a.best, solutions: a.solutions + b.solutions }
    } else {
        a
    }
}

impl Answer {
    /// Empty record: nothing delivered, no solutions.
    pub fn new() -> (r: Answer)
        ensures
            r@ == (AnswerV { best: 0, solutions: Seq::<StateV>::empty() }),
    {
        let r = Answer { best_delivered: 0, solutions: Vec::new() };
        proof {
            assert(r@.solutions =~= Seq::<StateV>::empty());
        }
        r
    }

    /// Record a state if it sits at the final position.
    pub fn insert(&mut self, state: &State, d: u16)
        requires
            d >= 1,
        ensures
            final(self)@ == answer_insert(old(self)@, state@, d as int),
    {
        if state.inner.x == d - 1 {
            if state.held > self.best_delivered {
                self.best_delivered = state.held;
                self.solutions = Vec::new();
                self.solutions.push(state.clone());
                proof {
                    assert(self@.solutions =~= seq![state@]);
                }
            } else if state.held == self.best_delivered {
                let ghost before = self.solutions@;
                self.solutions.push(state.clone());
                proof {
                    assert(views_of(self.solutions@) =~= views_of(before).push(state@));
                }
            }
        }
    }

    /// Fold another worker's record into this one: a strictly better record
    /// replaces it, an equal one contributes its solutions.
    pub fn extend(&mut self, other: Answer)
        ensures
            final(self)@ == answer_extend(old(self)@, other@),
    {
        if other.best_delivered > self.best_delivered {
            *self = other;
        } else if other.best_delivered == self.best_delivered {
            let mut other = other;
            let ghost mine = self.solutions@;
            let ghost theirs = other.solutions@;
            self.solutions.append(&mut other.solutions);
            proof {
                assert(views_of(mine + theirs) =~= views_of(mine) + views_of(theirs));
            }
        }
    }
}

/// The states at the final position within `ss` that carry exactly `v`.
pub open spec fn finals_at(ss: Set<StateV>, d: int, v: int) -> Set<StateV> {
    Set::new(|t: StateV| ss.contains(t) && t.key.x == d - 1 && t.held == v)
}

/// Membership after a push is membership before, or the pushed state.
pub proof fn lemma_push_contains(x: Seq<StateV>, v: StateV, t: StateV)
    ensures
        x.push(v).contains(t) <==> x.contains(t) || t == v,
{
    if x.contains(t) {
        let i = choose|i: int| 0 <= i < x.len() && x[i] == t;
        assert(x.push(v)[i] == t);
    }
    assert(x.push(v)[x.len() as int] == v);
    if x.push(v).contains(t) {
        let i = choose|i: int| 0 <= i < x.push(v).len() && x.push(v)[i] == t;
        if i < x.len() {
            assert(x[i] == t);
        }
    }
}

/// Membership in a concatenation is membership in either part.
pub proof fn lemma_concat_contains(x: Seq<StateV>, y: Seq<StateV>, t: StateV)
    ensures
        (x + y).contains(t) <==> x.contains(t) || y.contains(t),
{
    if x.contains(t) {
        let i = choose|i: int| 0 <= i < x.len() && x[i] == t;
        assert((x + y)[i] == t);
    }
    if y.contains(t) {
        let i = choose|i: int| 0 <= i < y.len() && y[i] == t;
        assert((x + y)[x.len() + i] == t);
    }
    if (x + y).contains(t) {
        let i = choose|i: int| 0 <= i < (x + y).len() && (x + y)[i] == t;
        if i < x.len() {
            assert(x[i] == t);
        } else {
            assert(y[i - x.len()] == t);
        }
    }
}

/// What a correct record says of a set of discovered states: its best value
/// bounds every final-position state, is attained whenever positive, and its
/// solution list holds exactly the attaining states, each winning key
/// listed once.
pub open spec fn answer_inv(a: AnswerV, ss: Set<StateV>, d: int) -> bool {
    &&& 0 <= a.best
    &&& forall|t: StateV| #[trigger] ss.contains(t) && t.key.x == d - 1 ==> t.held <= a.best
    &&& a.best > 0 ==> exists|t: StateV|
        #[trigger] ss.contains(t) && t.key.x == d - 1 && t.held == a.best
    &&& a.solutions.to_set() == finals_at(ss, d, a.best)
    &&& forall|i: int, j: int|
        0 <= i < j < a.solutions.len() ==> (#[trigger] a.solutions[i]).key != (
        #[trigger] a.solutions[j]).key
}

/// Recording a newly discovered state preserves a correct record. The
/// state's key must be new to the set, which is what first-write-wins
/// insertion guarantees; it keeps the solution list free of repeats.
pub proof fn lemma_answer_insert_inv(a: AnswerV, ss: Set<StateV>, s: StateV, d: int)
    requires
        answer_inv(a, ss, d),
        0 <= s.held,
        forall|t: StateV| #[trigger] ss.contains(t) ==> t.key != s.key,
    ensures
        answer_inv(answer_insert(a, s, d), ss.insert(s), d),
{
    let a2 = answer_insert(a, s, d);
    let ss2 = ss.insert(s);
    assert forall|i: int|
        0 <= i < a.solutions.len() implies (#[trigger] a.solutions[i]).key != s.key by {
        assert(a.solutions.contains(a.solutions[i]));
        assert(a.solutions.to_set().contains(a.solutions[i]));
        assert(ss.contains(a.solutions[i]));
    }
    if s.key.x == d - 1 {
        if s.held > a.best {
            assert(ss2.contains(s) && s.key.x == d - 1 && s.held == a2.best);
            assert(a2.solutions.to_set() =~= finals_at(ss2, d, a2.best)) by {
                assert(a2.solutions[0] == s);
                assert(a2.solutions.to_set().contains(s));
                assert(forall|t: StateV| #[trigger] a2.solutions.contains(t) ==> t == s);
            }
        } else if s.held == a.best {
            if a2.best > 0 {
                assert(ss2.contains(s) && s.key.x == d - 1 && s.held == a2.best);
            }
            assert forall|t: StateV|
                a2.solutions.to_set().contains(t) == finals_at(ss2, d, a2.best).contains(t) by {
                lemma_push_contains(a.solutions, s, t);
                assert(a.solutions.to_set().contains(t) == finals_at(ss, d, a.best).contains(t));
            }
            assert(a2.solutions.to_set() =~= finals_at(ss2, d, a2.best));
        } else {
            if a.best > 0 {
                let t = choose|t: StateV|
                    #[trigger] ss.contains(t) && t.key.x == d - 1 && t.held == a.best;
                assert(ss2.contains(t));
            }
            assert(a2.solutions.to_set() =~= finals_at(ss2, d, a2.best));
        }
    } else {
        if a.best > 0 {
            let t = choose|t: StateV|
                #[trigger] ss.contains(t) && t.key.x == d - 1 && t.held == a.best;
            assert(ss2.contains(t));
        }
        assert(a2.solutions.to_set() =~= finals_at(ss2, d, a2.best));
    }
}

/// Merging two correct records yields a correct record for the union of the
/// two discovery sets. The sets must not share a key, which is what shard
/// ownership guarantees; it keeps the merged solution list free of repeats.
pub proof fn lemma_answer_extend_inv(a: AnswerV, b: AnswerV, sa: Set<StateV>, sb: Set<StateV>, d: int)
    requires
        answer_inv(a, sa, d),
        answer_inv(b, sb, d),
        forall|t1: StateV, t2: StateV|
            #[trigger] sa.contains(t1) && #[trigger] sb.contains(t2) ==> t1.key != t2.key,
    ensures
        answer_inv(answer_extend(a, b), sa + sb, d),
{
    let m = answer_extend(a, b);
    let su = sa + sb;
    assert forall|i: int|
        0 <= i < a.solutions.len() implies sa.contains(#[trigger] a.solutions[i]) by {
        assert(a.solutions.contains(a.solutions[i]));
        assert(a.solutions.to_set().contains(a.solutions[i]));
    }
    assert forall|i: int|
        0 <= i < b.solutions.len() implies sb.contains(#[trigger] b.solutions[i]) by {
        assert(b.solutions.contains(b.solutions[i]));
        assert(b.solutions.to_set().contains(b.solutions[i]));
    }
    if b.best == a.best {
        assert forall|i: int, j: int|
            0 <= i < j < (a.solutions + b.solutions).len() implies (#[trigger] (a.solutions
            + b.solutions)[i]).key != (#[trigger] (a.solutions + b.solutions)[j]).key by {
            if i < a.solutions.len() && j >= a.solutions.len() {
                assert((a.solutions + b.solutions)[i] == a.solutions[i]);
                assert((a.solutions + b.solutions)[j] == b.solutions[j - a.solutions.len()]);
            } else if i >= a.solutions.len() {
                assert((a.solutions + b.solutions)[i] == b.solutions[i - a.solutions.len()]);
                assert((a.solutions + b.solutions)[j] == b.solutions[j - a.solutions.len()]);
            } else {
                assert((a.solutions + b.solutions)[i] == a.solutions[i]);
                assert((a.solutions + b.solutions)[j] == a.solutions[j]);
            }
        }
    }
    if m.best > 0 {
        if b.best >= a.best {
            let t = choose|t: StateV|
                #[trigger] sb.contains(t) && t.key.x == d - 1 && t.held == b.best;
            assert(su.contains(t));
        } else {
            let t = choose|t: StateV|
                #[trigger] sa.contains(t) && t.key.x == d - 1 && t.held == a.best;
            assert(su.contains(t));
        }
    }
    if b.best > a.best {
        assert(m.solutions.to_set() =~= finals_at(su, d, m.best));
    } else if b.best == a.best {
        assert forall|t: StateV|
            (a.solutions + b.solutions).to_set().contains(t) == finals_at(
                su,
                d,
                m.best,
            ).contains(t) by {
            lemma_concat_contains(a.solutions, b.solutions, t);
            assert(a.solutions.to_set().contains(t) == finals_at(sa, d, a.best).contains(t));
            assert(b.solutions.to_set().contains(t) == finals_at(sb, d, b.best).contains(t));
        }
        assert((a.solutions + b.solutions).to_set() =~= finals_at(su, d, m.best));
    } else {
        assert(m.solutions.to_set() =~= finals_at(su, d, m.best));
    }
}

/// The merge is insensitive to argument order: same best value, same set of
/// winning states.
pub proof fn lemma_extend_commutative(a: AnswerV, b: AnswerV)
    ensures
        answer_extend(a, b).best == answer_extend(b, a).best,
        answer_extend(a, b).solutions.to_set() == answer_extend(b, a).solutions.to_set(),
{
    if a.best == b.best {
        assert forall|t: StateV|
            answer_extend(a, b).solutions.to_set().contains(t) <==> answer_extend(
                b,
                a,
            ).solutions.to_set().contains(t) by {
            lemma_concat_contains(a.solutions, b.solutions, t);
            lemma_concat_contains(b.solutions, a.solutions, t);
        }
        assert(answer_extend(a, b).solutions.to_set() =~= answer_extend(b, a).solutions.to_set());
    }
}

/// The merge is associative: same best value, same set of winning states.
pub proof fn lemma_extend_associative(a: AnswerV, b: AnswerV, c: AnswerV)
    ensures
        answer_extend(answer_extend(a, b), c).best == answer_extend(a, answer_extend(b, c)).best,
        answer_extend(answer_extend(a, b), c).solutions.to_set() == answer_extend(
            a,
            answer_extend(b, c),
        ).solutions.to_set(),
{
    let l = answer_extend(answer_extend(a, b), c);
    let r = answer_extend(a, answer_extend(b, c));
    assert forall|t: StateV| l.solutions.to_set().contains(t) <==> r.solutions.to_set().contains(
        t,
    ) by {
        lemma_concat_contains(a.solutions, b.solutions, t);
        lemma_concat_contains(b.solutions, c.solutions, t);
        lemma_concat_contains(a.solutions + b.solutions, c.solutions, t);
        lemma_concat_contains(a.solutions, b.solutions + c.solutions, t);
    }
    assert(l.solutions.to_set() =~= r.solutions.to_set());
}

} // verus!
