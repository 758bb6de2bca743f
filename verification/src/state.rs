//! State transition model of the fuel-relay search graph.
//!
//! A node of the graph is a `State`: a canonical key (position plus the
//! amounts of fuel cached on the ground at every position) together with the
//! amount of fuel currently carried. One step of the search moves one
//! position forward or backward (consuming one unit), greedily picks up fuel
//! from the ground, and then drops any chosen amount back down.

use vstd::prelude::*;

verus! {

/// Mathematical model of a canonical key: a position and the ground piles.
#[verifier::ext_equal]
pub struct KeyV {
    pub x: int,
    pub piles: Seq<int>,
}

/// Mathematical model of a full search node: key plus carried fuel.
#[verifier::ext_equal]
pub struct StateV {
    pub key: KeyV,
    pub held: int,
}

/// Canonical key of a search node: position and pile vector. Two states with
/// the same key are interchangeable except for the carried amount, which is
/// not part of identity.
pub struct StateKey {
    /// Position, in `[0, d)`.
    pub x: u16,
    /// Fuel cached on the ground, one slot per position.
    pub piles: Vec<u16>,
}

/// A full search node: canonical key plus carried fuel.
pub struct State {
    pub inner: StateKey,
    pub held: u16,
}

impl View for StateKey {
    type V = KeyV;

    open spec fn view(&self) -> KeyV {
        KeyV { x: self.x as int, piles: self.piles@.map_values(|p: u16| p as int) }
    }
}

impl View for State {
    type V = StateV;

    open spec fn view(&self) -> StateV {
        StateV { key: self.inner@, held: self.held as int }
    }
}

impl Clone for StateKey {
    fn clone(&self) -> (r: Self)
        ensures
            r@ == self@,
    {
        StateKey { x: self.x, piles: self.piles.clone() }
    }
}

impl Clone for State {
    fn clone(&self) -> (r: Self)
        ensures
            r@ == self@,
    {
        State { inner: self.inner.clone(), held: self.held }
    }
}

/// A key is well formed for distance `d` when its position is on the road
/// and it has exactly one (non-negative) pile slot per position.
pub open spec fn key_wf(k: KeyV, d: int) -> bool {
    &&& 0 <= k.x < d
    &&& k.piles.len() == d
    &&& forall|i: int| 0 <= i < d ==> 0 <= #[trigger] k.piles[i]
}

/// A state is well formed when its key is and the carried amount is within
/// capacity.
pub open spec fn state_wf(s: StateV, d: int, c: int) -> bool {
    &&& key_wf(s.key, d)
    &&& 0 <= s.held <= c
}

/// Total fuel on the ground.
pub open spec fn sum_piles(p: Seq<int>) -> int
    decreases p.len(),
{
    if p.len() == 0 {
        0
    } else {
        sum_piles(p.drop_last()) + p.last()
    }
}

/// Total fuel of a state: carried plus everything on the ground. Each search
/// step consumes exactly one unit of it.
pub open spec fn fuel_of(s: StateV) -> int {
    s.held + sum_piles(s.key.piles)
}

pub proof fn lemma_sum_nonneg(p: Seq<int>)
    requires
        forall|i: int| 0 <= i < p.len() ==> 0 <= #[trigger] p[i],
    ensures
        0 <= sum_piles(p),
    decreases p.len(),
{
    if p.len() > 0 {
        lemma_sum_nonneg(p.drop_last());
    }
}

/// A single non-negative entry never exceeds the total.
pub proof fn lemma_entry_le_sum(p: Seq<int>, i: int)
    requires
        forall|j: int| 0 <= j < p.len() ==> 0 <= #[trigger] p[j],
        0 <= i < p.len(),
    ensures
        p[i] <= sum_piles(p),
    decreases p.len(),
{
    if i + 1 == p.len() {
        lemma_sum_nonneg(p.drop_last());
    } else {
        lemma_entry_le_sum(p.drop_last(), i);
    }
}

/// Updating one entry changes the total by the difference.
pub proof fn lemma_sum_update(p: Seq<int>, i: int, v: int)
    requires
        0 <= i < p.len(),
    ensures
        sum_piles(p.update(i, v)) == sum_piles(p) - p[i] + v,
    decreases p.len(),
{
    if i + 1 == p.len() {
        assert(p.update(i, v).drop_last() =~= p.drop_last());
    } else {
        lemma_sum_update(p.drop_last(), i, v);
        assert(p.update(i, v).drop_last() =~= p.drop_last().update(i, v));
    }
}

/// One step forward: position advances, one unit is consumed.
pub open spec fn step_fwd(s: StateV) -> StateV {
    StateV { key: KeyV { x: s.key.x + 1, piles: s.key.piles }, held: s.held - 1 }
}

/// One step backward: position recedes, one unit is consumed.
pub open spec fn step_bwd(s: StateV) -> StateV {
    StateV { key: KeyV { x: s.key.x - 1, piles: s.key.piles }, held: s.held - 1 }
}

/// The candidate moves out of a state: forward then backward, each permitted
/// only with fuel in hand and a destination inside `[0, d)`.
pub open spec fn moves_of(s: StateV, d: int) -> Seq<StateV> {
    if s.held <= 0 {
        Seq::empty()
    } else {
        (if s.key.x + 1 < d {
            seq![step_fwd(s)]
        } else {
            Seq::empty()
        }) + (if s.key.x > 0 {
            seq![step_bwd(s)]
        } else {
            Seq::empty()
        })
    }
}

/// Amount greedily collected from the ground after a move: as much as fits.
pub open spec fn pickup_amount(s: StateV, c: int) -> int {
    if c - s.held <= s.key.piles[s.key.x] {
        c - s.held
    } else {
        s.key.piles[s.key.x]
    }
}

/// State after the greedy pickup at the current position.
pub open spec fn pickup_of(s: StateV, c: int) -> StateV {
    let a = pickup_amount(s, c);
    StateV {
        key: KeyV { x: s.key.x, piles: s.key.piles.update(s.key.x, s.key.piles[s.key.x] - a) },
        held: s.held + a,
    }
}

/// State after dropping `amount` units back onto the ground here.
pub open spec fn drop_of(s: StateV, amount: int) -> StateV {
    StateV {
        key: KeyV {
            x: s.key.x,
            piles: s.key.piles.update(s.key.x, s.key.piles[s.key.x] + amount),
        },
        held: s.held - amount,
    }
}

/// All drop choices after a move `m` followed by the greedy pickup:
/// one successor per dropped amount in `[0, held]`.
pub open spec fn branch_of(m: StateV, c: int) -> Seq<StateV> {
    Seq::new((pickup_of(m, c).held + 1) as nat, |a: int| drop_of(pickup_of(m, c), a))
}

/// Branches of a sequence of moves, in move order.
pub open spec fn branches_of(ms: Seq<StateV>, c: int) -> Seq<StateV>
    decreases ms.len(),
{
    if ms.len() == 0 {
        Seq::empty()
    } else {
        branch_of(ms.first(), c) + branches_of(ms.drop_first(), c)
    }
}

/// All successors of a state: every drop choice of every legal move.
pub open spec fn succs_of(s: StateV, d: int, c: int) -> Seq<StateV> {
    branches_of(moves_of(s, d), c)
}

/// The views of a sequence of concrete states.
pub open spec fn views_of(v: Seq<State>) -> Seq<StateV> {
    v.map_values(|s: State| s@)
}

proof fn lemma_views_push(s: Seq<State>, t: State)
    ensures
        views_of(s.push(t)) == views_of(s).push(t@),
{
    assert(views_of(s.push(t)) =~= views_of(s).push(t@));
}

proof fn lemma_concat_push(a: Seq<StateV>, b: Seq<StateV>, x: StateV)
    ensures
        (a + b).push(x) == a + b.push(x),
{
    assert((a + b).push(x) =~= a + b.push(x));
}

impl State {
    /// Candidate moves: step forward, then step backward, each only if a unit
    /// of fuel is in hand and the destination stays within `[0, d)`.
    pub fn moves(&self, d: u16) -> (r: Vec<State>)
        requires
            self@.key.x < d,
        ensures
            views_of(r@) == moves_of(self@, d as int),
    {
        let mut r: Vec<State> = Vec::new();
        if self.held > 0 {
            if self.inner.x + 1 < d {
                r.push(
                    State {
                        inner: StateKey { x: self.inner.x + 1, piles: self.inner.piles.clone() },
                        held: self.held - 1,
                    },
                );
            }
            if self.inner.x > 0 {
                r.push(
                    State {
                        inner: StateKey { x: self.inner.x - 1, piles: self.inner.piles.clone() },
                        held: self.held - 1,
                    },
                );
            }
        }
        proof {
            assert(views_of(r@) =~~= moves_of(self@, d as int));
        }
        r
    }

    /// Greedily collect `min(c - held, pile)` units from the ground pile at
    /// the current position, removing them from the pile.
    pub fn pickup(&mut self, c: u16)
        requires
            old(self)@.key.x < old(self)@.key.piles.len(),
            old(self).held <= c,
        ensures
            final(self)@ == pickup_of(old(self)@, c as int),
    {
        let x = self.inner.x as usize;
        let pile = self.inner.piles[x];
        let room = c - self.held;
        let take = if room <= pile {
            room
        } else {
            pile
        };
        self.held = self.held + take;
        self.inner.piles[x] = pile - take;
        proof {
            assert(self@.key.piles =~= pickup_of(old(self)@, c as int).key.piles);
            assert(self@ =~~= pickup_of(old(self)@, c as int));
        }
    }

    /// All successors: for each legal move, pick up greedily, then branch on
    /// every amount dropped back in `[0, held]`.
    pub fn successors(&self, d: u16, c: u16) -> (r: Vec<State>)
        requires
            state_wf(self@, d as int, c as int),
            forall|i: int|
                0 <= i < self@.key.piles.len() ==> #[trigger] self@.key.piles[i] + self@.held
                    <= u16::MAX,
        ensures
            views_of(r@) == succs_of(self@, d as int, c as int),
    {
        let mvs = self.moves(d);
        let ghost mvs_v = moves_of(self@, d as int);
        let mut r: Vec<State> = Vec::new();
        let mut i: usize = 0;
        proof {
            assert(views_of(r@) =~= Seq::<StateV>::empty());
            assert(mvs_v.take(0) =~= Seq::<StateV>::empty());
        }
        while i < mvs.len()
            invariant
                views_of(mvs@) == mvs_v,
                mvs_v == moves_of(self@, d as int),
                state_wf(self@, d as int, c as int),
                forall|k: int|
                    0 <= k < self@.key.piles.len() ==> #[trigger] self@.key.piles[k] + self@.held
                        <= u16::MAX,
                i <= mvs.len(),
                views_of(r@) == branches_of(mvs_v.take(i as int), c as int),
            decreases mvs.len() - i,
        {
            let ghost r_before = views_of(r@);
            let ghost mv = mvs_v[i as int];
            let mut m = mvs[i].clone();
            proof {
                assert(views_of(mvs@)[i as int] == mvs@[i as int]@);
                assert(m@ == mv);
                lemma_moves_within(self@, d as int, c as int);
                assert(key_wf(mv.key, d as int));
                assert(mv.key.piles == self@.key.piles);
                assert(mv.key.piles[mv.key.x] + mv.held <= u16::MAX);
            }
            m.pickup(c);
            proof {
                assert(m@ == pickup_of(mv, c as int));
                lemma_pickup_bounds(mv, d as int, c as int);
            }
            let ghost p = m@;
            let mut amount: u16 = 0;
            proof {
                assert(r_before + branch_of(mv, c as int).take(0) =~= r_before);
            }
            while amount < m.held
                invariant
                    m@ == p,
                    p == pickup_of(mv, c as int),
                    amount <= m.held,
                    m.held == p.held,
                    0 <= p.key.x < p.key.piles.len(),
                    p.key.piles[p.key.x] + p.held <= u16::MAX,
                    views_of(r@) == r_before + branch_of(mv, c as int).take(amount as int),
                decreases m.held - amount,
            {
                let t = with_drop(&m, amount);
                let ghost r_pre = r@;
                r.push(t);
                proof {
                    lemma_views_push(r_pre, t);
                    lemma_concat_push(
                        r_before,
                        branch_of(mv, c as int).take(amount as int),
                        drop_of(p, amount as int),
                    );
                    assert(branch_of(mv, c as int).take(amount as int).push(
                        drop_of(p, amount as int),
                    ) =~= branch_of(mv, c as int).take(amount as int + 1));
                    assert(views_of(r@) == r_before + branch_of(mv, c as int).take(
                        amount as int + 1,
                    ));
                }
                amount = amount + 1;
            }
            let t = with_drop(&m, m.held);
            let ghost r_pre = r@;
            r.push(t);
            proof {
                lemma_views_push(r_pre, t);
                lemma_concat_push(
                    r_before,
                    branch_of(mv, c as int).take(p.held),
                    drop_of(p, p.held),
                );
                assert(branch_of(mv, c as int).take(p.held).push(drop_of(p, p.held))
                    =~= branch_of(mv, c as int));
                assert(views_of(r@) == r_before + branch_of(mv, c as int));
                assert(mvs_v.take(i as int).push(mv) =~= mvs_v.take(i as int + 1));
                lemma_branches_snoc(mvs_v.take(i as int), mv, c as int);
            }
            i = i + 1;
        }
        proof {
            assert(mvs_v.take(mvs@.len() as int) =~= mvs_v);
        }
        r
    }
}

/// Copy of `p` with `amount` units moved from hand to the ground here.
fn with_drop(p: &State, amount: u16) -> (t: State)
    requires
        amount <= p.held,
        0 <= p@.key.x < p@.key.piles.len(),
        p@.key.piles[p@.key.x] + amount <= u16::MAX,
    ensures
        t@ == drop_of(p@, amount as int),
{
    let mut t = p.clone();
    t.held = t.held - amount;
    let tx = t.inner.x as usize;
    let cur = t.inner.piles[tx];
    t.inner.piles[tx] = cur + amount;
    proof {
        assert(t@.key.piles =~= drop_of(p@, amount as int).key.piles);
        assert(t@ =~~= drop_of(p@, amount as int));
    }
    t
}

/// Every move of a well-formed state keeps the key on the road and consumes
/// exactly one unit from the hand.
pub proof fn lemma_moves_within(s: StateV, d: int, c: int)
    requires
        state_wf(s, d, c),
    ensures
        forall|i: int|
            0 <= i < moves_of(s, d).len() ==> {
                let m = #[trigger] moves_of(s, d)[i];
                &&& key_wf(m.key, d)
                &&& 0 <= m.held < s.held
                &&& m.held == s.held - 1
                &&& m.key.piles == s.key.piles
            },
{
}

/// After a move from a well-formed state, the greedy pickup stays within
/// capacity, keeps the pile non-negative, and conserves fuel; the pile slot
/// plus the hand still fits the word size.
pub proof fn lemma_pickup_bounds(m: StateV, d: int, c: int)
    requires
        key_wf(m.key, d),
        0 <= m.held <= c,
        m.key.piles[m.key.x] + m.held <= u16::MAX,
    ensures
        ({
            let p = pickup_of(m, c);
            &&& 0 <= p.held <= c
            &&& p.key.x == m.key.x
            &&& p.key.piles.len() == m.key.piles.len()
            &&& 0 <= p.key.piles[p.key.x]
            &&& p.key.piles[p.key.x] + p.held == m.key.piles[m.key.x] + m.held
            &&& p.key.piles[p.key.x] + p.held <= u16::MAX
            &&& fuel_of(p) == fuel_of(m)
        }),
{
    lemma_sum_update(m.key.piles, m.key.x, m.key.piles[m.key.x] - pickup_amount(m, c));
}

/// Every successor in one branch is well formed and carries exactly the
/// fuel of the move it came from.
proof fn lemma_branch_wf_fuel(m: StateV, d: int, c: int)
    requires
        key_wf(m.key, d),
        0 <= m.held <= c,
    ensures
        forall|j: int|
            0 <= j < branch_of(m, c).len() ==> state_wf(#[trigger] branch_of(m, c)[j], d, c)
                && fuel_of(branch_of(m, c)[j]) == fuel_of(m),
{
    let p = pickup_of(m, c);
    lemma_sum_update(m.key.piles, m.key.x, m.key.piles[m.key.x] - pickup_amount(m, c));
    assert forall|j: int|
        0 <= j < branch_of(m, c).len() implies state_wf(#[trigger] branch_of(m, c)[j], d, c)
        && fuel_of(branch_of(m, c)[j]) == fuel_of(m) by {
        let t = drop_of(p, j);
        assert(branch_of(m, c)[j] == t);
        lemma_sum_update(p.key.piles, p.key.x, p.key.piles[p.key.x] + j);
        assert(forall|i: int|
            0 <= i < d ==> 0 <= #[trigger] t.key.piles[i]);
    }
}

/// Every successor of a sequence of moves that share a fuel level `f` is
/// well formed and carries exactly `f`.
proof fn lemma_branches_wf_fuel(ms: Seq<StateV>, d: int, c: int, f: int)
    requires
        forall|j: int|
            0 <= j < ms.len() ==> key_wf((#[trigger] ms[j]).key, d) && 0 <= ms[j].held <= c
                && fuel_of(ms[j]) == f,
    ensures
        forall|i: int|
            0 <= i < branches_of(ms, c).len() ==> state_wf(#[trigger] branches_of(ms, c)[i], d, c)
                && fuel_of(branches_of(ms, c)[i]) == f,
    decreases ms.len(),
{
    if ms.len() > 0 {
        assert(ms[0] == ms.first());
        lemma_branch_wf_fuel(ms.first(), d, c);
        assert(forall|j: int|
            0 <= j < ms.drop_first().len() ==> #[trigger] ms.drop_first()[j] == ms[j + 1]);
        lemma_branches_wf_fuel(ms.drop_first(), d, c, f);
        assert forall|i: int|
            0 <= i < branches_of(ms, c).len() implies state_wf(
            #[trigger] branches_of(ms, c)[i],
            d,
            c,
        ) && fuel_of(branches_of(ms, c)[i]) == f by {
            let head = branch_of(ms.first(), c);
            if i < head.len() {
                assert(branches_of(ms, c)[i] == head[i]);
            } else {
                assert(branches_of(ms, c)[i] == branches_of(ms.drop_first(), c)[i - head.len()]);
            }
        }
    }
}

/// Every successor of a well-formed state is well formed and carries one
/// unit less total fuel: fuel is consumed, never created.
pub proof fn lemma_successors_wf_fuel(s: StateV, d: int, c: int)
    requires
        state_wf(s, d, c),
    ensures
        forall|i: int|
            0 <= i < succs_of(s, d, c).len() ==> state_wf(#[trigger] succs_of(s, d, c)[i], d, c)
                && fuel_of(succs_of(s, d, c)[i]) == fuel_of(s) - 1,
{
    lemma_moves_within(s, d, c);
    lemma_branches_wf_fuel(moves_of(s, d), d, c, fuel_of(s) - 1);
}

proof fn lemma_branches_x(ms: Seq<StateV>, c: int, xb: int)
    requires
        forall|j: int| 0 <= j < ms.len() ==> (#[trigger] ms[j]).key.x <= xb,
    ensures
        forall|i: int|
            0 <= i < branches_of(ms, c).len() ==> (#[trigger] branches_of(ms, c)[i]).key.x <= xb,
    decreases ms.len(),
{
    if ms.len() > 0 {
        assert(ms[0] == ms.first());
        assert(forall|j: int|
            0 <= j < ms.drop_first().len() ==> #[trigger] ms.drop_first()[j] == ms[j + 1]);
        lemma_branches_x(ms.drop_first(), c, xb);
        assert forall|i: int|
            0 <= i < branches_of(ms, c).len() implies (#[trigger] branches_of(ms, c)[i]).key.x
            <= xb by {
            let head = branch_of(ms.first(), c);
            if i < head.len() {
                assert(branches_of(ms, c)[i] == head[i]);
            } else {
                assert(branches_of(ms, c)[i] == branches_of(ms.drop_first(), c)[i - head.len()]);
            }
        }
    }
}

/// A step moves at most one position forward: no successor outruns the
/// road by more than the step it took.
pub proof fn lemma_successors_x(s: StateV, d: int, c: int)
    ensures
        forall|i: int|
            0 <= i < succs_of(s, d, c).len() ==> (#[trigger] succs_of(s, d, c)[i]).key.x <= s.key.x
                + 1,
{
    lemma_branches_x(moves_of(s, d), c, s.key.x + 1);
}

/// A state's fuel is non-negative, so no state survives past the round that
/// would exhaust it.
pub proof fn lemma_fuel_nonneg(s: StateV, d: int, c: int)
    requires
        state_wf(s, d, c),
    ensures
        fuel_of(s) >= 0,
{
    lemma_sum_nonneg(s.key.piles);
}

/// Appending one move appends its branch.
pub proof fn lemma_branches_snoc(ms: Seq<StateV>, m: StateV, c: int)
    ensures
        branches_of(ms.push(m), c) == branches_of(ms, c) + branch_of(m, c),
    decreases ms.len(),
{
    if ms.len() == 0 {
        assert(ms.push(m).first() == m);
        assert(ms.push(m).drop_first() =~= Seq::<StateV>::empty());
        assert(branches_of(ms.push(m), c) == branch_of(m, c) + branches_of(
            Seq::<StateV>::empty(),
            c,
        ));
        assert(branch_of(m, c) + Seq::<StateV>::empty() =~= branch_of(m, c));
        assert(branches_of(ms, c) + branch_of(m, c) =~= branch_of(m, c));
    } else {
        assert(ms.push(m).first() == ms.first());
        assert(ms.push(m).drop_first() =~= ms.drop_first().push(m));
        lemma_branches_snoc(ms.drop_first(), m, c);
        assert((branch_of(ms.first(), c) + branches_of(ms.drop_first(), c)) + branch_of(m, c)
            =~= branch_of(ms.first(), c) + (branches_of(ms.drop_first(), c) + branch_of(m, c)));
    }
}

} // verus!
