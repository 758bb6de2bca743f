//! Plan-level optimality: the search deduplicates by canonical key, so a
//! rediscovered key is pruned together with all its continuations. This
//! module shows the pruning loses nothing. A state that keeps more fuel in
//! hand over the same or larger ground piles *dominates*: it can imitate
//! every transition of the poorer state while staying at least as rich. A
//! key is only ever pruned in favour of a same-key state with more in hand,
//! so every state of the full transition closure is dominated by a state
//! the search visits — and the reported optimum bounds every plan.

use vstd::prelude::*;

use crate::rounds::{
    frontier_at, init_state_v, is_best_value, keys_of, lemma_distance_cost,
    lemma_frontier_wf_fuel, lemma_init_state, lemma_monotonic, lemma_visited_member,
    lemma_visited_wf_fuel, reachable, succ_set, visited_at,
};
use crate::state::{
    branch_of, branches_of, drop_of, key_wf, lemma_successors_wf_fuel, lemma_sum_nonneg,
    moves_of, pickup_of, state_wf, step_bwd, step_fwd, succs_of, KeyV, StateV,
};

verus! {

/// Domination order: same position, pointwise no smaller ground piles, no
/// less fuel in hand.
pub open spec fn state_leq(s: StateV, t: StateV) -> bool {
    &&& s.key.x == t.key.x
    &&& s.key.piles.len() == t.key.piles.len()
    &&& forall|i: int| 0 <= i < s.key.piles.len() ==> #[trigger] s.key.piles[i] <= t.key.piles[i]
    &&& s.held <= t.held
}

/// A plan: `s` is reached from `init` by exactly `n` transitions.
pub open spec fn plan_reaches(d: int, c: int, init: StateV, s: StateV, n: nat) -> bool
    decreases n,
{
    if n == 0 {
        s == init
    } else {
        exists|p: StateV|
            plan_reaches(d, c, init, p, (n - 1) as nat) && #[trigger] succs_of(p, d, c).contains(
                s,
            )
    }
}

/// Every plan state is well formed.
pub proof fn lemma_plan_wf(d: int, c: int, b: int, s: StateV, n: nat)
    requires
        1 <= d,
        0 <= c,
        0 <= b,
        plan_reaches(d, c, init_state_v(d, c, b), s, n),
    ensures
        state_wf(s, d, c),
    decreases n,
{
    if n == 0 {
        lemma_init_state(d, c, b);
    } else {
        let p = choose|p: StateV|
            plan_reaches(d, c, init_state_v(d, c, b), p, (n - 1) as nat) && #[trigger] succs_of(
                p,
                d,
                c,
            ).contains(s);
        lemma_plan_wf(d, c, b, p, (n - 1) as nat);
        lemma_successors_wf_fuel(p, d, c);
        let i = choose|i: int| 0 <= i < succs_of(p, d, c).len() && succs_of(p, d, c)[i] == s;
        assert(succs_of(p, d, c)[i] == s);
    }
}

/// The moves of two dominated states pair up: same direction, same keys as
/// their origins, one unit less in hand each.
spec fn move_leq(ms: StateV, mt: StateV, d: int, c: int) -> bool {
    &&& key_wf(ms.key, d)
    &&& key_wf(mt.key, d)
    &&& ms.key.x == mt.key.x
    &&& ms.key.piles.len() == mt.key.piles.len()
    &&& forall|i: int| 0 <= i < ms.key.piles.len() ==> #[trigger] ms.key.piles[i]
        <= mt.key.piles[i]
    &&& 0 <= ms.held <= mt.held <= c
}

/// The richer move can answer any drop choice of the poorer one: pick up
/// greedily, then drop just enough to match the poorer pile, keeping the
/// surplus in hand. Capacity never binds because the greedy pickup tops
/// both hands off against the same limit.
proof fn lemma_branch_dominates(ms: StateV, mt: StateV, d: int, c: int, a: int)
    requires
        move_leq(ms, mt, d, c),
        0 <= a < branch_of(ms, c).len(),
    ensures
        exists|ap: int|
            0 <= ap < branch_of(mt, c).len() && state_leq(
                branch_of(ms, c)[a],
                #[trigger] branch_of(mt, c)[ap],
            ),
{
    let x = ms.key.x;
    let ps = pickup_of(ms, c);
    let pt = pickup_of(mt, c);
    let rs = ps.key.piles[x];
    let rt = pt.key.piles[x];
    assert(ps.held + rs == ms.held + ms.key.piles[x]);
    assert(pt.held + rt == mt.held + mt.key.piles[x]);
    assert(ms.key.piles[x] <= mt.key.piles[x]);
    assert(ps.held <= pt.held && 0 <= rs <= rt && ps.held <= c && pt.held <= c && 0 <= ps.held);
    let sp = drop_of(ps, a);
    assert(branch_of(ms, c)[a] == sp);
    let ap = if rs + a >= rt {
        rs + a - rt
    } else {
        0
    };
    assert(rs + a <= rs + ps.held);
    assert(0 <= ap && ap <= pt.held);
    let tp = drop_of(pt, ap);
    assert(branch_of(mt, c)[ap] == tp);
    assert(state_leq(sp, tp)) by {
        assert forall|i: int|
            0 <= i < sp.key.piles.len() implies #[trigger] sp.key.piles[i] <= tp.key.piles[i] by {
            if i == x {
                assert(sp.key.piles[i] == rs + a);
                assert(tp.key.piles[i] == rt + ap);
            } else {
                assert(sp.key.piles[i] == ms.key.piles[i]);
                assert(tp.key.piles[i] == mt.key.piles[i]);
            }
        }
        assert(sp.held == ps.held - a);
        assert(tp.held == pt.held - ap);
    }
    assert(0 <= ap < branch_of(mt, c).len() && state_leq(
        branch_of(ms, c)[a],
        branch_of(mt, c)[ap],
    ));
}

/// Branch domination lifted over a sequence of paired moves.
proof fn lemma_branches_dominate(mss: Seq<StateV>, mts: Seq<StateV>, d: int, c: int, i: int)
    requires
        mss.len() == mts.len(),
        forall|q: int| 0 <= q < mss.len() ==> move_leq(#[trigger] mss[q], mts[q], d, c),
        0 <= i < branches_of(mss, c).len(),
    ensures
        exists|j: int|
            0 <= j < branches_of(mts, c).len() && state_leq(
                branches_of(mss, c)[i],
                #[trigger] branches_of(mts, c)[j],
            ),
    decreases mss.len(),
{
    assert(mss.len() > 0);
    let hs = branch_of(mss.first(), c);
    let ht = branch_of(mts.first(), c);
    assert(move_leq(mss[0], mts[0], d, c));
    if i < hs.len() {
        lemma_branch_dominates(mss.first(), mts.first(), d, c, i);
        let ap = choose|ap: int|
            0 <= ap < ht.len() && state_leq(hs[i], #[trigger] ht[ap]);
        assert(branches_of(mts, c)[ap] == ht[ap]);
        assert(branches_of(mss, c)[i] == hs[i]);
        assert(0 <= ap < branches_of(mts, c).len() && state_leq(
            branches_of(mss, c)[i],
            branches_of(mts, c)[ap],
        ));
    } else {
        assert(forall|q: int|
            0 <= q < mss.drop_first().len() ==> #[trigger] mss.drop_first()[q] == mss[q + 1]
                && mts.drop_first()[q] == mts[q + 1]);
        lemma_branches_dominate(mss.drop_first(), mts.drop_first(), d, c, i - hs.len());
        let j = choose|j: int|
            0 <= j < branches_of(mts.drop_first(), c).len() && state_leq(
                branches_of(mss.drop_first(), c)[i - hs.len()],
                #[trigger] branches_of(mts.drop_first(), c)[j],
            );
        assert(branches_of(mss, c)[i] == branches_of(mss.drop_first(), c)[i - hs.len()]);
        assert(branches_of(mts, c)[ht.len() + j] == branches_of(mts.drop_first(), c)[j]);
        assert(0 <= ht.len() + j < branches_of(mts, c).len() && state_leq(
            branches_of(mss, c)[i],
            branches_of(mts, c)[ht.len() + j],
        ));
    }
}

/// Domination survives one transition: whatever the poorer state does, the
/// richer one has a successor that still dominates.
pub proof fn lemma_succs_dominate(s: StateV, t: StateV, sp: StateV, d: int, c: int)
    requires
        state_wf(s, d, c),
        state_wf(t, d, c),
        state_leq(s, t),
        succs_of(s, d, c).contains(sp),
    ensures
        exists|tp: StateV| #[trigger] succs_of(t, d, c).contains(tp) && state_leq(sp, tp),
{
    assert(s.held > 0) by {
        if s.held <= 0 {
            assert(moves_of(s, d).len() == 0);
            assert(succs_of(s, d, c).len() == 0);
        }
    }
    assert(t.held > 0);
    let mss = moves_of(s, d);
    let mts = moves_of(t, d);
    assert(mss.len() == mts.len() && forall|q: int|
        0 <= q < mss.len() ==> move_leq(#[trigger] mss[q], mts[q], d, c)) by {
        if s.key.x + 1 < d && s.key.x > 0 {
            assert(mss =~= seq![step_fwd(s), step_bwd(s)]);
            assert(mts =~= seq![step_fwd(t), step_bwd(t)]);
        } else if s.key.x + 1 < d {
            assert(mss =~= seq![step_fwd(s)]);
            assert(mts =~= seq![step_fwd(t)]);
        } else if s.key.x > 0 {
            assert(mss =~= seq![step_bwd(s)]);
            assert(mts =~= seq![step_bwd(t)]);
        } else {
            assert(mss =~= Seq::<StateV>::empty());
            assert(mts =~= Seq::<StateV>::empty());
        }
    }
    let i = choose|i: int| 0 <= i < succs_of(s, d, c).len() && succs_of(s, d, c)[i] == sp;
    lemma_branches_dominate(mss, mts, d, c, i);
    let j = choose|j: int|
        0 <= j < branches_of(mts, c).len() && state_leq(
            branches_of(mss, c)[i],
            #[trigger] branches_of(mts, c)[j],
        );
    assert(succs_of(t, d, c)[j] == branches_of(mts, c)[j]);
    assert(succs_of(t, d, c).contains(branches_of(mts, c)[j]));
}

/// Every state any plan can reach is dominated by a state the search
/// visits: pruning a rediscovered key in favour of the richer first
/// discovery loses no continuation.
pub proof fn lemma_plan_dominated(d: int, c: int, b: int, s: StateV, n: nat)
    requires
        1 <= d,
        0 <= c,
        0 <= b,
        plan_reaches(d, c, init_state_v(d, c, b), s, n),
    ensures
        exists|u: StateV| #[trigger] reachable(d, c, b).contains(u) && state_leq(s, u),
    decreases n,
{
    lemma_visited_member(d, c, b, (b + 1) as nat);
    if n == 0 {
        assert(frontier_at(d, c, b, 0).contains(s));
        assert(reachable(d, c, b).contains(s));
        assert(state_leq(s, s));
    } else {
        let p = choose|p: StateV|
            plan_reaches(d, c, init_state_v(d, c, b), p, (n - 1) as nat) && #[trigger] succs_of(
                p,
                d,
                c,
            ).contains(s);
        lemma_plan_dominated(d, c, b, p, (n - 1) as nat);
        let u = choose|u: StateV| #[trigger] reachable(d, c, b).contains(u) && state_leq(p, u);
        lemma_plan_wf(d, c, b, p, (n - 1) as nat);
        lemma_visited_wf_fuel(d, c, b, (b + 1) as nat);
        lemma_succs_dominate(p, u, s, d, c);
        let tp = choose|tp: StateV| #[trigger] succs_of(u, d, c).contains(tp) && state_leq(s, tp);
        // Place the dominating successor: it is either a fresh key, hence
        // itself visited, or its key was pruned in favour of a same-key
        // state with strictly more in hand.
        let q = choose|q: nat| q <= b + 1 && #[trigger] frontier_at(d, c, b, q).contains(u);
        assert(u.held > 0) by {
            if u.held <= 0 {
                assert(moves_of(u, d).len() == 0);
                assert(succs_of(u, d, c).len() == 0);
            }
        }
        assert(q < b + 1) by {
            lemma_frontier_wf_fuel(d, c, b, q);
            lemma_sum_nonneg(u.key.piles);
        }
        assert(succ_set(frontier_at(d, c, b, q), d, c).contains(tp)) by {
            assert(frontier_at(d, c, b, q).contains(u) && succs_of(u, d, c).contains(tp));
        }
        if !keys_of(visited_at(d, c, b, q)).contains(tp.key) {
            assert(frontier_at(d, c, b, (q + 1) as nat).contains(tp));
            assert(visited_at(d, c, b, (b + 1) as nat).contains(tp));
            assert(reachable(d, c, b).contains(tp) && state_leq(s, tp));
        } else {
            let v = choose|v: StateV|
                #[trigger] visited_at(d, c, b, q).contains(v) && v.key == tp.key;
            lemma_monotonic(d, c, b, q, v, tp);
            lemma_visited_member(d, c, b, q);
            let q2 = choose|q2: nat| q2 <= q && #[trigger] frontier_at(d, c, b, q2).contains(v);
            assert(visited_at(d, c, b, (b + 1) as nat).contains(v));
            assert(state_leq(s, v)) by {
                assert(tp.key.piles == v.key.piles);
            }
            assert(reachable(d, c, b).contains(v) && state_leq(s, v));
        }
    }
}

/// Conversely, every visited state is the end of an actual plan.
pub proof fn lemma_frontier_plan(d: int, c: int, b: int, r: nat)
    ensures
        forall|t: StateV| #[trigger] frontier_at(d, c, b, r).contains(t) ==> plan_reaches(
            d,
            c,
            init_state_v(d, c, b),
            t,
            r,
        ),
    decreases r,
{
    if r > 0 {
        lemma_frontier_plan(d, c, b, (r - 1) as nat);
        assert forall|t: StateV| #[trigger] frontier_at(d, c, b, r).contains(t) implies
            plan_reaches(d, c, init_state_v(d, c, b), t, r) by {
            let p = choose|p: StateV|
                #[trigger] frontier_at(d, c, b, (r - 1) as nat).contains(p) && succs_of(
                    p,
                    d,
                    c,
                ).contains(t);
            assert(plan_reaches(d, c, init_state_v(d, c, b), p, (r - 1) as nat) && succs_of(
                p,
                d,
                c,
            ).contains(t));
        }
    }
}

/// Optimality of the search result: no finite sequence of transitions from
/// the start delivers more to the final position than any value meeting
/// the engine's characterization, and whenever that value is positive some
/// plan attains it.
pub proof fn lemma_best_is_optimal(d: int, c: int, b: int, v: int)
    requires
        1 <= d,
        0 <= c,
        0 <= b,
        is_best_value(v, d, c, b),
    ensures
        forall|s: StateV, n: nat|
            #[trigger] plan_reaches(d, c, init_state_v(d, c, b), s, n) && s.key.x == d - 1
                ==> s.held <= v,
        v > 0 ==> exists|s: StateV, n: nat|
            #[trigger] plan_reaches(d, c, init_state_v(d, c, b), s, n) && s.key.x == d - 1
                && s.held == v,
{
    assert forall|s: StateV, n: nat|
        #[trigger] plan_reaches(d, c, init_state_v(d, c, b), s, n) && s.key.x == d - 1 implies
        s.held <= v by {
        lemma_plan_dominated(d, c, b, s, n);
        let u = choose|u: StateV| #[trigger] reachable(d, c, b).contains(u) && state_leq(s, u);
        assert(u.key.x == d - 1 && u.held <= v);
    }
    if v > 0 {
        let t = choose|t: StateV|
            #[trigger] reachable(d, c, b).contains(t) && t.key.x == d - 1 && t.held == v;
        lemma_visited_member(d, c, b, (b + 1) as nat);
        let q = choose|q: nat| q <= b + 1 && #[trigger] frontier_at(d, c, b, q).contains(t);
        lemma_frontier_plan(d, c, b, q);
        assert(plan_reaches(d, c, init_state_v(d, c, b), t, q) && t.key.x == d - 1 && t.held
            == v);
    }
}


/// The state of a direct trip after `k` steps: `k` positions from the
/// start, the whole supply in hand less one unit per step, nothing on the
/// ground.
pub open spec fn trip_state(d: int, b: int, k: int) -> StateV {
    StateV { key: KeyV { x: k, piles: Seq::new(d as nat, |i: int| 0) }, held: b - k }
}

/// When one load carries the whole supply, the direct trip is a legal
/// plan: step forward `k` times, consuming one unit each.
pub proof fn lemma_direct_trip(d: int, c: int, b: int, k: int)
    requires
        1 <= d,
        0 <= b <= c,
        0 <= k <= d - 1,
        k <= b,
    ensures
        plan_reaches(d, c, init_state_v(d, c, b), trip_state(d, b, k), k as nat),
    decreases k,
{
    let init = init_state_v(d, c, b);
    if k == 0 {
        assert(trip_state(d, b, 0).key.piles =~= init.key.piles);
        assert(trip_state(d, b, 0) == init);
    } else {
        lemma_direct_trip(d, c, b, k - 1);
        let prev = trip_state(d, b, k - 1);
        let cur = trip_state(d, b, k);
        // The forward move is legal: fuel in hand and road ahead.
        assert(prev.held == b - k + 1 >= 1);
        assert(prev.key.x + 1 == k < d);
        let m = step_fwd(prev);
        assert(moves_of(prev, d)[0] == m);
        assert(moves_of(prev, d).len() >= 1);
        // Nothing lies on the ground, so the greedy pickup takes nothing
        // and dropping nothing leaves the trip state.
        let p = pickup_of(m, c);
        assert(m.key.piles[k] == 0);
        assert(p.held == m.held && p.key.piles =~= m.key.piles.update(k, 0));
        let t0 = drop_of(p, 0);
        assert(branch_of(m, c)[0] == t0);
        assert(t0.key.piles =~= cur.key.piles);
        assert(t0 == cur);
        // The first branch of the first move sits at the front of the
        // successor list.
        assert(branches_of(moves_of(prev, d), c)[0] == branch_of(
            moves_of(prev, d).first(),
            c,
        )[0]);
        assert(succs_of(prev, d, c)[0] == cur);
        assert(succs_of(prev, d, c).contains(cur));
        assert(plan_reaches(d, c, init, prev, (k - 1) as nat) && succs_of(prev, d, c).contains(
            cur,
        ));
    }
}

/// The single-trip scenario: when the capacity holds the whole supply and
/// the supply covers the distance, the optimum is exactly the supply less
/// one unit per step of road. Outside this scope the claim fails: with
/// more supply than capacity, relaying costs extra trips, and with less
/// supply than road the far end is out of reach.
pub proof fn lemma_single_trip_value(d: int, c: int, b: int, v: int)
    requires
        1 <= d,
        d - 1 <= b <= c,
        is_best_value(v, d, c, b),
    ensures
        v == b - (d - 1),
{
    // The direct trip reaches the far end, so some visited state there
    // carries at least its hand.
    lemma_direct_trip(d, c, b, d - 1);
    lemma_plan_dominated(d, c, b, trip_state(d, b, d - 1), (d - 1) as nat);
    let u = choose|u: StateV|
        #[trigger] reachable(d, c, b).contains(u) && state_leq(trip_state(d, b, d - 1), u);
    assert(u.key.x == d - 1 && u.held >= b - (d - 1));
    assert(v >= b - (d - 1));
    // And no delivery beats the cost of the distance.
    if v > 0 {
        lemma_distance_cost(d, c, b, v);
    }
}

} // verus!
