//! Mathematical model of the synchronized search, round by round.
//!
//! The frontier of round `r + 1` is every successor of round `r`'s frontier
//! whose canonical key has not been visited before; the visited set
//! accumulates the frontiers. Nothing here mentions workers, shards or
//! hashes: the model fixes the outcome of the search from the problem
//! parameters alone, which is what makes the engine's result independent of
//! how many workers explored the graph.

use vstd::prelude::*;

use crate::state::{
    fuel_of, lemma_fuel_nonneg, lemma_successors_wf_fuel, lemma_successors_x, lemma_sum_nonneg,
    state_wf, succs_of, sum_piles, KeyV, StateV,
};

verus! {

/// The start state: standing at the origin, carrying as much as fits, the
/// rest cached on the ground at the origin.
pub open spec fn init_state_v(d: int, c: int, b: int) -> StateV {
    let h = if b <= c {
        b
    } else {
        c
    };
    StateV {
        key: KeyV {
            x: 0,
            piles: Seq::new(
                d as nat,
                |i: int|
                    if i == 0 {
                        b - h
                    } else {
                        0
                    },
            ),
        },
        held: h,
    }
}

/// Every successor of every state of `f`.
pub open spec fn succ_set(f: Set<StateV>, d: int, c: int) -> Set<StateV> {
    Set::new(
        |t: StateV| exists|s: StateV| #[trigger] f.contains(s) && succs_of(s, d, c).contains(t),
    )
}

/// The canonical keys of a set of states.
pub open spec fn keys_of(ss: Set<StateV>) -> Set<KeyV> {
    Set::new(|k: KeyV| exists|t: StateV| #[trigger] ss.contains(t) && t.key == k)
}

/// The frontier of round `r`: at round zero just the start state, and
/// afterwards every successor of the previous frontier whose key is new.
pub open spec fn frontier_at(d: int, c: int, b: int, r: nat) -> Set<StateV>
    decreases r, 0nat,
{
    if r == 0 {
        Set::empty().insert(init_state_v(d, c, b))
    } else {
        Set::new(
            |t: StateV|
                succ_set(frontier_at(d, c, b, (r - 1) as nat), d, c).contains(t) && !keys_of(
                    visited_at(d, c, b, (r - 1) as nat),
                ).contains(t.key),
        )
    }
}

/// Everything discovered in rounds `0..=r`.
pub open spec fn visited_at(d: int, c: int, b: int, r: nat) -> Set<StateV>
    decreases r, 1nat,
{
    if r == 0 {
        frontier_at(d, c, b, 0)
    } else {
        visited_at(d, c, b, (r - 1) as nat) + frontier_at(d, c, b, r)
    }
}

/// The sum of a pile vector that carries everything at the origin.
proof fn lemma_sum_init(d: int, v: int)
    requires
        1 <= d,
    ensures
        sum_piles(
            Seq::new(
                d as nat,
                |i: int|
                    if i == 0 {
                        v
                    } else {
                        0
                    },
            ),
        ) == v,
    decreases d,
{
    let p = Seq::new(
        d as nat,
        |i: int|
            if i == 0 {
                v
            } else {
                0
            },
    );
    if d == 1 {
        assert(p.drop_last() =~= Seq::<int>::empty());
        assert(sum_piles(Seq::<int>::empty()) == 0);
        assert(p.last() == v);
    } else {
        let q = Seq::new(
            (d - 1) as nat,
            |i: int|
                if i == 0 {
                    v
                } else {
                    0
                },
        );
        assert(p.drop_last() =~= q);
        lemma_sum_init(d - 1, v);
        assert(p.last() == 0);
        assert(sum_piles(p) == sum_piles(q) + p.last());
    }
}

/// The start state is well formed and carries the whole supply as fuel.
pub proof fn lemma_init_state(d: int, c: int, b: int)
    requires
        1 <= d,
        0 <= c,
        0 <= b,
    ensures
        state_wf(init_state_v(d, c, b), d, c),
        fuel_of(init_state_v(d, c, b)) == b,
        init_state_v(d, c, b).key.x == 0,
{
    let s = init_state_v(d, c, b);
    lemma_sum_init(d, s.key.piles[0]);
}

/// Round conservation: every frontier state of round `r` is well formed and
/// carries total fuel of exactly `b - r`, because each of the `r` steps that
/// reached it consumed one unit.
pub proof fn lemma_frontier_wf_fuel(d: int, c: int, b: int, r: nat)
    requires
        1 <= d,
        0 <= c,
        0 <= b,
    ensures
        forall|t: StateV| #[trigger] frontier_at(d, c, b, r).contains(t) ==> state_wf(t, d, c)
            && fuel_of(t) == b - r,
    decreases r,
{
    if r == 0 {
        lemma_init_state(d, c, b);
    } else {
        lemma_frontier_wf_fuel(d, c, b, (r - 1) as nat);
        assert forall|t: StateV| #[trigger] frontier_at(d, c, b, r).contains(t) implies state_wf(
            t,
            d,
            c,
        ) && fuel_of(t) == b - r by {
            let f0 = frontier_at(d, c, b, (r - 1) as nat);
            let s = choose|s: StateV| #[trigger] f0.contains(s) && succs_of(s, d, c).contains(t);
            lemma_successors_wf_fuel(s, d, c);
            let i = choose|i: int| 0 <= i < succs_of(s, d, c).len() && succs_of(s, d, c)[i] == t;
            assert(succs_of(s, d, c)[i] == t);
        }
    }
}

/// Same conservation for any successor of round `r`'s frontier, before the
/// novelty filter.
pub proof fn lemma_succ_set_wf_fuel(d: int, c: int, b: int, r: nat)
    requires
        1 <= d,
        0 <= c,
        0 <= b,
    ensures
        forall|t: StateV| #[trigger] succ_set(frontier_at(d, c, b, r), d, c).contains(t)
            ==> state_wf(t, d, c) && fuel_of(t) == b - r - 1,
{
    lemma_frontier_wf_fuel(d, c, b, r);
    assert forall|t: StateV| #[trigger] succ_set(frontier_at(d, c, b, r), d, c).contains(t) implies
        state_wf(t, d, c) && fuel_of(t) == b - r - 1 by {
        let f0 = frontier_at(d, c, b, r);
        let s = choose|s: StateV| #[trigger] f0.contains(s) && succs_of(s, d, c).contains(t);
        lemma_successors_wf_fuel(s, d, c);
        let i = choose|i: int| 0 <= i < succs_of(s, d, c).len() && succs_of(s, d, c)[i] == t;
        assert(succs_of(s, d, c)[i] == t);
    }
}

/// A state is visited by round `r` exactly when some round up to `r`
/// discovered it.
pub proof fn lemma_visited_member(d: int, c: int, b: int, r: nat)
    ensures
        forall|t: StateV| #[trigger] visited_at(d, c, b, r).contains(t) <==> exists|q: nat|
            q <= r && #[trigger] frontier_at(d, c, b, q).contains(t),
    decreases r,
{
    if r == 0 {
        assert forall|t: StateV| #[trigger] visited_at(d, c, b, r).contains(t) implies exists|
            q: nat,
        |
            q <= r && #[trigger] frontier_at(d, c, b, q).contains(t) by {
            assert(frontier_at(d, c, b, 0).contains(t));
        }
    } else {
        lemma_visited_member(d, c, b, (r - 1) as nat);
        assert forall|t: StateV| #[trigger] visited_at(d, c, b, r).contains(t) implies exists|
            q: nat,
        |
            q <= r && #[trigger] frontier_at(d, c, b, q).contains(t) by {
            if visited_at(d, c, b, (r - 1) as nat).contains(t) {
                let q = choose|q: nat|
                    q <= r - 1 && #[trigger] frontier_at(d, c, b, q).contains(t);
                assert(q <= r && frontier_at(d, c, b, q).contains(t));
            } else {
                assert(frontier_at(d, c, b, r).contains(t));
            }
        }
        assert forall|t: StateV, q: nat|
            q <= r && #[trigger] frontier_at(d, c, b, q).contains(t) implies visited_at(
            d,
            c,
            b,
            r,
        ).contains(t) by {
            if q <= r - 1 {
                assert(visited_at(d, c, b, (r - 1) as nat).contains(t));
            }
        }
    }
}

/// Every visited state is well formed, and its fuel dates its discovery: at
/// least `b - r`, at most `b`.
pub proof fn lemma_visited_wf_fuel(d: int, c: int, b: int, r: nat)
    requires
        1 <= d,
        0 <= c,
        0 <= b,
    ensures
        forall|t: StateV| #[trigger] visited_at(d, c, b, r).contains(t) ==> state_wf(t, d, c)
            && b - r <= fuel_of(t) <= b,
{
    lemma_visited_member(d, c, b, r);
    assert forall|t: StateV| #[trigger] visited_at(d, c, b, r).contains(t) implies state_wf(
        t,
        d,
        c,
    ) && b - r <= fuel_of(t) <= b by {
        let q = choose|q: nat| q <= r && #[trigger] frontier_at(d, c, b, q).contains(t);
        lemma_frontier_wf_fuel(d, c, b, q);
        lemma_fuel_nonneg(t, d, c);
    }
}

/// Once a round's frontier is empty, the search is over for good: every
/// later frontier is empty and the visited set never changes again.
pub proof fn lemma_stable_after_empty(d: int, c: int, b: int, r: nat, q: nat)
    requires
        frontier_at(d, c, b, r) == Set::<StateV>::empty(),
        r <= q,
    ensures
        frontier_at(d, c, b, q) == Set::<StateV>::empty(),
        visited_at(d, c, b, q) == visited_at(d, c, b, r),
    decreases q - r,
{
    if q > r {
        lemma_stable_after_empty(d, c, b, r, (q - 1) as nat);
        assert(frontier_at(d, c, b, q) =~= Set::<StateV>::empty()) by {
            assert forall|t: StateV| !frontier_at(d, c, b, q).contains(t) by {
                if succ_set(frontier_at(d, c, b, (q - 1) as nat), d, c).contains(t) {
                    let s = choose|s: StateV|
                        #[trigger] frontier_at(d, c, b, (q - 1) as nat).contains(s) && succs_of(
                            s,
                            d,
                            c,
                        ).contains(t);
                }
            }
        }
        assert(visited_at(d, c, b, q) =~= visited_at(d, c, b, (q - 1) as nat));
    }
}

/// No state outlives its fuel: past round `b` every frontier is empty.
pub proof fn lemma_frontier_exhausted(d: int, c: int, b: int, r: nat)
    requires
        1 <= d,
        0 <= c,
        0 <= b,
        b < r,
    ensures
        frontier_at(d, c, b, r) == Set::<StateV>::empty(),
{
    lemma_frontier_wf_fuel(d, c, b, r);
    assert(frontier_at(d, c, b, r) =~= Set::<StateV>::empty()) by {
        assert forall|t: StateV| !frontier_at(d, c, b, r).contains(t) by {
            if frontier_at(d, c, b, r).contains(t) {
                lemma_fuel_nonneg(t, d, c);
            }
        }
    }
}

/// A round's frontier is part of what has been visited by that round.
pub proof fn lemma_frontier_sub_visited(d: int, c: int, b: int, r: nat)
    ensures
        forall|t: StateV| #[trigger] frontier_at(d, c, b, r).contains(t) ==> visited_at(
            d,
            c,
            b,
            r,
        ).contains(t),
{
    if r == 0 {
    } else {
        assert(visited_at(d, c, b, r) == visited_at(d, c, b, (r - 1) as nat) + frontier_at(
            d,
            c,
            b,
            r,
        ));
    }
}

/// Everything the search discovers: the key-deduplicated visited set once
/// it has stabilized (no round past `b` adds a state, because each round
/// consumes one unit of the supply). Deduplication loses nothing: every
/// state any transition sequence can reach is dominated by a member of
/// this set, which is what makes its maximum the true optimum — see the
/// domination argument alongside the plan model.
pub open spec fn reachable(d: int, c: int, b: int) -> Set<StateV> {
    visited_at(d, c, b, (b + 1) as nat)
}

/// Position is bounded by the round: each round advances at most one step.
pub proof fn lemma_frontier_position(d: int, c: int, b: int, r: nat)
    ensures
        forall|t: StateV| #[trigger] frontier_at(d, c, b, r).contains(t) ==> t.key.x <= r,
    decreases r,
{
    if r > 0 {
        lemma_frontier_position(d, c, b, (r - 1) as nat);
        assert forall|t: StateV| #[trigger] frontier_at(d, c, b, r).contains(t) implies t.key.x
            <= r by {
            let f0 = frontier_at(d, c, b, (r - 1) as nat);
            let s = choose|s: StateV| #[trigger] f0.contains(s) && succs_of(s, d, c).contains(t);
            lemma_successors_x(s, d, c);
            let i = choose|i: int| 0 <= i < succs_of(s, d, c).len() && succs_of(s, d, c)[i] == t;
            assert(succs_of(s, d, c)[i] == t);
        }
    }
}

/// The cost of distance: a delivery to the far end consumes at least one
/// unit per step of road, so no positive optimum exceeds the supply minus
/// the steps traveled.
pub proof fn lemma_distance_cost(d: int, c: int, b: int, v: int)
    requires
        1 <= d,
        0 <= c,
        0 <= b,
        is_best_value(v, d, c, b),
        v > 0,
    ensures
        v <= b - (d - 1),
{
    let t = choose|t: StateV|
        #[trigger] reachable(d, c, b).contains(t) && t.key.x == d - 1 && t.held == v;
    lemma_visited_member(d, c, b, (b + 1) as nat);
    let q = choose|q: nat| q <= b + 1 && #[trigger] frontier_at(d, c, b, q).contains(t);
    lemma_frontier_position(d, c, b, q);
    lemma_frontier_wf_fuel(d, c, b, q);
    lemma_sum_nonneg(t.key.piles);
}

/// Every reachable state is well formed: the carried amount lies between
/// zero and the capacity, and every pile entry is non-negative.
pub proof fn lemma_reachable_wf(d: int, c: int, b: int)
    requires
        1 <= d,
        0 <= c,
        0 <= b,
    ensures
        forall|t: StateV| #[trigger] reachable(d, c, b).contains(t) ==> state_wf(t, d, c),
{
    lemma_visited_wf_fuel(d, c, b, (b + 1) as nat);
}

/// What the optimal deliverable amount is: an upper bound on the carried
/// amount of every reachable state at the final position, attained by one
/// of them whenever it is positive.
pub open spec fn is_best_value(v: int, d: int, c: int, b: int) -> bool {
    &&& 0 <= v
    &&& forall|t: StateV| #[trigger] reachable(d, c, b).contains(t) && t.key.x == d - 1
        ==> t.held <= v
    &&& v > 0 ==> exists|t: StateV|
        #[trigger] reachable(d, c, b).contains(t) && t.key.x == d - 1 && t.held == v
}

/// The optimal value is unique: any two values that both satisfy the
/// characterization are equal, whatever run produced them. This is what
/// makes the reported optimum independent of the worker count.
pub proof fn lemma_best_value_unique(d: int, c: int, b: int, v1: int, v2: int)
    requires
        is_best_value(v1, d, c, b),
        is_best_value(v2, d, c, b),
    ensures
        v1 == v2,
{
    if v1 < v2 {
        let t = choose|t: StateV|
            #[trigger] reachable(d, c, b).contains(t) && t.key.x == d - 1 && t.held == v2;
        assert(t.held <= v1);
    }
    if v2 < v1 {
        let t = choose|t: StateV|
            #[trigger] reachable(d, c, b).contains(t) && t.key.x == d - 1 && t.held == v1;
        assert(t.held <= v2);
    }
}

/// The first all-empty round is unique.
pub proof fn lemma_termination_round_unique(d: int, c: int, b: int, r1: nat, r2: nat)
    requires
        frontier_at(d, c, b, r1) == Set::<StateV>::empty(),
        forall|q: nat| q < r1 ==> frontier_at(d, c, b, q) != Set::<StateV>::empty(),
        frontier_at(d, c, b, r2) == Set::<StateV>::empty(),
        forall|q: nat| q < r2 ==> frontier_at(d, c, b, q) != Set::<StateV>::empty(),
    ensures
        r1 == r2,
{
    if r1 < r2 {
        assert(frontier_at(d, c, b, r1) != Set::<StateV>::empty());
    }
    if r2 < r1 {
        assert(frontier_at(d, c, b, r2) != Set::<StateV>::empty());
    }
}

/// Two states of one round that share a key are one state: with the round
/// fixed, the key's pile total determines the carried amount.
pub proof fn lemma_same_round_same_key(d: int, c: int, b: int, r: nat, t1: StateV, t2: StateV)
    requires
        1 <= d,
        0 <= c,
        0 <= b,
        succ_set(frontier_at(d, c, b, r), d, c).contains(t1),
        succ_set(frontier_at(d, c, b, r), d, c).contains(t2),
        t1.key == t2.key,
    ensures
        t1 == t2,
{
    lemma_succ_set_wf_fuel(d, c, b, r);
}

/// The monotonic-first-discovery invariant: a state already visited by
/// round `r` carries strictly more fuel in hand than any successor of round
/// `r`'s frontier with the same key, because the older state kept more of
/// the supply.
pub proof fn lemma_monotonic(d: int, c: int, b: int, r: nat, u: StateV, t: StateV)
    requires
        1 <= d,
        0 <= c,
        0 <= b,
        visited_at(d, c, b, r).contains(u),
        succ_set(frontier_at(d, c, b, r), d, c).contains(t),
        u.key == t.key,
    ensures
        u.held > t.held,
{
    lemma_visited_wf_fuel(d, c, b, r);
    lemma_succ_set_wf_fuel(d, c, b, r);
}

} // verus!
