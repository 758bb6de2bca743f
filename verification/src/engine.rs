//! The search engine: frontier expansion, routing by sharding hash,
//! first-write-wins insertion into the partitioned visited table, the
//! round barrier with its termination vote, and the final aggregation.

use vstd::prelude::*;

use crate::answer::{
    answer_inv, answer_insert, lemma_answer_extend_inv, lemma_answer_insert_inv, Answer, AnswerV,
};
use crate::coordinator::Coordinator;
use crate::hashing::{shard_of, shard_of_spec};
use crate::rounds::{
    frontier_at, init_state_v, is_best_value, keys_of, lemma_frontier_exhausted,
    lemma_frontier_sub_visited, lemma_frontier_wf_fuel, lemma_init_state, lemma_monotonic,
    lemma_same_round_same_key, lemma_stable_after_empty, lemma_succ_set_wf_fuel,
    lemma_visited_wf_fuel, reachable, succ_set, visited_at,
};
use crate::shard::{opt_view, InsertOutcome, MetaV, Shard, StateMeta};
use crate::state::{
    fuel_of, lemma_entry_le_sum, state_wf, succs_of, views_of, KeyV, State, StateKey, StateV,
};

verus! {

/// Every state held in a family of frontier vectors.
pub open spec fn fr_states(fs: Seq<Vec<State>>) -> Set<StateV> {
    Set::new(
        |t: StateV|
            exists|i: int, j: int|
                0 <= i < fs.len() && 0 <= j < fs[i]@.len() && (#[trigger] fs[i]@[j])@ == t,
    )
}

/// The states of workers before `i`, plus the first `j` states of worker `i`.
pub open spec fn fr_states_upto(fs: Seq<Vec<State>>, i: int, j: int) -> Set<StateV> {
    Set::new(
        |t: StateV|
            exists|a: int, k: int|
                0 <= a < fs.len() && 0 <= k < fs[a]@.len() && (a < i || (a == i && k < j))
                    && (#[trigger] fs[a]@[k])@ == t,
    )
}

/// The successor of every routed pair.
pub open spec fn pair_succs(ps: Seq<(State, State)>) -> Set<StateV> {
    Set::new(
        |t: StateV| exists|idx: int| 0 <= idx < ps.len() && ((#[trigger] ps[idx]).1)@ == t,
    )
}

/// The states a single shard's map stands for.
pub open spec fn shard_states(m: Map<KeyV, MetaV>) -> Set<StateV> {
    Set::new(|t: StateV| m.dom().contains(t.key) && m[t.key].held == t.held)
}

/// The states the whole partitioned table stands for.
pub open spec fn table_states(sh: Seq<Shard>) -> Set<StateV> {
    Set::new(
        |t: StateV|
            exists|i: int| 0 <= i < sh.len() && (#[trigger] shard_states(sh[i]@)).contains(t),
    )
}

/// Table sanity: every shard well formed and every key stored in the shard
/// its hash selects.
pub open spec fn shards_wf(sh: Seq<Shard>, w: int) -> bool {
    &&& sh.len() == w
    &&& forall|i: int| 0 <= i < w ==> (#[trigger] sh[i]).wf()
    &&& forall|i: int, k: KeyV|
        0 <= i < w && (#[trigger] sh[i]@.dom().contains(k)) ==> shard_of_spec(k, w) == i
}

/// Path-reconstruction soundness: every stored record except the start's
/// names a visited predecessor of which the stored state is a successor.
pub open spec fn meta_ok(sh: Seq<Shard>, d: int, c: int, init_k: KeyV) -> bool {
    forall|i: int, k: KeyV|
        0 <= i < sh.len() && (#[trigger] sh[i]@.dom().contains(k)) ==> {
            let m = sh[i]@[k];
            match m.prev {
                Option::None => k == init_k,
                Option::Some(p) => table_states(sh).contains(p) && succs_of(p, d, c).contains(
                    (StateV { key: k, held: m.held }),
                ),
            }
        }
}

/// Inserting a fresh key into a shard map adds exactly that state.
proof fn lemma_shard_states_insert(m: Map<KeyV, MetaV>, k: KeyV, v: MetaV)
    requires
        !m.dom().contains(k),
    ensures
        shard_states(m.insert(k, v)) == shard_states(m).insert(
            (StateV { key: k, held: v.held }),
        ),
{
    assert(shard_states(m.insert(k, v)) =~= shard_states(m).insert(
        (StateV { key: k, held: v.held }),
    ));
}

/// In a sane table, a key is in the table exactly when it is in its owning
/// shard, and then the table holds one state with that key: the stored one.
proof fn lemma_table_lookup(sh: Seq<Shard>, w: int, k: KeyV)
    requires
        shards_wf(sh, w),
        1 <= w,
        0 <= shard_of_spec(k, w) < w,
    ensures
        keys_of(table_states(sh)).contains(k) <==> sh[shard_of_spec(k, w)]@.dom().contains(k),
        sh[shard_of_spec(k, w)]@.dom().contains(k) ==> table_states(sh).contains(
            (StateV { key: k, held: sh[shard_of_spec(k, w)]@[k].held }),
        ),
        forall|t: StateV| #[trigger] table_states(sh).contains(t) && t.key == k ==> t.held
            == sh[shard_of_spec(k, w)]@[k].held,
{
    let j = shard_of_spec(k, w);
    if sh[j]@.dom().contains(k) {
        let u = StateV { key: k, held: sh[j]@[k].held };
        assert(shard_states(sh[j]@).contains(u));
        assert(table_states(sh).contains(u));
        assert(keys_of(table_states(sh)).contains(k));
    }
    if keys_of(table_states(sh)).contains(k) {
        let t = choose|t: StateV| #[trigger] table_states(sh).contains(t) && t.key == k;
        let i = choose|i: int| 0 <= i < sh.len() && (#[trigger] shard_states(sh[i]@)).contains(t);
        assert(sh[i]@.dom().contains(k));
    }
    assert forall|t: StateV| #[trigger] table_states(sh).contains(t) && t.key == k implies t.held
        == sh[j]@[k].held by {
        let i = choose|i: int| 0 <= i < sh.len() && (#[trigger] shard_states(sh[i]@)).contains(t);
        assert(sh[i]@.dom().contains(k));
    }
}

/// Build the start state: carry what fits, cache the rest at the origin.
fn make_init(d: u16, c: u16, b: u16) -> (r: State)
    requires
        1 <= d,
    ensures
        r@ == init_state_v(d as int, c as int, b as int),
{
    let held = if b <= c {
        b
    } else {
        c
    };
    let mut piles: Vec<u16> = Vec::new();
    piles.push(b - held);
    let mut i: usize = 1;
    while i < d as usize
        invariant
            1 <= i <= d,
            piles@.len() == i,
            piles@[0] == b - held,
            forall|j: int| 1 <= j < i ==> piles@[j] == 0,
        decreases d - i,
    {
        piles.push(0);
        i = i + 1;
    }
    let r = State { inner: StateKey { x: 0, piles }, held };
    proof {
        assert(r@.key.piles =~= init_state_v(d as int, c as int, b as int).key.piles);
        assert(r@ =~~= init_state_v(d as int, c as int, b as int));
    }
    r
}

/// Append a state to the vector at `i`, leaving the others alone.
fn vec_push_at(vs: &mut Vec<Vec<State>>, i: usize, s: State)
    requires
        i < old(vs)@.len(),
    ensures
        final(vs)@.len() == old(vs)@.len(),
        forall|a: int| 0 <= a < old(vs)@.len() && a != i ==> final(vs)@[a] == old(vs)@[a],
        final(vs)@[i as int]@ == old(vs)@[i as int]@.push(s),
{
    let ghost before = vs@;
    let mut inner = vs.remove(i);
    inner.push(s);
    vs.insert(i, inner);
    proof {
        assert(vs@ =~= before.update(i as int, vs@[i as int]));
    }
}

/// Record a state in the record of the worker at `i`.
fn answer_insert_at(answers: &mut Vec<Answer>, i: usize, state: &State, d: u16)
    requires
        i < old(answers)@.len(),
        1 <= d,
    ensures
        final(answers)@.len() == old(answers)@.len(),
        forall|a: int| 0 <= a < old(answers)@.len() && a != i ==> final(answers)@[a] == old(
            answers,
        )@[a],
        final(answers)@[i as int]@ == answer_insert(old(answers)@[i as int]@, state@, d as int),
{
    let ghost before = answers@;
    let mut inner = answers.remove(i);
    inner.insert(state, d);
    answers.insert(i, inner);
    proof {
        assert(answers@ =~= before.update(i as int, answers@[i as int]));
    }
}

/// Route one state to its owning shard and attempt the first-write-wins
/// insertion there.
fn table_insert(shards: &mut Vec<Shard>, w: usize, prev: Option<State>, state: State) -> (r:
    InsertOutcome)
    requires
        shards_wf(old(shards)@, w as int),
        1 <= w,
    ensures
        shards_wf(final(shards)@, w as int),
        ({
            let j = shard_of_spec(state@.key, w as int);
            &&& 0 <= j < w
            &&& forall|a: int| 0 <= a < w && a != j ==> final(shards)@[a] == old(shards)@[a]
            &&& match r {
                InsertOutcome::Inserted => {
                    &&& !old(shards)@[j]@.dom().contains(state@.key)
                    &&& final(shards)@[j]@ == old(shards)@[j]@.insert(
                        state@.key,
                        (MetaV { prev: opt_view(prev), held: state@.held }),
                    )
                    &&& final(shards)@[j].entries@.len() == old(shards)@[j].entries@.len() + 1
                },
                InsertOutcome::Discarded => {
                    &&& old(shards)@[j]@.dom().contains(state@.key)
                    &&& old(shards)@[j]@[state@.key].held >= state@.held
                    &&& final(shards)@ == old(shards)@
                },
                InsertOutcome::Violation => {
                    &&& old(shards)@[j]@.dom().contains(state@.key)
                    &&& old(shards)@[j]@[state@.key].held < state@.held
                    &&& final(shards)@ == old(shards)@
                },
            }
        }),
{
    let ghost before = shards@;
    let j = shard_of(&state.inner, w);
    let mut sh = shards.remove(j);
    let r = sh.insert(prev, state);
    shards.insert(j, sh);
    proof {
        assert(shards@ =~= before.update(j as int, shards@[j as int]));
        match r {
            InsertOutcome::Discarded => {
                assert(shards@ =~= before);
            },
            InsertOutcome::Violation => {
                assert(shards@ =~= before);
            },
            InsertOutcome::Inserted => {},
        }
        assert forall|i: int, k: KeyV|
            0 <= i < w && (#[trigger] shards@[i]@.dom().contains(k)) implies shard_of_spec(
            k,
            w as int,
        ) == i by {
            if i == j {
                if !before[j as int]@.dom().contains(k) {
                    assert(k == state@.key);
                }
            }
        }
    }
    r
}

/// Expand every frontier state and collect one (predecessor, successor)
/// pair per successor, in worker order. Routing is uniform: every pair goes
/// through the message list, even one destined for the worker that made it.
#[verifier::loop_isolation(false)]
fn expand(frontiers: &Vec<Vec<State>>, d: u16, c: u16) -> (pairs: Vec<(State, State)>)
    requires
        1 <= d,
        forall|t: StateV| #[trigger] fr_states(frontiers@).contains(t) ==> state_wf(
            t,
            d as int,
            c as int,
        ) && fuel_of(t) <= u16::MAX,
    ensures
        forall|idx: int|
            0 <= idx < pairs@.len() ==> {
                &&& fr_states(frontiers@).contains((#[trigger] pairs@[idx]).0@)
                &&& succs_of(pairs@[idx].0@, d as int, c as int).contains(pairs@[idx].1@)
            },
        pair_succs(pairs@) == succ_set(fr_states(frontiers@), d as int, c as int),
{
    let ghost di = d as int;
    let ghost ci = c as int;
    let mut pairs: Vec<(State, State)> = Vec::new();
    let mut i: usize = 0;
    while i < frontiers.len()
        invariant
            i <= frontiers@.len(),
            forall|idx: int|
                0 <= idx < pairs@.len() ==> {
                    &&& fr_states(frontiers@).contains((#[trigger] pairs@[idx]).0@)
                    &&& succs_of(pairs@[idx].0@, di, ci).contains(pairs@[idx].1@)
                },
            forall|s: StateV, t: StateV|
                fr_states_upto(frontiers@, i as int, 0).contains(s) && (#[trigger] succs_of(
                    s,
                    di,
                    ci,
                )).contains(t) ==> #[trigger] pair_succs(pairs@).contains(t),
        decreases frontiers@.len() - i,
    {
        let row_len = frontiers[i].len();
        let mut j: usize = 0;
        while j < row_len
            invariant
                i < frontiers@.len(),
                j <= frontiers@[i as int]@.len(),
                row_len == frontiers@[i as int]@.len(),
                forall|idx: int|
                    0 <= idx < pairs@.len() ==> {
                        &&& fr_states(frontiers@).contains((#[trigger] pairs@[idx]).0@)
                        &&& succs_of(pairs@[idx].0@, di, ci).contains(pairs@[idx].1@)
                    },
                forall|s: StateV, t: StateV|
                    fr_states_upto(frontiers@, i as int, j as int).contains(s) && (
                    #[trigger] succs_of(s, di, ci)).contains(t) ==> #[trigger] pair_succs(
                        pairs@,
                    ).contains(t),
            decreases row_len - j,
        {
            let s = &frontiers[i][j];
            proof {
                assert(fr_states(frontiers@).contains(s@));
                assert forall|idx: int|
                    0 <= idx < s@.key.piles.len() implies #[trigger] s@.key.piles[idx] + s@.held
                    <= u16::MAX by {
                    lemma_entry_le_sum(s@.key.piles, idx);
                }
            }
            let succs = s.successors(d, c);
            let mut k: usize = 0;
            while k < succs.len()
                invariant
                    i < frontiers@.len(),
                    j < frontiers@[i as int]@.len(),
                    s == &frontiers@[i as int]@[j as int],
                    k <= succs@.len(),
                    views_of(succs@) == succs_of(s@, di, ci),
                    forall|idx: int|
                        0 <= idx < pairs@.len() ==> {
                            &&& fr_states(frontiers@).contains((#[trigger] pairs@[idx]).0@)
                            &&& succs_of(pairs@[idx].0@, di, ci).contains(pairs@[idx].1@)
                        },
                    forall|s2: StateV, t: StateV|
                        fr_states_upto(frontiers@, i as int, j as int).contains(s2) && (
                        #[trigger] succs_of(s2, di, ci)).contains(t) ==> #[trigger] pair_succs(
                            pairs@,
                        ).contains(t),
                    forall|q: int|
                        0 <= q < k ==> pair_succs(pairs@).contains(
                            #[trigger] succs_of(s@, di, ci)[q],
                        ),
                decreases succs@.len() - k,
            {
                let t = succs[k].clone();
                let ghost pairs_before = pairs@;
                proof {
                    assert(views_of(succs@)[k as int] == succs@[k as int]@);
                    assert(succs_of(s@, di, ci).contains(succs@[k as int]@)) by {
                        assert(succs_of(s@, di, ci)[k as int] == succs@[k as int]@);
                    }
                }
                pairs.push((s.clone(), t));
                proof {
                    assert forall|t2: StateV| pair_succs(pairs_before).contains(t2)
                        implies #[trigger] pair_succs(pairs@).contains(t2) by {
                        let idx = choose|idx: int|
                            0 <= idx < pairs_before.len() && ((#[trigger] pairs_before[idx]).1)@
                                == t2;
                        assert(pairs@[idx] == pairs_before[idx]);
                    }
                    assert(((pairs@[pairs@.len() - 1]).1)@ == succs_of(s@, di, ci)[k as int]);
                    assert(pair_succs(pairs@).contains(succs_of(s@, di, ci)[k as int]));
                }
                k = k + 1;
            }
            proof {
                assert forall|s2: StateV, t: StateV|
                    fr_states_upto(frontiers@, i as int, j as int + 1).contains(s2) && (
                    #[trigger] succs_of(s2, di, ci)).contains(t) implies #[trigger] pair_succs(
                    pairs@,
                ).contains(t) by {
                    if !fr_states_upto(frontiers@, i as int, j as int).contains(s2) {
                        let (a, kk) = choose|a: int, kk: int|
                            0 <= a < frontiers@.len() && 0 <= kk < frontiers@[a]@.len() && (a
                                < i as int || (a == i as int && kk < j as int + 1)) && (
                            #[trigger] frontiers@[a]@[kk])@ == s2;
                        assert(a == i as int && kk == j as int);
                        assert(s2 == s@);
                        let q = choose|q: int|
                            0 <= q < succs_of(s@, di, ci).len() && succs_of(s@, di, ci)[q] == t;
                        assert(pair_succs(pairs@).contains(succs_of(s@, di, ci)[q]));
                    }
                }
            }
            j = j + 1;
        }
        proof {
            assert forall|s2: StateV, t: StateV|
                fr_states_upto(frontiers@, i as int + 1, 0).contains(s2) && (#[trigger] succs_of(
                s2,
                di,
                ci,
            )).contains(t) implies #[trigger] pair_succs(pairs@).contains(t) by {
                let (a, kk) = choose|a: int, kk: int|
                    0 <= a < frontiers@.len() && 0 <= kk < frontiers@[a]@.len() && (a < i as int + 1
                        || (a == i as int + 1 && kk < 0)) && (#[trigger] frontiers@[a]@[kk])@ == s2;
                assert(fr_states_upto(frontiers@, i as int, row_len as int).contains(s2));
            }
        }
        i = i + 1;
    }
    proof {
        assert(pair_succs(pairs@) =~= succ_set(fr_states(frontiers@), di, ci)) by {
            assert forall|t: StateV| pair_succs(pairs@).contains(t) implies #[trigger] succ_set(
                fr_states(frontiers@),
                di,
                ci,
            ).contains(t) by {
                let idx = choose|idx: int|
                    0 <= idx < pairs@.len() && ((#[trigger] pairs@[idx]).1)@ == t;
                assert(fr_states(frontiers@).contains(pairs@[idx].0@) && succs_of(
                    pairs@[idx].0@,
                    di,
                    ci,
                ).contains(t));
            }
            assert forall|t: StateV| succ_set(fr_states(frontiers@), di, ci).contains(t)
                implies #[trigger] pair_succs(pairs@).contains(t) by {
                let s2 = choose|s2: StateV|
                    #[trigger] fr_states(frontiers@).contains(s2) && succs_of(s2, di, ci).contains(
                        t,
                    );
                let (a, kk) = choose|a: int, kk: int|
                    0 <= a < frontiers@.len() && 0 <= kk < frontiers@[a]@.len() && (
                    #[trigger] frontiers@[a]@[kk])@ == s2;
                assert(fr_states_upto(frontiers@, frontiers@.len() as int, 0).contains(s2));
            }
        }
    }
    pairs
}

/// The routed successors among the first `k` pairs whose key was new at
/// the start of the round.
pub open spec fn added_upto(ps: Seq<(State, State)>, k: int, vis: Set<StateV>) -> Set<StateV> {
    Set::new(
        |t: StateV|
            exists|idx: int|
                0 <= idx < k && idx < ps.len() && ((#[trigger] ps[idx]).1)@ == t && !keys_of(
                    vis,
                ).contains(t.key),
    )
}

/// The states of the first `i` shards.
pub open spec fn table_states_upto(sh: Seq<Shard>, i: int) -> Set<StateV> {
    Set::new(
        |t: StateV|
            exists|a: int|
                0 <= a < i && a < sh.len() && (#[trigger] shard_states(sh[a]@)).contains(t),
    )
}

/// Total number of records over a sequence of shards.
pub open spec fn sum_lens(sh: Seq<Shard>) -> int
    decreases sh.len(),
{
    if sh.len() == 0 {
        0
    } else {
        sum_lens(sh.drop_last()) + sh.last().entries@.len()
    }
}

proof fn lemma_sum_lens_take(sh: Seq<Shard>, i: int)
    requires
        0 <= i < sh.len(),
    ensures
        sum_lens(sh.take(i + 1)) == sum_lens(sh.take(i)) + sh[i].entries@.len(),
{
    assert(sh.take(i + 1).drop_last() =~= sh.take(i));
    assert(sh.take(i + 1).last() == sh[i]);
}

/// Shard ownership separates the keys: no state of the first `i` shards
/// shares a key with a state of shard `i`.
proof fn lemma_upto_disjoint(sh: Seq<Shard>, w: int, i: int)
    requires
        shards_wf(sh, w),
        0 <= i < w,
    ensures
        forall|t1: StateV, t2: StateV|
            #[trigger] table_states_upto(sh, i).contains(t1) && #[trigger] shard_states(
                sh[i]@,
            ).contains(t2) ==> t1.key != t2.key,
{
    assert forall|t1: StateV, t2: StateV|
        #[trigger] table_states_upto(sh, i).contains(t1) && #[trigger] shard_states(
            sh[i]@,
        ).contains(t2) implies t1.key != t2.key by {
        let a2 = choose|a2: int|
            0 <= a2 < i && a2 < sh.len() && (#[trigger] shard_states(sh[a2]@)).contains(t1);
        assert(sh[a2]@.dom().contains(t1.key));
        assert(sh[i]@.dom().contains(t2.key));
        assert(shard_of_spec(t1.key, w) == a2);
        assert(shard_of_spec(t2.key, w) == i);
    }
}

/// What a finished search hands back: the partitioned table for predecessor
/// lookups, the merged solution record, the number of rounds executed, and
/// the total number of distinct canonical states (the sum of shard sizes,
/// saturating at the word size).
pub struct Solved {
    pub shards: Vec<Shard>,
    pub answer: Answer,
    pub rounds: u32,
    pub total_states: usize,
}

impl Solved {
    /// Look up the stored record of a canonical key, for walking a path
    /// backward from a winning key to the start.
    pub fn lookup(&self, k: &StateKey) -> (r: Option<&StateMeta>)
        requires
            shards_wf(self.shards@, self.shards@.len() as int),
            self.shards@.len() >= 1,
        ensures
            match r {
                Option::Some(m) => {
                    let j = shard_of_spec(k@, self.shards@.len() as int);
                    &&& self.shards@[j]@.dom().contains(k@)
                    &&& self.shards@[j]@[k@] == m@
                    &&& keys_of(table_states(self.shards@)).contains(k@)
                    &&& table_states(self.shards@).contains((StateV { key: k@, held: m@.held }))
                },
                Option::None => !keys_of(table_states(self.shards@)).contains(k@),
            },
    {
        let w = self.shards.len();
        let j = shard_of(k, w);
        let r = self.shards[j].get(k);
        proof {
            lemma_table_lookup(self.shards@, w as int, k@);
        }
        r
    }
}

/// One barrier crossing for all logical workers: each worker whose
/// frontier was empty when the round began casts its stop vote, every
/// worker arrives, and the last arriver either preserves a unanimous vote
/// or clears the stale ones. Reports whether the vote was unanimous, which
/// is exactly "every frontier is empty this round".
#[verifier::loop_isolation(false)]
fn barrier_round(coord: &mut Coordinator, frontiers: &Vec<Vec<State>>, round: u32, w: usize) -> (
    all_empty: bool)
    requires
        1 <= w,
        w <= 0xffff_ffff,
        round <= 0x10000,
        old(coord).num_workers == w as u64,
        old(coord).progress == round as int * (w as int),
        old(coord).stop_votes == 0,
        frontiers@.len() == w as int,
    ensures
        final(coord).num_workers == w as u64,
        final(coord).cleanup == old(coord).cleanup,
        final(coord).progress == (round as int + 1) * (w as int),
        all_empty == (forall|a: int|
            0 <= a < w as int ==> (#[trigger] frontiers@[a])@.len() == 0),
        !all_empty ==> final(coord).stop_votes == 0,
{
    let ghost wi = w as int;
    let ghost cleanup0 = coord.cleanup;
    // Vote phase.
    let mut vi: usize = 0;
    while vi < w
        invariant
            vi <= w,
            coord.num_workers == w as u64,
            coord.progress == round as int * wi,
            coord.cleanup == cleanup0,
            coord.stop_votes <= vi,
            (coord.stop_votes == vi) == (forall|a: int|
                0 <= a < vi ==> (#[trigger] frontiers@[a])@.len() == 0),
        decreases w - vi,
    {
        if frontiers[vi].len() == 0 {
            coord.cast_vote();
        }
        vi = vi + 1;
    }
    let ghost votes_cast = coord.stop_votes;
    // Barrier phase.
    let mut ai: usize = 0;
    while ai < w
        invariant
            ai <= w,
            coord.num_workers == w as u64,
            coord.cleanup == cleanup0,
            coord.progress == round as int * wi + ai,
            ai < w ==> coord.stop_votes == votes_cast,
            ai == w ==> coord.stop_votes == if votes_cast == w as u64 {
                votes_cast as int
            } else {
                0
            },
        decreases w - ai,
    {
        proof {
            assert((round as int + 1) * wi == round as int * wi + wi) by (nonlinear_arith);
            assert((round as int + 1) * wi <= u64::MAX) by (nonlinear_arith)
                requires
                    0 <= round as int <= 0x10001,
                    0 <= wi <= 0x1_0000_0000,
            ;
        }
        let _last = coord.arrive(round as u64);
        ai = ai + 1;
    }
    proof {
        assert((round as int + 1) * wi == round as int * wi + wi) by (nonlinear_arith);
    }
    coord.terminated()
}

/// Growing one shard by one state grows the table by exactly that state.
proof fn lemma_table_grow(tbl0: Seq<Shard>, tbl1: Seq<Shard>, j: int, tv: StateV)
    requires
        0 <= j < tbl0.len(),
        tbl1.len() == tbl0.len(),
        forall|a: int| 0 <= a < tbl0.len() && a != j ==> tbl1[a] == tbl0[a],
        shard_states(tbl1[j]@) == shard_states(tbl0[j]@).insert(tv),
    ensures
        table_states(tbl1) == table_states(tbl0).insert(tv),
{
    assert(table_states(tbl1) =~= table_states(tbl0).insert(tv)) by {
        assert forall|t2: StateV| table_states(tbl1).contains(t2) implies table_states(
            tbl0,
        ).insert(tv).contains(t2) by {
            let a = choose|a: int|
                0 <= a < tbl1.len() && (#[trigger] shard_states(tbl1[a]@)).contains(t2);
            if a != j {
                assert(shard_states(tbl0[a]@).contains(t2));
            }
        }
        assert forall|t2: StateV| table_states(tbl0).insert(tv).contains(t2) implies table_states(
            tbl1,
        ).contains(t2) by {
            if t2 == tv {
                assert(shard_states(tbl1[j]@).contains(t2));
            } else {
                let a = choose|a: int|
                    0 <= a < tbl0.len() && (#[trigger] shard_states(tbl0[a]@)).contains(t2);
                assert(shard_states(tbl1[a]@).contains(t2));
            }
        }
    }
}

/// A fresh record whose predecessor is in the grown table keeps the
/// path-reconstruction invariant.
proof fn lemma_meta_ok_grow(
    tbl0: Seq<Shard>,
    tbl1: Seq<Shard>,
    d: int,
    c: int,
    ik: KeyV,
    j: int,
    tv: StateV,
    m: MetaV,
    pv: StateV,
)
    requires
        meta_ok(tbl0, d, c, ik),
        0 <= j < tbl0.len(),
        tbl1.len() == tbl0.len(),
        forall|a: int| 0 <= a < tbl0.len() && a != j ==> tbl1[a] == tbl0[a],
        tbl1[j]@ == tbl0[j]@.insert(tv.key, m),
        m.prev == Option::Some(pv),
        m.held == tv.held,
        table_states(tbl1).contains(pv),
        succs_of(pv, d, c).contains(tv),
        forall|t: StateV| table_states(tbl0).contains(t) ==> #[trigger] table_states(
            tbl1,
        ).contains(t),
    ensures
        meta_ok(tbl1, d, c, ik),
{
    assert forall|i2: int, k2: KeyV|
        0 <= i2 < tbl1.len() && (#[trigger] tbl1[i2]@.dom().contains(k2)) implies {
        let mm = tbl1[i2]@[k2];
        match mm.prev {
            Option::None => k2 == ik,
            Option::Some(p) => table_states(tbl1).contains(p) && succs_of(p, d, c).contains(
                (StateV { key: k2, held: mm.held }),
            ),
        }
    } by {
        if i2 == j && k2 == tv.key {
            assert(tbl1[i2]@[k2] == m);
            assert(StateV { key: k2, held: m.held } =~= tv);
        } else {
            assert(tbl0[i2]@.dom().contains(k2));
            let mm = tbl0[i2]@[k2];
            assert(tbl1[i2]@[k2] == mm);
            match mm.prev {
                Option::None => {},
                Option::Some(p) => {
                    assert(table_states(tbl0).contains(p));
                },
            }
        }
    }
}

/// A successor with a key nobody visited joins the round's additions.
proof fn lemma_fresh_added(d: int, c: int, b: int, r: nat, ps: Seq<(State, State)>, k: int, tv: StateV)
    requires
        0 <= k < ps.len(),
        tv == ps[k].1@,
        !keys_of(visited_at(d, c, b, r)).contains(tv.key),
    ensures
        added_upto(ps, k + 1, visited_at(d, c, b, r)) == added_upto(
            ps,
            k,
            visited_at(d, c, b, r),
        ).insert(tv),
{
    assert(added_upto(ps, k + 1, visited_at(d, c, b, r)) =~= added_upto(
        ps,
        k,
        visited_at(d, c, b, r),
    ).insert(tv));
}

/// A successor whose key the table already holds carries no more fuel than
/// the stored state, and adds nothing to the round's additions: the stored
/// state was found in an earlier round (strictly more fuel) or is this very
/// state routed twice in the same round.
proof fn lemma_present_key(
    d: int,
    c: int,
    b: int,
    r: nat,
    ps: Seq<(State, State)>,
    k: int,
    stored: StateV,
)
    requires
        1 <= d,
        0 <= c,
        0 <= b,
        0 <= k < ps.len(),
        forall|idx: int|
            0 <= idx < ps.len() ==> frontier_at(d, c, b, r).contains((#[trigger] ps[idx]).0@)
                && succs_of(ps[idx].0@, d, c).contains(ps[idx].1@),
        stored.key == ps[k].1@.key,
        visited_at(d, c, b, r).contains(stored) || added_upto(
            ps,
            k,
            visited_at(d, c, b, r),
        ).contains(stored),
    ensures
        stored.held >= ps[k].1@.held,
        added_upto(ps, k + 1, visited_at(d, c, b, r)) == added_upto(ps, k, visited_at(d, c, b, r)),
{
    let vis = visited_at(d, c, b, r);
    let fr = frontier_at(d, c, b, r);
    let tv = ps[k].1@;
    assert(succ_set(fr, d, c).contains(tv)) by {
        assert(fr.contains(ps[k].0@) && succs_of(ps[k].0@, d, c).contains(tv));
    }
    if vis.contains(stored) {
        lemma_monotonic(d, c, b, r, stored, tv);
        assert(keys_of(vis).contains(tv.key)) by {
            assert(vis.contains(stored) && stored.key == tv.key);
        }
        assert(added_upto(ps, k + 1, vis) =~= added_upto(ps, k, vis));
    } else {
        let idx = choose|idx: int|
            0 <= idx < k && idx < ps.len() && ((#[trigger] ps[idx]).1)@ == stored && !keys_of(
                vis,
            ).contains(stored.key);
        assert(succ_set(fr, d, c).contains(stored)) by {
            assert(fr.contains(ps[idx].0@) && succs_of(ps[idx].0@, d, c).contains(stored));
        }
        lemma_same_round_same_key(d, c, b, r, stored, tv);
        assert(added_upto(ps, k + 1, vis) =~= added_upto(ps, k, vis));
    }
}

/// Appending one state to one worker's next frontier adds exactly it.
proof fn lemma_fr_push(nf0: Seq<Vec<State>>, nf1: Seq<Vec<State>>, j: int, s: State)
    requires
        0 <= j < nf0.len(),
        nf1.len() == nf0.len(),
        forall|a: int| 0 <= a < nf0.len() && a != j ==> nf1[a] == nf0[a],
        nf1[j]@ == nf0[j]@.push(s),
    ensures
        fr_states(nf1) == fr_states(nf0).insert(s@),
{
    assert(fr_states(nf1) =~= fr_states(nf0).insert(s@)) by {
        assert forall|t2: StateV| fr_states(nf1).contains(t2) implies fr_states(nf0).insert(
            s@,
        ).contains(t2) by {
            let (a, idx) = choose|a: int, idx: int|
                0 <= a < nf1.len() && 0 <= idx < nf1[a]@.len() && (#[trigger] nf1[a]@[idx])@ == t2;
            if a == j && idx == nf0[j]@.len() {
                assert(t2 == s@);
            } else {
                assert(nf0[a]@[idx]@ == t2);
            }
        }
        assert forall|t2: StateV| fr_states(nf0).insert(s@).contains(t2) implies fr_states(
            nf1,
        ).contains(t2) by {
            if t2 == s@ {
                assert(nf1[j]@[nf0[j]@.len() as int]@ == t2);
            } else {
                let (a, idx) = choose|a: int, idx: int|
                    0 <= a < nf0.len() && 0 <= idx < nf0[a]@.len() && (#[trigger] nf0[a]@[idx])@
                        == t2;
                assert(nf1[a]@[idx]@ == t2);
            }
        }
    }
}

/// After every pair of the round is processed, the additions are exactly
/// the next frontier, and the table is the next visited set.
proof fn lemma_round_commit(d: int, c: int, b: int, r: nat, ps: Seq<(State, State)>)
    requires
        forall|idx: int|
            0 <= idx < ps.len() ==> frontier_at(d, c, b, r).contains((#[trigger] ps[idx]).0@)
                && succs_of(ps[idx].0@, d, c).contains(ps[idx].1@),
        pair_succs(ps) == succ_set(frontier_at(d, c, b, r), d, c),
    ensures
        added_upto(ps, ps.len() as int, visited_at(d, c, b, r)) == frontier_at(d, c, b, r + 1),
        visited_at(d, c, b, r + 1) == visited_at(d, c, b, r) + added_upto(
            ps,
            ps.len() as int,
            visited_at(d, c, b, r),
        ),
{
    let vis = visited_at(d, c, b, r);
    assert(added_upto(ps, ps.len() as int, vis) =~= frontier_at(d, c, b, r + 1)) by {
        assert forall|t2: StateV| added_upto(ps, ps.len() as int, vis).contains(t2) implies
            frontier_at(d, c, b, r + 1).contains(t2) by {
            let idx = choose|idx: int|
                0 <= idx < ps.len() && ((#[trigger] ps[idx]).1)@ == t2 && !keys_of(vis).contains(
                    t2.key,
                );
            assert(pair_succs(ps).contains(t2));
        }
        assert forall|t2: StateV| frontier_at(d, c, b, r + 1).contains(t2) implies added_upto(
            ps,
            ps.len() as int,
            vis,
        ).contains(t2) by {
            assert(pair_succs(ps).contains(t2));
            let idx = choose|idx: int| 0 <= idx < ps.len() && ((#[trigger] ps[idx]).1)@ == t2;
        }
    }
    assert(visited_at(d, c, b, r + 1) =~= vis + added_upto(ps, ps.len() as int, vis));
}

/// Receive one round's routed pairs: the owning shard attempts each
/// first-write-wins insertion; fresh states join the next frontier and the
/// owning worker's record. Returns the next round's frontiers.
#[verifier::loop_isolation(false)]
#[verifier::rlimit(100)]
fn receive_round(
    shards: &mut Vec<Shard>,
    answers: &mut Vec<Answer>,
    pairs: &Vec<(State, State)>,
    d: u16,
    c: u16,
    b: u16,
    w: usize,
    round: u32,
) -> (newfr: Vec<Vec<State>>)
    requires
        1 <= d,
        1 <= w,
        round <= b,
        shards_wf(old(shards)@, w as int),
        meta_ok(old(shards)@, d as int, c as int, init_state_v(d as int, c as int, b as int).key),
        table_states(old(shards)@) == visited_at(d as int, c as int, b as int, round as nat),
        old(answers)@.len() == w as int,
        forall|a: int|
            0 <= a < w as int ==> answer_inv(
                (#[trigger] old(answers)@[a])@,
                shard_states(old(shards)@[a]@),
                d as int,
            ),
        forall|idx: int|
            0 <= idx < pairs@.len() ==> frontier_at(
                d as int,
                c as int,
                b as int,
                round as nat,
            ).contains((#[trigger] pairs@[idx]).0@) && succs_of(
                pairs@[idx].0@,
                d as int,
                c as int,
            ).contains(pairs@[idx].1@),
        pair_succs(pairs@) == succ_set(
            frontier_at(d as int, c as int, b as int, round as nat),
            d as int,
            c as int,
        ),
    ensures
        shards_wf(final(shards)@, w as int),
        meta_ok(
            final(shards)@,
            d as int,
            c as int,
            init_state_v(d as int, c as int, b as int).key,
        ),
        table_states(final(shards)@) == visited_at(
            d as int,
            c as int,
            b as int,
            (round + 1) as nat,
        ),
        final(answers)@.len() == w as int,
        forall|a: int|
            0 <= a < w as int ==> answer_inv(
                (#[trigger] final(answers)@[a])@,
                shard_states(final(shards)@[a]@),
                d as int,
            ),
        newfr@.len() == w as int,
        forall|a: int, idx: int|
            0 <= a < w as int && 0 <= idx < newfr@[a]@.len() ==> shard_of_spec(
                (#[trigger] newfr@[a]@[idx])@.key,
                w as int,
            ) == a,
        fr_states(newfr@) == frontier_at(d as int, c as int, b as int, (round + 1) as nat),
{
    let ghost di = d as int;
    let ghost ci = c as int;
    let ghost bi = b as int;
    let ghost wi = w as int;
    let ghost ik = init_state_v(di, ci, bi).key;
    let ghost vis = visited_at(di, ci, bi, round as nat);
    let ghost fr = frontier_at(di, ci, bi, round as nat);
    let ghost ss = succ_set(fr, di, ci);
    proof {
        lemma_succ_set_wf_fuel(di, ci, bi, round as nat);
        lemma_visited_wf_fuel(di, ci, bi, round as nat);
        lemma_frontier_sub_visited(di, ci, bi, round as nat);
    }
    let mut newfr: Vec<Vec<State>> = Vec::new();
    while newfr.len() < w
        invariant
            newfr@.len() <= wi,
            forall|a: int| 0 <= a < newfr@.len() ==> (#[trigger] newfr@[a])@.len() == 0,
        decreases wi - newfr@.len(),
    {
        newfr.push(Vec::new());
    }
    let mut k: usize = 0;
    proof {
        assert(added_upto(pairs@, 0, vis) =~= Set::<StateV>::empty());
        assert(table_states(shards@) =~= vis + added_upto(pairs@, 0, vis));
        assert(fr_states(newfr@) =~= added_upto(pairs@, 0, vis));
    }
    while k < pairs.len()
        invariant
            k <= pairs@.len(),
            shards_wf(shards@, wi),
            meta_ok(shards@, di, ci, ik),
            table_states(shards@) == vis + added_upto(pairs@, k as int, vis),
            newfr@.len() == wi,
            forall|a: int, idx: int|
                0 <= a < wi && 0 <= idx < newfr@[a]@.len() ==> shard_of_spec(
                    (#[trigger] newfr@[a]@[idx])@.key,
                    wi,
                ) == a,
            fr_states(newfr@) == added_upto(pairs@, k as int, vis),
            answers@.len() == wi,
            forall|a: int| 0 <= a < wi ==> answer_inv(
                #[trigger] answers@[a]@,
                shard_states(shards@[a]@),
                di,
            ),
        decreases pairs@.len() - k,
    {
        let prev = pairs[k].0.clone();
        let succ = pairs[k].1.clone();
        let ghost succ_snap = succ;
        let ghost tv = succ@;
        let ghost pv = prev@;
        let ghost j = shard_of_spec(tv.key, wi);
        proof {
            assert(fr.contains(pv) && succs_of(pv, di, ci).contains(tv));
            assert(ss.contains(tv));
            assert(state_wf(tv, di, ci));
        }
        let ghost tbl0 = shards@;
        let ghost added0 = added_upto(pairs@, k as int, vis);
        let jx = shard_of(&succ.inner, w);
        let r = table_insert(shards, w, Some(prev), succ.clone());
        match r {
            InsertOutcome::Inserted => {
                proof {
                    lemma_table_lookup(tbl0, wi, tv.key);
                    assert(!keys_of(table_states(tbl0)).contains(tv.key));
                    assert(!keys_of(vis).contains(tv.key)) by {
                        if keys_of(vis).contains(tv.key) {
                            let u = choose|u: StateV| #[trigger] vis.contains(u) && u.key == tv.key;
                            assert(table_states(tbl0).contains(u));
                            assert(keys_of(table_states(tbl0)).contains(tv.key));
                        }
                    }
                    lemma_shard_states_insert(
                        tbl0[j]@,
                        tv.key,
                        (MetaV { prev: opt_view(Option::Some(prev)), held: tv.held }),
                    );
                    assert(StateV { key: tv.key, held: tv.held } =~= tv);
                    assert(shard_states(shards@[j]@) =~= shard_states(tbl0[j]@).insert(tv));
                    lemma_table_grow(tbl0, shards@, j, tv);
                    lemma_fresh_added(di, ci, bi, round as nat, pairs@, k as int, tv);
                    assert(table_states(shards@) =~= vis + added_upto(
                        pairs@,
                        k as int + 1,
                        vis,
                    ));
                    assert(table_states(shards@).contains(pv)) by {
                        assert(vis.contains(pv));
                        assert(table_states(tbl0).contains(pv));
                    }
                    lemma_meta_ok_grow(
                        tbl0,
                        shards@,
                        di,
                        ci,
                        ik,
                        j,
                        tv,
                        (MetaV { prev: opt_view(Option::Some(prev)), held: tv.held }),
                        pv,
                    );
                }
                let ghost ans0 = answers@;
                answer_insert_at(answers, jx, &succ, d);
                proof {
                    assert forall|t2: StateV| #[trigger] shard_states(tbl0[j]@).contains(t2)
                        implies t2.key != tv.key by {
                        assert(tbl0[j]@.dom().contains(t2.key));
                    }
                    lemma_answer_insert_inv(ans0[j]@, shard_states(tbl0[j]@), tv, di);
                    assert forall|a: int| 0 <= a < wi implies answer_inv(
                        #[trigger] answers@[a]@,
                        shard_states(shards@[a]@),
                        di,
                    ) by {
                        if a != j {
                            assert(answers@[a] == ans0[a]);
                            assert(shards@[a] == tbl0[a]);
                        }
                    }
                }
                let ghost nf0 = newfr@;
                vec_push_at(&mut newfr, jx, succ);
                proof {
                    lemma_fr_push(nf0, newfr@, j, succ_snap);
                    assert(fr_states(newfr@) =~= added_upto(pairs@, k as int + 1, vis));
                }
            },
            InsertOutcome::Discarded => {
                proof {
                    lemma_table_lookup(tbl0, wi, tv.key);
                    let stored = StateV { key: tv.key, held: tbl0[j]@[tv.key].held };
                    assert(table_states(tbl0).contains(stored));
                    assert(vis.contains(stored) || added0.contains(stored));
                    lemma_present_key(di, ci, bi, round as nat, pairs@, k as int, stored);
                    assert(table_states(shards@) == vis + added_upto(
                        pairs@,
                        k as int + 1,
                        vis,
                    ));
                }
            },
            InsertOutcome::Violation => {
                proof {
                    lemma_table_lookup(tbl0, wi, tv.key);
                    let stored = StateV { key: tv.key, held: tbl0[j]@[tv.key].held };
                    assert(table_states(tbl0).contains(stored));
                    assert(vis.contains(stored) || added0.contains(stored));
                    lemma_present_key(di, ci, bi, round as nat, pairs@, k as int, stored);
                    assert(false);
                }
            },
        }
        k = k + 1;
    }
    // Commit the round: the fresh states are the next frontier.
    proof {
        lemma_round_commit(di, ci, bi, round as nat, pairs@);
        assert((round as nat) + 1 == (round + 1) as nat);
    }
    newfr
}

/// Run the whole search with `num_workers` cooperating logical workers:
/// round-synchronized expansion, hash-sharded deduplication, unanimous-vote
/// termination, and order-insensitive aggregation of the per-worker
/// records.
///
/// Every clause of the result characterization mentions only the problem
/// parameters, never the worker count: however many workers explore the
/// graph, the visited set, the termination round and the optimum are fixed.
///
/// A run never aborts: the one fatal condition of the design, an insertion
/// attempt carrying more fuel than the stored record of its key, is proved
/// unreachable here rather than checked at run time.
#[verifier::loop_isolation(false)]
#[verifier::rlimit(100)]
pub fn solve(d: u16, c: u16, b: u16, num_workers: usize) -> (out: Solved)
    requires
        1 <= d,
        1 <= num_workers,
        num_workers <= 0xffff_ffff,
    ensures
        out.shards@.len() == num_workers as int,
        shards_wf(out.shards@, num_workers as int),
        meta_ok(out.shards@, d as int, c as int, init_state_v(d as int, c as int, b as int).key),
        out.rounds <= b + 1,
        frontier_at(d as int, c as int, b as int, out.rounds as nat) == Set::<StateV>::empty(),
        forall|q: nat|
            q < out.rounds as nat ==> frontier_at(d as int, c as int, b as int, q) != Set::<
                StateV,
            >::empty(),
        table_states(out.shards@) == reachable(d as int, c as int, b as int),
        forall|t: StateV| #[trigger] table_states(out.shards@).contains(t) ==> state_wf(
            t,
            d as int,
            c as int,
        ),
        answer_inv(out.answer@, reachable(d as int, c as int, b as int), d as int),
        is_best_value(out.answer@.best, d as int, c as int, b as int),
        out.total_states == if sum_lens(out.shards@) <= usize::MAX {
            sum_lens(out.shards@)
        } else {
            usize::MAX as int
        },
{
    let w = num_workers;
    let ghost di = d as int;
    let ghost ci = c as int;
    let ghost bi = b as int;
    let ghost wi = w as int;
    let ghost ik = init_state_v(di, ci, bi).key;

    // Per-worker shards, records and frontiers.
    let mut shards: Vec<Shard> = Vec::new();
    while shards.len() < w
        invariant
            shards@.len() <= wi,
            forall|a: int| 0 <= a < shards@.len() ==> (#[trigger] shards@[a]).wf()
                && shards@[a]@ == Map::<KeyV, MetaV>::empty() && shards@[a].entries@.len() == 0,
        decreases wi - shards@.len(),
    {
        shards.push(Shard::new());
    }
    let mut answers: Vec<Answer> = Vec::new();
    while answers.len() < w
        invariant
            answers@.len() <= wi,
            forall|a: int| 0 <= a < answers@.len() ==> (#[trigger] answers@[a])@ == (AnswerV {
                best: 0,
                solutions: Seq::<StateV>::empty(),
            }),
        decreases wi - answers@.len(),
    {
        answers.push(Answer::new());
    }
    let mut frontiers: Vec<Vec<State>> = Vec::new();
    while frontiers.len() < w
        invariant
            frontiers@.len() <= wi,
            forall|a: int| 0 <= a < frontiers@.len() ==> (#[trigger] frontiers@[a])@.len() == 0,
        decreases wi - frontiers@.len(),
    {
        frontiers.push(Vec::new());
    }
    let mut coord = Coordinator::new(w as u64);

    // Seed the search: the start state goes to the shard its hash owns.
    let init = make_init(d, c, b);
    proof {
        lemma_init_state(di, ci, bi);
    }
    let j0 = shard_of(&init.inner, w);
    let ghost shards0 = shards@;
    let ins0 = table_insert(&mut shards, w, None, init.clone());
    proof {
        match ins0 {
            InsertOutcome::Inserted => {},
            _ => {
                assert(false);
            },
        }
        lemma_shard_states_insert(
            shards0[j0 as int]@,
            ik,
            (MetaV { prev: Option::None, held: init@.held }),
        );
        assert(visited_at(di, ci, bi, 0) == frontier_at(di, ci, bi, 0));
        assert(frontier_at(di, ci, bi, 0) == Set::empty().insert(init_state_v(di, ci, bi)));
        assert(table_states(shards@) =~= visited_at(di, ci, bi, 0)) by {
            assert forall|t: StateV| table_states(shards@).contains(t) implies visited_at(
                di,
                ci,
                bi,
                0,
            ).contains(t) by {
                let a = choose|a: int|
                    0 <= a < shards@.len() && (#[trigger] shard_states(shards@[a]@)).contains(t);
                assert(a == j0 as int);
                assert(t =~= init_state_v(di, ci, bi));
            }
            assert(shard_states(shards@[j0 as int]@).contains(init_state_v(di, ci, bi)));
        }
    }
    answer_insert_at(&mut answers, j0, &init, d);
    proof {
        assert(Seq::<StateV>::empty().to_set() =~= crate::answer::finals_at(
            Set::<StateV>::empty(),
            di,
            0,
        ));
        lemma_answer_insert_inv(
            (AnswerV { best: 0, solutions: Seq::<StateV>::empty() }),
            Set::<StateV>::empty(),
            init@,
            di,
        );
        assert forall|a: int| 0 <= a < wi implies answer_inv(
            #[trigger] answers@[a]@,
            shard_states(shards@[a]@),
            di,
        ) by {
            if a == j0 as int {
                assert(shard_states(shards@[a]@) =~= Set::<StateV>::empty().insert(
                    init_state_v(di, ci, bi),
                ));
            } else {
                assert(shard_states(shards@[a]@) =~= Set::<StateV>::empty());
                assert(answers@[a]@.solutions.to_set() =~= crate::answer::finals_at(
                    shard_states(shards@[a]@),
                    di,
                    answers@[a]@.best,
                ));
            }
        }
    }
    vec_push_at(&mut frontiers, j0, init);
    proof {
        assert(fr_states(frontiers@) =~= frontier_at(di, ci, bi, 0)) by {
            assert(frontiers@[j0 as int]@[0]@ == init_state_v(di, ci, bi));
            assert(fr_states(frontiers@).contains(init_state_v(di, ci, bi)));
        }
    }

    let mut round: u32 = 0;
    let mut done = false;
    while !done
        invariant
            shards_wf(shards@, wi),
            meta_ok(shards@, di, ci, ik),
            frontiers@.len() == wi,
            forall|a: int, idx: int|
                0 <= a < wi && 0 <= idx < frontiers@[a]@.len() ==> shard_of_spec(
                    (#[trigger] frontiers@[a]@[idx])@.key,
                    wi,
                ) == a,
            fr_states(frontiers@) == frontier_at(di, ci, bi, round as nat),
            table_states(shards@) == visited_at(di, ci, bi, round as nat),
            answers@.len() == wi,
            forall|a: int| 0 <= a < wi ==> answer_inv(
                #[trigger] answers@[a]@,
                shard_states(shards@[a]@),
                di,
            ),
            coord.num_workers == w as u64,
            coord.cleanup == 0,
            !done ==> coord.progress == round as int * wi,
            !done ==> coord.stop_votes == 0,
            round <= b + 1,
            forall|q: nat| q < round as nat ==> frontier_at(di, ci, bi, q) != Set::<
                StateV,
            >::empty(),
            done ==> frontier_at(di, ci, bi, round as nat) == Set::<StateV>::empty(),
        decreases b + 2 - round, (if done { 0int } else { 1int }),
    {
        // Vote and barrier: workers with empty frontiers vote; a unanimous
        // vote in one round ends the search.
        let all_empty = barrier_round(&mut coord, &frontiers, round, w);
        if all_empty {
            proof {
                assert(frontier_at(di, ci, bi, round as nat) =~= Set::<StateV>::empty()) by {
                    assert forall|t: StateV| !fr_states(frontiers@).contains(t) by {
                        if fr_states(frontiers@).contains(t) {
                            let (a, idx) = choose|a: int, idx: int|
                                0 <= a < frontiers@.len() && 0 <= idx < frontiers@[a]@.len() && (
                                #[trigger] frontiers@[a]@[idx])@ == t;
                            assert(frontiers@[a]@.len() == 0);
                        }
                    }
                }
            }
            done = true;
        } else {
            // Some worker still has work; the round proceeds.
            proof {
                assert(exists|a: int| 0 <= a < wi && (#[trigger] frontiers@[a])@.len() != 0);
                let a = choose|a: int| 0 <= a < wi && (#[trigger] frontiers@[a])@.len() != 0;
                assert(fr_states(frontiers@).contains(frontiers@[a]@[0]@));
                assert(frontier_at(di, ci, bi, round as nat) != Set::<StateV>::empty());
                if round as int > bi {
                    lemma_frontier_exhausted(di, ci, bi, round as nat);
                }
                assert(round as int <= bi);
                lemma_frontier_wf_fuel(di, ci, bi, round as nat);
                assert forall|t: StateV| #[trigger] fr_states(frontiers@).contains(t) implies
                    state_wf(t, di, ci) && fuel_of(t) <= u16::MAX by {
                    assert(frontier_at(di, ci, bi, round as nat).contains(t));
                }
            }
            let pairs = expand(&frontiers, d, c);
            proof {
                assert forall|idx: int|
                    0 <= idx < pairs@.len() implies frontier_at(
                    di,
                    ci,
                    bi,
                    round as nat,
                ).contains((#[trigger] pairs@[idx]).0@) && succs_of(
                    pairs@[idx].0@,
                    di,
                    ci,
                ).contains(pairs@[idx].1@) by {
                    assert(fr_states(frontiers@).contains(pairs@[idx].0@));
                }
            }
            let newfr = receive_round(&mut shards, &mut answers, &pairs, d, c, b, w, round);
            frontiers = newfr;
            round = round + 1;
        }
    }

    // Cleanup handshake and order-insensitive aggregation of the records.
    let ghost rn = round as nat;
    let ghost answers_all = answers@;
    let mut merged = Answer::new();
    proof {
        assert(Seq::<StateV>::empty().to_set() =~= crate::answer::finals_at(
            Set::<StateV>::empty(),
            di,
            0,
        ));
        assert(table_states_upto(shards@, 0) =~= Set::<StateV>::empty());
    }
    let mut ag: usize = 0;
    while ag < w
        invariant
            ag <= w,
            answers@.len() == wi - ag,
            forall|idx: int| 0 <= idx < answers@.len() ==> answers@[idx] == answers_all[idx + ag],
            answer_inv(merged@, table_states_upto(shards@, ag as int), di),
            coord.cleanup == ag,
            coord.num_workers == w as u64,
        decreases w - ag,
    {
        let a = answers.remove(0);
        proof {
            lemma_upto_disjoint(shards@, wi, ag as int);
            lemma_answer_extend_inv(
                merged@,
                a@,
                table_states_upto(shards@, ag as int),
                shard_states(shards@[ag as int]@),
                di,
            );
            assert(table_states_upto(shards@, ag as int) + shard_states(shards@[ag as int]@)
                =~= table_states_upto(shards@, ag as int + 1));
        }
        merged.extend(a);
        let _finalizer = coord.cleanup_arrive();
        ag = ag + 1;
    }
    proof {
        assert(table_states_upto(shards@, wi) =~= table_states(shards@));
        lemma_stable_after_empty(di, ci, bi, rn, (bi + 1) as nat);
        lemma_visited_wf_fuel(di, ci, bi, rn);
    }

    // Total distinct canonical states: the sum of the shard sizes.
    let mut total: usize = 0;
    let mut ti: usize = 0;
    proof {
        assert(shards@.take(0) =~= Seq::<Shard>::empty());
    }
    while ti < w
        invariant
            ti <= w,
            total == if sum_lens(shards@.take(ti as int)) <= usize::MAX {
                sum_lens(shards@.take(ti as int))
            } else {
                usize::MAX as int
            },
        decreases w - ti,
    {
        let n = shards[ti].len();
        proof {
            lemma_sum_lens_take(shards@, ti as int);
        }
        if total <= usize::MAX - n {
            total = total + n;
        } else {
            total = usize::MAX;
        }
        ti = ti + 1;
    }
    proof {
        assert(shards@.take(wi) =~= shards@);
    }

    let out = Solved { shards, answer: merged, rounds: round, total_states: total };
    proof {
        assert(is_best_value(out.answer@.best, di, ci, bi)) by {
            assert(answer_inv(out.answer@, reachable(di, ci, bi), di));
            if out.answer@.best > 0 {
                let t = choose|t: StateV|
                    #[trigger] reachable(di, ci, bi).contains(t) && t.key.x == di - 1 && t.held
                        == out.answer@.best;
            }
        }
    }
    out
}

} // verus!
