use std::collections::HashMap;

use camel_relay::coordinator::Coordinator;
use camel_relay::engine::solve;

/// Reference round-based search used as an independent oracle: plain
/// breadth-first rounds over a hash map, no sharding, no voting.
fn oracle_best(d: u16, c: u16, b: u16) -> u16 {
    let held0 = if b <= c { b } else { c };
    let mut piles0 = vec![0u16; d as usize];
    piles0[0] = b - held0;
    let mut visited: HashMap<(u16, Vec<u16>), u16> = HashMap::new();
    visited.insert((0, piles0.clone()), held0);
    let mut frontier: Vec<(u16, Vec<u16>, u16)> = vec![(0, piles0, held0)];
    let mut best: u16 = if d == 1 { held0 } else { 0 };
    while !frontier.is_empty() {
        let mut next: Vec<(u16, Vec<u16>, u16)> = Vec::new();
        for (x, piles, held) in frontier {
            if held == 0 {
                continue;
            }
            let mut moves: Vec<u16> = Vec::new();
            if x + 1 < d {
                moves.push(x + 1);
            }
            if x > 0 {
                moves.push(x - 1);
            }
            for nx in moves {
                let mut p = piles.clone();
                let mut h = held - 1;
                let take = (c - h).min(p[nx as usize]);
                h += take;
                p[nx as usize] -= take;
                for amount in 0..=h {
                    let mut p2 = p.clone();
                    let h2 = h - amount;
                    p2[nx as usize] += amount;
                    let key = (nx, p2.clone());
                    if !visited.contains_key(&key) {
                        visited.insert(key, h2);
                        if nx == d - 1 && h2 > best {
                            best = h2;
                        }
                        next.push((nx, p2, h2));
                    }
                }
            }
        }
        frontier = next;
    }
    best
}

#[test]
fn determinism_across_worker_counts() {
    let base = solve(4, 2, 6, 1);
    for w in [2usize, 4, 8] {
        let out = solve(4, 2, 6, w);
        assert_eq!(out.answer.best_delivered, base.answer.best_delivered);
        assert_eq!(out.total_states, base.total_states);
        assert_eq!(out.rounds, base.rounds);
    }
}

#[test]
fn capacity_covers_distance_single_trip() {
    // Three steps of road, everything fits in one load: one direct trip.
    let out = solve(4, 10, 10, 2);
    assert_eq!(out.answer.best_delivered, 7);
    assert!(!out.answer.solutions.is_empty());
    for s in &out.answer.solutions {
        assert_eq!(s.inner.x, 3);
    }
}

#[test]
fn zero_capacity_no_progress() {
    let out = solve(3, 0, 5, 2);
    assert_eq!(out.answer.best_delivered, 0);
    assert!(out.answer.solutions.is_empty());
}

#[test]
fn zero_capacity_zero_distance_start_wins() {
    let out = solve(1, 0, 5, 2);
    assert_eq!(out.answer.best_delivered, 0);
    assert_eq!(out.answer.solutions.len(), 1);
    assert_eq!(out.answer.solutions[0].inner.x, 0);
    assert_eq!(out.answer.solutions[0].inner.piles, vec![5]);
}

#[test]
fn single_step_small_capacity() {
    // One step, capacity two, five units: at most one unit arrives.
    let out = solve(2, 2, 5, 1);
    assert_eq!(out.answer.best_delivered, 1);
    assert_eq!(out.answer.best_delivered, oracle_best(2, 2, 5));
}

#[test]
fn regression_known_configuration() {
    // A fixed configuration checked against the independent oracle, as a
    // guard against refactors changing the optimum.
    let expect = oracle_best(3, 3, 9);
    for w in [1usize, 3] {
        let out = solve(3, 3, 9, w);
        assert_eq!(out.answer.best_delivered, expect);
    }
}

#[test]
fn predecessor_chain_reaches_start() {
    let out = solve(4, 10, 10, 2);
    let winner = &out.answer.solutions[0];
    let mut key = winner.inner.clone();
    let mut steps = 0u32;
    loop {
        let meta = out.lookup(&key).expect("visited key must be stored");
        match &meta.prev {
            None => {
                assert_eq!(key.x, 0);
                break;
            }
            Some(p) => {
                key = p.inner.clone();
                steps += 1;
                assert!(steps <= 11);
            }
        }
    }
    assert!(steps >= 3);
}

#[test]
fn visited_count_positive_and_rounds_bounded() {
    let out = solve(3, 2, 4, 2);
    assert!(out.total_states >= 1);
    assert!(out.rounds <= 5);
    let base = solve(3, 2, 4, 1);
    assert_eq!(out.total_states, base.total_states);
}

#[test]
fn termination_vote_two_workers() {
    // One worker idle from round five on, the other still busy: no
    // termination until both are idle in the same round.
    let mut coord = Coordinator::new(2);
    for round in 0..=5u64 {
        if round == 5 {
            // Worker A's frontier is empty at round five; B still has work.
            coord.cast_vote();
        }
        coord.arrive(round);
        let last = coord.arrive(round);
        assert!(last);
        assert!(
            !coord.terminated(),
            "must not terminate while one frontier is nonempty"
        );
    }
    // First round where both frontiers are empty: unanimous, so it fires.
    coord.cast_vote();
    coord.cast_vote();
    coord.arrive(6);
    coord.arrive(6);
    assert!(coord.terminated());
}

#[test]
fn worker_states_move_through_the_engine() {
    // The engine's frontier states stay within capacity and the road: a
    // spot check of the invariant on a small run.
    let out = solve(3, 2, 4, 2);
    assert!(!out.answer.solutions.is_empty());
    for s in &out.answer.solutions {
        assert!(s.held <= 2);
        assert!((s.inner.x as usize) < 3);
        assert_eq!(s.inner.piles.len(), 3);
    }
}
