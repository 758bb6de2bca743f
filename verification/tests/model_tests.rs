use camel_relay::answer::Answer;
use camel_relay::escape::write_escaped;
use camel_relay::frame::{digits_of, Frame, Texel};
use camel_relay::shard::{key_eq, InsertOutcome, Shard};
use camel_relay::state::{State, StateKey};

fn st(x: u16, piles: Vec<u16>, held: u16) -> State {
    State { inner: StateKey { x, piles }, held }
}

#[test]
fn moves_both_directions() {
    let s = st(1, vec![3, 0, 2], 2);
    let mv = s.moves(3);
    assert_eq!(mv.len(), 2);
    assert_eq!(mv[0].inner.x, 2);
    assert_eq!(mv[0].held, 1);
    assert_eq!(mv[0].inner.piles, vec![3, 0, 2]);
    assert_eq!(mv[1].inner.x, 0);
    assert_eq!(mv[1].held, 1);
}

#[test]
fn moves_need_fuel_in_hand() {
    let s = st(1, vec![3, 0, 2], 0);
    assert!(s.moves(3).is_empty());
}

#[test]
fn moves_respect_road_ends() {
    let left = st(0, vec![1, 1], 2);
    let mv = left.moves(2);
    assert_eq!(mv.len(), 1);
    assert_eq!(mv[0].inner.x, 1);
    let right = st(1, vec![1, 1], 2);
    let mv2 = right.moves(2);
    assert_eq!(mv2.len(), 1);
    assert_eq!(mv2[0].inner.x, 0);
}

#[test]
fn pickup_is_greedy_and_bounded() {
    let mut s = st(1, vec![0, 7, 0], 2);
    s.pickup(5);
    assert_eq!(s.held, 5);
    assert_eq!(s.inner.piles, vec![0, 4, 0]);

    let mut t = st(1, vec![0, 2, 0], 1);
    t.pickup(5);
    assert_eq!(t.held, 3);
    assert_eq!(t.inner.piles, vec![0, 0, 0]);
}

#[test]
fn successors_enumerate_every_drop() {
    // One legal move (forward), pickup to 3, drops 0..=3: four successors.
    let s = st(0, vec![0, 2], 2);
    let succ = s.successors(2, 3);
    assert_eq!(succ.len(), 4);
    for (amount, t) in succ.iter().enumerate() {
        assert_eq!(t.inner.x, 1);
        assert_eq!(t.held as usize, 3 - amount);
        assert_eq!(t.inner.piles[1] as usize, amount);
        // Total fuel is one less than before the step.
        assert_eq!(t.held + t.inner.piles[0] + t.inner.piles[1], 3);
    }
}

#[test]
fn answer_insert_tracks_best_at_final_position() {
    let mut a = Answer::new();
    a.insert(&st(1, vec![0, 0, 0], 2), 3);
    assert_eq!(a.best_delivered, 0);
    assert!(a.solutions.is_empty());
    a.insert(&st(2, vec![0, 0, 0], 2), 3);
    assert_eq!(a.best_delivered, 2);
    assert_eq!(a.solutions.len(), 1);
    a.insert(&st(2, vec![1, 0, 0], 2), 3);
    assert_eq!(a.solutions.len(), 2);
    a.insert(&st(2, vec![0, 1, 0], 1), 3);
    assert_eq!(a.best_delivered, 2);
    assert_eq!(a.solutions.len(), 2);
    a.insert(&st(2, vec![0, 0, 1], 3), 3);
    assert_eq!(a.best_delivered, 3);
    assert_eq!(a.solutions.len(), 1);
}

#[test]
fn answer_extend_is_order_insensitive() {
    let mut left = Answer::new();
    left.insert(&st(2, vec![0, 0, 0], 2), 3);
    let mut right = Answer::new();
    right.insert(&st(2, vec![1, 0, 0], 2), 3);
    right.insert(&st(2, vec![0, 1, 0], 1), 3);

    let mut ab = Answer::new();
    ab.extend(clone_answer(&left));
    ab.extend(clone_answer(&right));
    let mut ba = Answer::new();
    ba.extend(clone_answer(&right));
    ba.extend(clone_answer(&left));
    assert_eq!(ab.best_delivered, ba.best_delivered);
    assert_eq!(ab.solutions.len(), ba.solutions.len());
}

fn clone_answer(a: &Answer) -> Answer {
    Answer {
        best_delivered: a.best_delivered,
        solutions: a.solutions.iter().map(|s| s.clone()).collect(),
    }
}

#[test]
fn shard_first_write_wins() {
    let mut sh = Shard::new();
    let first = st(1, vec![0, 3], 4);
    let r1 = sh.insert(None, first.clone());
    assert!(matches!(r1, InsertOutcome::Inserted));
    // Same key, smaller carried amount: silently discarded.
    let r2 = sh.insert(Some(first.clone()), st(1, vec![0, 3], 2));
    assert!(matches!(r2, InsertOutcome::Discarded));
    let meta = sh.get(&StateKey { x: 1, piles: vec![0, 3] }).unwrap();
    assert_eq!(meta.held, 4);
    assert!(meta.prev.is_none());
    assert_eq!(sh.len(), 1);
    // A larger carried amount would break the monotonic invariant: the
    // shard reports it rather than overwriting.
    let r3 = sh.insert(None, st(1, vec![0, 3], 5));
    assert!(matches!(r3, InsertOutcome::Violation));
    assert_eq!(sh.len(), 1);
}

#[test]
fn key_equality_is_structural() {
    let a = StateKey { x: 1, piles: vec![0, 3] };
    let b = StateKey { x: 1, piles: vec![0, 3] };
    let c = StateKey { x: 1, piles: vec![3, 0] };
    assert!(key_eq(&a, &b));
    assert!(!key_eq(&a, &c));
    assert!(!key_eq(&a, &StateKey { x: 0, piles: vec![0, 3] }));
}

#[test]
fn escaping_matches_json_rules() {
    let mut out: Vec<char> = Vec::new();
    let input: Vec<char> = vec!['a', '"', '\\', '\n', '\r', '\t'];
    write_escaped(&mut out, &input);
    let expect: Vec<char> = "a\\\"\\\\\\n\\r\\t".chars().collect();
    assert_eq!(out, expect);
}

#[test]
fn escaping_control_characters_as_hex() {
    let mut out: Vec<char> = Vec::new();
    let input: Vec<char> = vec!['\u{1b}', '\u{01}'];
    write_escaped(&mut out, &input);
    let expect: Vec<char> = "\\u001b\\u0001".chars().collect();
    assert_eq!(out, expect);
}

#[test]
fn digits_render_decimal() {
    assert_eq!(digits_of(255), vec!['2', '5', '5']);
    assert_eq!(digits_of(0), vec!['0']);
    assert_eq!(digits_of(10), vec!['1', '0']);
}

#[test]
fn frame_draws_pile_and_agent() {
    let blank = Texel { ch: ' ', fg: [0xff, 0xff, 0xff], bg: [0, 0, 0] };
    let mut f = Frame { data: vec![blank; 32], width: 8, pile_width: 3 };
    f.draw_pile(0, 255);
    // Row two: the pile surface.
    for i in 0..3usize {
        assert_eq!(f.data[16 + i].ch, '`');
    }
    // Row three: the amount, right-aligned to the pile edge.
    assert_eq!(f.data[24].ch, '2');
    assert_eq!(f.data[25].ch, '5');
    assert_eq!(f.data[26].ch, '5');
    f.draw_cammy(1, 7);
    // Row zero: the carried amount; row one: the marker.
    assert_eq!(f.data[6].ch, '7');
    assert_eq!(f.data[8 + 5].ch, 'C');
    // An exhausted pile is drawn grey.
    f.draw_pile(1, 0);
    assert_eq!(f.data[3 * 8 + 6].ch, '0');
    assert_eq!(f.data[3 * 8 + 6].fg, [0x7f, 0x7f, 0x7f]);
}
