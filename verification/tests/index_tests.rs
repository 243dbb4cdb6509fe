use rustlines::automaton::{Alphabet, Automaton};
use rustlines::index::{StateIndex, build_index};
use rustlines::scanner::{Vocabulary, scan, scan_chunked};

fn chars(s: &str) -> Vec<char> {
    s.chars().collect()
}

fn demo_automaton() -> Automaton {
    Automaton {
        transitions: vec![(0, 0, 1), (1, 0, 1), (1, 1, 2)],
        initial: 0,
        finals: vec![2],
    }
}

fn demo_alphabet() -> Alphabet {
    Alphabet { symbols: vec![('a', 0), ('b', 1)], anything: 2 }
}

fn demo_vocabulary() -> Vocabulary {
    Vocabulary {
        entries: vec![
            (chars("a"), vec![10]),
            (chars("ab"), vec![20]),
            (chars("b"), vec![30]),
            (chars("aab"), vec![40]),
        ],
    }
}

fn sorted(mut pairs: Vec<(u32, u32)>) -> Vec<(u32, u32)> {
    pairs.sort();
    pairs
}

fn normalized(index: &StateIndex) -> Vec<(u32, Vec<(u32, u32)>)> {
    let mut entries: Vec<(u32, Vec<(u32, u32)>)> = index
        .entries
        .iter()
        .map(|(state, pairs)| (*state, sorted(pairs.clone())))
        .collect();
    entries.sort();
    entries
}

#[test]
fn scan_from_initial_state() {
    let aut = demo_automaton();
    let alph = demo_alphabet();
    let vocab = demo_vocabulary();
    let result = sorted(scan(&aut, &alph, &vocab, 0));
    assert_eq!(result, vec![(10, 1), (20, 2), (40, 2)]);
}

#[test]
fn scan_from_state_one() {
    let aut = demo_automaton();
    let alph = demo_alphabet();
    let vocab = demo_vocabulary();
    let result = sorted(scan(&aut, &alph, &vocab, 1));
    assert_eq!(result, vec![(10, 1), (20, 2), (30, 2), (40, 2)]);
}

#[test]
fn scan_from_state_without_transitions() {
    let aut = demo_automaton();
    let alph = demo_alphabet();
    let vocab = demo_vocabulary();
    assert_eq!(scan(&aut, &alph, &vocab, 2), vec![]);
}

#[test]
fn scan_result_is_independent_of_worker_count() {
    let aut = demo_automaton();
    let alph = demo_alphabet();
    let vocab = demo_vocabulary();
    for start in [0, 1, 2] {
        let reference = sorted(scan(&aut, &alph, &vocab, start));
        for workers in [1, 2, 3, 16, 100] {
            let chunked = sorted(scan_chunked(&aut, &alph, &vocab, start, workers));
            assert_eq!(chunked, reference);
        }
    }
}

#[test]
fn scan_emits_one_pair_per_token_id() {
    let aut = demo_automaton();
    let alph = demo_alphabet();
    let vocab = Vocabulary { entries: vec![(chars("a"), vec![5, 6])] };
    assert_eq!(sorted(scan(&aut, &alph, &vocab, 0)), vec![(5, 1), (6, 1)]);
}

#[test]
fn scan_empty_token_text_ends_at_start_state() {
    let aut = demo_automaton();
    let alph = demo_alphabet();
    let vocab = Vocabulary { entries: vec![(chars(""), vec![99])] };
    assert_eq!(scan(&aut, &alph, &vocab, 1), vec![(99, 1)]);
}

#[test]
fn build_index_covers_exactly_the_reachable_states() {
    let aut = demo_automaton();
    let alph = demo_alphabet();
    let vocab = demo_vocabulary();
    let index = build_index(&aut, &alph, &vocab);
    let expected: Vec<(u32, Vec<(u32, u32)>)> = vec![
        (0, vec![(10, 1), (20, 2), (40, 2)]),
        (1, vec![(10, 1), (20, 2), (30, 2), (40, 2)]),
        (2, vec![]),
    ];
    assert_eq!(normalized(&index), expected);
}

#[test]
fn build_index_empty_vocabulary_keeps_the_initial_state() {
    let aut = Automaton { transitions: vec![(5, 0, 6)], initial: 5, finals: vec![] };
    let alph = demo_alphabet();
    let vocab = Vocabulary { entries: vec![] };
    let index = build_index(&aut, &alph, &vocab);
    assert_eq!(normalized(&index), vec![(5, vec![])]);
}

#[test]
fn lookup_finds_exactly_the_recorded_states() {
    let aut = demo_automaton();
    let alph = demo_alphabet();
    let index = build_index(&aut, &alph, &demo_vocabulary());
    let at_zero = index.lookup(0).expect("initial state is always a key");
    assert_eq!(sorted(at_zero.clone()), vec![(10, 1), (20, 2), (40, 2)]);
    let at_two = index.lookup(2).expect("state 2 is reachable");
    assert_eq!(at_two.clone(), vec![]);
    assert!(index.lookup(9).is_none());
}

#[test]
fn build_index_identical_inputs_give_equal_indexes() {
    let aut = demo_automaton();
    let alph = demo_alphabet();
    let first = build_index(&aut, &alph, &demo_vocabulary());
    let second = build_index(&aut, &alph, &demo_vocabulary());
    assert_eq!(normalized(&first), normalized(&second));
}

#[test]
fn build_index_later_entry_overwrites_repeated_token_id() {
    let aut = Automaton { transitions: vec![(0, 0, 1), (0, 1, 2)], initial: 0, finals: vec![] };
    let alph = demo_alphabet();
    let vocab = Vocabulary { entries: vec![(chars("a"), vec![7]), (chars("b"), vec![7])] };
    // The scan yields both ends for id 7, in entry order.
    assert_eq!(scan(&aut, &alph, &vocab, 0), vec![(7, 1), (7, 2)]);
    // The index keys each state's pairs by token id: the later pair wins.
    let index = build_index(&aut, &alph, &vocab);
    let expected: Vec<(u32, Vec<(u32, u32)>)> =
        vec![(0, vec![(7, 2)]), (1, vec![]), (2, vec![])];
    assert_eq!(normalized(&index), expected);
}
