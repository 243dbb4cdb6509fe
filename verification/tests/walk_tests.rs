use rustlines::automaton::{Alphabet, Automaton};
use rustlines::walker::walk;

fn chars(s: &str) -> Vec<char> {
    s.chars().collect()
}

fn demo_automaton() -> Automaton {
    Automaton {
        transitions: vec![(0, 0, 1), (1, 0, 1), (1, 1, 2)],
        initial: 0,
        finals: vec![2],
    }
}

fn demo_alphabet() -> Alphabet {
    Alphabet { symbols: vec![('a', 0), ('b', 1)], anything: 2 }
}

#[test]
fn walk_accepts_full_chain() {
    let aut = demo_automaton();
    let alph = demo_alphabet();
    assert_eq!(walk(&aut, &alph, &chars("ab"), 0, false), Some(vec![1, 2]));
    assert_eq!(walk(&aut, &alph, &chars("aab"), 0, false), Some(vec![1, 1, 2]));
    assert_eq!(walk(&aut, &alph, &chars("a"), 0, false), Some(vec![1]));
}

#[test]
fn walk_full_match_needs_final_state() {
    let aut = demo_automaton();
    let alph = demo_alphabet();
    assert_eq!(walk(&aut, &alph, &chars("ab"), 0, true), Some(vec![1, 2]));
    assert_eq!(walk(&aut, &alph, &chars("a"), 0, true), None);
}

#[test]
fn walk_rejects_missing_transition_before_final() {
    let aut = demo_automaton();
    let alph = demo_alphabet();
    assert_eq!(walk(&aut, &alph, &chars("b"), 0, false), None);
    assert_eq!(walk(&aut, &alph, &chars("ba"), 0, false), None);
}

#[test]
fn walk_truncates_after_final_when_partial_allowed() {
    let aut = demo_automaton();
    let alph = demo_alphabet();
    // After "ab" the walk sits in the final state 2; the next character has
    // no transition, so the walk stops early with the states seen so far.
    assert_eq!(walk(&aut, &alph, &chars("abb"), 0, false), Some(vec![1, 2]));
    // With full consumption required the same input is rejected outright.
    assert_eq!(walk(&aut, &alph, &chars("abb"), 0, true), None);
}

#[test]
fn walk_unmapped_character_uses_catch_all_symbol() {
    let aut = Automaton { transitions: vec![(0, 2, 3)], initial: 0, finals: vec![] };
    let alph = demo_alphabet();
    // 'z' is absent from the alphabet, so it resolves to the catch-all id 2.
    assert_eq!(walk(&aut, &alph, &chars("z"), 0, false), Some(vec![3]));
    assert_eq!(walk(&aut, &alph, &chars("a"), 0, false), None);
}

#[test]
fn walk_empty_token() {
    let aut = demo_automaton();
    let alph = demo_alphabet();
    assert_eq!(walk(&aut, &alph, &chars(""), 0, false), Some(vec![]));
    // Full consumption of an empty token still demands a visited final state.
    assert_eq!(walk(&aut, &alph, &chars(""), 0, true), None);
}

#[test]
fn walk_from_state_without_transitions() {
    let aut = demo_automaton();
    let alph = demo_alphabet();
    assert_eq!(walk(&aut, &alph, &chars("a"), 2, false), None);
}
