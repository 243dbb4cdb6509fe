use crate::automaton::{Alphabet, Automaton, next_of, run_end, symbol_of};
use vstd::prelude::*;

verus! {

/// The outcome of a walk that has already visited the states in `acc`, with
/// `seen_final` recording whether a final state was visited so far. Each
/// remaining character resolves to a symbol; if a transition is defined, the
/// walk moves there and appends the new state. At a missing transition the
/// walk returns the states visited so far when partial consumption is allowed
/// and a final state was visited, and is rejected otherwise. A walk that
/// consumes every character is rejected only when `full_match` demands a
/// visited final state and none was seen.
pub open spec fn walk_acc(
    aut: Automaton,
    alph: Alphabet,
    text: Seq<char>,
    state: u32,
    full_match: bool,
    seen_final: bool,
    acc: Seq<u32>,
) -> Option<Seq<u32>>
    decreases text.len(),
{
    if text.len() == 0 {
        if full_match && !seen_final {
            None
        } else {
            Some(acc)
        }
    } else {
        match next_of(aut.transitions@, state, symbol_of(alph.symbols@, alph.anything, text[0])) {
            Some(next) => walk_acc(
                aut,
                alph,
                text.skip(1),
                next,
                full_match,
                seen_final || aut.finals@.contains(next),
                acc.push(next),
            ),
            None => if !full_match && seen_final {
                Some(acc)
            } else {
                None
            },
        }
    }
}

/// What a walk of `text` from `start` returns: the sequence of visited
/// states, or `None` for a rejection.
pub open spec fn walk_spec(
    aut: Automaton,
    alph: Alphabet,
    text: Seq<char>,
    start: u32,
    full_match: bool,
) -> Option<Seq<u32>> {
    walk_acc(aut, alph, text, start, full_match, false, Seq::empty())
}

/// The states visited while consuming `text` from `start`, one per character;
/// meaningful when the whole chain of transitions is defined, that is when
/// `run_end` returns `Some`.
pub open spec fn trace(aut: Automaton, alph: Alphabet, text: Seq<char>, start: u32) -> Seq<u32>
    decreases text.len(),
{
    if text.len() == 0 {
        Seq::empty()
    } else {
        match next_of(aut.transitions@, start, symbol_of(alph.symbols@, alph.anything, text[0])) {
            Some(next) => seq![next] + trace(aut, alph, text.skip(1), next),
            None => Seq::empty(),
        }
    }
}

/// Where a walk that visited `visited` ends: at the last visited state, or at
/// `start` when the token was empty.
pub open spec fn walk_end(start: u32, visited: Seq<u32>) -> u32 {
    if visited.len() == 0 {
        start
    } else {
        visited.last()
    }
}

proof fn lemma_walk_acc_run(
    aut: Automaton,
    alph: Alphabet,
    text: Seq<char>,
    state: u32,
    full_match: bool,
    seen_final: bool,
    acc: Seq<u32>,
)
    ensures
        (run_end(aut, alph, text, state) is Some && !full_match) ==> walk_acc(
            aut,
            alph,
            text,
            state,
            full_match,
            seen_final,
            acc,
        ) == Some(acc + trace(aut, alph, text, state)),
        run_end(aut, alph, text, state) is Some ==> trace(aut, alph, text, state).len()
            == text.len() && run_end(aut, alph, text, state) == Some(
            walk_end(state, trace(aut, alph, text, state)),
        ),
        walk_acc(aut, alph, text, state, full_match, seen_final, acc) matches Some(v) ==> v.len()
            <= acc.len() + text.len() && (v.len() == acc.len() + text.len() ==> run_end(
            aut,
            alph,
            text,
            state,
        ) is Some && v == acc + trace(aut, alph, text, state)),
    decreases text.len(),
{
    if text.len() == 0 {
        assert(acc + trace(aut, alph, text, state) =~= acc);
    } else {
        match next_of(aut.transitions@, state, symbol_of(alph.symbols@, alph.anything, text[0])) {
            Some(next) => {
                let seen2 = seen_final || aut.finals@.contains(next);
                lemma_walk_acc_run(
                    aut,
                    alph,
                    text.skip(1),
                    next,
                    full_match,
                    seen2,
                    acc.push(next),
                );
                assert(acc.push(next) + trace(aut, alph, text.skip(1), next) =~= acc + trace(
                    aut,
                    alph,
                    text,
                    state,
                ));
            },
            None => {},
        }
    }
}

/// Walk correctness: without required full consumption, a walk returns a
/// sequence of one state per character exactly when every character of the
/// token has a defined transition chain from the start state, and the walk
/// then ends where the chain ends; with required full consumption a
/// full-length result still implies the chain is defined. Every other outcome
/// is a rejection, or a truncated sequence strictly shorter than the token.
pub proof fn lemma_walk_correct(
    aut: Automaton,
    alph: Alphabet,
    text: Seq<char>,
    start: u32,
    full_match: bool,
)
    ensures
        (match walk_spec(aut, alph, text, start, full_match) {
            Some(v) => v.len() == text.len() ==> run_end(aut, alph, text, start) == Some(
                walk_end(start, v),
            ) && v == trace(aut, alph, text, start),
            None => true,
        }),
        !full_match ==> (run_end(aut, alph, text, start) is Some <==> (match walk_spec(
            aut,
            alph,
            text,
            start,
            full_match,
        ) {
            Some(v) => v.len() == text.len(),
            None => false,
        })),
        walk_spec(aut, alph, text, start, full_match) matches Some(v) ==> v.len() <= text.len(),
{
    lemma_walk_acc_run(aut, alph, text, start, full_match, false, Seq::empty());
    assert(Seq::empty() + trace(aut, alph, text, start) =~= trace(aut, alph, text, start));
}

/// Simulates the automaton over one token's characters from `start`,
/// returning the visited states or `None` for a rejection, exactly as
/// `walk_spec` describes.
pub fn walk(
    aut: &Automaton,
    alph: &Alphabet,
    text: &Vec<char>,
    start: u32,
    full_match: bool,
) -> (r: Option<Vec<u32>>)
    ensures
        r matches Some(v) ==> walk_spec(*aut, *alph, text@, start, full_match) == Some(v@),
        r is None ==> walk_spec(*aut, *alph, text@, start, full_match) is None,
{
    let mut state = start;
    let mut seen_final = false;
    let mut visited: Vec<u32> = Vec::new();
    proof {
        assert(text@.skip(0) =~= text@);
    }
    let mut i: usize = 0;
    while i < text.len()
        invariant
            0 <= i <= text@.len(),
            walk_acc(*aut, *alph, text@, start, full_match, false, Seq::empty()) == walk_acc(
                *aut,
                *alph,
                text@.skip(i as int),
                state,
                full_match,
                seen_final,
                visited@,
            ),
        decreases text@.len() - i,
    {
        let sym = alph.resolve(text[i]);
        proof {
            assert(text@.skip(i as int)[0] == text@[i as int]);
            assert(text@.skip(i as int).skip(1) =~= text@.skip(i as int + 1));
        }
        match aut.transition(state, sym) {
            Some(next) => {
                state = next;
                if aut.is_final(next) {
                    seen_final = true;
                }
                visited.push(next);
                i = i + 1;
            },
            None => {
                if !full_match && seen_final {
                    return Some(visited);
                } else {
                    return None;
                }
            },
        }
    }
    proof {
        assert(text@.skip(i as int) =~= Seq::<char>::empty());
    }
    if full_match && !seen_final {
        None
    } else {
        Some(visited)
    }
}

} // verus!
