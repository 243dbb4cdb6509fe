use vstd::prelude::*;

verus! {

/// A deterministic finite automaton over caller-chosen nonnegative integer
/// state and symbol ids. `transitions` lists `(state, symbol, next_state)`
/// triples; the transition function is partial, and where a `(state, symbol)`
/// pair occurs more than once the earliest triple governs.
pub struct Automaton {
    pub transitions: Vec<(u32, u32, u32)>,
    pub initial: u32,
    pub finals: Vec<u32>,
}

/// Maps single characters to symbol ids; a character absent from `symbols`
/// resolves to the designated catch-all symbol `anything`. Where a character
/// occurs more than once the earliest pair governs.
pub struct Alphabet {
    pub symbols: Vec<(char, u32)>,
    pub anything: u32,
}

/// The symbol id that `c` resolves to: the id of the earliest matching pair,
/// or the catch-all id if no pair matches.
pub open spec fn symbol_of(symbols: Seq<(char, u32)>, anything: u32, c: char) -> u32
    decreases symbols.len(),
{
    if symbols.len() == 0 {
        anything
    } else if symbols[0].0 == c {
        symbols[0].1
    } else {
        symbol_of(symbols.skip(1), anything, c)
    }
}

/// The transition taken from `state` on `symbol`, if any: the target of the
/// earliest matching triple.
pub open spec fn next_of(transitions: Seq<(u32, u32, u32)>, state: u32, symbol: u32) -> Option<u32>
    decreases transitions.len(),
{
    if transitions.len() == 0 {
        None
    } else if transitions[0].0 == state && transitions[0].1 == symbol {
        Some(transitions[0].2)
    } else {
        next_of(transitions.skip(1), state, symbol)
    }
}

/// The state reached by consuming every character of `text` in order from
/// `start`, or `None` if some character along the way has no transition.
pub open spec fn run_end(aut: Automaton, alph: Alphabet, text: Seq<char>, start: u32) -> Option<u32>
    decreases text.len(),
{
    if text.len() == 0 {
        Some(start)
    } else {
        match next_of(aut.transitions@, start, symbol_of(alph.symbols@, alph.anything, text[0])) {
            Some(next) => run_end(aut, alph, text.skip(1), next),
            None => None,
        }
    }
}

impl Alphabet {
    /// Resolves a character to its symbol id, falling back to the catch-all id.
    pub fn resolve(&self, c: char) -> (r: u32)
        ensures
            r == symbol_of(self.symbols@, self.anything, c),
    {
        proof {
            assert(self.symbols@.skip(0) =~= self.symbols@);
        }
        let mut i: usize = 0;
        while i < self.symbols.len()
            invariant
                0 <= i <= self.symbols@.len(),
                symbol_of(self.symbols@, self.anything, c) == symbol_of(
                    self.symbols@.skip(i as int),
                    self.anything,
                    c,
                ),
            decreases self.symbols@.len() - i,
        {
            if self.symbols[i].0 == c {
                proof {
                    assert(self.symbols@.skip(i as int)[0] == self.symbols@[i as int]);
                }
                return self.symbols[i].1;
            }
            proof {
                assert(self.symbols@.skip(i as int).skip(1) =~= self.symbols@.skip(i as int + 1));
            }
            i = i + 1;
        }
        proof {
            assert(self.symbols@.skip(i as int) =~= Seq::<(char, u32)>::empty());
        }
        self.anything
    }
}

impl Automaton {
    /// Looks up the transition for `(state, symbol)`, if one is defined.
    pub fn transition(&self, state: u32, symbol: u32) -> (r: Option<u32>)
        ensures
            r == next_of(self.transitions@, state, symbol),
    {
        proof {
            assert(self.transitions@.skip(0) =~= self.transitions@);
        }
        let mut i: usize = 0;
        while i < self.transitions.len()
            invariant
                0 <= i <= self.transitions@.len(),
                next_of(self.transitions@, state, symbol) == next_of(
                    self.transitions@.skip(i as int),
                    state,
                    symbol,
                ),
            decreases self.transitions@.len() - i,
        {
            let t = self.transitions[i];
            proof {
                assert(self.transitions@.skip(i as int)[0] == self.transitions@[i as int]);
            }
            if t.0 == state && t.1 == symbol {
                return Some(t.2);
            }
            proof {
                assert(self.transitions@.skip(i as int).skip(1) =~= self.transitions@.skip(
                    i as int + 1,
                ));
            }
            i = i + 1;
        }
        proof {
            assert(self.transitions@.skip(i as int) =~= Seq::<(u32, u32, u32)>::empty());
        }
        None
    }

    /// Whether `state` is one of the automaton's final states.
    pub fn is_final(&self, state: u32) -> (r: bool)
        ensures
            r == self.finals@.contains(state),
    {
        let mut i: usize = 0;
        while i < self.finals.len()
            invariant
                0 <= i <= self.finals@.len(),
                forall|k: int| 0 <= k < i ==> self.finals@[k] != state,
            decreases self.finals@.len() - i,
        {
            if self.finals[i] == state {
                return true;
            }
            i = i + 1;
        }
        false
    }
}

} // verus!
