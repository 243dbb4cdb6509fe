use crate::automaton::{Alphabet, Automaton, next_of, run_end, symbol_of};
use crate::scanner::{Vocabulary, entry_yields, lemma_scan_inclusion, scan, scan_seq};
use vstd::prelude::*;

verus! {

/// Folds scan pairs into a token-id-keyed map: a later pair for an id
/// overwrites an earlier one for the same id.
pub open spec fn pairs_to_map(pairs: Seq<(u32, u32)>) -> Map<u32, u32>
    decreases pairs.len(),
{
    if pairs.len() == 0 {
        Map::empty()
    } else {
        pairs_to_map(pairs.drop_last()).insert(pairs.last().0, pairs.last().1)
    }
}

/// The token ids of the listed pairs are pairwise distinct.
pub open spec fn unique_ids(pairs: Seq<(u32, u32)>) -> bool {
    forall|a: int, b: int|
        0 <= a < b < pairs.len() ==> (#[trigger] pairs[a]).0 != (#[trigger] pairs[b]).0
}

proof fn lemma_pairs_to_map_update(pairs: Seq<(u32, u32)>, k: int, end: u32)
    requires
        unique_ids(pairs),
        0 <= k < pairs.len(),
    ensures
        pairs_to_map(pairs.update(k, (pairs[k].0, end))) == pairs_to_map(pairs).insert(
            pairs[k].0,
            end,
        ),
    decreases pairs.len(),
{
    let id = pairs[k].0;
    let t = pairs.update(k, (id, end));
    let dl = pairs.drop_last();
    if k == pairs.len() - 1 {
        assert(t.drop_last() =~= dl);
        assert(t.last() == (id, end));
        assert(pairs_to_map(dl).insert(id, end) =~= pairs_to_map(dl).insert(
            id,
            pairs.last().1,
        ).insert(id, end));
    } else {
        assert(unique_ids(dl));
        assert(t.drop_last() =~= dl.update(k, (id, end)));
        assert(t.last() == pairs.last());
        lemma_pairs_to_map_update(dl, k, end);
        assert(pairs[k].0 != pairs.last().0);
        assert(pairs_to_map(dl).insert(id, end).insert(pairs.last().0, pairs.last().1)
            =~= pairs_to_map(dl).insert(pairs.last().0, pairs.last().1).insert(id, end));
    }
}

/// Records `(id, end)` in an id-keyed pair list: a pair carrying the same id
/// is overwritten in place, a new id is appended.
#[verifier::loop_isolation(false)]
fn upsert(pairs: &mut Vec<(u32, u32)>, id: u32, end: u32)
    requires
        unique_ids(old(pairs)@),
    ensures
        unique_ids(final(pairs)@),
        pairs_to_map(final(pairs)@) == pairs_to_map(old(pairs)@).insert(id, end),
{
    let n = pairs.len();
    let mut k: usize = 0;
    while k < n
        invariant
            0 <= k <= n,
            pairs@ == old(pairs)@,
            forall|t: int| 0 <= t < k ==> (#[trigger] pairs@[t]).0 != id,
        decreases n - k,
    {
        if pairs[k].0 == id {
            let ghost before = pairs@;
            pairs[k] = (id, end);
            proof {
                assert(before[k as int].0 == id);
                assert(pairs@ =~= before.update(k as int, (id, end)));
                lemma_pairs_to_map_update(before, k as int, end);
                assert forall|a: int, b: int| 0 <= a < b < pairs@.len() implies (
                #[trigger] pairs@[a]).0 != (#[trigger] pairs@[b]).0 by {
                    assert(pairs@[a].0 == before[a].0);
                    assert(pairs@[b].0 == before[b].0);
                }
            }
            return ;
        }
        k = k + 1;
    }
    let ghost before = pairs@;
    pairs.push((id, end));
    proof {
        assert(pairs@.drop_last() =~= before);
        assert(pairs@.last() == (id, end));
        assert forall|a: int, b: int| 0 <= a < b < pairs@.len() implies (#[trigger] pairs@[a]).0
            != (#[trigger] pairs@[b]).0 by {
            if b < before.len() {
                assert(before[a].0 != before[b].0);
            } else {
                assert(pairs@[b] == (id, end));
                assert(before[a].0 != id);
            }
        }
    }
}

/// One closure step: scanning the vocabulary from `s` yields some pair that
/// ends at `e`.
pub open spec fn steps_to(
    aut: Automaton,
    alph: Alphabet,
    vocab: Seq<(Seq<char>, Seq<u32>)>,
    s: u32,
    e: u32,
) -> bool {
    exists|id: u32| scan_seq(aut, alph, vocab, s).contains((id, e))
}

/// Reachability from the automaton's initial state in at most `n` closure
/// steps.
pub open spec fn reach_within(
    aut: Automaton,
    alph: Alphabet,
    vocab: Seq<(Seq<char>, Seq<u32>)>,
    n: nat,
    s: u32,
) -> bool
    decreases n,
{
    if n == 0 {
        s == aut.initial
    } else {
        reach_within(aut, alph, vocab, (n - 1) as nat, s) || exists|q: u32|
            reach_within(aut, alph, vocab, (n - 1) as nat, q) && steps_to(aut, alph, vocab, q, s)
    }
}

/// A state is reachable when some sequence of accepted vocabulary tokens
/// leads to it from the initial state.
pub open spec fn reachable(
    aut: Automaton,
    alph: Alphabet,
    vocab: Seq<(Seq<char>, Seq<u32>)>,
    s: u32,
) -> bool {
    exists|n: nat| reach_within(aut, alph, vocab, n, s)
}

proof fn lemma_step_reachable(
    aut: Automaton,
    alph: Alphabet,
    vocab: Seq<(Seq<char>, Seq<u32>)>,
    s: u32,
    e: u32,
)
    requires
        reachable(aut, alph, vocab, s),
        steps_to(aut, alph, vocab, s, e),
    ensures
        reachable(aut, alph, vocab, e),
{
    let n = choose|n: nat| reach_within(aut, alph, vocab, n, s);
    assert(reach_within(aut, alph, vocab, n + 1, e));
}

proof fn lemma_closed_contains(
    aut: Automaton,
    alph: Alphabet,
    vocab: Seq<(Seq<char>, Seq<u32>)>,
    closed: Set<u32>,
    n: nat,
    x: u32,
)
    requires
        closed.contains(aut.initial),
        forall|q: u32, e: u32|
            closed.contains(q) && #[trigger] steps_to(aut, alph, vocab, q, e)
                ==> closed.contains(e),
        reach_within(aut, alph, vocab, n, x),
    ensures
        closed.contains(x),
    decreases n,
{
    if n > 0 {
        if reach_within(aut, alph, vocab, (n - 1) as nat, x) {
            lemma_closed_contains(aut, alph, vocab, closed, (n - 1) as nat, x);
        } else {
            let q = choose|q: u32|
                reach_within(aut, alph, vocab, (n - 1) as nat, q) && steps_to(
                    aut,
                    alph,
                    vocab,
                    q,
                    x,
                );
            lemma_closed_contains(aut, alph, vocab, closed, (n - 1) as nat, q);
        }
    }
}

/// Every state a closure can ever enqueue: the targets of all transitions,
/// plus the initial state.
pub open spec fn state_universe(aut: Automaton) -> Set<u32> {
    aut.transitions@.map_values(|t: (u32, u32, u32)| t.2).to_set().insert(aut.initial)
}

proof fn lemma_state_universe_finite(aut: Automaton)
    ensures
        state_universe(aut).finite(),
{
    broadcast use vstd::seq_lib::seq_to_set_is_finite;
    broadcast use vstd::set::group_set_axioms;

}

proof fn lemma_next_of_target(transitions: Seq<(u32, u32, u32)>, state: u32, symbol: u32)
    ensures
        next_of(transitions, state, symbol) matches Some(e) ==> exists|k: int|
            0 <= k < transitions.len() && (#[trigger] transitions[k]).2 == e,
    decreases transitions.len(),
{
    if transitions.len() == 0 {
    } else if transitions[0].0 == state && transitions[0].1 == symbol {
        assert(transitions[0].2 == next_of(transitions, state, symbol)->Some_0);
    } else {
        lemma_next_of_target(transitions.skip(1), state, symbol);
        match next_of(transitions, state, symbol) {
            Some(e) => {
                let k = choose|k: int|
                    0 <= k < transitions.skip(1).len() && (#[trigger] transitions.skip(1)[k]).2
                        == e;
                assert(transitions[k + 1].2 == e);
            },
            None => {},
        }
    }
}

proof fn lemma_run_end_target(aut: Automaton, alph: Alphabet, text: Seq<char>, start: u32)
    requires
        text.len() > 0,
    ensures
        run_end(aut, alph, text, start) matches Some(e) ==> exists|k: int|
            0 <= k < aut.transitions@.len() && (#[trigger] aut.transitions@[k]).2 == e,
    decreases text.len(),
{
    match next_of(aut.transitions@, start, symbol_of(alph.symbols@, alph.anything, text[0])) {
        Some(next) => {
            assert(run_end(aut, alph, text, start) == run_end(aut, alph, text.skip(1), next));
            if text.len() == 1 {
                assert(text.skip(1).len() == 0);
                assert(run_end(aut, alph, text.skip(1), next) == Some(next));
                lemma_next_of_target(
                    aut.transitions@,
                    start,
                    symbol_of(alph.symbols@, alph.anything, text[0]),
                );
            } else {
                lemma_run_end_target(aut, alph, text.skip(1), next);
            }
        },
        None => {},
    }
}

proof fn lemma_step_in_universe(
    aut: Automaton,
    alph: Alphabet,
    vocab: Seq<(Seq<char>, Seq<u32>)>,
    s: u32,
    e: u32,
)
    requires
        steps_to(aut, alph, vocab, s, e),
        state_universe(aut).contains(s),
    ensures
        state_universe(aut).contains(e),
{
    let id = choose|id: u32| scan_seq(aut, alph, vocab, s).contains((id, e));
    lemma_scan_inclusion(aut, alph, vocab, s, (id, e));
    let (i, j) = choose|i: int, j: int| entry_yields(aut, alph, vocab, s, i, j, (id, e));
    let text = vocab[i].0;
    if text.len() == 0 {
        assert(e == s);
    } else {
        lemma_run_end_target(aut, alph, text, s);
        let k = choose|k: int|
            0 <= k < aut.transitions@.len() && (#[trigger] aut.transitions@[k]).2 == e;
        let mapped = aut.transitions@.map_values(|t: (u32, u32, u32)| t.2);
        assert(mapped[k] == e);
        assert(mapped.contains(e));
    }
}

proof fn lemma_contains_push(s: Seq<u32>, x: u32, y: u32)
    ensures
        s.push(x).contains(y) <==> (s.contains(y) || y == x),
{
    if s.contains(y) {
        let k = choose|k: int| 0 <= k < s.len() && s[k] == y;
        assert(s.push(x)[k] == y);
    }
    assert(s.push(x)[s.len() as int] == x);
    if s.push(x).contains(y) {
        let k = choose|k: int| 0 <= k < s.push(x).len() && s.push(x)[k] == y;
        if k < s.len() {
            assert(s[k] == y);
        }
    }
}

proof fn lemma_contains_drop_last(s: Seq<u32>, y: u32)
    requires
        s.len() > 0,
    ensures
        s.contains(y) <==> (s.drop_last().contains(y) || y == s.last()),
{
    if s.drop_last().contains(y) {
        let k = choose|k: int| 0 <= k < s.drop_last().len() && s.drop_last()[k] == y;
        assert(s[k] == y);
    }
    assert(s[s.len() - 1] == s.last());
    if s.contains(y) {
        let k = choose|k: int| 0 <= k < s.len() && s[k] == y;
        if k < s.len() - 1 {
            assert(s.drop_last()[k] == y);
        }
    }
}

/// Whether `x` occurs in `v`.
#[verifier::loop_isolation(false)]
fn vec_contains(v: &Vec<u32>, x: u32) -> (r: bool)
    ensures
        r == v@.contains(x),
{
    let mut i: usize = 0;
    while i < v.len()
        invariant
            0 <= i <= v@.len(),
            forall|k: int| 0 <= k < i ==> v@[k] != x,
        decreases v@.len() - i,
    {
        if v[i] == x {
            return true;
        }
        i = i + 1;
    }
    false
}

/// The map a state-index entry list denotes: each listed state maps to its
/// id-keyed pair map.
pub open spec fn index_view(entries: Seq<(u32, Vec<(u32, u32)>)>) -> Map<u32, Map<u32, u32>>
    decreases entries.len(),
{
    if entries.len() == 0 {
        Map::empty()
    } else {
        index_view(entries.drop_last()).insert(
            entries.last().0,
            pairs_to_map(entries.last().1@),
        )
    }
}

/// The index: for every automaton state reachable from the initial state, the
/// `(token id, end state)` pairs of the vocabulary tokens fully consumable
/// from it.
pub struct StateIndex {
    pub entries: Vec<(u32, Vec<(u32, u32)>)>,
}

impl View for StateIndex {
    type V = Map<u32, Map<u32, u32>>;

    open spec fn view(&self) -> Map<u32, Map<u32, u32>> {
        index_view(self.entries@)
    }
}

impl StateIndex {
    /// A structurally well-formed index: one entry per state, each entry's
    /// pairs keyed by pairwise-distinct token ids, and each entry listing
    /// exactly the pairs that the index maps its state to.
    pub open spec fn wf(&self) -> bool {
        &&& forall|a: int, b: int|
            0 <= a < b < self.entries@.len() ==> (#[trigger] self.entries@[a]).0 != (
            #[trigger] self.entries@[b]).0
        &&& forall|k: int|
            0 <= k < self.entries@.len() ==> unique_ids((#[trigger] self.entries@[k]).1@)
        &&& forall|k: int|
            0 <= k < self.entries@.len() ==> self@.contains_key(
                (#[trigger] self.entries@[k]).0,
            ) && self@[self.entries@[k].0] == pairs_to_map(self.entries@[k].1@)
    }

    /// The pairs recorded for `state`: the tokens consumable from it with
    /// their end states, keyed by token id, or `None` when the state is not a
    /// key of the index.
    #[verifier::loop_isolation(false)]
    pub fn lookup(&self, state: u32) -> (r: Option<&Vec<(u32, u32)>>)
        requires
            self.wf(),
        ensures
            match r {
                Some(pairs) => self@.contains_key(state) && pairs_to_map(pairs@) == self@[state]
                    && unique_ids(pairs@),
                None => !self@.contains_key(state),
            },
    {
        let mut k: usize = 0;
        while k < self.entries.len()
            invariant
                0 <= k <= self.entries@.len(),
                forall|t: int| 0 <= t < k ==> (#[trigger] self.entries@[t]).0 != state,
            decreases self.entries@.len() - k,
        {
            if self.entries[k].0 == state {
                return Some(&self.entries[k].1);
            }
            k = k + 1;
        }
        proof {
            lemma_index_view_key(self.entries@, state);
        }
        None
    }
}

proof fn lemma_index_view_key(entries: Seq<(u32, Vec<(u32, u32)>)>, state: u32)
    ensures
        index_view(entries).contains_key(state) <==> exists|k: int|
            0 <= k < entries.len() && (#[trigger] entries[k]).0 == state,
    decreases entries.len(),
{
    if entries.len() == 0 {
        if exists|k: int| 0 <= k < entries.len() && (#[trigger] entries[k]).0 == state {
            let k = choose|k: int| 0 <= k < entries.len() && (#[trigger] entries[k]).0 == state;
            assert(false);
        }
    } else {
        let dl = entries.drop_last();
        lemma_index_view_key(dl, state);
        if entries.last().0 == state {
            assert(entries[entries.len() - 1].0 == state);
        } else if index_view(entries).contains_key(state) {
            let k = choose|k: int| 0 <= k < dl.len() && (#[trigger] dl[k]).0 == state;
            assert(entries[k].0 == state);
        } else if exists|k: int| 0 <= k < entries.len() && (#[trigger] entries[k]).0 == state {
            let k = choose|k: int| 0 <= k < entries.len() && (#[trigger] entries[k]).0 == state;
            assert(dl[k].0 == state);
        }
    }
}

/// The index a build returns, as a function of the inputs alone: one key per
/// reachable state, carrying the scan of the whole vocabulary from that
/// state, keyed by token id so that a repeated id overwrites.
pub open spec fn index_of(
    aut: Automaton,
    alph: Alphabet,
    vocab: Seq<(Seq<char>, Seq<u32>)>,
) -> Map<u32, Map<u32, u32>> {
    Map::new(
        |s: u32| reachable(aut, alph, vocab, s),
        |s: u32| pairs_to_map(scan_seq(aut, alph, vocab, s)),
    )
}

/// Builds the complete index: starting from the automaton's initial state,
/// the builder repeatedly scans newly discovered states until no unresolved
/// state remains. The keys of the result are exactly the states reachable
/// from the initial state via accepted vocabulary tokens, the initial state
/// always among them, and each key carries the scan of the vocabulary from
/// that state.
#[verifier::loop_isolation(false)]
pub fn build_index(aut: &Automaton, alph: &Alphabet, vocab: &Vocabulary) -> (r: StateIndex)
    ensures
        r@ == index_of(*aut, *alph, vocab@),
        r.wf(),
{
    let ghost u = state_universe(*aut);
    proof {
        lemma_state_universe_finite(*aut);
        assert(u.contains(aut.initial));
        assert(reach_within(*aut, *alph, vocab@, 0, aut.initial));
        assert(reachable(*aut, *alph, vocab@, aut.initial));
    }
    let mut seen: Vec<u32> = Vec::new();
    let mut frontier: Vec<u32> = Vec::new();
    frontier.push(aut.initial);
    proof {
        assert(frontier@[0] == aut.initial);
        assert(frontier@.contains(aut.initial));
    }
    let mut entries: Vec<(u32, Vec<(u32, u32)>)> = Vec::new();
    while frontier.len() > 0
        invariant
            forall|x: u32| #[trigger]
                frontier@.contains(x) ==> u.contains(x) && reachable(*aut, *alph, vocab@, x),
            forall|x: u32| #[trigger]
                seen@.contains(x) ==> u.contains(x) && reachable(*aut, *alph, vocab@, x),
            seen@.contains(aut.initial) || frontier@.contains(aut.initial),
            forall|q: u32, e: u32|
                seen@.contains(q) && #[trigger] steps_to(*aut, *alph, vocab@, q, e)
                    ==> seen@.contains(e) || frontier@.contains(e),
            forall|x: u32| #[trigger] index_view(entries@).contains_key(x) <==> seen@.contains(x),
            forall|x: u32| #[trigger]
                seen@.contains(x) ==> index_view(entries@)[x] == pairs_to_map(
                    scan_seq(*aut, *alph, vocab@, x),
                ),
            forall|k: int| 0 <= k < entries@.len() ==> seen@.contains((#[trigger] entries@[k]).0),
            forall|a: int, b: int|
                0 <= a < b < entries@.len() ==> (#[trigger] entries@[a]).0 != (
                #[trigger] entries@[b]).0,
            forall|k: int| 0 <= k < entries@.len() ==> unique_ids((#[trigger] entries@[k]).1@),
            forall|k: int|
                0 <= k < entries@.len() ==> index_view(entries@)[(#[trigger] entries@[k]).0]
                    == pairs_to_map(entries@[k].1@),
        decreases u.difference(seen@.to_set()).len(), frontier@.len(),
    {
        let ghost pre_frontier = frontier@;
        let s = frontier.pop().unwrap();
        proof {
            assert(pre_frontier[pre_frontier.len() - 1] == s);
            assert(pre_frontier.contains(s));
            assert(frontier@ =~= pre_frontier.drop_last());
            assert forall|x: u32| #[trigger] frontier@.contains(x) implies pre_frontier.contains(
                x,
            ) by {
                lemma_contains_drop_last(pre_frontier, x);
            }
        }
        if vec_contains(&seen, s) {
            proof {
                assert forall|q: u32, e: u32|
                    seen@.contains(q) && #[trigger] steps_to(*aut, *alph, vocab@, q, e) implies
                    seen@.contains(e) || frontier@.contains(e) by {
                    if !seen@.contains(e) {
                        assert(pre_frontier.contains(e));
                        lemma_contains_drop_last(pre_frontier, e);
                    }
                }
                if !seen@.contains(aut.initial) {
                    lemma_contains_drop_last(pre_frontier, aut.initial);
                }
            }
        } else {
            proof {
                assert(u.contains(s) && reachable(*aut, *alph, vocab@, s));
            }
            let pairs = scan(aut, alph, vocab, s);
            let ghost fr0 = frontier@;
            let mut entry: Vec<(u32, u32)> = Vec::new();
            proof {
                assert(pairs@.take(0) =~= Seq::<(u32, u32)>::empty());
            }
            let mut t: usize = 0;
            while t < pairs.len()
                invariant
                    0 <= t <= pairs@.len(),
                    unique_ids(entry@),
                    pairs_to_map(entry@) == pairs_to_map(pairs@.take(t as int)),
                    forall|k: int|
                        0 <= k < t ==> seen@.contains((#[trigger] pairs@[k]).1)
                            || frontier@.contains(pairs@[k].1),
                    forall|x: u32| #[trigger] fr0.contains(x) ==> frontier@.contains(x),
                    forall|x: u32| #[trigger]
                        frontier@.contains(x) ==> u.contains(x) && reachable(
                            *aut,
                            *alph,
                            vocab@,
                            x,
                        ),
                decreases pairs@.len() - t,
            {
                let (tid, est) = pairs[t];
                upsert(&mut entry, tid, est);
                proof {
                    assert(pairs@.take(t as int + 1).drop_last() =~= pairs@.take(t as int));
                    assert(pairs@.take(t as int + 1).last() == pairs@[t as int]);
                }
                let ghost fr1 = frontier@;
                if !vec_contains(&seen, est) {
                    frontier.push(est);
                    proof {
                        assert(pairs@[t as int] == (tid, est));
                        assert(scan_seq(*aut, *alph, vocab@, s).contains((tid, est)));
                        assert(steps_to(*aut, *alph, vocab@, s, est));
                        lemma_step_reachable(*aut, *alph, vocab@, s, est);
                        lemma_step_in_universe(*aut, *alph, vocab@, s, est);
                        assert(frontier@[frontier@.len() - 1] == est);
                        assert(frontier@.contains(est));
                        assert forall|x: u32| #[trigger] fr1.contains(x) implies
                            frontier@.contains(x) by {
                            lemma_contains_push(fr1, est, x);
                        }
                        assert forall|x: u32| #[trigger] frontier@.contains(x) implies u.contains(
                            x,
                        ) && reachable(*aut, *alph, vocab@, x) by {
                            lemma_contains_push(fr1, est, x);
                        }
                    }
                }
                t = t + 1;
            }
            proof {
                assert(pairs@.take(pairs@.len() as int) =~= pairs@);
            }
            let ghost entv = entry@;
            let ghost ent0 = entries@;
            let ghost seen0 = seen@;
            entries.push((s, entry));
            seen.push(s);
            proof {
                assert(entries@.drop_last() =~= ent0);
                assert(entries@.last().0 == s);
                assert(entries@.last().1@ == entv);
                assert(index_view(entries@) == index_view(ent0).insert(s, pairs_to_map(entv)));
                assert(seen@ =~= seen0.push(s));
                assert(seen@[seen@.len() - 1] == s);
                assert(seen@.contains(s));
                assert forall|x: u32| #[trigger] seen@.contains(x) implies (seen0.contains(x) || x
                    == s) by {
                    lemma_contains_push(seen0, s, x);
                }
                assert forall|x: u32| #[trigger] seen0.contains(x) implies seen@.contains(x) by {
                    lemma_contains_push(seen0, s, x);
                }
                assert(pairs_to_map(entv) == pairs_to_map(scan_seq(*aut, *alph, vocab@, s)));
                assert forall|k: int| 0 <= k < entries@.len() implies seen@.contains(
                    (#[trigger] entries@[k]).0,
                ) by {
                    if k < ent0.len() {
                        assert(entries@[k] == ent0[k]);
                    }
                }
                assert forall|a: int, b: int| 0 <= a < b < entries@.len() implies (
                #[trigger] entries@[a]).0 != (#[trigger] entries@[b]).0 by {
                    if b < ent0.len() {
                        assert(entries@[a] == ent0[a] && entries@[b] == ent0[b]);
                    } else {
                        assert(entries@[b].0 == s);
                        assert(seen0.contains(ent0[a].0));
                        assert(!seen0.contains(s));
                    }
                }
                assert forall|k: int| 0 <= k < entries@.len() implies unique_ids(
                    (#[trigger] entries@[k]).1@,
                ) by {
                    if k < ent0.len() {
                        assert(entries@[k] == ent0[k]);
                    }
                }
                assert forall|k: int| 0 <= k < entries@.len() implies index_view(entries@)[(
                #[trigger] entries@[k]).0] == pairs_to_map(entries@[k].1@) by {
                    if k < ent0.len() {
                        assert(entries@[k] == ent0[k]);
                        assert(ent0[k].0 != s);
                        assert(index_view(entries@)[ent0[k].0] == index_view(ent0)[ent0[k].0]);
                    }
                }
                assert forall|q: u32, e: u32|
                    seen@.contains(q) && #[trigger] steps_to(*aut, *alph, vocab@, q, e) implies
                    seen@.contains(e) || frontier@.contains(e) by {
                    if q == s {
                        let id2 = choose|id2: u32|
                            scan_seq(*aut, *alph, vocab@, s).contains((id2, e));
                        let k = choose|k: int|
                            0 <= k < pairs@.len() && pairs@[k] == (id2, e);
                        assert(pairs@[k].1 == e);
                    } else {
                        assert(seen0.contains(q));
                        if !seen0.contains(e) {
                            assert(pre_frontier.contains(e));
                            lemma_contains_drop_last(pre_frontier, e);
                            assert(fr0.contains(e) || e == s);
                        }
                    }
                }
                if !seen0.contains(aut.initial) {
                    assert(pre_frontier.contains(aut.initial));
                    lemma_contains_drop_last(pre_frontier, aut.initial);
                    assert(fr0.contains(aut.initial) || aut.initial == s);
                }
                broadcast use vstd::prelude::Seq::lemma_push_to_set_commute;
                broadcast use vstd::set::group_set_axioms;

                assert(seen@.to_set() =~= seen0.to_set().insert(s));
                assert(u.difference(seen@.to_set()) =~= u.difference(seen0.to_set()).remove(s));
                assert(!seen0.to_set().contains(s));
                assert(u.difference(seen0.to_set()).contains(s));
                assert(u.difference(seen0.to_set()).finite());
            }
        }
    }
    proof {
        let closed = seen@.to_set();
        assert(seen@.contains(aut.initial));
        assert forall|q: u32, e: u32|
            closed.contains(q) && #[trigger] steps_to(*aut, *alph, vocab@, q, e) implies
            closed.contains(e) by {
            assert(seen@.contains(q));
            assert(seen@.contains(e) || frontier@.contains(e));
            if frontier@.contains(e) {
                let k = choose|k: int| 0 <= k < frontier@.len() && frontier@[k] == e;
                assert(false);
            }
        }
        assert forall|x: u32| reachable(*aut, *alph, vocab@, x) implies seen@.contains(x) by {
            let n = choose|n: nat| reach_within(*aut, *alph, vocab@, n, x);
            lemma_closed_contains(*aut, *alph, vocab@, closed, n, x);
        }
        assert forall|x: u32|
            index_view(entries@).contains_key(x) <==> index_of(*aut, *alph, vocab@).contains_key(
                x,
            ) by {
            assert(index_of(*aut, *alph, vocab@).contains_key(x) == reachable(
                *aut,
                *alph,
                vocab@,
                x,
            ));
        }
        assert forall|x: u32| index_view(entries@).contains_key(x) implies index_view(entries@)[x]
            == index_of(*aut, *alph, vocab@)[x] by {
            assert(seen@.contains(x));
        }
        assert(index_view(entries@) =~= index_of(*aut, *alph, vocab@));
        assert forall|k: int| 0 <= k < entries@.len() implies index_view(entries@).contains_key(
            (#[trigger] entries@[k]).0,
        ) by {
            assert(seen@.contains(entries@[k].0));
        }
    }
    StateIndex { entries }
}

proof fn lemma_pairs_to_map_pair(pairs: Seq<(u32, u32)>, id: u32)
    ensures
        pairs_to_map(pairs).contains_key(id) ==> exists|k: int|
            0 <= k < pairs.len() && (#[trigger] pairs[k]) == (id, pairs_to_map(pairs)[id]),
        (exists|k: int| 0 <= k < pairs.len() && (#[trigger] pairs[k]).0 == id)
            ==> pairs_to_map(pairs).contains_key(id),
    decreases pairs.len(),
{
    if pairs.len() == 0 {
        if exists|k: int| 0 <= k < pairs.len() && (#[trigger] pairs[k]).0 == id {
            let k = choose|k: int| 0 <= k < pairs.len() && (#[trigger] pairs[k]).0 == id;
            assert(false);
        }
    } else {
        let dl = pairs.drop_last();
        lemma_pairs_to_map_pair(dl, id);
        if pairs.last().0 == id {
            assert(pairs[pairs.len() - 1] == (id, pairs_to_map(pairs)[id]));
        } else {
            if pairs_to_map(pairs).contains_key(id) {
                let k = choose|k: int|
                    0 <= k < dl.len() && (#[trigger] dl[k]) == (id, pairs_to_map(dl)[id]);
                assert(pairs[k] == (id, pairs_to_map(pairs)[id]));
            }
            if exists|k: int| 0 <= k < pairs.len() && (#[trigger] pairs[k]).0 == id {
                let k = choose|k: int| 0 <= k < pairs.len() && (#[trigger] pairs[k]).0 == id;
                assert(dl[k].0 == id);
            }
        }
    }
}

/// Index exactness: under any reachable state `s`, the index maps a token id
/// to an end state exactly when the vocabulary carries a token with that id
/// whose full text can be walked from `s` — no token the automaton rejects is
/// permitted, and no accepted token is omitted — and the recorded end state
/// is where a walk of some accepted token text carrying that id ends.
pub proof fn lemma_index_exact(
    aut: Automaton,
    alph: Alphabet,
    vocab: Seq<(Seq<char>, Seq<u32>)>,
    s: u32,
    id: u32,
)
    requires
        reachable(aut, alph, vocab, s),
    ensures
        index_of(aut, alph, vocab).contains_key(s),
        index_of(aut, alph, vocab)[s].contains_key(id) ==> exists|i: int, j: int|
            entry_yields(aut, alph, vocab, s, i, j, (id, index_of(aut, alph, vocab)[s][id])),
        (exists|i: int, j: int, e: u32| entry_yields(aut, alph, vocab, s, i, j, (id, e)))
            ==> index_of(aut, alph, vocab)[s].contains_key(id),
{
    let pairs = scan_seq(aut, alph, vocab, s);
    let m = pairs_to_map(pairs);
    assert(index_of(aut, alph, vocab)[s] == m);
    lemma_pairs_to_map_pair(pairs, id);
    if m.contains_key(id) {
        let k = choose|k: int| 0 <= k < pairs.len() && (#[trigger] pairs[k]) == (id, m[id]);
        assert(pairs.contains((id, m[id])));
        lemma_scan_inclusion(aut, alph, vocab, s, (id, m[id]));
    }
    if exists|i: int, j: int, e: u32| entry_yields(aut, alph, vocab, s, i, j, (id, e)) {
        let (i, j, e) = choose|i: int, j: int, e: u32|
            entry_yields(aut, alph, vocab, s, i, j, (id, e));
        lemma_scan_inclusion(aut, alph, vocab, s, (id, e));
        assert(pairs.contains((id, e)));
        let k = choose|k: int| 0 <= k < pairs.len() && pairs[k] == (id, e);
        assert(pairs[k].0 == id);
    }
}

/// Completeness: the index's key set is exactly the set of states reachable
/// from the initial state via accepted vocabulary tokens, and the initial
/// state is always a key, possibly with an empty result set.
pub proof fn lemma_index_complete(
    aut: Automaton,
    alph: Alphabet,
    vocab: Seq<(Seq<char>, Seq<u32>)>,
)
    ensures
        forall|s: u32| #[trigger]
            index_of(aut, alph, vocab).contains_key(s) <==> reachable(aut, alph, vocab, s),
        index_of(aut, alph, vocab).contains_key(aut.initial),
{
    assert forall|s: u32| #[trigger]
        index_of(aut, alph, vocab).contains_key(s) <==> reachable(aut, alph, vocab, s) by {
        assert(index_of(aut, alph, vocab).dom().contains(s) == reachable(aut, alph, vocab, s));
    }
    assert(reach_within(aut, alph, vocab, 0, aut.initial));
    assert(reachable(aut, alph, vocab, aut.initial));
}

/// Idempotence: the built index is a function of the automaton, alphabet and
/// vocabulary alone, so any two builds over identical inputs return equal
/// maps.
pub proof fn lemma_index_idempotent(
    aut: Automaton,
    alph: Alphabet,
    vocab: Seq<(Seq<char>, Seq<u32>)>,
    m1: Map<u32, Map<u32, u32>>,
    m2: Map<u32, Map<u32, u32>>,
)
    requires
        m1 == index_of(aut, alph, vocab),
        m2 == index_of(aut, alph, vocab),
    ensures
        m1 == m2,
{
}

proof fn lemma_empty_vocab_reach(aut: Automaton, alph: Alphabet, n: nat, s: u32)
    ensures
        reach_within(aut, alph, Seq::<(Seq<char>, Seq<u32>)>::empty(), n, s) ==> s == aut.initial,
    decreases n,
{
    let vocab = Seq::<(Seq<char>, Seq<u32>)>::empty();
    if n > 0 && reach_within(aut, alph, vocab, n, s) {
        if reach_within(aut, alph, vocab, (n - 1) as nat, s) {
            lemma_empty_vocab_reach(aut, alph, (n - 1) as nat, s);
        } else {
            let q = choose|q: u32|
                reach_within(aut, alph, vocab, (n - 1) as nat, q) && steps_to(
                    aut,
                    alph,
                    vocab,
                    q,
                    s,
                );
            let id = choose|id: u32| scan_seq(aut, alph, vocab, q).contains((id, s));
            let k = choose|k: int|
                0 <= k < scan_seq(aut, alph, vocab, q).len() && scan_seq(aut, alph, vocab, q)[k]
                    == (id, s);
            assert(false);
        }
    }
}

/// Empty vocabulary: the index over an empty vocabulary holds exactly one
/// key, the initial state, with an empty result set.
pub proof fn lemma_index_empty_vocabulary(aut: Automaton, alph: Alphabet)
    ensures
        index_of(aut, alph, Seq::<(Seq<char>, Seq<u32>)>::empty()) == map![aut.initial => Map::<
            u32,
            u32,
        >::empty()],
{
    let vocab = Seq::<(Seq<char>, Seq<u32>)>::empty();
    assert(reach_within(aut, alph, vocab, 0, aut.initial));
    assert forall|s: u32| #[trigger] reachable(aut, alph, vocab, s) implies s == aut.initial by {
        let n = choose|n: nat| reach_within(aut, alph, vocab, n, s);
        lemma_empty_vocab_reach(aut, alph, n, s);
    }
    assert(reachable(aut, alph, vocab, aut.initial));
    assert(index_of(aut, alph, vocab) =~= map![aut.initial => Map::<u32, u32>::empty()]);
}

} // verus!
