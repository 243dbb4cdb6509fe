use crate::automaton::{Alphabet, Automaton, run_end};
use crate::walker::{lemma_walk_correct, walk, walk_end};
use vstd::prelude::*;

verus! {

/// The vocabulary to scan: each entry pairs a token's text with the ids of
/// the tokens that share that text (one text may carry several distinct ids).
/// Entry order is the stable order that partitioning relies on; it does not
/// affect the result read as a set.
pub struct Vocabulary {
    pub entries: Vec<(Vec<char>, Vec<u32>)>,
}

impl View for Vocabulary {
    type V = Seq<(Seq<char>, Seq<u32>)>;

    open spec fn view(&self) -> Seq<(Seq<char>, Seq<u32>)> {
        self.entries@.map_values(|e: (Vec<char>, Vec<u32>)| (e.0@, e.1@))
    }
}

/// The pairs one vocabulary entry contributes to a scan from `start`: one
/// `(token id, end state)` pair per id when the token's full text can be
/// walked from `start`, and nothing otherwise.
pub open spec fn token_pairs(
    aut: Automaton,
    alph: Alphabet,
    entry: (Seq<char>, Seq<u32>),
    start: u32,
) -> Seq<(u32, u32)> {
    match run_end(aut, alph, entry.0, start) {
        Some(end) => entry.1.map_values(|id: u32| (id, end)),
        None => Seq::empty(),
    }
}

/// Every pair that scanning `vocab` from `start` yields, in entry order.
pub open spec fn scan_seq(
    aut: Automaton,
    alph: Alphabet,
    vocab: Seq<(Seq<char>, Seq<u32>)>,
    start: u32,
) -> Seq<(u32, u32)>
    decreases vocab.len(),
{
    if vocab.len() == 0 {
        Seq::empty()
    } else {
        scan_seq(aut, alph, vocab.drop_last(), start) + token_pairs(
            aut,
            alph,
            vocab.last(),
            start,
        )
    }
}

/// Scans the vocabulary entries with indices in `lo..hi` against `start`:
/// each token of the range whose full text can be walked from `start`
/// contributes one `(token id, end state)` pair per associated id. A walk
/// that stops early is discarded, so visiting a final state never affects
/// which pairs are produced.
#[verifier::loop_isolation(false)]
pub fn scan_range(
    aut: &Automaton,
    alph: &Alphabet,
    vocab: &Vocabulary,
    start: u32,
    lo: usize,
    hi: usize,
) -> (r: Vec<(u32, u32)>)
    requires
        lo <= hi <= vocab@.len(),
    ensures
        r@ == scan_seq(*aut, *alph, vocab@.subrange(lo as int, hi as int), start),
{
    let mut out: Vec<(u32, u32)> = Vec::new();
    proof {
        assert(vocab@.subrange(lo as int, lo as int) =~= Seq::<(Seq<char>, Seq<u32>)>::empty());
    }
    let mut i: usize = lo;
    while i < hi
        invariant
            lo <= i <= hi,
            out@ == scan_seq(*aut, *alph, vocab@.subrange(lo as int, i as int), start),
        decreases hi - i,
    {
        let entry = &vocab.entries[i];
        proof {
            assert(vocab@[i as int] == (entry.0@, entry.1@));
            assert(vocab@.subrange(lo as int, i as int + 1).drop_last() =~= vocab@.subrange(
                lo as int,
                i as int,
            ));
            assert(vocab@.subrange(lo as int, i as int + 1).last() == vocab@[i as int]);
        }
        let res = walk(aut, alph, &entry.0, start, false);
        proof {
            lemma_walk_correct(*aut, *alph, entry.0@, start, false);
        }
        let mut accepted = false;
        match res {
            Some(states) => {
                if states.len() == entry.0.len() {
                    accepted = true;
                    let end = if states.len() == 0 {
                        start
                    } else {
                        states[states.len() - 1]
                    };
                    proof {
                        assert(end == walk_end(start, states@));
                        assert(run_end(*aut, *alph, entry.0@, start) == Some(end));
                    }
                    let ghost prev = out@;
                    let mut j: usize = 0;
                    while j < entry.1.len()
                        invariant
                            0 <= j <= entry.1@.len(),
                            out@ == prev + entry.1@.subrange(0, j as int).map_values(
                                |id: u32| (id, end),
                            ),
                        decreases entry.1@.len() - j,
                    {
                        out.push((entry.1[j], end));
                        proof {
                            assert(entry.1@.subrange(0, j as int + 1).map_values(
                                |id: u32| (id, end),
                            ) =~= entry.1@.subrange(0, j as int).map_values(
                                |id: u32| (id, end),
                            ).push((entry.1@[j as int], end)));
                        }
                        j = j + 1;
                    }
                    proof {
                        assert(entry.1@.subrange(0, entry.1@.len() as int) =~= entry.1@);
                        assert(entry.1@.map_values(|id: u32| (id, end)) =~= token_pairs(
                            *aut,
                            *alph,
                            vocab@[i as int],
                            start,
                        ));
                        assert(out@ == scan_seq(
                            *aut,
                            *alph,
                            vocab@.subrange(lo as int, i as int + 1),
                            start,
                        ));
                    }
                }
            },
            None => {},
        }
        proof {
            if !accepted {
                assert(run_end(*aut, *alph, entry.0@, start) is None);
                assert(token_pairs(*aut, *alph, vocab@[i as int], start) =~= Seq::<(
                    u32,
                    u32,
                )>::empty());
                assert(out@ == scan_seq(
                    *aut,
                    *alph,
                    vocab@.subrange(lo as int, i as int + 1),
                    start,
                ));
            }
        }
        i = i + 1;
    }
    out
}

/// Scans the whole vocabulary against `start`: the result holds `(id, end)`
/// exactly for the tokens whose full text can be walked from `start` to
/// `end`, one pair per associated id, in stable entry order.
pub fn scan(aut: &Automaton, alph: &Alphabet, vocab: &Vocabulary, start: u32) -> (r: Vec<
    (u32, u32),
>)
    ensures
        r@ == scan_seq(*aut, *alph, vocab@, start),
{
    let n = vocab.entries.len();
    let r = scan_range(aut, alph, vocab, start, 0, n);
    proof {
        assert(vocab@.subrange(0, vocab@.len() as int) =~= vocab@);
    }
    r
}

/// Partitions `0..n` into contiguous non-empty ranges, roughly one per
/// worker. The exact boundaries are tuning, not semantics: any contiguous
/// cover yields the same scan result.
#[verifier::loop_isolation(false)]
pub fn chunk_ranges(n: usize, workers: usize) -> (r: Vec<(usize, usize)>)
    requires
        workers >= 1,
    ensures
        n == 0 ==> r@.len() == 0,
        n > 0 ==> r@.len() > 0 && r@[0].0 == 0 && r@[r@.len() - 1].1 == n,
        forall|k: int| 0 <= k < r@.len() ==> (#[trigger] r@[k]).0 < r@[k].1 <= n,
        forall|k: int| 0 <= k < r@.len() - 1 ==> (#[trigger] r@[k]).1 == r@[k + 1].0,
{
    let mut per = n / workers;
    if per == 0 {
        per = 1;
    }
    let mut r: Vec<(usize, usize)> = Vec::new();
    let mut lo: usize = 0;
    while lo < n
        invariant
            lo <= n,
            per >= 1,
            r@.len() == 0 <==> lo == 0,
            r@.len() > 0 ==> r@[0].0 == 0 && r@[r@.len() - 1].1 == lo,
            forall|k: int| 0 <= k < r@.len() ==> (#[trigger] r@[k]).0 < r@[k].1 <= n,
            forall|k: int| 0 <= k < r@.len() - 1 ==> (#[trigger] r@[k]).1 == r@[k + 1].0,
        decreases n - lo,
    {
        let hi = if n - lo > per {
            lo + per
        } else {
            n
        };
        r.push((lo, hi));
        lo = hi;
    }
    r
}

/// Splitting law: scanning a vocabulary equals scanning any prefix and the
/// matching suffix separately and concatenating the two results in order.
/// This is why the scan's outcome is independent of how the vocabulary is
/// partitioned into contiguous worker ranges.
pub proof fn lemma_scan_split(
    aut: Automaton,
    alph: Alphabet,
    vocab: Seq<(Seq<char>, Seq<u32>)>,
    start: u32,
    m: int,
)
    requires
        0 <= m <= vocab.len(),
    ensures
        scan_seq(aut, alph, vocab, start) == scan_seq(aut, alph, vocab.take(m), start)
            + scan_seq(aut, alph, vocab.skip(m), start),
    decreases vocab.len(),
{
    if m == vocab.len() {
        assert(vocab.take(m) =~= vocab);
        assert(vocab.skip(m) =~= Seq::<(Seq<char>, Seq<u32>)>::empty());
        assert(scan_seq(aut, alph, vocab.take(m), start) + scan_seq(
            aut,
            alph,
            vocab.skip(m),
            start,
        ) =~= scan_seq(aut, alph, vocab, start));
    } else {
        let dl = vocab.drop_last();
        lemma_scan_split(aut, alph, dl, start, m);
        assert(dl.take(m) =~= vocab.take(m));
        assert(vocab.skip(m).drop_last() =~= dl.skip(m));
        assert(vocab.skip(m).last() == vocab.last());
        assert(scan_seq(aut, alph, vocab, start) =~= scan_seq(aut, alph, vocab.take(m), start)
            + scan_seq(aut, alph, vocab.skip(m), start));
    }
}

/// Scans the vocabulary by partitioning it into contiguous chunks, scanning
/// each chunk independently and concatenating the local results in chunk
/// order, the way parallel workers do. The contract does not mention
/// `workers`: the result set is identical for every worker count.
#[verifier::loop_isolation(false)]
pub fn scan_chunked(
    aut: &Automaton,
    alph: &Alphabet,
    vocab: &Vocabulary,
    start: u32,
    workers: usize,
) -> (r: Vec<(u32, u32)>)
    requires
        workers >= 1,
    ensures
        r@ == scan_seq(*aut, *alph, vocab@, start),
{
    let n = vocab.entries.len();
    let chunks = chunk_ranges(n, workers);
    let mut out: Vec<(u32, u32)> = Vec::new();
    let mut done: usize = 0;
    proof {
        assert(vocab@.subrange(0, 0) =~= Seq::<(Seq<char>, Seq<u32>)>::empty());
    }
    let mut k: usize = 0;
    while k < chunks.len()
        invariant
            0 <= k <= chunks@.len(),
            done <= n,
            k == 0 ==> done == 0,
            k > 0 ==> done == chunks@[k - 1].1,
            out@ == scan_seq(*aut, *alph, vocab@.subrange(0, done as int), start),
        decreases chunks@.len() - k,
    {
        let (clo, chi) = chunks[k];
        proof {
            assert(clo == done);
        }
        let mut part = scan_range(aut, alph, vocab, start, clo, chi);
        proof {
            let whole = vocab@.subrange(0, chi as int);
            lemma_scan_split(*aut, *alph, whole, start, clo as int);
            assert(whole.take(clo as int) =~= vocab@.subrange(0, clo as int));
            assert(whole.skip(clo as int) =~= vocab@.subrange(clo as int, chi as int));
        }
        out.append(&mut part);
        done = chi;
        k = k + 1;
    }
    proof {
        if chunks@.len() == 0 {
            assert(n == 0);
        }
        assert(done == n);
        assert(vocab@.subrange(0, n as int) =~= vocab@);
    }
    out
}

/// Whether position `j` of vocabulary entry `i` accounts for the scan pair
/// `p`: the entry carries token id `p.0` at that position and its full text
/// can be walked from `start`, ending at `p.1`.
pub open spec fn entry_yields(
    aut: Automaton,
    alph: Alphabet,
    vocab: Seq<(Seq<char>, Seq<u32>)>,
    start: u32,
    i: int,
    j: int,
    p: (u32, u32),
) -> bool {
    0 <= i < vocab.len() && 0 <= j < vocab[i].1.len() && vocab[i].1[j] == p.0 && run_end(
        aut,
        alph,
        vocab[i].0,
        start,
    ) == Some(p.1)
}

/// Scan inclusion law: the scan of `vocab` from `start` yields the pair `p`
/// exactly when some vocabulary entry carries the id `p.0` and its full text
/// can be walked from `start`, ending at `p.1`. Whether the walk visits a
/// final state has no bearing on inclusion.
pub proof fn lemma_scan_inclusion(
    aut: Automaton,
    alph: Alphabet,
    vocab: Seq<(Seq<char>, Seq<u32>)>,
    start: u32,
    p: (u32, u32),
)
    ensures
        scan_seq(aut, alph, vocab, start).contains(p) <==> exists|i: int, j: int|
            entry_yields(aut, alph, vocab, start, i, j, p),
    decreases vocab.len(),
{
    if vocab.len() == 0 {
        if exists|i: int, j: int| entry_yields(aut, alph, vocab, start, i, j, p) {
            let (i, j) = choose|i: int, j: int| entry_yields(aut, alph, vocab, start, i, j, p);
            assert(false);
        }
    } else {
        let dl = vocab.drop_last();
        lemma_scan_inclusion(aut, alph, dl, start, p);
        let s1 = scan_seq(aut, alph, dl, start);
        let tp = token_pairs(aut, alph, vocab.last(), start);
        let s = scan_seq(aut, alph, vocab, start);
        let li = vocab.len() - 1;
        if s.contains(p) {
            let idx = choose|idx: int| 0 <= idx < s.len() && s[idx] == p;
            if idx < s1.len() {
                assert(s1[idx] == p);
                assert(s1.contains(p));
                let (i, j) = choose|i: int, j: int| entry_yields(aut, alph, dl, start, i, j, p);
                assert(entry_yields(aut, alph, vocab, start, i, j, p));
            } else {
                let j = idx - s1.len();
                match run_end(aut, alph, vocab.last().0, start) {
                    Some(end) => {
                        assert(tp[j] == (vocab.last().1[j], end));
                        assert(entry_yields(aut, alph, vocab, start, li, j, p));
                    },
                    None => {
                        assert(tp.len() == 0);
                    },
                }
            }
        }
        if exists|i: int, j: int| entry_yields(aut, alph, vocab, start, i, j, p) {
            let (i, j) = choose|i: int, j: int| entry_yields(aut, alph, vocab, start, i, j, p);
            if i < li {
                assert(entry_yields(aut, alph, dl, start, i, j, p));
                assert(s1.contains(p));
                let idx = choose|idx: int| 0 <= idx < s1.len() && s1[idx] == p;
                assert(s[idx] == p);
                assert(s.contains(p));
            } else {
                match run_end(aut, alph, vocab.last().0, start) {
                    Some(end) => {
                        assert(tp[j] == (vocab.last().1[j], end));
                        assert(s[s1.len() + j] == p);
                        assert(s.contains(p));
                    },
                    None => {},
                }
            }
        }
    }
}

} // verus!
