use vstd::prelude::*;
use vstd::set_lib::{lemma_int_range, lemma_len_subset, lemma_set_disjoint_lens, set_int_range};

verus! {

broadcast use vstd::seq_lib::group_filter_ensures;

/// Whether a guess shares no letter with the letters already used.
pub open spec fn playable(guess: u32, state: u32) -> bool {
    guess & state == 0
}

/// The predicate "playable against `state`", as a function value.
pub open spec fn playable_against(state: u32) -> spec_fn(u32) -> bool {
    |g: u32| playable(g, state)
}

/// Whether `s` is sorted in strictly ascending order (so without repeats).
pub open spec fn strictly_ascending(s: Seq<u32>) -> bool {
    forall|i: int, j: int| 0 <= i < j < s.len() ==> s[i] < s[j]
}

/// Whether `c` is a sequence of guesses taken from `cands`, each playable against
/// `state`, pairwise sharing no letter; in canonical mode also strictly ascending
/// and starting at `low` or above.
pub open spec fn extends_state(
    cands: Seq<u32>,
    state: u32,
    low: int,
    canonical: bool,
    c: Seq<u32>,
) -> bool {
    &&& forall|i: int| 0 <= i < c.len() ==> cands.contains(#[trigger] c[i]) && playable(c[i], state)
    &&& forall|i: int, j: int|
        0 <= i < c.len() && 0 <= j < c.len() && i != j ==> playable(#[trigger] c[i], #[trigger] c[j])
    &&& canonical ==> strictly_ascending(c) && (c.len() > 0 ==> c[0] >= low)
}

/// Whether `c` is a bad game of `k` guesses for `answer`: guesses from `pool` that
/// share no letter with the answer nor with each other. In canonical mode the
/// guesses also come in strictly ascending pool order.
pub open spec fn is_bad_chain(pool: Seq<u32>, answer: u32, k: nat, canonical: bool, c: Seq<u32>) -> bool {
    &&& c.len() == k
    &&& forall|i: int| 0 <= i < c.len() ==> pool.contains(#[trigger] c[i])
    &&& forall|i: int| 0 <= i < c.len() ==> #[trigger] c[i] & answer == 0
    &&& forall|i: int, j: int|
        0 <= i < c.len() && 0 <= j < c.len() && i != j ==> #[trigger] c[i] & #[trigger] c[j] == 0
    &&& canonical ==> strictly_ascending(c)
}

/// The chains of a report, as sequences of masks.
pub open spec fn chains_view(r: Seq<Vec<u32>>) -> Seq<Seq<u32>> {
    r.map_values(|v: Vec<u32>| v@)
}

/// Whether `r` reports each bad game of `k` guesses for `answer` exactly once,
/// and nothing else.
pub open spec fn reports_exactly(
    pool: Seq<u32>,
    answer: u32,
    k: nat,
    canonical: bool,
    r: Seq<Seq<u32>>,
) -> bool {
    &&& forall|j: int| 0 <= j < r.len() ==> is_bad_chain(pool, answer, k, canonical, #[trigger] r[j])
    &&& forall|c: Seq<u32>| is_bad_chain(pool, answer, k, canonical, c) ==> r.contains(c)
    &&& r.no_duplicates()
}

proof fn lemma_and_or(x: u32, s: u32, g: u32)
    ensures
        (x & (s | g) == 0) <==> (x & s == 0 && x & g == 0),
        (x & g == 0) <==> (g & x == 0),
{
    assert((x & (s | g) == 0) <==> (x & s == 0 && x & g == 0)) by (bit_vector);
    assert((x & g == 0) <==> (g & x == 0)) by (bit_vector);
}

/// Filtering a strictly ascending sequence keeps it strictly ascending.
proof fn lemma_filter_ascending(s: Seq<u32>, p: spec_fn(u32) -> bool)
    requires
        strictly_ascending(s),
    ensures
        strictly_ascending(s.filter(p)),
    decreases s.len(),
{
    if s.len() > 0 {
        let s0 = s.drop_last();
        let x = s.last();
        assert(s == s0.push(x));
        lemma_filter_ascending(s0, p);
        s0.lemma_filter_push(x, p);
        assert forall|i: int| 0 <= i < s0.filter(p).len() implies s0.filter(p)[i] < x by {
            s0.lemma_filter_contains_rev(p, s0.filter(p)[i]);
        }
    }
}

/// Whether `guess` shares no letter with `state`.
pub fn can_play(guess: u32, state: u32) -> (r: bool)
    ensures
        r == playable(guess, state),
{
    guess & state == 0
}

/// Keeps, in order, the guesses that share no letter with `state`.
pub fn get_all_that_can_play(guesses: &Vec<u32>, state: u32) -> (r: Vec<u32>)
    ensures
        r@ == guesses@.filter(playable_against(state)),
{
    let mut r: Vec<u32> = Vec::new();
    let mut i: usize = 0;
    while i < guesses.len()
        invariant
            i <= guesses.len(),
            r@ == guesses@.take(i as int).filter(playable_against(state)),
        decreases guesses.len() - i,
    {
        let g = guesses[i];
        proof {
            assert(guesses@.take(i as int + 1) == guesses@.take(i as int).push(g));
            guesses@.take(i as int).lemma_filter_push(g, playable_against(state));
        }
        if can_play(g, state) {
            r.push(g);
        }
        i = i + 1;
    }
    assert(guesses@.take(guesses.len() as int) == guesses@);
    r
}

/// A candidate of the node followed by an extension of the state below it
/// extends the node's state.
proof fn lemma_cons_extends(
    cands: Seq<u32>,
    state: u32,
    low: int,
    canonical: bool,
    g: u32,
    tail: Seq<u32>,
)
    requires
        cands.filter(playable_against(state)).contains(g),
        canonical ==> g >= low,
        extends_state(cands.filter(playable_against(state)), state | g, g + 1, canonical, tail),
    ensures
        extends_state(cands, state, low, canonical, seq![g] + tail),
{
    let now = cands.filter(playable_against(state));
    let c = seq![g] + tail;
    assert forall|i: int| 0 <= i < c.len() implies cands.contains(#[trigger] c[i]) && playable(
        c[i],
        state,
    ) by {
        if i > 0 {
            assert(c[i] == tail[i - 1]);
            assert(now.contains(tail[i - 1]));
        }
        assert(now.contains(c[i]));
        let k = choose|k: int| 0 <= k < now.len() && now[k] == c[i];
        cands.lemma_filter_pred(playable_against(state), k);
        cands.lemma_filter_contains_rev(playable_against(state), c[i]);
    }
    assert forall|i: int, j: int| 0 <= i < c.len() && 0 <= j < c.len() && i != j implies playable(
        #[trigger] c[i],
        #[trigger] c[j],
    ) by {
        if i == 0 {
            assert(playable(tail[j - 1], state | g));
            lemma_and_or(tail[j - 1], state, g);
        } else if j == 0 {
            assert(playable(tail[i - 1], state | g));
            lemma_and_or(tail[i - 1], state, g);
        } else {
            assert(playable(tail[i - 1], tail[j - 1]));
        }
    }
    if canonical {
        assert forall|i: int, j: int| 0 <= i < j < c.len() implies c[i] < c[j] by {
            if i == 0 {
                assert(tail[0] >= g + 1);
                if j > 1 {
                    assert(tail[0] < tail[j - 1]);
                }
            } else {
                assert(tail[i - 1] < tail[j - 1]);
            }
        }
    }
}

/// The tail of an extension of a node's state, after its first guess, extends
/// the state below that guess.
proof fn lemma_tail_extends(cands: Seq<u32>, state: u32, low: int, canonical: bool, c: Seq<u32>)
    requires
        extends_state(cands, state, low, canonical, c),
        c.len() > 0,
    ensures
        extends_state(
            cands.filter(playable_against(state)),
            state | c[0],
            c[0] + 1,
            canonical,
            c.skip(1),
        ),
{
    let now = cands.filter(playable_against(state));
    let t = c.skip(1);
    assert forall|i: int| 0 <= i < t.len() implies now.contains(#[trigger] t[i]) && playable(
        t[i],
        state | c[0],
    ) by {
        assert(t[i] == c[i + 1]);
        assert(cands.contains(c[i + 1]));
        let k = choose|k: int| 0 <= k < cands.len() && cands[k] == c[i + 1];
        cands.lemma_filter_contains(playable_against(state), k);
        assert(playable(c[i + 1], c[0]));
        lemma_and_or(c[i + 1], state, c[0]);
    }
    assert forall|i: int, j: int| 0 <= i < t.len() && 0 <= j < t.len() && i != j implies playable(
        #[trigger] t[i],
        #[trigger] t[j],
    ) by {
        assert(playable(c[i + 1], c[j + 1]));
    }
    if canonical {
        assert forall|i: int, j: int| 0 <= i < j < t.len() implies t[i] < t[j] by {
            assert(c[i + 1] < c[j + 1]);
        }
        if t.len() > 0 {
            assert(c[0] < c[1]);
        }
    }
}

/// Whether the entries of `out` from `start` on are `prefix` followed by chains
/// that extend `state` with `n` guesses from `cands`, no entry twice.
pub open spec fn reported_extensions(
    out: Seq<Seq<u32>>,
    start: int,
    prefix: Seq<u32>,
    cands: Seq<u32>,
    state: u32,
    n: nat,
    low: int,
    canonical: bool,
) -> bool {
    &&& forall|j: int|
        start <= j < out.len() ==> {
            &&& (#[trigger] out[j]).len() == prefix.len() + n
            &&& out[j].take(prefix.len() as int) == prefix
            &&& extends_state(cands, state, low, canonical, out[j].skip(prefix.len() as int))
        }
    &&& forall|j1: int, j2: int|
        start <= j1 < out.len() && start <= j2 < out.len() && j1 != j2 ==> #[trigger] out[j1]
            != #[trigger] out[j2]
}

/// The depth-first search below one node. The node's own candidates are those of
/// `cands` that are playable against `state`; each of them that the ordering mode
/// admits is appended to `chain` in turn, and the search goes on below it with
/// those candidates, `remaining - 1` guesses and the letters of the guess added.
/// Every completed chain is appended to `out`.
fn extend(
    cands: &Vec<u32>,
    state: u32,
    remaining: usize,
    low: u64,
    canonical: bool,
    chain: &mut Vec<u32>,
    out: &mut Vec<Vec<u32>>,
)
    requires
        strictly_ascending(cands@),
    ensures
        final(chain)@ == old(chain)@,
        final(out)@.len() >= old(out)@.len(),
        forall|j: int| 0 <= j < old(out)@.len() ==> final(out)@[j] == old(out)@[j],
        reported_extensions(
            chains_view(final(out)@),
            old(out)@.len() as int,
            old(chain)@,
            cands@,
            state,
            remaining as nat,
            low as int,
            canonical,
        ),
        forall|c: Seq<u32>|
            c.len() == remaining && extends_state(cands@, state, low as int, canonical, c)
                ==> exists|j: int|
                old(out)@.len() <= j < final(out)@.len() && #[trigger] final(out)@[j]@ == old(
                    chain,
                )@ + c,
    decreases remaining,
{
    let ghost prefix = chain@;
    let ghost start = out@.len() as int;
    if remaining == 0 {
        let done = chain.clone();
        assert(done@ == chain@);
        out.push(done);
        proof {
            let v = chains_view(out@);
            assert(v[start] == prefix);
            assert(v[start].take(prefix.len() as int) == prefix);
            assert(v[start].skip(prefix.len() as int) == Seq::<u32>::empty());
            assert forall|c: Seq<u32>|
                c.len() == remaining && extends_state(cands@, state, low as int, canonical, c)
                    implies exists|j: int|
                    start <= j < out@.len() && #[trigger] out@[j]@ == prefix + c by {
                assert(c == Seq::<u32>::empty());
                assert(out@[start]@ == prefix + c);
            }
        }
        return ;
    }
    let now = get_all_that_can_play(cands, state);
    proof {
        lemma_filter_ascending(cands@, playable_against(state));
    }
    let mut i: usize = 0;
    while i < now.len()
        invariant
            0 < remaining,
            i <= now.len(),
            strictly_ascending(cands@),
            strictly_ascending(now@),
            now@ == cands@.filter(playable_against(state)),
            chain@ == prefix,
            start <= out@.len(),
            forall|j: int| 0 <= j < start ==> out@[j] == old(out)@[j],
            start == old(out)@.len(),
            prefix == old(chain)@,
            reported_extensions(
                chains_view(out@),
                start,
                prefix,
                cands@,
                state,
                remaining as nat,
                low as int,
                canonical,
            ),
            forall|j: int|
                start <= j < out@.len() ==> exists|t: int|
                    0 <= t < i && (#[trigger] out@[j])@[prefix.len() as int] == now@[t],
            forall|c: Seq<u32>|
                c.len() == remaining && extends_state(cands@, state, low as int, canonical, c)
                    && (exists|t: int| 0 <= t < i && now@[t] == c[0]) ==> exists|j: int|
                    start <= j < out@.len() && #[trigger] out@[j]@ == prefix + c,
        decreases now.len() - i,
    {
        let g = now[i];
        if !canonical || g as u64 >= low {
            let ghost mid = out@.len() as int;
            let ghost before = out@;
            chain.push(g);
            extend(&now, state | g, remaining - 1, g as u64 + 1, canonical, chain, out);
            chain.pop();
            proof {
                let p1 = prefix.push(g);
                let v = chains_view(out@);
                let vb = chains_view(before);
                let plen = prefix.len() as int;
                assert forall|j: int| start <= j < mid implies v[j] == vb[j] by {
                    assert(out@[j] == before[j]);
                }
                assert forall|j: int| mid <= j < out@.len() implies {
                    &&& (#[trigger] v[j]).len() == plen + remaining
                    &&& v[j].take(plen) == prefix
                    &&& extends_state(cands@, state, low as int, canonical, v[j].skip(plen))
                    &&& v[j][plen] == g
                } by {
                    let tail = v[j].skip(plen + 1);
                    assert(v[j].take(plen + 1) == p1);
                    assert(v[j].take(plen) == v[j].take(plen + 1).take(plen));
                    assert(p1.take(plen) == prefix);
                    assert(v[j][plen] == v[j].take(plen + 1)[plen]);
                    assert(now@.contains(now@[i as int]));
                    lemma_cons_extends(cands@, state, low as int, canonical, g, tail);
                    assert(v[j].skip(plen) == seq![g] + tail);
                }
                assert forall|j1: int, j2: int|
                    start <= j1 < out@.len() && start <= j2 < out@.len() && j1 != j2 implies #[trigger] v[j1]
                    != #[trigger] v[j2] by {
                    if j1 < mid && j2 < mid {
                        assert(v[j1] == vb[j1] && v[j2] == vb[j2]);
                    } else if j1 < mid && j2 >= mid {
                        assert(v[j1] == vb[j1]);
                        assert(before[j1]@ == vb[j1]);
                        let t = choose|t: int| 0 <= t < i && (before[j1])@[plen] == now@[t];
                        assert(now@[t] < now@[i as int]);
                    } else if j1 >= mid && j2 < mid {
                        assert(v[j2] == vb[j2]);
                        assert(before[j2]@ == vb[j2]);
                        let t = choose|t: int| 0 <= t < i && (before[j2])@[plen] == now@[t];
                        assert(now@[t] < now@[i as int]);
                    }
                }
                assert forall|j: int| start <= j < out@.len() implies exists|t: int|
                    0 <= t < i + 1 && (#[trigger] out@[j])@[plen] == now@[t] by {
                    if j < mid {
                        assert(out@[j] == before[j]);
                        let t = choose|t: int| 0 <= t < i && (before[j])@[plen] == now@[t];
                    } else {
                        assert(v[j] == out@[j]@);
                        assert(out@[j]@[plen] == now@[i as int]);
                    }
                }
                assert forall|c: Seq<u32>|
                    c.len() == remaining && extends_state(cands@, state, low as int, canonical, c)
                        && (exists|t: int| 0 <= t < i + 1 && now@[t] == c[0]) implies exists|j: int|
                        start <= j < out@.len() && #[trigger] out@[j]@ == prefix + c by {
                    if c[0] == g {
                        lemma_tail_extends(cands@, state, low as int, canonical, c);
                        let jj = choose|jj: int|
                            mid <= jj < out@.len() && #[trigger] out@[jj]@ == p1 + c.skip(1);
                        assert(p1 + c.skip(1) == prefix + c);
                    } else {
                        let t = choose|t: int| 0 <= t < i + 1 && now@[t] == c[0];
                        assert(t < i);
                        let jj = choose|jj: int|
                            start <= jj < before.len() && #[trigger] before[jj]@ == prefix + c;
                        assert(out@[jj] == before[jj]);
                    }
                }
            }
        } else {
            proof {
                assert forall|c: Seq<u32>|
                    c.len() == remaining && extends_state(cands@, state, low as int, canonical, c)
                        && (exists|t: int| 0 <= t < i + 1 && now@[t] == c[0]) implies exists|j: int|
                        start <= j < out@.len() && #[trigger] out@[j]@ == prefix + c by {
                    let t = choose|t: int| 0 <= t < i + 1 && now@[t] == c[0];
                    assert(t != i);
                }
            }
        }
        i = i + 1;
    }
    proof {
        assert forall|c: Seq<u32>|
            c.len() == remaining && extends_state(cands@, state, low as int, canonical, c)
                implies exists|j: int|
                start <= j < out@.len() && #[trigger] out@[j]@ == prefix + c by {
            assert(cands@.contains(c[0]));
            let k = choose|k: int| 0 <= k < cands@.len() && cands@[k] == c[0];
            cands@.lemma_filter_contains(playable_against(state), k);
            assert(now@.contains(c[0]));
        }
    }
}

/// Enumerates the bad games of `number_of_guesses` guesses from `pool` for the
/// answer mask `answer`, each exactly once. In canonical mode a chain is reported
/// once per combination, its guesses in ascending pool order; otherwise once per
/// ordering of its guesses. The search never stops early: every chain is
/// reported, in depth-first order.
pub fn search_for_bad_games(
    pool: &Vec<u32>,
    answer: u32,
    number_of_guesses: usize,
    canonical: bool,
) -> (r: Vec<Vec<u32>>)
    requires
        strictly_ascending(pool@),
    ensures
        reports_exactly(pool@, answer, number_of_guesses as nat, canonical, chains_view(r@)),
{
    let mut chain: Vec<u32> = Vec::new();
    let mut out: Vec<Vec<u32>> = Vec::new();
    extend(pool, answer, number_of_guesses, 0, canonical, &mut chain, &mut out);
    proof {
        let v = chains_view(out@);
        let k = number_of_guesses as nat;
        assert forall|j: int| 0 <= j < v.len() implies is_bad_chain(
            pool@,
            answer,
            k,
            canonical,
            #[trigger] v[j],
        ) by {
            assert(v[j].skip(0) == v[j]);
        }
        assert forall|c: Seq<u32>| is_bad_chain(pool@, answer, k, canonical, c) implies v.contains(
            c,
        ) by {
            assert(extends_state(pool@, answer, 0, canonical, c));
            let j = choose|j: int| 0 <= j < out@.len() && #[trigger] out@[j]@ == Seq::<u32>::empty() + c;
            assert(Seq::<u32>::empty() + c == c);
            assert(v[j] == c);
        }
        assert forall|j1: int, j2: int| 0 <= j1 < v.len() && 0 <= j2 < v.len() && j1 != j2 implies v[j1]
            != v[j2] by {
        }
    }
    out
}

/// The canonical rank of a pool mask: its position in the pool.
pub open spec fn rank(pool: Seq<u32>, g: u32) -> int {
    choose|r: int| 0 <= r < pool.len() && pool[r] == g
}

/// In canonical mode the guesses of every reported chain come in strictly
/// increasing pool rank.
pub proof fn lemma_canonical_ranks_increase(pool: Seq<u32>, answer: u32, k: nat, c: Seq<u32>)
    requires
        strictly_ascending(pool),
        is_bad_chain(pool, answer, k, true, c),
    ensures
        forall|i: int, j: int| 0 <= i < j < c.len() ==> rank(pool, c[i]) < rank(pool, c[j]),
{
    assert forall|i: int, j: int| 0 <= i < j < c.len() implies rank(pool, c[i]) < rank(pool, c[j]) by {
        assert(pool.contains(c[i]));
        assert(pool.contains(c[j]));
        let ri = rank(pool, c[i]);
        let rj = rank(pool, c[j]);
        assert(c[i] < c[j]);
        if ri >= rj {
            if ri > rj {
                assert(pool[rj] < pool[ri]);
            }
        }
    }
}

/// Two reports for the same pool, answer, budget and mode hold the same chains,
/// however they were scheduled or ordered.
pub proof fn lemma_reports_agree(
    pool: Seq<u32>,
    answer: u32,
    k: nat,
    canonical: bool,
    r1: Seq<Seq<u32>>,
    r2: Seq<Seq<u32>>,
)
    requires
        reports_exactly(pool, answer, k, canonical, r1),
        reports_exactly(pool, answer, k, canonical, r2),
    ensures
        r1.to_set() == r2.to_set(),
{
    assert forall|c: Seq<u32>| r1.to_set().contains(c) <==> r2.to_set().contains(c) by {
        if r1.contains(c) {
            let j = choose|j: int| 0 <= j < r1.len() && r1[j] == c;
            assert(is_bad_chain(pool, answer, k, canonical, r1[j]));
        }
        if r2.contains(c) {
            let j = choose|j: int| 0 <= j < r2.len() && r2[j] == c;
            assert(is_bad_chain(pool, answer, k, canonical, r2[j]));
        }
    }
    assert(r1.to_set() =~= r2.to_set());
}

/// Whether bit `i` of `m` is set.
pub open spec fn has_bit(m: u32, i: int) -> bool {
    (m >> (i as u32)) & 1u32 == 1u32
}

/// The letters (alphabet positions) of a mask.
pub open spec fn letters_of(m: u32) -> Set<int> {
    Set::new(|i: int| 0 <= i < 26 && has_bit(m, i))
}

/// The letters that a mask leaves free.
pub open spec fn free_letters(m: u32) -> Set<int> {
    Set::new(|i: int| 0 <= i < 26 && !has_bit(m, i))
}

/// The letters of the first `n` masks of `c`.
pub open spec fn chain_letters(c: Seq<u32>, n: nat) -> Set<int>
    decreases n,
{
    if n == 0 {
        Set::empty()
    } else {
        chain_letters(c, (n - 1) as nat) + letters_of(c[n - 1])
    }
}

proof fn lemma_and_zero_bits(x: u32, y: u32, i: u32)
    requires
        x & y == 0,
        i < 32,
    ensures
        !((x >> i) & 1u32 == 1u32 && (y >> i) & 1u32 == 1u32),
{
    assert(!((x >> i) & 1u32 == 1u32 && (y >> i) & 1u32 == 1u32)) by (bit_vector)
        requires
            x & y == 0,
            i < 32,
    ;
}

proof fn lemma_bit_is_zero_or_one(x: u32, i: u32)
    ensures
        (x >> i) & 1u32 == 0u32 || (x >> i) & 1u32 == 1u32,
{
    assert((x >> i) & 1u32 == 0u32 || (x >> i) & 1u32 == 1u32) by (bit_vector);
}

/// A non-zero mask below bit 26 has a letter.
proof fn lemma_nonzero_has_letter(x: u32)
    requires
        0 < x < 0x4000000,
    ensures
        exists|i: int| 0 <= i < 26 && has_bit(x, i),
{
    if forall|i: int| 0 <= i < 26 ==> !has_bit(x, i) {
        assert forall|i: u32| i < 26 implies (x >> i) & 1u32 == 0u32 by {
            lemma_bit_is_zero_or_one(x, i);
            assert(!has_bit(x, i as int));
        }
        assert(x == 0) by (bit_vector)
            requires
                x < 0x4000000,
            (x >> 0u32) & 1u32 == 0u32,
            (x >> 1u32) & 1u32 == 0u32,
            (x >> 2u32) & 1u32 == 0u32,
            (x >> 3u32) & 1u32 == 0u32,
            (x >> 4u32) & 1u32 == 0u32,
            (x >> 5u32) & 1u32 == 0u32,
            (x >> 6u32) & 1u32 == 0u32,
            (x >> 7u32) & 1u32 == 0u32,
            (x >> 8u32) & 1u32 == 0u32,
            (x >> 9u32) & 1u32 == 0u32,
            (x >> 10u32) & 1u32 == 0u32,
            (x >> 11u32) & 1u32 == 0u32,
            (x >> 12u32) & 1u32 == 0u32,
            (x >> 13u32) & 1u32 == 0u32,
            (x >> 14u32) & 1u32 == 0u32,
            (x >> 15u32) & 1u32 == 0u32,
            (x >> 16u32) & 1u32 == 0u32,
            (x >> 17u32) & 1u32 == 0u32,
            (x >> 18u32) & 1u32 == 0u32,
            (x >> 19u32) & 1u32 == 0u32,
            (x >> 20u32) & 1u32 == 0u32,
            (x >> 21u32) & 1u32 == 0u32,
            (x >> 22u32) & 1u32 == 0u32,
            (x >> 23u32) & 1u32 == 0u32,
            (x >> 24u32) & 1u32 == 0u32,
            (x >> 25u32) & 1u32 == 0u32,
        ;
    }
}

/// The letters of the first `n` guesses of a chain are free letters of the
/// answer, at least one per guess.
proof fn lemma_chain_letters_count(pool: Seq<u32>, answer: u32, k: nat, canonical: bool, c: Seq<u32>, n: nat)
    requires
        is_bad_chain(pool, answer, k, canonical, c),
        forall|x: u32| pool.contains(x) ==> 0 < x < 0x4000000,
        n <= c.len(),
    ensures
        chain_letters(c, n).subset_of(free_letters(answer)),
        chain_letters(c, n).finite(),
        chain_letters(c, n).len() >= n,
        forall|i: int| #[trigger] chain_letters(c, n).contains(i) ==> exists|t: int| 0 <= t < n && has_bit(c[t], i),
    decreases n,
{
    lemma_int_range(0, 26);
    if n > 0 {
        let m = (n - 1) as nat;
        lemma_chain_letters_count(pool, answer, k, canonical, c, m);
        let prev = chain_letters(c, m);
        let g = c[m as int];
        let l = letters_of(g);
        assert(pool.contains(g));
        assert(l.subset_of(set_int_range(0, 26)));
        lemma_len_subset(l, set_int_range(0, 26));
        lemma_nonzero_has_letter(g);
        let b = choose|i: int| 0 <= i < 26 && has_bit(g, i);
        assert(l.contains(b));
        assert(l.len() >= 1);
        assert forall|i: int| l.contains(i) implies free_letters(answer).contains(i) by {
            assert(g & answer == 0);
            lemma_and_zero_bits(g, answer, i as u32);
        }
        assert(prev.disjoint(l)) by {
            assert forall|i: int| prev.contains(i) implies !l.contains(i) by {
                let t = choose|t: int| 0 <= t < m && has_bit(c[t], i);
                assert(c[t] & g == 0);
                lemma_and_zero_bits(c[t], g, i as u32);
            }
        }
        lemma_set_disjoint_lens(prev, l);
        assert forall|i: int| #[trigger] chain_letters(c, n).contains(i) implies exists|t: int|
            0 <= t < n && has_bit(c[t], i) by {
            if !prev.contains(i) {
                assert(has_bit(c[m as int], i));
            }
        }
    }
}

/// A budget larger than the number of letters the answer leaves free admits no
/// bad game, when every pool mask holds at least one letter and nothing else.
pub proof fn lemma_budget_beyond_free_letters(
    pool: Seq<u32>,
    answer: u32,
    k: nat,
    canonical: bool,
    c: Seq<u32>,
)
    requires
        forall|x: u32| pool.contains(x) ==> 0 < x < 0x4000000,
        k > free_letters(answer).len(),
    ensures
        !is_bad_chain(pool, answer, k, canonical, c),
{
    if is_bad_chain(pool, answer, k, canonical, c) {
        lemma_chain_letters_count(pool, answer, k, canonical, c, k);
        lemma_int_range(0, 26);
        assert(free_letters(answer).subset_of(set_int_range(0, 26)));
        lemma_len_subset(free_letters(answer), set_int_range(0, 26));
        lemma_len_subset(chain_letters(c, k), free_letters(answer));
    }
}

} // verus!
