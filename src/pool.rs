use vstd::prelude::*;
use crate::encode::{letter_mask, word_to_int};
use crate::search::strictly_ascending;

verus! {

/// Whether `x` is the mask of one of `words`.
pub open spec fn is_mask_of_some(words: Seq<String>, x: u32) -> bool {
    exists|i: int| 0 <= i < words.len() && letter_mask(#[trigger] words[i]@) == x
}

/// The words that share one letter mask.
pub struct MaskGroup {
    pub mask: u32,
    pub words: Vec<String>,
}

/// The character sequences of a list of strings.
pub open spec fn words_view(ws: Seq<String>) -> Seq<Seq<char>> {
    ws.map_values(|w: String| w@)
}

/// The predicate "has letter mask `m`", as a function value.
pub open spec fn has_mask(m: u32) -> spec_fn(Seq<char>) -> bool {
    |w: Seq<char>| letter_mask(w) == m
}

/// The masks of a list of groups, in order.
pub open spec fn group_masks(gs: Seq<MaskGroup>) -> Seq<u32> {
    gs.map_values(|g: MaskGroup| g.mask)
}

/// Inserts `x` into a strictly ascending vector unless it is there already.
pub fn insert_sorted(v: &mut Vec<u32>, x: u32)
    requires
        strictly_ascending(old(v)@),
    ensures
        strictly_ascending(final(v)@),
        forall|y: u32| final(v)@.contains(y) <==> (old(v)@.contains(y) || y == x),
{
    let mut p: usize = 0;
    while p < v.len() && v[p] < x
        invariant
            p <= v.len(),
            forall|t: int| 0 <= t < p ==> v@[t] < x,
        decreases v.len() - p,
    {
        p = p + 1;
    }
    if p < v.len() && v[p] == x {
        assert(v@.contains(v@[p as int]));
        return ;
    }
    let ghost before = v@;
    v.insert(p, x);
    proof {
        assert(v@[p as int] == x);
        assert forall|y: u32| v@.contains(y) <==> (before.contains(y) || y == x) by {
            if v@.contains(y) {
                let t = choose|t: int| 0 <= t < v@.len() && v@[t] == y;
                if t < p {
                    assert(before[t] == y);
                } else if t > p {
                    assert(before[t - 1] == y);
                }
            }
            if before.contains(y) {
                let t = choose|t: int| 0 <= t < before.len() && before[t] == y;
                if t < p {
                    assert(v@[t] == y);
                } else {
                    assert(v@[t + 1] == y);
                }
            }
        }
    }
}

/// The guess pool of a list of words: their distinct letter masks, ascending.
/// A mask's position in the pool is its canonical rank.
pub fn build_pool(words: &Vec<String>) -> (r: Vec<u32>)
    ensures
        strictly_ascending(r@),
        forall|x: u32| r@.contains(x) <==> is_mask_of_some(words@, x),
{
    let mut r: Vec<u32> = Vec::new();
    let mut i: usize = 0;
    while i < words.len()
        invariant
            i <= words.len(),
            strictly_ascending(r@),
            forall|x: u32| r@.contains(x) <==> is_mask_of_some(words@.take(i as int), x),
        decreases words.len() - i,
    {
        let m = word_to_int(words[i].as_str());
        insert_sorted(&mut r, m);
        proof {
            let w0 = words@.take(i as int);
            let w1 = words@.take(i as int + 1);
            assert forall|x: u32| is_mask_of_some(w1, x) <==> (is_mask_of_some(w0, x) || x == m) by {
                if is_mask_of_some(w1, x) {
                    let t = choose|t: int| 0 <= t < w1.len() && letter_mask(#[trigger] w1[t]@) == x;
                    if t < i {
                        assert(w0[t] == w1[t]);
                    }
                }
                if is_mask_of_some(w0, x) {
                    let t = choose|t: int| 0 <= t < w0.len() && letter_mask(#[trigger] w0[t]@) == x;
                    assert(w0[t] == w1[t]);
                }
                if x == m {
                    assert(w1[i as int] == words@[i as int]);
                }
            }
        }
        i = i + 1;
    }
    assert(words@.take(words.len() as int) == words@);
    r
}

/// The words of `words` whose mask is `m`, in their order in `words`.
fn collect_group(words: &Vec<String>, masks: &Vec<u32>, m: u32) -> (r: Vec<String>)
    requires
        masks@.len() == words@.len(),
        forall|t: int| 0 <= t < words@.len() ==> masks@[t] == letter_mask(#[trigger] words@[t]@),
    ensures
        words_view(r@) == words_view(words@).filter(has_mask(m)),
{
    let mut group: Vec<String> = Vec::new();
    let mut t: usize = 0;
    while t < words.len()
        invariant
            t <= words@.len(),
            masks@.len() == words@.len(),
            forall|t: int| 0 <= t < words@.len() ==> masks@[t] == letter_mask(#[trigger] words@[t]@),
            words_view(group@) == words_view(words@.take(t as int)).filter(has_mask(m)),
        decreases words.len() - t,
    {
        proof {
            let w = words@[t as int]@;
            assert(words_view(words@.take(t as int + 1)) == words_view(words@.take(t as int)).push(w));
            words_view(words@.take(t as int)).lemma_filter_push(w, has_mask(m));
        }
        if masks[t] == m {
            let ghost g0 = group@;
            group.push(words[t].clone());
            assert(words_view(group@) == words_view(g0).push(words@[t as int]@));
        }
        t = t + 1;
    }
    assert(words@.take(words.len() as int) == words@);
    group
}

/// The reverse index of a list of words: for each distinct mask, in ascending
/// order, the words that have it, in their order in the list.
pub fn build_reverse_map(words: &Vec<String>) -> (r: Vec<MaskGroup>)
    ensures
        strictly_ascending(group_masks(r@)),
        forall|x: u32| group_masks(r@).contains(x) <==> is_mask_of_some(words@, x),
        forall|i: int|
            0 <= i < r@.len() ==> words_view((#[trigger] r@[i]).words@) == words_view(words@).filter(
                has_mask(r@[i].mask),
            ),
{
    let pool = build_pool(words);
    let mut masks: Vec<u32> = Vec::new();
    let mut t: usize = 0;
    while t < words.len()
        invariant
            t <= words@.len(),
            masks@.len() == t,
            forall|u: int| 0 <= u < t ==> masks@[u] == letter_mask(#[trigger] words@[u]@),
        decreases words.len() - t,
    {
        masks.push(word_to_int(words[t].as_str()));
        t = t + 1;
    }
    let mut r: Vec<MaskGroup> = Vec::new();
    let mut p: usize = 0;
    while p < pool.len()
        invariant
            p <= pool@.len(),
            masks@.len() == words@.len(),
            forall|u: int| 0 <= u < words@.len() ==> masks@[u] == letter_mask(#[trigger] words@[u]@),
            group_masks(r@) == pool@.take(p as int),
            forall|i: int|
                0 <= i < r@.len() ==> words_view((#[trigger] r@[i]).words@) == words_view(
                    words@,
                ).filter(has_mask(r@[i].mask)),
        decreases pool.len() - p,
    {
        let m = pool[p];
        let group = collect_group(words, &masks, m);
        let ghost r0 = r@;
        r.push(MaskGroup { mask: m, words: group });
        assert(group_masks(r@) == group_masks(r0).push(m));
        assert(pool@.take(p as int + 1) == pool@.take(p as int).push(m));
        p = p + 1;
    }
    assert(pool@.take(pool.len() as int) == pool@);
    r
}

/// The position of the group of `mask`, if there is one.
pub fn find_group(groups: &Vec<MaskGroup>, mask: u32) -> (r: Option<usize>)
    requires
        strictly_ascending(group_masks(groups@)),
    ensures
        match r {
            Some(i) => i < groups@.len() && groups@[i as int].mask == mask,
            None => !group_masks(groups@).contains(mask),
        },
{
    let ghost gm = group_masks(groups@);
    let mut lo: usize = 0;
    let mut hi: usize = groups.len();
    while lo < hi
        invariant
            lo <= hi <= groups@.len(),
            gm == group_masks(groups@),
            strictly_ascending(gm),
            forall|t: int| 0 <= t < lo ==> gm[t] < mask,
            forall|t: int| hi <= t < gm.len() ==> gm[t] > mask,
        decreases hi - lo,
    {
        let mid = lo + (hi - lo) / 2;
        let m = groups[mid].mask;
        assert(gm[mid as int] == m);
        if m == mask {
            return Some(mid);
        } else if m < mask {
            lo = mid + 1;
        } else {
            hi = mid;
        }
    }
    proof {
        if gm.contains(mask) {
            let t = choose|t: int| 0 <= t < gm.len() && gm[t] == mask;
        }
    }
    None
}

} // verus!
