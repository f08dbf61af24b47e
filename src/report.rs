use vstd::prelude::*;
use crate::pool::{find_group, group_masks, words_view, MaskGroup};
use crate::search::{has_bit, strictly_ascending};

verus! {

/// Relies on `String::push_str`: appends `t` to the end of `s`.
#[verifier::external_body]
fn append_str(s: &mut String, t: &str)
    ensures
        final(s)@ == old(s)@ + t@,
{
    s.push_str(t)
}

/// Relies on `String::push`: appends `c` to the end of `s`.
#[verifier::external_body]
fn append_char(s: &mut String, c: char)
    ensures
        final(s)@ == old(s)@.push(c),
{
    s.push(c)
}

/// The items of `ws` with `sep` between each two neighbours.
pub open spec fn joined(ws: Seq<Seq<char>>, sep: Seq<char>) -> Seq<char>
    decreases ws.len(),
{
    if ws.len() == 0 {
        Seq::empty()
    } else if ws.len() == 1 {
        ws[0]
    } else {
        joined(ws.drop_last(), sep) + sep + ws.last()
    }
}

/// Whether `r` is the 26-digit binary literal of `mask`, most significant digit first.
pub open spec fn is_binary_literal(r: Seq<char>, mask: u32) -> bool {
    &&& r.len() == 26
    &&& forall|j: int| 0 <= j < 26 ==> #[trigger] r[j] == if has_bit(mask, 25 - j) {
        '1'
    } else {
        '0'
    }
}

/// How a mask is shown: the words that have it joined by `sep`, or its binary
/// literal when no word has it.
pub open spec fn shows_mask(gs: Seq<MaskGroup>, mask: u32, sep: Seq<char>, r: Seq<char>) -> bool {
    if group_masks(gs).contains(mask) {
        exists|i: int|
            0 <= i < gs.len() && gs[i].mask == mask && r == joined(words_view(#[trigger] gs[i].words@), sep)
    } else {
        is_binary_literal(r, mask)
    }
}

/// Joins `words` with `sep` between each two neighbours.
pub fn join_words(words: &Vec<String>, sep: &str) -> (r: String)
    ensures
        r@ == joined(words_view(words@), sep@),
{
    let mut r = String::new();
    let mut i: usize = 0;
    while i < words.len()
        invariant
            i <= words@.len(),
            r@ == joined(words_view(words@.take(i as int)), sep@),
        decreases words.len() - i,
    {
        let ghost before = words_view(words@.take(i as int));
        if i > 0 {
            append_str(&mut r, sep);
        }
        append_str(&mut r, words[i].as_str());
        proof {
            let after = words_view(words@.take(i as int + 1));
            assert(after.drop_last() == before);
            assert(after.last() == words@[i as int]@);
            if i == 0 {
                assert(after.len() == 1);
                assert(Seq::<char>::empty() + words@[0]@ == words@[0]@);
            }
        }
        i = i + 1;
    }
    assert(words@.take(words.len() as int) == words@);
    r
}

/// The 26-digit binary literal of `mask`, most significant digit first.
pub fn mask_binary(mask: u32) -> (r: String)
    ensures
        is_binary_literal(r@, mask),
{
    let mut r = String::new();
    let mut j: u32 = 0;
    while j < 26
        invariant
            j <= 26,
            r@.len() == j,
            forall|t: int| 0 <= t < j ==> #[trigger] r@[t] == if has_bit(mask, 25 - t) {
                '1'
            } else {
                '0'
            },
        decreases 26 - j,
    {
        let bit = (mask >> (25 - j)) & 1;
        if bit == 1 {
            append_char(&mut r, '1');
        } else {
            append_char(&mut r, '0');
        }
        assert(has_bit(mask, 25 - j as int) == (bit == 1));
        j = j + 1;
    }
    r
}

/// Shows a mask: the words of its group joined by `sep`, or, where no group has
/// it, its 26-digit binary literal.
pub fn display_mask(groups: &Vec<MaskGroup>, mask: u32, sep: &str) -> (r: String)
    requires
        strictly_ascending(group_masks(groups@)),
    ensures
        shows_mask(groups@, mask, sep@, r@),
{
    match find_group(groups, mask) {
        Some(i) => {
            let r = join_words(&groups[i].words, sep);
            assert(group_masks(groups@)[i as int] == mask);
            r
        },
        None => mask_binary(mask),
    }
}

/// Whether `r` is the output record of a chain: the answer shown, `" -> "`, then
/// the guesses shown and separated by `", "`; words sharing a mask are joined by `/`.
pub open spec fn shows_chain(
    answer_groups: Seq<MaskGroup>,
    guess_groups: Seq<MaskGroup>,
    answer: u32,
    chain: Seq<u32>,
    r: Seq<char>,
) -> bool {
    exists|a: Seq<char>, ds: Seq<Seq<char>>|
        {
            &&& shows_mask(answer_groups, answer, "/"@, a)
            &&& ds.len() == chain.len()
            &&& forall|i: int| 0 <= i < chain.len() ==> shows_mask(guess_groups, chain[i], "/"@, #[trigger] ds[i])
            &&& r == a + " -> "@ + joined(ds, ", "@)
        }
}

/// Renders one completed chain as an output record.
pub fn render_chain(
    answer_groups: &Vec<MaskGroup>,
    guess_groups: &Vec<MaskGroup>,
    answer: u32,
    chain: &Vec<u32>,
) -> (r: String)
    requires
        strictly_ascending(group_masks(answer_groups@)),
        strictly_ascending(group_masks(guess_groups@)),
    ensures
        shows_chain(answer_groups@, guess_groups@, answer, chain@, r@),
{
    let mut shown: Vec<String> = Vec::new();
    let mut i: usize = 0;
    while i < chain.len()
        invariant
            i <= chain@.len(),
            strictly_ascending(group_masks(guess_groups@)),
            shown@.len() == i,
            forall|t: int| 0 <= t < i ==> shows_mask(guess_groups@, chain@[t], "/"@, #[trigger] shown@[t]@),
        decreases chain.len() - i,
    {
        shown.push(display_mask(guess_groups, chain[i], "/"));
        i = i + 1;
    }
    let a = display_mask(answer_groups, answer, "/");
    let ghost av = a@;
    let mut r = a;
    append_str(&mut r, " -> ");
    let guesses = join_words(&shown, ", ");
    append_str(&mut r, guesses.as_str());
    proof {
        let ds = words_view(shown@);
        assert(forall|t: int| 0 <= t < chain@.len() ==> ds[t] == shown@[t]@);
        assert(r@ == av + " -> "@ + joined(ds, ", "@));
    }
    r
}

} // verus!
