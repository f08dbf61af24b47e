use vstd::prelude::*;
use vstd::string::StrSliceExecFns;

verus! {

/// Whether `c` is a lowercase letter from `a` to `z`.
pub open spec fn is_letter(c: char) -> bool {
    'a' <= c && c <= 'z'
}

/// The alphabet position of a lowercase letter (`a` is 0).
pub open spec fn letter_index(c: char) -> int {
    (c as int) - ('a' as int)
}

/// Whether the letter at alphabet position `i` occurs in `s`.
pub open spec fn has_letter(s: Seq<char>, i: int) -> bool {
    exists|k: int| 0 <= k < s.len() && is_letter(s[k]) && letter_index(s[k]) == i
}

/// The mask whose bits below `n` are those of the letters present in `s`.
pub open spec fn mask_below(s: Seq<char>, n: nat) -> u32
    decreases n,
{
    if n == 0 {
        0
    } else {
        mask_below(s, (n - 1) as nat) | (if has_letter(s, n - 1) {
            1u32 << ((n - 1) as u32)
        } else {
            0u32
        })
    }
}

/// The letter mask of `s`: bit `i` (0 to 25) is set iff letter `a + i` occurs in `s`.
pub open spec fn letter_mask(s: Seq<char>) -> u32 {
    mask_below(s, 26)
}

proof fn lemma_or_bit(x: u32, y: u32, j: u32)
    requires
        j < 32,
        y == 0u32 || y == 1u32 << j,
    ensures
        (x | y) | (1u32 << j) == x | (1u32 << j),
{
    assert((x | y) | (1u32 << j) == x | (1u32 << j)) by (bit_vector)
        requires
            j < 32,
            y == 0u32 || y == 1u32 << j,
    ;
}

proof fn lemma_or_swap(x: u32, e: u32, b: u32)
    ensures
        (x | e) | b == (x | b) | e,
{
    assert((x | e) | b == (x | b) | e) by (bit_vector);
}

proof fn lemma_or_zero(x: u32)
    ensures
        x | 0u32 == x,
{
    assert(x | 0u32 == x) by (bit_vector);
}

/// A word with no letters has the empty mask.
proof fn lemma_mask_below_empty(s: Seq<char>, n: nat)
    requires
        s.len() == 0,
    ensures
        mask_below(s, n) == 0,
    decreases n,
{
    if n > 0 {
        lemma_mask_below_empty(s, (n - 1) as nat);
        lemma_or_zero(0u32);
    }
}

/// Adding a letter at position `j` to a word sets bit `j` of the mask, if `j < n`.
proof fn lemma_mask_below_push(s: Seq<char>, c: char, n: nat)
    requires
        n <= 26,
    ensures
        mask_below(s.push(c), n) == if is_letter(c) && letter_index(c) < n {
            mask_below(s, n) | (1u32 << (letter_index(c) as u32))
        } else {
            mask_below(s, n)
        },
    decreases n,
{
    let t = s.push(c);
    if n > 0 {
        let m = (n - 1) as nat;
        lemma_mask_below_push(s, c, m);
        assert forall|i: int| has_letter(t, i) <==> (has_letter(s, i) || (is_letter(c)
            && letter_index(c) == i)) by {
            if has_letter(t, i) {
                let k = choose|k: int| 0 <= k < t.len() && is_letter(t[k]) && letter_index(t[k]) == i;
                if k < s.len() {
                    assert(s[k] == t[k]);
                }
            }
            if has_letter(s, i) {
                let k = choose|k: int| 0 <= k < s.len() && is_letter(s[k]) && letter_index(s[k]) == i;
                assert(t[k] == s[k]);
            }
            if is_letter(c) && letter_index(c) == i {
                assert(t[s.len() as int] == c);
            }
        }
        let b = if has_letter(s, m as int) { 1u32 << (m as u32) } else { 0u32 };
        let x = mask_below(s, m);
        if is_letter(c) && letter_index(c) == m {
            let j = letter_index(c) as u32;
            lemma_or_bit(x, b, j);
            lemma_or_zero(x);
        } else if is_letter(c) && letter_index(c) < m {
            let j = letter_index(c) as u32;
            lemma_or_swap(x, 1u32 << j, b);
        }
    }
}

proof fn lemma_mask_below_same_letters(s: Seq<char>, t: Seq<char>, n: nat)
    requires
        forall|i: int| 0 <= i < n ==> (has_letter(s, i) <==> has_letter(t, i)),
    ensures
        mask_below(s, n) == mask_below(t, n),
    decreases n,
{
    if n > 0 {
        lemma_mask_below_same_letters(s, t, (n - 1) as nat);
    }
}

/// The mask of a word depends only on which letters from `a` to `z` occur in it:
/// not on their order, their repetition, nor on any other character.
pub proof fn lemma_mask_depends_only_on_letters(s: Seq<char>, t: Seq<char>)
    requires
        forall|i: int| 0 <= i < 26 ==> (has_letter(s, i) <==> has_letter(t, i)),
    ensures
        letter_mask(s) == letter_mask(t),
{
    lemma_mask_below_same_letters(s, t, 26);
}

/// Anagrams, words that hold the same characters the same number of times,
/// have the same mask.
pub proof fn lemma_anagrams_share_mask(s: Seq<char>, t: Seq<char>)
    requires
        s.to_multiset() == t.to_multiset(),
    ensures
        letter_mask(s) == letter_mask(t),
{
    broadcast use vstd::seq_lib::group_to_multiset_ensures;

    assert forall|i: int| 0 <= i < 26 implies (has_letter(s, i) <==> has_letter(t, i)) by {
        if has_letter(s, i) {
            let k = choose|k: int| 0 <= k < s.len() && is_letter(s[k]) && letter_index(s[k]) == i;
            assert(s.contains(s[k]));
            assert(s.to_multiset().count(s[k]) > 0);
            assert(t.contains(s[k]));
            let k2 = choose|k2: int| 0 <= k2 < t.len() && t[k2] == s[k];
        }
        if has_letter(t, i) {
            let k = choose|k: int| 0 <= k < t.len() && is_letter(t[k]) && letter_index(t[k]) == i;
            assert(t.contains(t[k]));
            assert(t.to_multiset().count(t[k]) > 0);
            assert(s.contains(t[k]));
            let k2 = choose|k2: int| 0 <= k2 < s.len() && s[k2] == t[k];
        }
    }
    lemma_mask_depends_only_on_letters(s, t);
}

proof fn lemma_or_bits(x: u32, b: u32, m: u32, i: u32)
    requires
        m < 26,
        i < 32,
        x < (1u32 << m),
        b == 0u32 || b == 1u32 << m,
    ensures
        x | b < (1u32 << (m + 1)),
        ((x | b) >> i) & 1u32 == 1u32 <==> (((x >> i) & 1u32 == 1u32) || (b != 0u32 && i == m)),
{
    assert(x | b < (1u32 << (m + 1))) by (bit_vector)
        requires
            m < 26,
            x < (1u32 << m),
            b == 0u32 || b == 1u32 << m,
    ;
    assert(((x | b) >> i) & 1u32 == 1u32 <==> (((x >> i) & 1u32 == 1u32) || (b != 0u32 && i
        == m))) by (bit_vector)
        requires
            m < 26,
            i < 32,
            x < (1u32 << m),
            b == 0u32 || b == 1u32 << m,
    ;
}

proof fn lemma_mask_below_bits(s: Seq<char>, n: nat, i: u32)
    requires
        n <= 26,
        i < 32,
    ensures
        mask_below(s, n) < (1u32 << (n as u32)),
        (mask_below(s, n) >> i) & 1u32 == 1u32 <==> (i < n && has_letter(s, i as int)),
    decreases n,
{
    if n == 0 {
        assert((0u32 >> i) & 1u32 == 0u32) by (bit_vector);
        assert(0u32 < (1u32 << 0u32)) by (bit_vector);
    } else {
        let m = (n - 1) as nat;
        lemma_mask_below_bits(s, m, i);
        let b = if has_letter(s, m as int) { 1u32 << (m as u32) } else { 0u32 };
        let mm = m as u32;
        assert(1u32 << mm != 0u32) by (bit_vector)
            requires
                mm < 26,
        ;
        lemma_or_bits(mask_below(s, m), b, m as u32, i);
    }
}

/// Bit `i` of a word's mask is set exactly when letter `a + i` occurs in the
/// word; no bit from 26 on is ever set.
pub proof fn lemma_letter_mask_bits(s: Seq<char>, i: u32)
    requires
        i < 32,
    ensures
        letter_mask(s) < 0x4000000,
        (letter_mask(s) >> i) & 1u32 == 1u32 <==> (i < 26 && has_letter(s, i as int)),
{
    lemma_mask_below_bits(s, 26, i);
    assert(1u32 << 26u32 == 0x4000000) by (bit_vector);
}

/// Computes the letter mask of a word: bit `i` is set iff letter `a + i` occurs.
/// Characters other than `a` to `z` are ignored.
pub fn word_to_int(word: &str) -> (r: u32)
    ensures
        r == letter_mask(word@),
{
    let n = word.unicode_len();
    let mut ret: u32 = 0;
    let mut i: usize = 0;
    proof {
        lemma_mask_below_empty(word@.take(0), 26);
    }
    while i < n
        invariant
            n == word@.len(),
            i <= n,
            ret == letter_mask(word@.take(i as int)),
        decreases n - i,
    {
        let c = word.get_char(i);
        proof {
            assert(word@.take(i as int + 1) == word@.take(i as int).push(c));
            lemma_mask_below_push(word@.take(i as int), c, 26);
        }
        if 'a' <= c && c <= 'z' {
            let idx: u32 = (c as u32) - ('a' as u32);
            ret = ret | (1u32 << idx);
        }
        i = i + 1;
    }
    assert(word@.take(n as int) == word@);
    ret
}

} // verus!
