//! Letter masks: a word over the lowercase alphabet is encoded as a `u32`
//! bitmask with one bit set per distinct letter appearing in the word.

use vstd::prelude::*;

verus! {

/// A byte is a lowercase letter of the alphabet (the mask uses one bit per
/// letter, in the low 26 bits of a `u32`).
pub open spec fn is_letter(c: u8) -> bool {
    97 <= c <= 122
}

/// Every byte of the word is a lowercase letter.
pub open spec fn letters_only(w: Seq<u8>) -> bool {
    forall|k: int| 0 <= k < w.len() ==> is_letter(#[trigger] w[k])
}

/// The alphabet index of a letter byte.
pub open spec fn letter_index(c: u8) -> int {
    c - 97
}

/// The mask with exactly the bit of letter `c` set.
pub open spec fn letter_bit(c: u8) -> u32 {
    1u32 << ((c - 97) as u32)
}

/// The letter mask of a word: the union of the bits of its letters.
pub open spec fn word_mask(w: Seq<u8>) -> u32
    decreases w.len(),
{
    if w.len() == 0 {
        0u32
    } else {
        word_mask(w.drop_last()) | letter_bit(w.last())
    }
}

/// Bit `i` of mask `m` is set (only alphabet positions count).
pub open spec fn mask_has(m: u32, i: int) -> bool {
    0 <= i < 26 && (m >> (i as u32)) & 1u32 == 1u32
}

/// The set of alphabet indices whose bit is set in `m`.
pub open spec fn mask_set(m: u32) -> Set<int> {
    Set::new(|i: int| mask_has(m, i))
}

/// The set of alphabet indices of the letters appearing in `w`.
pub open spec fn letters_of(w: Seq<u8>) -> Set<int> {
    Set::new(|i: int| exists|k: int| 0 <= k < w.len() && letter_index(#[trigger] w[k]) == i)
}

/// A mask is in range when only alphabet bits are set.
pub open spec fn mask_in_range(m: u32) -> bool {
    m < 0x400_0000
}

/// Two masks share no letter.
pub open spec fn masks_disjoint(a: u32, b: u32) -> bool {
    a & b == 0
}

/// Bits of a union are the bits of either operand.
pub proof fn lemma_mask_or(a: u32, b: u32)
    ensures
        forall|i: int| mask_has(a | b, i) <==> mask_has(a, i) || mask_has(b, i),
        mask_in_range(a) && mask_in_range(b) ==> mask_in_range(a | b),
{
    assert forall|i: int| mask_has(a | b, i) <==> mask_has(a, i) || mask_has(b, i) by {
        if 0 <= i < 26 {
            let j = i as u32;
            assert(((a | b) >> j) & 1u32 == 1u32 <==> (a >> j) & 1u32 == 1u32 || (b >> j) & 1u32
                == 1u32) by (bit_vector);
        }
    }
    assert(a < 0x400_0000 && b < 0x400_0000 ==> (a | b) < 0x400_0000) by (bit_vector);
}

/// A single letter bit is in range and has exactly its own bit set.
pub proof fn lemma_letter_bit(c: u8)
    requires
        is_letter(c),
    ensures
        mask_in_range(letter_bit(c)),
        forall|i: int| mask_has(letter_bit(c), i) <==> i == letter_index(c),
{
    let d = (c - 97) as u32;
    assert(d < 26 ==> (1u32 << d) < 0x400_0000) by (bit_vector);
    assert forall|i: int| mask_has(letter_bit(c), i) <==> i == letter_index(c) by {
        if 0 <= i < 26 {
            let j = i as u32;
            assert(d < 26 && j < 26 ==> (((1u32 << d) >> j) & 1u32 == 1u32 <==> j == d))
                by (bit_vector);
        }
    }
}

/// A nonzero mask below `1 << n` has a set bit below `n`.
pub proof fn lemma_nonzero_mask_has_bit(m: u32, n: u32)
    requires
        n <= 26,
        m != 0,
        m < (1u32 << n),
    ensures
        exists|i: int| 0 <= i < n && mask_has(m, i),
    decreases n,
{
    assert(n != 0) by {
        assert(m != 0 ==> !(m < (1u32 << 0u32))) by (bit_vector);
    }
    if (m >> ((n - 1) as u32)) & 1u32 == 1u32 {
        assert(mask_has(m, n - 1 as int));
    } else {
        assert(m < (1u32 << (n - 1) as u32)) by (bit_vector)
            requires
                1 <= n <= 26,
                m < (1u32 << n),
                (m >> ((n - 1) as u32)) & 1u32 != 1u32,
        ;
        lemma_nonzero_mask_has_bit(m, (n - 1) as u32);
    }
}

/// Two in-range masks are disjoint exactly when their letter sets are.
pub proof fn lemma_masks_disjoint(a: u32, b: u32)
    requires
        mask_in_range(a),
        mask_in_range(b),
    ensures
        masks_disjoint(a, b) <==> mask_set(a).disjoint(mask_set(b)),
{
    if a & b == 0 {
        assert forall|i: int| !(mask_has(a, i) && mask_has(b, i)) by {
            if 0 <= i < 26 {
                let j = i as u32;
                assert(a & b == 0 ==> !((a >> j) & 1u32 == 1u32 && (b >> j) & 1u32 == 1u32))
                    by (bit_vector);
            }
        }
        assert(mask_set(a).disjoint(mask_set(b)));
    } else {
        let c = a & b;
        assert(c < (1u32 << 26u32)) by (bit_vector)
            requires
                a < 0x400_0000,
                c == a & b,
        ;
        lemma_nonzero_mask_has_bit(c, 26);
        let i = choose|i: int| 0 <= i < 26 && mask_has(c, i);
        let j = i as u32;
        assert(((a & b) >> j) & 1u32 == 1u32 ==> (a >> j) & 1u32 == 1u32 && (b >> j) & 1u32
            == 1u32) by (bit_vector);
        assert(mask_has(a, i) && mask_has(b, i));
        assert(mask_set(a).contains(i) && mask_set(b).contains(i));
        assert(!mask_set(a).disjoint(mask_set(b)));
    }
}

/// The mask of a word has exactly the bits of the word's letters, and is in
/// range.
pub proof fn lemma_word_mask_letters(w: Seq<u8>)
    requires
        letters_only(w),
    ensures
        mask_in_range(word_mask(w)),
        forall|i: int| mask_has(word_mask(w), i) <==> letters_of(w).contains(i),
    decreases w.len(),
{
    if w.len() == 0 {
        assert(forall|i: int| !mask_has(0u32, i)) by {
            assert(forall|j: u32| j < 26 ==> (0u32 >> j) & 1u32 == 0u32) by (bit_vector);
        }
        assert(forall|i: int| !letters_of(w).contains(i));
    } else {
        let t = w.drop_last();
        let c = w.last();
        lemma_word_mask_letters(t);
        lemma_letter_bit(c);
        lemma_mask_or(word_mask(t), letter_bit(c));
        assert forall|i: int| mask_has(word_mask(w), i) <==> letters_of(w).contains(i) by {
            if mask_has(word_mask(w), i) {
                if mask_has(word_mask(t), i) {
                    let k = choose|k: int| 0 <= k < t.len() && letter_index(t[k]) == i;
                    assert(w[k] == t[k]);
                    assert(letters_of(w).contains(i));
                } else {
                    assert(i == letter_index(c));
                    assert(letter_index(w[w.len() - 1]) == i);
                    assert(letters_of(w).contains(i));
                }
            }
            if letters_of(w).contains(i) {
                let k = choose|k: int| 0 <= k < w.len() && letter_index(w[k]) == i;
                if k < t.len() {
                    assert(t[k] == w[k]);
                    assert(letters_of(t).contains(i));
                } else {
                    assert(i == letter_index(c));
                }
            }
        }
    }
}

/// Mask correctness: the set of bits in a word's mask is exactly the set of
/// the word's distinct letters, so the mask has exactly as many set bits as
/// the word has distinct letters; and the mask is a pure function of the
/// word's characters, so recomputation is deterministic.
pub proof fn lemma_mask_correctness(w: Seq<u8>)
    requires
        letters_only(w),
    ensures
        mask_set(word_mask(w)) =~= letters_of(w),
        mask_set(word_mask(w)).len() == letters_of(w).len(),
        forall|w2: Seq<u8>| w2 =~= w ==> word_mask(w2) == word_mask(w),
{
    lemma_word_mask_letters(w);
    assert(mask_set(word_mask(w)) =~= letters_of(w));
    assert(mask_set(word_mask(w)) == letters_of(w));
}

/// Computes the letter mask of a word.
pub fn word_letters(word: &Vec<u8>) -> (m: u32)
    requires
        letters_only(word@),
    ensures
        m == word_mask(word@),
        mask_in_range(m),
{
    let mut m: u32 = 0;
    let mut k: usize = 0;
    proof {
        assert(word@.take(0) =~= Seq::<u8>::empty());
    }
    while k < word.len()
        invariant
            k <= word.len(),
            letters_only(word@),
            m == word_mask(word@.take(k as int)),
            mask_in_range(m),
        decreases word.len() - k,
    {
        let c = word[k];
        let bit: u32 = 1u32 << ((c - 97) as u32);
        proof {
            let t = word@.take(k as int + 1);
            assert(t.drop_last() =~= word@.take(k as int));
            assert(t.last() == word@[k as int]);
            lemma_letter_bit(c);
            lemma_mask_or(m, letter_bit(c));
        }
        m = m | bit;
        k = k + 1;
    }
    proof {
        assert(word@.take(word@.len() as int) =~= word@);
    }
    m
}

} // verus!
