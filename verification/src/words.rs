//! The word registry: words are reduced to one representative per anagram
//! equivalence class (words sharing a letter mask), and each representative
//! is registered under a dense id. All later stages rely on the total order
//! of ids.

use vstd::prelude::*;
use crate::mask::{letters_only, word_mask, mask_in_range, word_letters};

verus! {

/// A registered word: its surface text, its letter mask, and its dense id.
pub struct Word {
    pub word: Vec<u8>,
    pub letters: u32,
    pub index: usize,
}

impl Word {
    /// The stored mask is the mask of the stored text, and the text is
    /// alphabet-only.
    pub open spec fn wf(self) -> bool {
        &&& letters_only(self.word@)
        &&& self.letters == word_mask(self.word@)
        &&& mask_in_range(self.letters)
    }

    /// Registers a word under the given id, computing its letter mask.
    pub fn new(index: usize, word: Vec<u8>) -> (w: Word)
        requires
            letters_only(word@),
        ensures
            w.index == index,
            w.word@ == word@,
            w.letters == word_mask(word@),
            w.wf(),
    {
        let letters = word_letters(&word);
        Word { letters, index, word }
    }
}

impl Clone for Word {
    /// A clone keeps the text, the mask and the id.
    fn clone(&self) -> (res: Self)
        ensures
            res.word@ == self.word@,
            res.letters == self.letters,
            res.index == self.index,
    {
        Word { word: self.word.clone(), letters: self.letters, index: self.index }
    }
}

/// Every word carries its own position as id and is internally consistent.
pub open spec fn registry_wf(ws: Seq<Word>) -> bool {
    forall|i: int| 0 <= i < ws.len() ==> (#[trigger] ws[i]).wf() && ws[i].index == i
}

/// Whether some prefix of `masks` holds `m`.
fn mask_present(masks: &Vec<u32>, m: u32) -> (b: bool)
    ensures
        b == exists|j: int| 0 <= j < masks@.len() && masks@[j] == m,
{
    let mut k: usize = 0;
    let mut found = false;
    while k < masks.len()
        invariant
            k <= masks@.len(),
            found == exists|j: int| 0 <= j < k && masks@[j] == m,
        decreases masks@.len() - k,
    {
        if masks[k] == m {
            found = true;
        }
        k = k + 1;
    }
    found
}

/// Every representative's text is the text of some input word.
pub open spec fn reps_from_inputs(words: Seq<Vec<u8>>, reps: Seq<Vec<u8>>) -> bool {
    forall|k: int| 0 <= k < reps.len() ==> exists|i: int|
        0 <= i < words.len() && (#[trigger] reps[k])@ == words[i]@
}

/// The representatives' masks are pairwise distinct: one representative per
/// anagram equivalence class.
pub open spec fn reps_masks_distinct(reps: Seq<Vec<u8>>) -> bool {
    forall|k1: int, k2: int| 0 <= k1 < k2 < reps.len() ==> word_mask(reps[k1]@) != word_mask(
        reps[k2]@,
    )
}

/// Every input word before `upto` has its mask represented.
pub open spec fn reps_cover(words: Seq<Vec<u8>>, upto: int, reps: Seq<Vec<u8>>) -> bool {
    forall|i: int| 0 <= i < upto ==> exists|k: int|
        0 <= k < reps.len() && word_mask((#[trigger] words[i])@) == word_mask(reps[k]@)
}

/// Reduces a word list to one representative per anagram equivalence class:
/// the first word of each class, in input order. The representatives' masks
/// are pairwise distinct, every input word's mask is represented, and every
/// representative is one of the inputs.
pub fn reduce_anagrams(words: &Vec<Vec<u8>>) -> (reps: Vec<Vec<u8>>)
    requires
        forall|i: int| 0 <= i < words@.len() ==> letters_only(#[trigger] words@[i]@),
    ensures
        reps_from_inputs(words@, reps@),
        reps_masks_distinct(reps@),
        reps_cover(words@, words@.len() as int, reps@),
        forall|k: int| 0 <= k < reps@.len() ==> letters_only(#[trigger] reps@[k]@),
{
    let mut reps: Vec<Vec<u8>> = Vec::new();
    let mut masks: Vec<u32> = Vec::new();
    let mut i: usize = 0;
    while i < words.len()
        invariant
            i <= words@.len(),
            forall|i2: int| 0 <= i2 < words@.len() ==> letters_only(#[trigger] words@[i2]@),
            masks@.len() == reps@.len(),
            forall|k: int| 0 <= k < reps@.len() ==> #[trigger] masks@[k] == word_mask(reps@[k]@),
            reps_from_inputs(words@, reps@),
            reps_masks_distinct(reps@),
            reps_cover(words@, i as int, reps@),
            forall|k: int| 0 <= k < reps@.len() ==> letters_only(#[trigger] reps@[k]@),
        decreases words@.len() - i,
    {
        let ghost old_reps = reps@;
        let ghost old_masks = masks@;
        let m = word_letters(&words[i]);
        if !mask_present(&masks, m) {
            let rep = words[i].clone();
            proof {
                assert(rep@ =~= words@[i as int]@);
            }
            reps.push(rep);
            masks.push(m);
            proof {
                let l = old_reps.len() as int;
                assert(reps@ == old_reps.push(rep));
                assert(masks@ == old_masks.push(m));
                assert(reps@[l]@ == words@[i as int]@);
                assert(masks@[l] == word_mask(reps@[l]@));
                assert forall|k: int| 0 <= k < reps@.len() implies #[trigger] masks@[k]
                    == word_mask(reps@[k]@) by {
                    if k < l {
                        assert(masks@[k] == old_masks[k] && reps@[k] == old_reps[k]);
                    }
                }
                assert forall|k: int| 0 <= k < reps@.len() implies exists|i2: int|
                    0 <= i2 < words@.len() && (#[trigger] reps@[k])@ == words@[i2]@ by {
                    if k < l {
                        assert(reps@[k] == old_reps[k]);
                        let i2 = choose|i2: int|
                            0 <= i2 < words@.len() && old_reps[k]@ == words@[i2]@;
                        assert(reps@[k]@ == words@[i2]@);
                    } else {
                        assert(reps@[k]@ == words@[i as int]@);
                    }
                }
                assert forall|k1: int, k2: int| 0 <= k1 < k2 < reps@.len() implies word_mask(
                    reps@[k1]@,
                ) != word_mask(reps@[k2]@) by {
                    assert(masks@[k1] == word_mask(reps@[k1]@));
                    assert(masks@[k2] == word_mask(reps@[k2]@));
                    if k2 < l {
                        assert(old_masks[k1] != old_masks[k2]);
                    } else {
                        assert(!(exists|j: int| 0 <= j < old_masks.len() && old_masks[j] == m));
                        assert(old_masks[k1] != m);
                    }
                }
                assert forall|i2: int| 0 <= i2 < i + 1 implies exists|k: int|
                    0 <= k < reps@.len() && word_mask((#[trigger] words@[i2])@) == word_mask(
                    reps@[k]@,
                ) by {
                    if i2 < i {
                        let k = choose|k: int|
                            0 <= k < old_reps.len() && word_mask(words@[i2]@) == word_mask(
                                old_reps[k]@,
                            );
                        assert(reps@[k] == old_reps[k]);
                        assert(word_mask(words@[i2]@) == word_mask(reps@[k]@));
                    } else {
                        assert(word_mask(words@[i2]@) == word_mask(reps@[l]@));
                    }
                }
                assert(reps_cover(words@, i + 1, reps@));
            }
        } else {
            proof {
                let j = choose|j: int| 0 <= j < masks@.len() && masks@[j] == m;
                assert(masks@[j] == word_mask(reps@[j]@));
                assert forall|i2: int| 0 <= i2 < i + 1 implies exists|k: int|
                    0 <= k < reps@.len() && word_mask((#[trigger] words@[i2])@) == word_mask(
                    reps@[k]@,
                ) by {
                    if i2 == i {
                        assert(word_mask(words@[i2]@) == word_mask(reps@[j]@));
                    }
                }
                assert(reps_cover(words@, i + 1, reps@));
            }
        }
        i = i + 1;
    }
    reps
}

/// Builds the word registry from the representatives: each word keeps its
/// position as its id.
pub fn build_registry(reps: &Vec<Vec<u8>>) -> (ws: Vec<Word>)
    requires
        forall|i: int| 0 <= i < reps@.len() ==> letters_only(#[trigger] reps@[i]@),
    ensures
        ws@.len() == reps@.len(),
        registry_wf(ws@),
        forall|i: int| 0 <= i < ws@.len() ==> #[trigger] ws@[i].word@ == reps@[i]@,
{
    let mut ws: Vec<Word> = Vec::new();
    let mut i: usize = 0;
    while i < reps.len()
        invariant
            i <= reps@.len(),
            ws@.len() == i,
            forall|i2: int| 0 <= i2 < reps@.len() ==> letters_only(#[trigger] reps@[i2]@),
            registry_wf(ws@),
            forall|i2: int| 0 <= i2 < i ==> #[trigger] ws@[i2].word@ == reps@[i2]@,
        decreases reps@.len() - i,
    {
        let w = Word::new(i, reps[i].clone());
        ws.push(w);
        i = i + 1;
    }
    ws
}

/// Anagram reduction soundness: when the representatives' masks are pairwise
/// distinct — as [`reduce_anagrams`] ensures — the number of distinct letter
/// masks across the representative set equals the number of representatives.
pub proof fn lemma_reduction_counts(reps: Seq<Seq<u8>>)
    requires
        forall|k1: int, k2: int| 0 <= k1 < k2 < reps.len() ==> word_mask(reps[k1]) != word_mask(
            reps[k2],
        ),
    ensures
        reps.map_values(|r: Seq<u8>| word_mask(r)).to_set().len() == reps.len(),
{
    let masks = reps.map_values(|r: Seq<u8>| word_mask(r));
    assert forall|k1: int, k2: int| 0 <= k1 < masks.len() && 0 <= k2 < masks.len() && k1 != k2
        implies masks[k1] != masks[k2] by {
        if k1 < k2 {
            assert(word_mask(reps[k1]) != word_mask(reps[k2]));
        } else {
            assert(word_mask(reps[k2]) != word_mask(reps[k1]));
        }
    }
    assert(masks.no_duplicates());
    masks.unique_seq_to_set();
}

} // verus!
