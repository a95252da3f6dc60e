use heterogram::engine::{all_generations, extend_group, heterogrammic_index, next_generation, singletons};
use heterogram::group::WordGroup;
use heterogram::mask::word_letters;
use heterogram::words::{build_registry, reduce_anagrams, Word};

fn to_words(strs: &[&str]) -> Vec<Vec<u8>> {
    strs.iter().map(|s| s.as_bytes().to_vec()).collect()
}

fn distinct_letters(s: &str) -> usize {
    let mut seen = [false; 26];
    for b in s.bytes() {
        seen[(b - b'a') as usize] = true;
    }
    seen.iter().filter(|&&x| x).count()
}

fn member_ids(g: &WordGroup) -> Vec<usize> {
    g.words().iter().map(|w| w.index).collect()
}

fn id_set(g: &WordGroup) -> Vec<usize> {
    let mut ids = member_ids(g);
    ids.sort();
    ids
}

#[test]
fn mask_bits_equal_distinct_letters() {
    for s in ["a", "abcde", "zzzza", "quick", "aabbc"] {
        let w = s.as_bytes().to_vec();
        let m = word_letters(&w);
        assert_eq!(m.count_ones() as usize, distinct_letters(s));
    }
}

#[test]
fn mask_is_deterministic() {
    let w = "vexing".as_bytes().to_vec();
    assert_eq!(word_letters(&w), word_letters(&w.clone()));
}

#[test]
fn mask_exact_values() {
    assert_eq!(word_letters(&"abcde".as_bytes().to_vec()), 0b11111);
    assert_eq!(word_letters(&"a".as_bytes().to_vec()), 1);
    assert_eq!(word_letters(&"ba".as_bytes().to_vec()), 0b11);
    assert_eq!(word_letters(&"z".as_bytes().to_vec()), 1 << 25);
}

#[test]
fn anagram_reduction_keeps_one_per_class() {
    let input = to_words(&["abcde", "edcba", "bacde", "fghij", "jihgf", "klmno"]);
    let reps = reduce_anagrams(&input);
    assert_eq!(reps.len(), 3);
    // one representative per distinct mask: the number of distinct masks
    // equals the number of representatives
    let mut masks: Vec<u32> = reps.iter().map(word_letters).collect();
    masks.sort();
    masks.dedup();
    assert_eq!(masks.len(), reps.len());
    // every input's mask is represented
    for w in &input {
        let m = word_letters(w);
        assert!(reps.iter().any(|r| word_letters(r) == m));
    }
    // every representative is one of the inputs
    for r in &reps {
        assert!(input.iter().any(|w| w == r));
    }
}

#[test]
fn registry_assigns_dense_ids() {
    let reps = to_words(&["abc", "def", "ghi"]);
    let ws = build_registry(&reps);
    assert_eq!(ws.len(), 3);
    for (i, w) in ws.iter().enumerate() {
        assert_eq!(w.index, i);
        assert_eq!(w.word, reps[i]);
        assert_eq!(w.letters, word_letters(&reps[i]));
    }
}

#[test]
fn extension_succeeds_iff_disjoint() {
    let g = WordGroup::new(Word::new(0, "abcde".as_bytes().to_vec()));
    assert_eq!(g.length, 1);
    // disjoint word extends
    let g2 = g.add(Word::new(1, "fghij".as_bytes().to_vec()));
    let g2 = g2.expect("disjoint extension must succeed");
    assert_eq!(g2.length, 2);
    assert_eq!(
        g2.letters,
        word_letters(&"abcde".as_bytes().to_vec()) | word_letters(&"fghij".as_bytes().to_vec())
    );
    // colliding word is rejected, not an error
    assert!(g.add(Word::new(2, "aghij".as_bytes().to_vec())).is_none());
    // the original group is unaffected (persistent structure)
    assert_eq!(g.length, 1);
    assert_eq!(member_ids(&g), vec![0]);
    assert_eq!(member_ids(&g2), vec![1, 0]);
}

#[test]
fn accessors_walk_the_chain() {
    let g = WordGroup::new(Word::new(0, "ab".as_bytes().to_vec()));
    let g = g.add(Word::new(3, "cd".as_bytes().to_vec())).unwrap();
    let g = g.add(Word::new(7, "ef".as_bytes().to_vec())).unwrap();
    assert_eq!(g.word().index, 7);
    assert_eq!(g.first_index(), 0);
    assert_eq!(member_ids(&g), vec![7, 3, 0]);
}

#[test]
fn render_lists_members_youngest_first_with_trailing_space() {
    let g = WordGroup::new(Word::new(0, "abcde".as_bytes().to_vec()));
    let g = g.add(Word::new(1, "fghij".as_bytes().to_vec())).unwrap();
    assert_eq!(g.render(), b"fghij abcde ".to_vec());
}

#[test]
fn adjacency_index_lists_later_disjoint_words() {
    // ids: 0 "ab", 1 "bc", 2 "cd", 3 "ef"
    let ws = build_registry(&to_words(&["ab", "bc", "cd", "ef"]));
    let het = heterogrammic_index(&ws);
    assert_eq!(het.len(), 4);
    assert_eq!(het[0], vec![2, 3]); // "ab" vs "cd", "ef"
    assert_eq!(het[1], vec![3]); // "bc" vs "ef"
    assert_eq!(het[2], vec![3]); // "cd" vs "ef"
    assert_eq!(het[3], Vec::<usize>::new());
}

#[test]
fn no_two_groups_share_an_id_set() {
    let ws = build_registry(&to_words(&["ab", "cd", "ef", "gh", "ij", "kl"]));
    let het = heterogrammic_index(&ws);
    let gens = all_generations(&ws, &het);
    for gen in &gens {
        let mut sets: Vec<Vec<usize>> = gen.iter().map(id_set).collect();
        let before = sets.len();
        sets.sort();
        sets.dedup();
        assert_eq!(sets.len(), before);
    }
}

#[test]
fn generations_match_brute_force() {
    // small synthetic dictionary over the letters a..h
    let dict = ["ab", "cd", "ef", "gh", "ac", "bd", "eg", "fh", "ae", "bf"];
    let ws = build_registry(&to_words(&dict));
    let het = heterogrammic_index(&ws);
    let gens = all_generations(&ws, &het);
    let masks: Vec<u32> = dict
        .iter()
        .map(|s| word_letters(&s.as_bytes().to_vec()))
        .collect();
    let n = dict.len();
    // brute force: every subset of pairwise-disjoint words, by size
    let mut by_size: Vec<Vec<Vec<usize>>> = vec![Vec::new(); n + 1];
    for bits in 1u32..(1 << n) {
        let chosen: Vec<usize> = (0..n).filter(|&i| bits & (1 << i) != 0).collect();
        let ok = chosen
            .iter()
            .enumerate()
            .all(|(a, &i)| chosen[a + 1..].iter().all(|&j| masks[i] & masks[j] == 0));
        if ok {
            by_size[chosen.len()].push(chosen);
        }
    }
    let longest = (1..=n).rev().find(|&k| !by_size[k].is_empty()).unwrap();
    assert_eq!(gens.len(), longest);
    for (l, gen) in gens.iter().enumerate() {
        let mut got: Vec<Vec<usize>> = gen.iter().map(id_set).collect();
        got.sort();
        let mut want = by_size[l + 1].clone();
        want.sort();
        assert_eq!(got, want, "generation {} differs from brute force", l + 1);
    }
}

#[test]
fn fixpoint_terminates_and_is_exhausted() {
    let ws = build_registry(&to_words(&["abc", "def", "ghi", "jkl", "adg"]));
    let het = heterogrammic_index(&ws);
    let gens = all_generations(&ws, &het);
    assert!(gens.len() <= ws.len());
    assert!(gens.iter().all(|g| !g.is_empty()));
    // the generation after the last one is empty: the fixpoint was reached
    let last = gens.last().unwrap();
    assert!(next_generation(last, &ws, &het).is_empty());
}

#[test]
fn empty_dictionary_yields_no_generations() {
    let ws = build_registry(&Vec::new());
    let het = heterogrammic_index(&ws);
    assert!(singletons(&ws).is_empty());
    assert!(all_generations(&ws, &het).is_empty());
}

#[test]
fn single_group_extension_respects_order_and_masks() {
    let ws = build_registry(&to_words(&["ab", "cd", "ef"]));
    let het = heterogrammic_index(&ws);
    let groups = singletons(&ws);
    // extending the middle singleton only looks at later words
    let exts = extend_group(&groups[1], &ws, &het);
    assert_eq!(exts.len(), 1);
    assert_eq!(member_ids(&exts[0]), vec![2, 1]);
    // extending the first singleton finds both later words
    let exts0 = extend_group(&groups[0], &ws, &het);
    assert_eq!(exts0.len(), 2);
    assert_eq!(member_ids(&exts0[0]), vec![1, 0]);
    assert_eq!(member_ids(&exts0[1]), vec![2, 0]);
}

#[test]
fn concrete_scenario_five_disjoint_words() {
    let dict = to_words(&["abcde", "fghij", "klmno", "pqrst", "uvwxy", "edcba"]);
    let reps = reduce_anagrams(&dict);
    // the anagram "edcba" merges into the class of "abcde"
    assert_eq!(reps.len(), 5);
    let ws = build_registry(&reps);
    let het = heterogrammic_index(&ws);
    let gens = all_generations(&ws, &het);
    // exactly one group of length five, none of length six
    assert_eq!(gens.len(), 5);
    assert_eq!(gens[4].len(), 1);
    assert_eq!(id_set(&gens[4][0]), vec![0, 1, 2, 3, 4]);
}
