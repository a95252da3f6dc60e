//! The fixpoint expander: the heterogrammic adjacency index, singleton
//! groups, and generation-by-generation growth of groups until no group can
//! be extended.
//!
//! A group is canonically built by appending words in strictly increasing id
//! order, so a chain (youngest member first) carries strictly decreasing ids.
//! Each generation holds every valid chain of its length exactly once.

use vstd::prelude::*;
use crate::mask::masks_disjoint;
use crate::words::{Word, registry_wf};
use crate::group::{
    WordGroup,
    chain_mask,
    same_word,
    lemma_chain_mask_prepend,
    lemma_chain_disjoint_union,
};

verus! {

/// A word of the chain agrees with its registry entry.
pub open spec fn word_at(ws: Seq<Word>, w: Word) -> bool {
    w.index < ws.len() && same_word(w, ws[w.index as int])
}

/// A valid chain of member ids, youngest first: ids strictly decreasing, in
/// range, with pairwise disjoint letter masks.
pub open spec fn valid_chain(ws: Seq<Word>, s: Seq<usize>) -> bool {
    &&& 1 <= s.len()
    &&& forall|k: int| 0 <= k < s.len() ==> (#[trigger] s[k]) < ws.len()
    &&& forall|k: int| 0 <= k < s.len() - 1 ==> (#[trigger] s[k]) > s[k + 1]
    &&& forall|k1: int, k2: int| 0 <= k1 < k2 < s.len() ==> masks_disjoint(
        ws[s[k1] as int].letters,
        ws[s[k2] as int].letters,
    )
}

/// A group is well-formed against the registry: its header caches the chain's
/// length and union mask, its members are registry entries, and its id chain
/// is valid.
pub open spec fn group_wf(ws: Seq<Word>, g: WordGroup) -> bool {
    &&& g.length == g.chain().len()
    &&& g.letters == chain_mask(g.chain())
    &&& forall|k: int| 0 <= k < g.chain().len() ==> word_at(ws, #[trigger] g.chain()[k])
    &&& valid_chain(ws, g.ids())
}

/// Word `j` may extend a chain: it is later than every member and its mask is
/// disjoint from every member's.
pub open spec fn can_extend(ws: Seq<Word>, s: Seq<usize>, j: usize) -> bool {
    &&& j < ws.len()
    &&& forall|k: int| 0 <= k < s.len() ==> (#[trigger] s[k]) < j
    &&& forall|k: int| 0 <= k < s.len() ==> masks_disjoint(
        ws[(#[trigger] s[k]) as int].letters,
        ws[j as int].letters,
    )
}

/// A group with the given id chain occurs in the sequence.
pub open spec fn ids_present(gs: Seq<WordGroup>, s: Seq<usize>) -> bool {
    exists|k: int| 0 <= k < gs.len() && (#[trigger] gs[k]).ids() == s
}

/// `e` extends `g` by one word: same chain below, one new youngest member
/// that may extend `g`'s chain.
pub open spec fn is_extension(ws: Seq<Word>, g: WordGroup, e: WordGroup) -> bool {
    &&& e.ids().len() == g.ids().len() + 1
    &&& e.ids().drop_first() == g.ids()
    &&& can_extend(ws, g.ids(), e.ids()[0])
}

/// A full generation of length `n`: every group well-formed with `n` members,
/// no two groups with the same id chain, and every valid chain of length `n`
/// present.
pub open spec fn generation_inv(ws: Seq<Word>, gs: Seq<WordGroup>, n: int) -> bool {
    &&& forall|k: int| 0 <= k < gs.len() ==> group_wf(ws, #[trigger] gs[k]) && gs[k].ids().len()
        == n
    &&& forall|k1: int, k2: int| 0 <= k1 < k2 < gs.len() ==> gs[k1].ids() != gs[k2].ids()
    &&& forall|s: Seq<usize>| valid_chain(ws, s) && s.len() == n ==> ids_present(gs, s)
}

/// One row of the adjacency index is sound (only later, disjoint words, in
/// increasing order) and complete (every later disjoint word occurs).
pub open spec fn adj_row_wf(ws: Seq<Word>, i: int, row: Seq<usize>) -> bool {
    &&& forall|k: int| 0 <= k < row.len() ==> i < (#[trigger] row[k]) < ws.len() && masks_disjoint(
        ws[i].letters,
        ws[row[k] as int].letters,
    )
    &&& forall|k1: int, k2: int| 0 <= k1 < k2 < row.len() ==> row[k1] < row[k2]
    &&& forall|j: usize| i < j < ws.len() && masks_disjoint(ws[i].letters, ws[j as int].letters)
        ==> row.contains(j)
}

/// The adjacency index maps every word id to its full forward-neighbor row.
pub open spec fn adj_wf(ws: Seq<Word>, het: Seq<Vec<usize>>) -> bool {
    &&& het.len() == ws.len()
    &&& forall|i: int| 0 <= i < ws.len() ==> adj_row_wf(ws, i, (#[trigger] het[i])@)
}

/// Mask disjointness is symmetric.
pub proof fn lemma_disjoint_comm(a: u32, b: u32)
    ensures
        masks_disjoint(a, b) == masks_disjoint(b, a),
{
    assert((a & b == 0) == (b & a == 0)) by (bit_vector);
}

/// In a strictly decreasing chain, the entry at position `k` is at least the
/// number of entries after it.
proof fn lemma_decreasing_low(s: Seq<usize>, k: int)
    requires
        forall|k2: int| 0 <= k2 < s.len() - 1 ==> (#[trigger] s[k2]) > s[k2 + 1],
        0 <= k < s.len(),
    ensures
        s[k] >= s.len() - 1 - k,
    decreases s.len() - k,
{
    if k < s.len() - 1 {
        lemma_decreasing_low(s, k + 1);
        assert(s[k] > s[k + 1]);
    }
}

/// A valid chain cannot have more members than the registry has words.
pub proof fn lemma_chain_len_bound(ws: Seq<Word>, s: Seq<usize>)
    requires
        valid_chain(ws, s),
    ensures
        s.len() <= ws.len(),
{
    lemma_decreasing_low(s, 0);
    assert(s[0] < ws.len());
}

/// Extending a valid chain with an admissible word gives a valid chain.
pub proof fn lemma_valid_extend(ws: Seq<Word>, s: Seq<usize>, j: usize)
    requires
        valid_chain(ws, s),
        can_extend(ws, s, j),
    ensures
        valid_chain(ws, seq![j] + s),
{
    let t = seq![j] + s;
    assert(t[0] == j);
    assert(forall|k: int| 0 <= k < s.len() ==> t[k + 1] == s[k]);
    assert forall|k: int| 0 <= k < t.len() implies (#[trigger] t[k]) < ws.len() by {
        if k > 0 {
            assert(t[k] == s[k - 1]);
        }
    }
    assert forall|k: int| 0 <= k < t.len() - 1 implies (#[trigger] t[k]) > t[k + 1] by {
        if k == 0 {
            assert(t[1] == s[0]);
        } else {
            assert(t[k] == s[k - 1] && t[k + 1] == s[k]);
        }
    }
    assert forall|k1: int, k2: int| 0 <= k1 < k2 < t.len() implies masks_disjoint(
        ws[t[k1] as int].letters,
        ws[t[k2] as int].letters,
    ) by {
        if k1 == 0 {
            assert(t[k2] == s[k2 - 1]);
            assert(masks_disjoint(ws[s[k2 - 1] as int].letters, ws[j as int].letters));
            lemma_disjoint_comm(ws[s[k2 - 1] as int].letters, ws[j as int].letters);
        } else {
            assert(t[k1] == s[k1 - 1] && t[k2] == s[k2 - 1]);
        }
    }
}

/// The first `u` members of the chain all precede `j` and are mask-disjoint
/// from word `j`.
pub open spec fn prefix_ok(ws: Seq<Word>, s: Seq<usize>, j: usize, u: int) -> bool {
    forall|k: int| 0 <= k < u ==> (#[trigger] s[k]) < j && masks_disjoint(
        ws[s[k] as int].letters,
        ws[j as int].letters,
    )
}

/// Checking the whole chain decides extension admissibility.
proof fn lemma_prefix_can_extend(ws: Seq<Word>, s: Seq<usize>, j: usize)
    requires
        j < ws.len(),
    ensures
        can_extend(ws, s, j) == prefix_ok(ws, s, j, s.len() as int),
{
    if can_extend(ws, s, j) {
        assert(prefix_ok(ws, s, j, s.len() as int));
    }
    if prefix_ok(ws, s, j, s.len() as int) {
        assert forall|k: int| 0 <= k < s.len() implies (#[trigger] s[k]) < j by {}
        assert forall|k: int| 0 <= k < s.len() implies masks_disjoint(
            ws[(#[trigger] s[k]) as int].letters,
            ws[j as int].letters,
        ) by {}
    }
}

/// Whether `row` holds `j`.
fn row_contains(row: &Vec<usize>, j: usize) -> (b: bool)
    ensures
        b == row@.contains(j),
{
    let mut k: usize = 0;
    let mut found = false;
    while k < row.len()
        invariant
            k <= row@.len(),
            found == exists|k2: int| 0 <= k2 < k && row@[k2] == j,
        decreases row@.len() - k,
    {
        if row[k] == j {
            found = true;
        }
        k = k + 1;
    }
    proof {
        if found {
            let k2 = choose|k2: int| 0 <= k2 < row@.len() && row@[k2] == j;
            assert(row@.contains(j));
        }
        if row@.contains(j) {
            let k2 = choose|k2: int| 0 <= k2 < row@.len() && row@[k2] == j;
            assert(exists|k3: int| 0 <= k3 < row@.len() && row@[k3] == j);
        }
    }
    found
}

/// Builds the heterogrammic adjacency index: for each word, the ids of all
/// later words whose letter mask is disjoint from its own, in increasing
/// order.
pub fn heterogrammic_index(words: &Vec<Word>) -> (het: Vec<Vec<usize>>)
    requires
        registry_wf(words@),
    ensures
        adj_wf(words@, het@),
{
    let n = words.len();
    let mut het: Vec<Vec<usize>> = Vec::new();
    let mut i: usize = 0;
    while i < n
        invariant
            n == words@.len(),
            registry_wf(words@),
            i <= n,
            het@.len() == i,
            forall|i2: int| 0 <= i2 < i ==> adj_row_wf(words@, i2, (#[trigger] het@[i2])@),
        decreases n - i,
    {
        let mut row: Vec<usize> = Vec::new();
        let mut j: usize = i + 1;
        while j < n
            invariant
                n == words@.len(),
                registry_wf(words@),
                i < j || j == i + 1,
                i < n,
                j <= n,
                forall|k: int| 0 <= k < row@.len() ==> i < (#[trigger] row@[k]) < j,
                forall|k: int| 0 <= k < row@.len() ==> masks_disjoint(
                    words@[i as int].letters,
                    words@[(#[trigger] row@[k]) as int].letters,
                ),
                forall|k1: int, k2: int| 0 <= k1 < k2 < row@.len() ==> row@[k1] < row@[k2],
                forall|j2: usize| i < j2 < j && masks_disjoint(
                    words@[i as int].letters,
                    words@[j2 as int].letters,
                ) ==> row@.contains(j2),
            decreases n - j,
        {
            let ghost old_row = row@;
            if words[i].letters & words[j].letters == 0 {
                row.push(j);
                proof {
                    assert(row@ == old_row.push(j));
                    assert(row@[row@.len() - 1] == j);
                    assert forall|j2: usize| i < j2 < j + 1 && masks_disjoint(
                        words@[i as int].letters,
                        words@[j2 as int].letters,
                    ) implies row@.contains(j2) by {
                        if j2 < j {
                            assert(old_row.contains(j2));
                            let k = choose|k: int| 0 <= k < old_row.len() && old_row[k] == j2;
                            assert(row@[k] == j2);
                        } else {
                            assert(row@[row@.len() - 1] == j2);
                        }
                    }
                }
            } else {
                proof {
                    assert forall|j2: usize| i < j2 < j + 1 && masks_disjoint(
                        words@[i as int].letters,
                        words@[j2 as int].letters,
                    ) implies row@.contains(j2) by {
                        assert(j2 != j);
                    }
                }
            }
            j = j + 1;
        }
        het.push(row);
        i = i + 1;
    }
    het
}

/// A successful `add` of an admissible word yields a well-formed extension.
proof fn lemma_extension_wf(ws: Seq<Word>, g: WordGroup, g2: WordGroup, word: Word, j: usize)
    requires
        registry_wf(ws),
        group_wf(ws, g),
        can_extend(ws, g.ids(), j),
        same_word(word, ws[j as int]),
        g2.length == g.length + 1,
        g2.letters == (g.letters | word.letters),
        g2.chain() == seq![word] + g.chain(),
    ensures
        group_wf(ws, g2),
        is_extension(ws, g, g2),
        g2.ids() == seq![j] + g.ids(),
{
    let s = g.ids();
    let c2 = g2.chain();
    assert(c2.len() == g.chain().len() + 1);
    assert(ws[j as int].index == j);
    assert(word.index == j);
    lemma_chain_mask_prepend(word, g.chain());
    let a = word.letters;
    let b = g.letters;
    assert(a | b == b | a) by (bit_vector);
    assert(g2.letters == chain_mask(c2));
    assert forall|k: int| 0 <= k < c2.len() implies word_at(ws, #[trigger] c2[k]) by {
        if k == 0 {
            assert(c2[0] == word);
        } else {
            assert(c2[k] == g.chain()[k - 1]);
            assert(word_at(ws, g.chain()[k - 1]));
        }
    }
    assert forall|k: int| 0 <= k < c2.len() implies #[trigger] g2.ids()[k] == (seq![j] + s)[k] by {
        if k == 0 {
            assert(c2[0] == word);
            assert(g2.ids()[0] == word.index);
        } else {
            assert(c2[k] == g.chain()[k - 1]);
            assert(g2.ids()[k] == g.chain()[k - 1].index);
            assert(s[k - 1] == g.chain()[k - 1].index);
        }
    }
    assert(g2.ids() =~= seq![j] + s);
    lemma_valid_extend(ws, s, j);
    assert(valid_chain(ws, g2.ids()));
    assert(group_wf(ws, g2));
    assert(g2.ids().drop_first() =~= s);
    assert(g2.ids()[0] == j);
    assert(is_extension(ws, g, g2));
}

/// An admissible word is disjoint from the group's union mask, and the group
/// is strictly shorter than the registry.
proof fn lemma_can_add(ws: Seq<Word>, g: WordGroup, j: usize)
    requires
        registry_wf(ws),
        group_wf(ws, g),
        can_extend(ws, g.ids(), j),
    ensures
        masks_disjoint(ws[j as int].letters, g.letters),
        g.length <= j,
        j < ws.len(),
{
    let s = g.ids();
    assert forall|k: int| 0 <= k < g.chain().len() implies masks_disjoint(
        (#[trigger] g.chain()[k]).letters,
        ws[j as int].letters,
    ) by {
        assert(word_at(ws, g.chain()[k]));
        assert(s[k] == g.chain()[k].index);
        assert(masks_disjoint(ws[s[k] as int].letters, ws[j as int].letters));
    }
    lemma_chain_disjoint_union(ws[j as int].letters, g.chain());
    lemma_decreasing_low(s, 0);
    assert(s[0] < j);
}

/// Appending one extension keeps the candidate loop's bookkeeping: heads stay
/// increasing, every head comes from the candidate row, and every admissible
/// candidate processed so far is present.
proof fn lemma_out_push(
    ws: Seq<Word>,
    g: WordGroup,
    old_out: Seq<WordGroup>,
    g2: WordGroup,
    rowv: Seq<usize>,
    t: int,
)
    requires
        0 <= t < rowv.len(),
        forall|k1: int, k2: int| 0 <= k1 < k2 < rowv.len() ==> rowv[k1] < rowv[k2],
        forall|k: int| 0 <= k < old_out.len() ==> group_wf(ws, #[trigger] old_out[k])
            && is_extension(ws, g, old_out[k]),
        forall|k: int| 0 <= k < old_out.len() ==> (#[trigger] old_out[k]).ids()[0] < rowv[t],
        forall|k1: int, k2: int| 0 <= k1 < k2 < old_out.len() ==> old_out[k1].ids()[0]
            < old_out[k2].ids()[0],
        forall|t2: int| 0 <= t2 < t && can_extend(ws, g.ids(), #[trigger] rowv[t2]) ==> ids_present(
            old_out,
            seq![rowv[t2]] + g.ids(),
        ),
        group_wf(ws, g2),
        is_extension(ws, g, g2),
        g2.ids() == seq![rowv[t]] + g.ids(),
    ensures
        forall|k: int| 0 <= k < old_out.push(g2).len() ==> group_wf(
            ws,
            #[trigger] old_out.push(g2)[k],
        ) && is_extension(ws, g, old_out.push(g2)[k]),
        forall|k: int| 0 <= k < old_out.push(g2).len() && t + 1 < rowv.len() ==> (
        #[trigger] old_out.push(g2)[k]).ids()[0] < rowv[t + 1],
        forall|k1: int, k2: int| 0 <= k1 < k2 < old_out.push(g2).len() ==> old_out.push(
            g2,
        )[k1].ids()[0] < old_out.push(g2)[k2].ids()[0],
        forall|t2: int| 0 <= t2 < t + 1 && can_extend(ws, g.ids(), #[trigger] rowv[t2])
            ==> ids_present(old_out.push(g2), seq![rowv[t2]] + g.ids()),
{
    let out = old_out.push(g2);
    let l = old_out.len() as int;
    let s = g.ids();
    let j = rowv[t];
    assert(g2.ids()[0] == (seq![j] + s)[0] == j);
    assert forall|k: int| 0 <= k < out.len() && t + 1 < rowv.len() implies (
    #[trigger] out[k]).ids()[0] < rowv[t + 1] by {
        assert(rowv[t] < rowv[t + 1]);
        if k < l {
            assert(out[k] == old_out[k]);
            assert(old_out[k].ids()[0] < rowv[t]);
        } else {
            assert(out[k].ids()[0] == rowv[t]);
        }
    }
    assert forall|k1: int, k2: int| 0 <= k1 < k2 < out.len() implies out[k1].ids()[0]
        < out[k2].ids()[0] by {
        if k2 == l {
            assert(old_out[k1].ids()[0] < rowv[t]);
            assert(out[k1] == old_out[k1]);
            assert(out[k2].ids()[0] == rowv[t]);
        } else {
            assert(out[k1] == old_out[k1] && out[k2] == old_out[k2]);
        }
    }
    assert forall|t2: int| 0 <= t2 < t + 1 && can_extend(ws, s, #[trigger] rowv[t2]) implies
        ids_present(out, seq![rowv[t2]] + s) by {
        if t2 < t {
            assert(ids_present(old_out, seq![rowv[t2]] + s));
            let k = choose|k: int|
                0 <= k < old_out.len() && (#[trigger] old_out[k]).ids() == seq![rowv[t2]] + s;
            assert(out[k].ids() == seq![rowv[t2]] + s);
        } else {
            assert(out[l].ids() == seq![j] + s);
        }
    }
}

/// Whether word `j` may extend the group: every member must precede `j` and
/// be adjacent to it in the heterogrammic index.
fn chain_admits(
    members: &Vec<Word>,
    g: &WordGroup,
    j: usize,
    words: &Vec<Word>,
    het: &Vec<Vec<usize>>,
) -> (b: bool)
    requires
        registry_wf(words@),
        adj_wf(words@, het@),
        group_wf(words@, *g),
        members@.len() == g.chain().len(),
        forall|k: int| 0 <= k < members@.len() ==> same_word(#[trigger] members@[k], g.chain()[k]),
        j < words@.len(),
    ensures
        b == can_extend(words@, g.ids(), j),
{
    let ghost ws = words@;
    let ghost s = g.ids();
    let mut ok = true;
    let mut u: usize = 0;
    while u < members.len()
        invariant
            ws == words@,
            registry_wf(ws),
            adj_wf(ws, het@),
            group_wf(ws, *g),
            s == g.ids(),
            members@.len() == g.chain().len(),
            forall|k: int| 0 <= k < members@.len() ==> same_word(
                #[trigger] members@[k],
                g.chain()[k],
            ),
            j < ws.len(),
            u <= members@.len(),
            ok == prefix_ok(ws, s, j, u as int),
        decreases members@.len() - u,
    {
        let ghost old_ok = ok;
        let m_idx = members[u].index;
        proof {
            assert(same_word(members@[u as int], g.chain()[u as int]));
            assert(word_at(ws, g.chain()[u as int]));
            assert(m_idx == s[u as int]);
            assert(m_idx < ws.len());
        }
        let mut elem = m_idx < j;
        if elem {
            elem = row_contains(&het[m_idx], j);
        }
        proof {
            let mrow = het@[m_idx as int]@;
            assert(adj_row_wf(ws, m_idx as int, mrow));
            if m_idx < j {
                if mrow.contains(j) {
                    let k2 = choose|k2: int| 0 <= k2 < mrow.len() && mrow[k2] == j;
                    assert(masks_disjoint(ws[m_idx as int].letters, ws[j as int].letters));
                } else {
                    assert(!masks_disjoint(ws[m_idx as int].letters, ws[j as int].letters));
                }
            }
            assert(elem == (s[u as int] < j && masks_disjoint(
                ws[s[u as int] as int].letters,
                ws[j as int].letters,
            )));
        }
        ok = ok && elem;
        proof {
            if ok {
                assert forall|k: int| 0 <= k < u + 1 implies (#[trigger] s[k]) < j
                    && masks_disjoint(ws[s[k] as int].letters, ws[j as int].letters) by {
                    if k < u {
                        assert(prefix_ok(ws, s, j, u as int));
                    }
                }
                assert(prefix_ok(ws, s, j, u + 1));
            } else {
                if !old_ok {
                    assert(!prefix_ok(ws, s, j, u as int));
                    let k0 = choose|k0: int|
                        0 <= k0 < u && !((#[trigger] s[k0]) < j && masks_disjoint(
                            ws[s[k0] as int].letters,
                            ws[j as int].letters,
                        ));
                    assert(!prefix_ok(ws, s, j, u + 1));
                } else {
                    assert(!prefix_ok(ws, s, j, u + 1));
                }
            }
        }
        u = u + 1;
    }
    proof {
        lemma_prefix_can_extend(ws, s, j);
    }
    ok
}

/// All extensions of one group, in increasing id order of the added word.
/// Candidates are seeded from the adjacency row of the group's first-added
/// word, refined against every member through the adjacency index, and the
/// final mask check inside [`WordGroup::add`] guards correctness.
#[verifier::rlimit(100)]
pub fn extend_group(g: &WordGroup, words: &Vec<Word>, het: &Vec<Vec<usize>>) -> (out: Vec<
    WordGroup,
>)
    requires
        registry_wf(words@),
        adj_wf(words@, het@),
        group_wf(words@, *g),
    ensures
        forall|k: int| 0 <= k < out@.len() ==> group_wf(words@, #[trigger] out@[k]) && is_extension(
            words@,
            *g,
            out@[k],
        ),
        forall|k1: int, k2: int| 0 <= k1 < k2 < out@.len() ==> out@[k1].ids()[0]
            < out@[k2].ids()[0],
        forall|j: usize| #[trigger] can_extend(words@, g.ids(), j) ==> ids_present(
            out@,
            seq![j] + g.ids(),
        ),
{
    let ghost ws = words@;
    let ghost s = g.ids();
    let n = words.len();
    let members = g.words();
    let root = g.first_index();
    proof {
        let last = g.chain().len() - 1;
        assert(word_at(ws, g.chain()[last]));
        assert(root == s[last]);
        assert(root < ws.len());
    }
    let row = &het[root];
    let ghost rowv = row@;
    proof {
        assert(adj_row_wf(ws, root as int, rowv));
    }
    let mut out: Vec<WordGroup> = Vec::new();
    let mut t: usize = 0;
    while t < row.len()
        invariant
            ws == words@,
            n == ws.len(),
            registry_wf(ws),
            adj_wf(ws, het@),
            group_wf(ws, *g),
            s == g.ids(),
            members@.len() == g.chain().len(),
            forall|k: int| 0 <= k < members@.len() ==> same_word(
                #[trigger] members@[k],
                g.chain()[k],
            ),
            s.len() >= 1,
            root == s[s.len() - 1],
            root < ws.len(),
            row@ == rowv,
            rowv == het@[root as int]@,
            adj_row_wf(ws, root as int, rowv),
            t <= rowv.len(),
            forall|k: int| 0 <= k < out@.len() ==> group_wf(ws, #[trigger] out@[k])
                && is_extension(ws, *g, out@[k]),
            forall|k: int| 0 <= k < out@.len() && t < rowv.len() ==> (
            #[trigger] out@[k]).ids()[0] < rowv[t as int],
            forall|k1: int, k2: int| 0 <= k1 < k2 < out@.len() ==> out@[k1].ids()[0]
                < out@[k2].ids()[0],
            forall|t2: int| 0 <= t2 < t && can_extend(ws, s, #[trigger] rowv[t2]) ==> ids_present(
                out@,
                seq![rowv[t2]] + s,
            ),
        decreases rowv.len() - t,
    {
        let j = row[t];
        proof {
            assert(root < j < ws.len());
        }
        let ok = chain_admits(&members, g, j, words, het);
        let ghost old_out = out@;
        if ok {
            proof {
                lemma_can_add(ws, *g, j);
                assert(j < n);
                assert(g.length < usize::MAX);
            }
            let word = words[j].clone();
            proof {
                assert(same_word(word, ws[j as int]));
                assert(masks_disjoint(word.letters, g.letters));
            }
            let g2 = g.add(word).unwrap();
            proof {
                lemma_extension_wf(ws, *g, g2, word, j);
            }
            out.push(g2);
            proof {
                assert(out@ == old_out.push(g2));
                lemma_out_push(ws, *g, old_out, g2, rowv, t as int);
            }
        } else {
            proof {
                assert forall|t2: int| 0 <= t2 < t + 1 && can_extend(
                    ws,
                    s,
                    #[trigger] rowv[t2],
                ) implies ids_present(out@, seq![rowv[t2]] + s) by {
                    assert(t2 != t);
                }
                assert forall|k: int| 0 <= k < out@.len() && t + 1 < rowv.len() implies (
                #[trigger] out@[k]).ids()[0] < rowv[t + 1] by {
                    assert(out@[k].ids()[0] < rowv[t as int]);
                    assert(rowv[t as int] < rowv[t + 1]);
                }
            }
        }
        t = t + 1;
    }
    proof {
        assert forall|j: usize| #[trigger] can_extend(ws, s, j) implies ids_present(
            out@,
            seq![j] + s,
        ) by {
            assert(s[s.len() - 1] < j);
            assert(masks_disjoint(ws[root as int].letters, ws[j as int].letters));
            assert(rowv.contains(j));
            let t2 = choose|t2: int| 0 <= t2 < rowv.len() && rowv[t2] == j;
            assert(can_extend(ws, s, rowv[t2]));
        }
    }
    out
}

/// Merging one group's extensions into the accumulated next generation keeps
/// soundness, id-chain distinctness, and completeness for the groups handled
/// so far.
proof fn lemma_merge_generation(
    ws: Seq<Word>,
    groups: Seq<WordGroup>,
    i: int,
    old_out: Seq<WordGroup>,
    extv: Seq<WordGroup>,
)
    requires
        0 <= i < groups.len(),
        forall|i1: int, i2: int| 0 <= i1 < i2 < groups.len() ==> groups[i1].ids()
            != groups[i2].ids(),
        forall|k: int| 0 <= k < old_out.len() ==> group_wf(ws, #[trigger] old_out[k]) && exists|
            i2: int,
        |
            0 <= i2 < i && is_extension(ws, groups[i2], old_out[k]),
        forall|k1: int, k2: int| 0 <= k1 < k2 < old_out.len() ==> old_out[k1].ids()
            != old_out[k2].ids(),
        forall|i2: int, j: usize|
            0 <= i2 < i && #[trigger] can_extend(ws, groups[i2].ids(), j) ==> ids_present(
                old_out,
                seq![j] + groups[i2].ids(),
            ),
        forall|k: int| 0 <= k < extv.len() ==> group_wf(ws, #[trigger] extv[k]) && is_extension(
            ws,
            groups[i],
            extv[k],
        ),
        forall|k1: int, k2: int| 0 <= k1 < k2 < extv.len() ==> extv[k1].ids()[0]
            < extv[k2].ids()[0],
        forall|j: usize| #[trigger] can_extend(ws, groups[i].ids(), j) ==> ids_present(
            extv,
            seq![j] + groups[i].ids(),
        ),
    ensures
        forall|k: int| 0 <= k < (old_out + extv).len() ==> group_wf(ws, #[trigger] (old_out
            + extv)[k]) && exists|i2: int|
            0 <= i2 < i + 1 && is_extension(ws, groups[i2], (old_out + extv)[k]),
        forall|k1: int, k2: int| 0 <= k1 < k2 < (old_out + extv).len() ==> (old_out
            + extv)[k1].ids() != (old_out + extv)[k2].ids(),
        forall|i2: int, j: usize|
            0 <= i2 < i + 1 && #[trigger] can_extend(ws, groups[i2].ids(), j) ==> ids_present(
                old_out + extv,
                seq![j] + groups[i2].ids(),
            ),
{
    let out = old_out + extv;
    let l = old_out.len() as int;
    assert forall|k: int| 0 <= k < out.len() implies group_wf(ws, #[trigger] out[k]) && exists|
        i2: int,
    |
        0 <= i2 < i + 1 && is_extension(ws, groups[i2], out[k]) by {
        if k < l {
            assert(out[k] == old_out[k]);
            let i2 = choose|i2: int| 0 <= i2 < i && is_extension(ws, groups[i2], old_out[k]);
            assert(0 <= i2 < i + 1 && is_extension(ws, groups[i2], out[k]));
        } else {
            assert(out[k] == extv[k - l]);
            assert(is_extension(ws, groups[i], out[k]));
        }
    }
    assert forall|k1: int, k2: int| 0 <= k1 < k2 < out.len() implies out[k1].ids()
        != out[k2].ids() by {
        if k2 < l {
            assert(out[k1] == old_out[k1] && out[k2] == old_out[k2]);
        } else if k1 >= l {
            assert(out[k1] == extv[k1 - l] && out[k2] == extv[k2 - l]);
            assert(extv[k1 - l].ids()[0] < extv[k2 - l].ids()[0]);
        } else {
            assert(out[k1] == old_out[k1] && out[k2] == extv[k2 - l]);
            let i2 = choose|i2: int| 0 <= i2 < i && is_extension(ws, groups[i2], old_out[k1]);
            if out[k1].ids() == out[k2].ids() {
                assert(old_out[k1].ids().drop_first() == groups[i2].ids());
                assert(extv[k2 - l].ids().drop_first() == groups[i].ids());
                assert(groups[i2].ids() == groups[i].ids());
                assert(false);
            }
        }
    }
    assert forall|i2: int, j: usize|
        0 <= i2 < i + 1 && #[trigger] can_extend(ws, groups[i2].ids(), j) implies ids_present(
        out,
        seq![j] + groups[i2].ids(),
    ) by {
        if i2 < i {
            assert(ids_present(old_out, seq![j] + groups[i2].ids()));
            let k = choose|k: int|
                0 <= k < old_out.len() && (#[trigger] old_out[k]).ids() == seq![j]
                    + groups[i2].ids();
            assert(out[k] == old_out[k]);
            assert(out[k].ids() == seq![j] + groups[i2].ids());
        } else {
            assert(ids_present(extv, seq![j] + groups[i].ids()));
            let k = choose|k: int|
                0 <= k < extv.len() && (#[trigger] extv[k]).ids() == seq![j] + groups[i].ids();
            assert(out[l + k] == extv[k]);
            assert(out[l + k].ids() == seq![j] + groups[i2].ids());
        }
    }
}

/// One fixpoint step: every group of the current generation is extended, in
/// order, by every admissible word; the collected results form the next
/// generation.
pub fn next_generation(groups: &Vec<WordGroup>, words: &Vec<Word>, het: &Vec<Vec<usize>>) -> (out:
    Vec<WordGroup>)
    requires
        registry_wf(words@),
        adj_wf(words@, het@),
        forall|i: int| 0 <= i < groups@.len() ==> group_wf(words@, #[trigger] groups@[i]),
        forall|i1: int, i2: int| 0 <= i1 < i2 < groups@.len() ==> groups@[i1].ids()
            != groups@[i2].ids(),
    ensures
        forall|k: int| 0 <= k < out@.len() ==> group_wf(words@, #[trigger] out@[k]) && exists|
            i: int,
        |
            0 <= i < groups@.len() && is_extension(words@, groups@[i], out@[k]),
        forall|k1: int, k2: int| 0 <= k1 < k2 < out@.len() ==> out@[k1].ids() != out@[k2].ids(),
        forall|i: int, j: usize|
            0 <= i < groups@.len() && #[trigger] can_extend(words@, groups@[i].ids(), j)
                ==> ids_present(out@, seq![j] + groups@[i].ids()),
{
    let ghost ws = words@;
    let mut out: Vec<WordGroup> = Vec::new();
    let mut i: usize = 0;
    while i < groups.len()
        invariant
            ws == words@,
            registry_wf(ws),
            adj_wf(ws, het@),
            forall|i2: int| 0 <= i2 < groups@.len() ==> group_wf(ws, #[trigger] groups@[i2]),
            forall|i1: int, i2: int| 0 <= i1 < i2 < groups@.len() ==> groups@[i1].ids()
                != groups@[i2].ids(),
            i <= groups@.len(),
            forall|k: int| 0 <= k < out@.len() ==> group_wf(ws, #[trigger] out@[k]) && exists|
                i2: int,
            |
                0 <= i2 < i && is_extension(ws, groups@[i2], out@[k]),
            forall|k1: int, k2: int| 0 <= k1 < k2 < out@.len() ==> out@[k1].ids()
                != out@[k2].ids(),
            forall|i2: int, j: usize|
                0 <= i2 < i && #[trigger] can_extend(ws, groups@[i2].ids(), j) ==> ids_present(
                    out@,
                    seq![j] + groups@[i2].ids(),
                ),
        decreases groups@.len() - i,
    {
        let mut exts = extend_group(&groups[i], words, het);
        let ghost old_out = out@;
        let ghost extv = exts@;
        out.append(&mut exts);
        proof {
            assert(out@ == old_out + extv);
            lemma_merge_generation(ws, groups@, i as int, old_out, extv);
        }
        i = i + 1;
    }
    proof {
        assert forall|k: int| 0 <= k < out@.len() implies group_wf(words@, #[trigger] out@[k])
            && exists|i2: int| 0 <= i2 < groups@.len() && is_extension(
            words@,
            groups@[i2],
            out@[k],
        ) by {
            let i2 = choose|i2: int| 0 <= i2 < i && is_extension(ws, groups@[i2], out@[k]);
            assert(0 <= i2 < groups@.len() && is_extension(words@, groups@[i2], out@[k]));
        }
    }
    out
}

/// Generation one: the singleton group of every registry word, in id order.
pub fn singletons(words: &Vec<Word>) -> (out: Vec<WordGroup>)
    requires
        registry_wf(words@),
    ensures
        out@.len() == words@.len(),
        generation_inv(words@, out@, 1),
        forall|k: int| 0 <= k < out@.len() ==> (#[trigger] out@[k]).ids() == seq![k as usize],
{
    let mut out: Vec<WordGroup> = Vec::new();
    let mut i: usize = 0;
    while i < words.len()
        invariant
            registry_wf(words@),
            i <= words@.len(),
            out@.len() == i,
            forall|k: int| 0 <= k < i ==> group_wf(words@, #[trigger] out@[k]),
            forall|k: int| 0 <= k < i ==> (#[trigger] out@[k]).ids() == seq![k as usize],
        decreases words@.len() - i,
    {
        let w = words[i].clone();
        let g = WordGroup::new(w);
        proof {
            let c = g.chain();
            assert(c == seq![w]);
            assert(c[0] == w);
            assert(c.drop_first() =~= Seq::<Word>::empty());
            assert(chain_mask(c) == w.letters | chain_mask(c.drop_first()));
            let wl = w.letters;
            assert(wl | 0u32 == wl) by (bit_vector);
            assert(g.letters == chain_mask(c));
            assert(w.index == i);
            assert(word_at(words@, w));
            assert(g.ids() =~= seq![i as usize]);
            assert(valid_chain(words@, g.ids()));
            assert(group_wf(words@, g));
        }
        out.push(g);
        i = i + 1;
    }
    proof {
        assert forall|k1: int, k2: int| 0 <= k1 < k2 < out@.len() implies out@[k1].ids()
            != out@[k2].ids() by {
            assert(out@[k1].ids() == seq![k1 as usize]);
            assert(out@[k2].ids() == seq![k2 as usize]);
            assert(out@[k1].ids()[0] == k1 as usize);
            assert(out@[k2].ids()[0] == k2 as usize);
        }
        assert forall|s: Seq<usize>| valid_chain(words@, s) && s.len() == 1 implies ids_present(
            out@,
            s,
        ) by {
            let id = s[0];
            assert(id < words@.len());
            assert(out@[id as int].ids() == seq![id]);
            assert(s =~= seq![id]);
        }
    }
    out
}

/// Any element of a strictly (adjacent-)decreasing chain is below any
/// earlier one.
proof fn lemma_decreasing_all(s: Seq<usize>, k1: int, k2: int)
    requires
        forall|k: int| 0 <= k < s.len() - 1 ==> (#[trigger] s[k]) > s[k + 1],
        0 <= k1 < k2 < s.len(),
    ensures
        s[k1] > s[k2],
    decreases k2 - k1,
{
    if k1 + 1 < k2 {
        lemma_decreasing_all(s, k1 + 1, k2);
    }
}

/// Every nonempty suffix of a valid chain is a valid chain.
pub proof fn lemma_valid_suffix(ws: Seq<Word>, s: Seq<usize>, d: int)
    requires
        valid_chain(ws, s),
        0 <= d < s.len(),
    ensures
        valid_chain(ws, s.skip(d)),
{
    let t = s.skip(d);
    assert(t.len() == s.len() - d);
    assert(forall|k: int| 0 <= k < t.len() ==> #[trigger] t[k] == s[d + k]);
    assert forall|k: int| 0 <= k < t.len() implies (#[trigger] t[k]) < ws.len() by {
        assert(t[k] == s[d + k]);
    }
    assert forall|k: int| 0 <= k < t.len() - 1 implies (#[trigger] t[k]) > t[k + 1] by {
        assert(t[k] == s[d + k] && t[k + 1] == s[d + k + 1]);
        assert(s[d + k] > s[d + k + 1]);
    }
    assert forall|k1: int, k2: int| 0 <= k1 < k2 < t.len() implies masks_disjoint(
        ws[t[k1] as int].letters,
        ws[t[k2] as int].letters,
    ) by {
        assert(t[k1] == s[d + k1] && t[k2] == s[d + k2]);
        assert(masks_disjoint(ws[s[d + k1] as int].letters, ws[s[d + k2] as int].letters));
    }
}

/// The youngest member of a valid chain of two or more words may extend the
/// rest of the chain.
proof fn lemma_head_extends(ws: Seq<Word>, s: Seq<usize>)
    requires
        valid_chain(ws, s),
        s.len() >= 2,
    ensures
        can_extend(ws, s.skip(1), s[0]),
{
    let t = s.skip(1);
    let j = s[0];
    assert(forall|k: int| 0 <= k < t.len() ==> #[trigger] t[k] == s[1 + k]);
    assert forall|k: int| 0 <= k < t.len() implies (#[trigger] t[k]) < j by {
        assert(t[k] == s[1 + k]);
        lemma_decreasing_all(s, 0, 1 + k);
    }
    assert forall|k: int| 0 <= k < t.len() implies masks_disjoint(
        ws[(#[trigger] t[k]) as int].letters,
        ws[j as int].letters,
    ) by {
        assert(t[k] == s[1 + k]);
        assert(masks_disjoint(ws[s[0] as int].letters, ws[s[1 + k] as int].letters));
        lemma_disjoint_comm(ws[s[0] as int].letters, ws[s[1 + k] as int].letters);
    }
}

/// One fixpoint step carries the generation invariant from length `n` to
/// length `n + 1`: the collected extensions are exactly the valid chains one
/// longer, each occurring once.
/// One valid chain of length `n + 1` is found among the collected extensions.
proof fn lemma_step_chain(
    ws: Seq<Word>,
    gs: Seq<WordGroup>,
    out: Seq<WordGroup>,
    n: int,
    s: Seq<usize>,
)
    requires
        n >= 1,
        generation_inv(ws, gs, n),
        forall|i: int, j: usize|
            0 <= i < gs.len() && #[trigger] can_extend(ws, gs[i].ids(), j) ==> ids_present(
                out,
                seq![j] + gs[i].ids(),
            ),
        valid_chain(ws, s),
        s.len() == n + 1,
    ensures
        ids_present(out, s),
{
    let t = s.skip(1);
    lemma_valid_suffix(ws, s, 1);
    lemma_head_extends(ws, s);
    assert(t.len() == n);
    assert(ids_present(gs, t));
    let i = choose|i: int| 0 <= i < gs.len() && (#[trigger] gs[i]).ids() == t;
    assert(can_extend(ws, gs[i].ids(), s[0]));
    assert(ids_present(out, seq![s[0]] + gs[i].ids()));
    let k = choose|k: int|
        0 <= k < out.len() && (#[trigger] out[k]).ids() == seq![s[0]] + gs[i].ids();
    assert(seq![s[0]] + t =~= s);
    assert(out[k].ids() == s);
}

pub proof fn lemma_step_generation(ws: Seq<Word>, gs: Seq<WordGroup>, out: Seq<WordGroup>, n: int)
    requires
        n >= 1,
        generation_inv(ws, gs, n),
        forall|k: int| 0 <= k < out.len() ==> group_wf(ws, #[trigger] out[k]) && exists|i: int|
            0 <= i < gs.len() && is_extension(ws, gs[i], out[k]),
        forall|k1: int, k2: int| 0 <= k1 < k2 < out.len() ==> out[k1].ids() != out[k2].ids(),
        forall|i: int, j: usize|
            0 <= i < gs.len() && #[trigger] can_extend(ws, gs[i].ids(), j) ==> ids_present(
                out,
                seq![j] + gs[i].ids(),
            ),
    ensures
        generation_inv(ws, out, n + 1),
{
    assert forall|k: int| 0 <= k < out.len() implies group_wf(ws, #[trigger] out[k])
        && out[k].ids().len() == n + 1 by {
        let i = choose|i: int| 0 <= i < gs.len() && is_extension(ws, gs[i], out[k]);
        assert(gs[i].ids().len() == n);
    }
    assert forall|s: Seq<usize>| valid_chain(ws, s) && s.len() == n + 1 implies ids_present(
        out,
        s,
    ) by {
        lemma_step_chain(ws, gs, out, n, s);
    }
}

/// Runs the fixpoint: generation after generation, starting from all
/// singletons, until a generation is empty. The result holds every nonempty
/// generation; no valid chain is longer than the number of generations
/// produced, and the sequence of generations is bounded by the registry size,
/// so the search always terminates.
pub fn all_generations(words: &Vec<Word>, het: &Vec<Vec<usize>>) -> (gens: Vec<Vec<WordGroup>>)
    requires
        registry_wf(words@),
        adj_wf(words@, het@),
    ensures
        forall|l: int| 0 <= l < gens@.len() ==> generation_inv(words@, (#[trigger] gens@[l])@, l + 1)
            && gens@[l]@.len() > 0,
        gens@.len() <= words@.len(),
        forall|s: Seq<usize>| #[trigger] valid_chain(words@, s) ==> s.len() <= gens@.len(),
{
    let ghost ws = words@;
    let n = words.len();
    let mut gens: Vec<Vec<WordGroup>> = Vec::new();
    let mut current = singletons(words);
    while current.len() > 0
        invariant
            ws == words@,
            n == ws.len(),
            registry_wf(ws),
            adj_wf(ws, het@),
            generation_inv(ws, current@, gens@.len() + 1int),
            forall|l: int| 0 <= l < gens@.len() ==> generation_inv(ws, (#[trigger] gens@[l])@, l + 1)
                && gens@[l]@.len() > 0,
            gens@.len() <= n,
        decreases n - gens@.len(),
    {
        proof {
            assert(group_wf(ws, current@[0]));
            lemma_chain_len_bound(ws, current@[0].ids());
            assert(gens@.len() + 1 <= n);
        }
        let next = next_generation(&current, words, het);
        proof {
            lemma_step_generation(ws, current@, next@, gens@.len() + 1int);
        }
        let ghost old_gens = gens@;
        let ghost prev = current@;
        gens.push(current);
        current = next;
        proof {
            assert(gens@.len() == old_gens.len() + 1);
            assert(gens@[old_gens.len() as int]@ == prev);
            assert forall|l: int| 0 <= l < gens@.len() implies generation_inv(
                ws,
                (#[trigger] gens@[l])@,
                l + 1,
            ) && gens@[l]@.len() > 0 by {
                if l < old_gens.len() {
                    assert(gens@[l] == old_gens[l]);
                }
            }
        }
    }
    proof {
        let m = gens@.len() as int;
        assert forall|s: Seq<usize>| #[trigger] valid_chain(ws, s) implies s.len() <= m by {
            if s.len() > m {
                let d = s.len() - (m + 1);
                lemma_valid_suffix(ws, s, d);
                let t = s.skip(d);
                assert(t.len() == m + 1);
                assert(ids_present(current@, t));
                let k = choose|k: int|
                    0 <= k < current@.len() && (#[trigger] current@[k]).ids() == t;
                assert(false);
            }
        }
    }
    gens
}

/// Dropping the head of a strictly decreasing chain removes exactly the head
/// from its id set.
proof fn lemma_skip_head_set(s: Seq<usize>)
    requires
        forall|k: int| 0 <= k < s.len() - 1 ==> (#[trigger] s[k]) > s[k + 1],
        s.len() >= 1,
    ensures
        s.skip(1).to_set() == s.to_set().remove(s[0]),
{
    let t = s.skip(1);
    assert(forall|k: int| 0 <= k < t.len() ==> #[trigger] t[k] == s[1 + k]);
    assert forall|x: usize| t.to_set().contains(x) <==> s.to_set().remove(s[0]).contains(x) by {
        if t.contains(x) {
            let k = choose|k: int| 0 <= k < t.len() && t[k] == x;
            assert(s[1 + k] == x);
            assert(s.contains(x));
            lemma_decreasing_all(s, 0, 1 + k);
        }
        if s.contains(x) && x != s[0] {
            let k = choose|k: int| 0 <= k < s.len() && s[k] == x;
            assert(k >= 1);
            assert(t[k - 1] == x);
            assert(t.contains(x));
        }
    }
    assert(t.to_set() =~= s.to_set().remove(s[0]));
}

/// A strictly decreasing chain is the canonical listing of its id set: two
/// such chains over the same set are equal.
#[verifier::rlimit(100)]
proof fn lemma_decreasing_set_unique(s1: Seq<usize>, s2: Seq<usize>)
    requires
        forall|k: int| 0 <= k < s1.len() - 1 ==> (#[trigger] s1[k]) > s1[k + 1],
        forall|k: int| 0 <= k < s2.len() - 1 ==> (#[trigger] s2[k]) > s2[k + 1],
        s1.to_set() == s2.to_set(),
    ensures
        s1 =~= s2,
    decreases s1.len(),
{
    if s1.len() == 0 {
        if s2.len() > 0 {
            assert(s2.contains(s2[0]));
            assert(s1.to_set().contains(s2[0]));
            let k = choose|k: int| 0 <= k < s1.len() && s1[k] == s2[0];
            assert(false);
        }
    } else {
        assert(s1.contains(s1[0]));
        assert(s2.to_set().contains(s1[0]));
        if s2.len() == 0 {
            let k = choose|k: int| 0 <= k < s2.len() && s2[k] == s1[0];
            assert(false);
        }
        assert(s2.contains(s2[0]));
        assert(s1.to_set().contains(s2[0]));
        let k1 = choose|k: int| 0 <= k < s1.len() && s1[k] == s2[0];
        if k1 > 0 {
            lemma_decreasing_all(s1, 0, k1);
        }
        assert(s2[0] <= s1[0]);
        let k2 = choose|k: int| 0 <= k < s2.len() && s2[k] == s1[0];
        if k2 > 0 {
            lemma_decreasing_all(s2, 0, k2);
        }
        assert(s1[0] == s2[0]);
        let t1 = s1.skip(1);
        let t2 = s2.skip(1);
        assert(forall|k: int| 0 <= k < t1.len() ==> #[trigger] t1[k] == s1[1 + k]);
        assert(forall|k: int| 0 <= k < t2.len() ==> #[trigger] t2[k] == s2[1 + k]);
        lemma_skip_head_set(s1);
        lemma_skip_head_set(s2);
        assert(t1.to_set() == t2.to_set());
        assert forall|k: int| 0 <= k < t1.len() - 1 implies (#[trigger] t1[k]) > t1[k + 1] by {
            assert(t1[k] == s1[1 + k] && t1[k + 1] == s1[1 + k + 1]);
            assert(s1[1 + k] > s1[1 + k + 1]);
        }
        assert forall|k: int| 0 <= k < t2.len() - 1 implies (#[trigger] t2[k]) > t2[k + 1] by {
            assert(t2[k] == s2[1 + k] && t2[k + 1] == s2[1 + k + 1]);
            assert(s2[1 + k] > s2[1 + k + 1]);
        }
        lemma_decreasing_set_unique(t1, t2);
        assert(t1 =~= t2);
        assert(s1.len() == s2.len());
        assert forall|k: int| 0 <= k < s1.len() implies s1[k] == s2[k] by {
            if k > 0 {
                assert(s1[k] == t1[k - 1]);
                assert(t1[k - 1] == t2[k - 1]);
                assert(s2[k] == t2[k - 1]);
            }
        }
    }
}

/// No-duplicate-group property: across one full generation, no two groups
/// contain the identical set of member word ids (and no two the identical
/// canonical id chain).
pub proof fn lemma_no_duplicate_groups(ws: Seq<Word>, gs: Seq<WordGroup>, n: int)
    requires
        generation_inv(ws, gs, n),
    ensures
        forall|k1: int, k2: int| 0 <= k1 < k2 < gs.len() ==> gs[k1].ids() != gs[k2].ids(),
        forall|k1: int, k2: int| 0 <= k1 < k2 < gs.len() ==> (#[trigger] gs[k1].ids()).to_set()
            != (#[trigger] gs[k2].ids()).to_set(),
{
    assert forall|k1: int, k2: int| 0 <= k1 < k2 < gs.len() implies (#[trigger] gs[k1].ids()).to_set()
        != (#[trigger] gs[k2].ids()).to_set() by {
        if gs[k1].ids().to_set() == gs[k2].ids().to_set() {
            assert(group_wf(ws, gs[k1]) && group_wf(ws, gs[k2]));
            assert(valid_chain(ws, gs[k1].ids()) && valid_chain(ws, gs[k2].ids()));
            lemma_decreasing_set_unique(gs[k1].ids(), gs[k2].ids());
            assert(gs[k1].ids() == gs[k2].ids());
            assert(false);
        }
    }
}

/// Completeness against brute force: the id chains of a full generation of
/// length `n` are exactly the valid chains of length `n`, each once. A valid
/// chain is the canonical strictly decreasing listing of a size-`n` set of
/// word ids with pairwise disjoint letter masks.
pub proof fn lemma_generation_exact(ws: Seq<Word>, gs: Seq<WordGroup>, n: int)
    requires
        generation_inv(ws, gs, n),
    ensures
        forall|k: int| 0 <= k < gs.len() ==> valid_chain(ws, (#[trigger] gs[k]).ids())
            && gs[k].ids().len() == n,
        forall|s: Seq<usize>| valid_chain(ws, s) && s.len() == n ==> ids_present(gs, s),
        forall|k1: int, k2: int| 0 <= k1 < k2 < gs.len() ==> gs[k1].ids() != gs[k2].ids(),
{
    assert forall|k: int| 0 <= k < gs.len() implies valid_chain(ws, (#[trigger] gs[k]).ids())
        && gs[k].ids().len() == n by {
        assert(group_wf(ws, gs[k]));
    }
}

} // verus!
