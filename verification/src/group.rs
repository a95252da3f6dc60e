//! Persistent word groups: an immutable, structurally shared chain of words
//! together with the union of their letter masks. Extending a group allocates
//! one new node and shares the whole existing chain as its parent, so many
//! groups of one generation may share a common tail.

use vstd::prelude::*;
use std::sync::Arc;
use crate::mask::{masks_disjoint, mask_in_range, mask_set, lemma_masks_disjoint};
use crate::words::Word;

verus! {

/// One link of a group's chain: a word and the rest of the chain.
pub struct GroupNode {
    pub word: Word,
    pub parent: Option<Arc<GroupNode>>,
}

/// The words of a chain, from the most recently added down to the first.
pub open spec fn node_words(n: GroupNode) -> Seq<Word>
    decreases n,
{
    match n.parent {
        Option::Some(p) => seq![n.word] + node_words(*p),
        Option::None => seq![n.word],
    }
}

/// Two words agree on id, mask and text.
pub open spec fn same_word(a: Word, b: Word) -> bool {
    a.index == b.index && a.letters == b.letters && a.word@ == b.word@
}

/// The union of the letter masks of a sequence of words.
pub open spec fn chain_mask(s: Seq<Word>) -> u32
    decreases s.len(),
{
    if s.len() == 0 {
        0u32
    } else {
        s[0].letters | chain_mask(s.drop_first())
    }
}

/// Prepending a word to a chain unions its mask in.
pub proof fn lemma_chain_mask_prepend(w: Word, s: Seq<Word>)
    ensures
        chain_mask(seq![w] + s) == w.letters | chain_mask(s),
{
    let t = seq![w] + s;
    assert(t[0] == w);
    assert(t.drop_first() =~= s);
}

/// The textual form of a chain: each member's bytes, youngest member first,
/// each followed by a single space (so the text ends with a trailing space).
pub open spec fn render_words(s: Seq<Word>) -> Seq<u8>
    decreases s.len(),
{
    if s.len() == 0 {
        Seq::empty()
    } else {
        s[0].word@ + seq![32u8] + render_words(s.drop_first())
    }
}

/// Rendering one more word at the end appends its bytes and a space.
proof fn lemma_render_snoc(s: Seq<Word>, w: Word)
    ensures
        render_words(s.push(w)) == render_words(s) + w.word@ + seq![32u8],
    decreases s.len(),
{
    let t = s.push(w);
    if s.len() == 0 {
        assert(t[0] == w);
        assert(t.drop_first() =~= Seq::<Word>::empty());
        assert(render_words(t.drop_first()) =~= Seq::<u8>::empty());
        assert(render_words(t) =~= render_words(s) + w.word@ + seq![32u8]);
    } else {
        assert(t[0] == s[0]);
        assert(t.drop_first() =~= s.drop_first().push(w));
        lemma_render_snoc(s.drop_first(), w);
        assert(render_words(t) == s[0].word@ + seq![32u8] + (render_words(s.drop_first())
            + w.word@ + seq![32u8]));
        assert(s[0].word@ + seq![32u8] + (render_words(s.drop_first()) + w.word@ + seq![32u8])
            =~= (s[0].word@ + seq![32u8] + render_words(s.drop_first())) + w.word@ + seq![32u8]);
    }
}

/// A mask disjoint from every member of a chain is disjoint from the chain's
/// union mask.
pub proof fn lemma_chain_disjoint_union(a: u32, s: Seq<Word>)
    requires
        forall|k: int| 0 <= k < s.len() ==> masks_disjoint((#[trigger] s[k]).letters, a),
    ensures
        masks_disjoint(a, chain_mask(s)),
    decreases s.len(),
{
    if s.len() == 0 {
        assert(a & 0u32 == 0) by (bit_vector);
    } else {
        let rest = s.drop_first();
        assert forall|k: int| 0 <= k < rest.len() implies masks_disjoint(
            (#[trigger] rest[k]).letters,
            a,
        ) by {
            assert(rest[k] == s[k + 1]);
        }
        lemma_chain_disjoint_union(a, rest);
        let h = s[0].letters;
        let m = chain_mask(rest);
        assert(h & a == 0 && a & m == 0 ==> a & (h | m) == 0) by (bit_vector);
    }
}

/// Stepping from a node to its parent consumes one more position of the
/// chain being walked.
proof fn lemma_chain_tail(total: Seq<Word>, done: int, cur: &GroupNode, parent: &GroupNode)
    requires
        0 <= done,
        done + node_words(*cur).len() == total.len(),
        node_words(*cur) =~= total.skip(done),
        cur.parent is Some,
        node_words(*cur) == seq![cur.word] + node_words(*cur.parent->Some_0),
        node_words(*parent) == node_words(*cur.parent->Some_0),
    ensures
        node_words(*parent) =~= total.skip(done + 1),
{
    let t = node_words(*parent);
    assert(node_words(*cur).len() == t.len() + 1);
    assert(total.skip(done).len() == total.len() - done);
    assert(total.skip(done + 1).len() == total.len() - done - 1);
    assert forall|k: int| 0 <= k < t.len() implies t[k] == total.skip(done + 1)[k] by {
        assert(node_words(*cur)[k + 1] == t[k]);
        assert(node_words(*cur)[k + 1] == total.skip(done)[k + 1]);
        assert(total.skip(done)[k + 1] == total[done + 1 + k]);
        assert(total.skip(done + 1)[k] == total[done + 1 + k]);
    }
    assert(t.len() == total.skip(done + 1).len());
}

/// A group: its length, the union of its members' letter masks, and the
/// chain of its members, youngest first.
pub struct WordGroup {
    pub length: usize,
    pub letters: u32,
    pub node: Arc<GroupNode>,
}

impl WordGroup {
    /// The members of the group, from the most recently added to the first.
    pub open spec fn chain(self) -> Seq<Word> {
        node_words(*self.node)
    }

    /// The ids of the members, youngest first.
    pub open spec fn ids(self) -> Seq<usize> {
        self.chain().map_values(|w: Word| w.index)
    }

    /// The singleton group of one word.
    pub fn new(word: Word) -> (g: WordGroup)
        ensures
            g.length == 1,
            g.letters == word.letters,
            g.chain() == seq![word],
    {
        let letters = word.letters;
        let g = WordGroup { length: 1, letters, node: Arc::new(GroupNode { word, parent: None }) };
        g
    }

    /// The most recently added member.
    pub fn word(&self) -> (w: &Word)
        ensures
            self.chain().len() > 0,
            *w == self.chain()[0],
    {
        &self.node.word
    }

    /// The id of the group's first-added member, found by walking to the
    /// chain's root.
    pub fn first_index(&self) -> (r: usize)
        ensures
            self.chain().len() > 0,
            r == self.chain().last().index,
    {
        let mut cur: &GroupNode = &*self.node;
        let ghost total = self.chain();
        let ghost mut done: int = 0;
        proof {
            assert(node_words(*cur) =~= total.skip(0));
        }
        loop
            invariant
                0 <= done,
                done + node_words(*cur).len() == total.len(),
                node_words(*cur).len() > 0,
                node_words(*cur) =~= total.skip(done),
            ensures
                total.len() > 0,
                cur.word == total.last(),
            decreases node_words(*cur).len(),
        {
            match &cur.parent {
                Option::Some(p) => {
                    proof {
                        lemma_chain_tail(total, done, cur, &**p);
                    }
                    cur = &**p;
                    proof {
                        done = done + 1;
                    }
                },
                Option::None => {
                    proof {
                        assert(node_words(*cur) == seq![cur.word]);
                        assert(total.skip(done).len() == 1);
                        assert(total.last() == total.skip(done)[0]);
                    }
                    break ;
                },
            }
        }
        cur.word.index
    }

    /// The members of the group, youngest first, as fresh copies.
    pub fn words(&self) -> (out: Vec<Word>)
        ensures
            out@.len() == self.chain().len(),
            forall|k: int| 0 <= k < out@.len() ==> same_word(#[trigger] out@[k], self.chain()[k]),
    {
        let mut out: Vec<Word> = Vec::new();
        let mut cur: &GroupNode = &*self.node;
        let ghost total = self.chain();
        proof {
            assert(node_words(*cur) =~= total.skip(0));
        }
        loop
            invariant_except_break
                out@.len() + node_words(*cur).len() == total.len(),
                node_words(*cur).len() > 0,
                node_words(*cur) =~= total.skip(out@.len() as int),
            invariant
                out@.len() <= total.len(),
                forall|k: int| 0 <= k < out@.len() ==> same_word(#[trigger] out@[k], total[k]),
            ensures
                out@.len() == total.len(),
            decreases node_words(*cur).len(),
        {
            let ghost done = out@.len() as int;
            proof {
                assert(node_words(*cur)[0] == total.skip(done)[0]);
                assert(total.skip(done)[0] == total[done]);
            }
            out.push(cur.word.clone());
            match &cur.parent {
                Option::Some(p) => {
                    proof {
                        lemma_chain_tail(total, done, cur, &**p);
                    }
                    cur = &**p;
                },
                Option::None => {
                    proof {
                        assert(node_words(*cur).len() == 1);
                    }
                    break ;
                },
            }
        }
        out
    }

    /// The textual form of the group: its member words, youngest first, each
    /// followed by a single space.
    pub fn render(&self) -> (out: Vec<u8>)
        ensures
            out@ == render_words(self.chain()),
    {
        let ghost total = self.chain();
        let members = self.words();
        let mut out: Vec<u8> = Vec::new();
        let mut i: usize = 0;
        proof {
            assert(total.take(0) =~= Seq::<Word>::empty());
        }
        while i < members.len()
            invariant
                total == self.chain(),
                members@.len() == total.len(),
                forall|k: int| 0 <= k < members@.len() ==> same_word(
                    #[trigger] members@[k],
                    total[k],
                ),
                i <= members@.len(),
                out@ == render_words(total.take(i as int)),
            decreases members@.len() - i,
        {
            let ghost prefix = out@;
            let ghost wtext = total[i as int].word@;
            let mut b: usize = 0;
            proof {
                assert(same_word(members@[i as int], total[i as int]));
                assert(members@[i as int].word@ == wtext);
                assert(prefix + wtext.take(0) =~= prefix);
            }
            while b < members[i].word.len()
                invariant
                    i < members@.len(),
                    members@[i as int].word@ == wtext,
                    b <= wtext.len(),
                    out@ == prefix + wtext.take(b as int),
                decreases wtext.len() - b,
            {
                out.push(members[i].word[b]);
                proof {
                    assert(prefix + wtext.take(b as int) + seq![wtext[b as int]] =~= prefix
                        + wtext.take(b + 1));
                }
                b = b + 1;
            }
            out.push(32);
            proof {
                assert(wtext.take(wtext.len() as int) =~= wtext);
                assert(total.take(i + 1) =~= total.take(i as int).push(total[i as int]));
                lemma_render_snoc(total.take(i as int), total[i as int]);
                assert(prefix + wtext + seq![32u8] =~= (prefix + wtext) + seq![32u8]);
                assert(out@ == render_words(total.take(i + 1)));
            }
            i = i + 1;
        }
        proof {
            assert(total.take(total.len() as int) =~= total);
        }
        out
    }

    /// Extension: fails exactly when the word's letters collide with the
    /// group's union mask; on success the new group has one more member, the
    /// union of the masks, and shares this group's whole chain as its tail.
    pub fn add(&self, word: Word) -> (r: Option<WordGroup>)
        requires
            self.length < usize::MAX,
        ensures
            r is Some <==> masks_disjoint(word.letters, self.letters),
            mask_in_range(word.letters) && mask_in_range(self.letters) ==> ((r is Some)
                <==> mask_set(word.letters).disjoint(mask_set(self.letters))),
            r matches Some(g) ==> {
                &&& g.length == self.length + 1
                &&& g.letters == (self.letters | word.letters)
                &&& g.chain() == seq![word] + self.chain()
            },
    {
        proof {
            if mask_in_range(word.letters) && mask_in_range(self.letters) {
                lemma_masks_disjoint(word.letters, self.letters);
            }
        }
        if (word.letters & self.letters) != 0 {
            return None;
        }
        let letters = self.letters | word.letters;
        let g = WordGroup {
            length: 1 + self.length,
            letters,
            node: Arc::new(GroupNode { word, parent: Some(self.node.clone()) }),
        };
        Some(g)
    }
}

} // verus!
