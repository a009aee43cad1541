//! The prefix tree itself: insertion and prefix completion.

use vstd::prelude::*;

verus! {

/// One node of the prefix tree. The path of edge labels from the root to a
/// node spells the string that the node represents; `end` marks that this
/// exact string was inserted. Children are kept as a vector of labelled
/// edges whose labels are pairwise distinct (see [`TrieNode::wf`]).
pub struct TrieNode {
    pub children: Vec<(char, TrieNode)>,
    pub end: bool,
}

impl TrieNode {
    /// Well-formedness: no two edges out of the same node carry the same
    /// character, at every level of the tree.
    pub open spec fn wf(self) -> bool
        decreases self,
    {
        &&& (forall|i: int, j: int|
            0 <= i < j < self.children@.len() ==> (#[trigger] self.children@[i]).0 != (
            #[trigger] self.children@[j]).0)
        &&& (forall|i: int|
            0 <= i < self.children@.len() ==> (#[trigger] self.children@[i]).1.wf())
    }

    /// Whether the word `w` is stored in the subtree rooted at `self`:
    /// some child path spells `w` and ends at a terminal node.
    pub open spec fn contains_word(self, w: Seq<char>) -> bool
        decreases w.len(),
    {
        if w.len() == 0 {
            self.end
        } else {
            exists|i: int|
                0 <= i < self.children@.len() && (#[trigger] self.children@[i]).0 == w[0]
                    && self.children@[i].1.contains_word(w.skip(1))
        }
    }

    /// Whether a node lies at the end of the edge path `p` below `self`.
    /// The tree's nodes are exactly its paths: this is the node-level model
    /// that `insert`'s contract pins.
    pub open spec fn has_path(self, p: Seq<char>) -> bool
        decreases p.len(),
    {
        if p.len() == 0 {
            true
        } else {
            exists|i: int|
                0 <= i < self.children@.len() && (#[trigger] self.children@[i]).0 == p[0]
                    && self.children@[i].1.has_path(p.skip(1))
        }
    }

    /// The set of all words stored in the tree.
    pub open spec fn words(self) -> Set<Seq<char>> {
        Set::new(|w: Seq<char>| self.contains_word(w))
    }

    /// The set of all node paths of the tree: one per node, counting the
    /// root as the empty path.
    pub open spec fn paths(self) -> Set<Seq<char>> {
        Set::new(|p: Seq<char>| self.has_path(p))
    }

    /// The set of completions of a prefix: every stored word that begins
    /// with `p`, including `p` itself if it was stored.
    pub open spec fn completions_of(self, p: Seq<char>) -> Set<Seq<char>> {
        Set::new(|w: Seq<char>| p.is_prefix_of(w) && self.contains_word(w))
    }

    /// An empty tree: no children, not terminal, so no stored words.
    pub fn new() -> (r: TrieNode)
        ensures
            r.wf(),
            !r.end,
            r.children@.len() == 0,
            forall|w: Seq<char>| !(#[trigger] r.contains_word(w)),
            forall|p: Seq<char>| #[trigger] r.has_path(p) <==> p.len() == 0,
    {
        let r = TrieNode { children: Vec::new(), end: false };
        proof {
            assert forall|w: Seq<char>| !(#[trigger] r.contains_word(w)) by {
                if w.len() == 0 {
                } else {
                }
            }
            assert forall|p: Seq<char>| #[trigger] r.has_path(p) <==> p.len() == 0 by {
                if p.len() == 0 {
                } else {
                }
            }
        }
        r
    }

    /// Index of the edge labelled `c`, if one exists.
    fn find_child(&self, c: char) -> (r: Option<usize>)
        ensures
            match r {
                Some(j) => j < self.children@.len() && self.children@[j as int].0 == c,
                None => forall|i: int|
                    0 <= i < self.children@.len() ==> (#[trigger] self.children@[i]).0 != c,
            },
    {
        let mut j: usize = 0;
        while j < self.children.len()
            invariant
                j <= self.children@.len(),
                forall|i: int| 0 <= i < j ==> (#[trigger] self.children@[i]).0 != c,
            decreases self.children@.len() - j,
        {
            if self.children[j].0 == c {
                return Some(j);
            }
            j += 1;
        }
        None
    }

    /// Store `word`: afterwards the tree holds exactly the words it held
    /// before, plus `word`. At the node level, the nodes afterwards are
    /// exactly the old ones plus one per leading substring of `word`: no
    /// node or edge is removed or relabelled, and nothing is created off
    /// the word's path. Inserting a word that is already present changes
    /// nothing observable, so insertion is idempotent.
    pub fn insert(&mut self, word: String)
        requires
            old(self).wf(),
        ensures
            final(self).wf(),
            forall|w: Seq<char>|
                #[trigger] final(self).contains_word(w) <==> (old(self).contains_word(w) || w
                    == word@),
            forall|p: Seq<char>|
                #[trigger] final(self).has_path(p) <==> (old(self).has_path(p) || p.is_prefix_of(
                    word@,
                )),
    {
        self.insert_at(word.as_str(), 0);
        proof {
            assert(word@.skip(0) =~= word@);
        }
    }

    /// Store the suffix of `word` that starts at character `i`, below `self`.
    fn insert_at(&mut self, word: &str, i: usize)
        requires
            old(self).wf(),
            i <= word@.len(),
        ensures
            final(self).wf(),
            final(self).end == (old(self).end || i == word@.len()),
            forall|w: Seq<char>|
                #[trigger] final(self).contains_word(w) <==> (old(self).contains_word(w) || w
                    == word@.skip(i as int)),
            forall|p: Seq<char>|
                #[trigger] final(self).has_path(p) <==> (old(self).has_path(p) || p.is_prefix_of(
                    word@.skip(i as int),
                )),
        decreases word@.len() - i,
    {
        let ghost oldn = *self;
        if i == word.unicode_len() {
            self.end = true;
            proof {
                assert forall|w: Seq<char>|
                    #[trigger] self.contains_word(w) <==> (oldn.contains_word(w) || w
                        == word@.skip(i as int)) by {
                    if w.len() == 0 {
                        assert(w =~= word@.skip(i as int));
                    } else {
                        assert(w.len() != word@.skip(i as int).len());
                    }
                }
                assert forall|p: Seq<char>|
                    #[trigger] self.has_path(p) <==> (oldn.has_path(p) || p.is_prefix_of(
                        word@.skip(i as int),
                    )) by {
                    if p.len() == 0 {
                        assert(self.has_path(p) && oldn.has_path(p));
                    } else {
                        assert(!p.is_prefix_of(word@.skip(i as int)));
                        assert(self.has_path(p) == oldn.has_path(p));
                    }
                }
            }
        } else {
            let c = word.get_char(i);
            let ghost oldc = self.children@;
            let mut child: TrieNode;
            let ghost prev: TrieNode;
            let ghost existed: bool;
            let ghost jj: int;
            match self.find_child(c) {
                Some(j) => {
                    let pair = self.children.remove(j);
                    child = pair.1;
                    proof {
                        prev = pair.1;
                        existed = true;
                        jj = j as int;
                    }
                }
                None => {
                    child = TrieNode::new();
                    proof {
                        prev = child;
                        existed = false;
                        jj = 0;
                    }
                }
            }
            let ghost mid = self.children@;
            proof {
                assert(prev.wf());
                assert(forall|u: Seq<char>| existed || !(#[trigger] prev.contains_word(u)));
                assert(forall|u: Seq<char>|
                    existed || ((#[trigger] prev.has_path(u)) <==> u.len() == 0));
                if existed {
                    assert(0 <= jj < oldc.len() && oldc[jj].0 == c && prev == oldc[jj].1);
                    assert(mid == oldc.remove(jj));
                } else {
                    assert(mid == oldc);
                    assert(forall|k: int| 0 <= k < oldc.len() ==> (#[trigger] oldc[k]).0 != c);
                }
                // Index map from the surviving edges back into the original ones.
                assert forall|k: int| 0 <= k < mid.len() implies #[trigger] mid[k] == oldc[
                    surviving_index(existed, jj, k)] && 0 <= surviving_index(existed, jj, k)
                    < oldc.len() by {
                    reveal(surviving_index);
                }
                assert forall|k: int| 0 <= k < mid.len() implies (#[trigger] mid[k]).0 != c by {
                    let m = surviving_index(existed, jj, k);
                    reveal(surviving_index);
                    if existed && m == jj {
                        assert(false);
                    }
                }
            }
            child.insert_at(word, i + 1);
            self.children.push((c, child));
            proof {
                let fin = *self;
                let lastk = fin.children@.len() - 1;
                assert(fin.children@ == mid.push((c, child)));
                assert(forall|k: int| 0 <= k < lastk ==> (#[trigger] fin.children@[k]) == mid[k]);
                assert(fin.children@[lastk] == (c, child));
                assert(fin.wf()) by {
                    reveal(surviving_index);
                    assert forall|k: int, l: int|
                        0 <= k < l < fin.children@.len() implies (#[trigger] fin.children@[k]).0
                        != (#[trigger] fin.children@[l]).0 by {
                        if l < lastk {
                            let a = surviving_index(existed, jj, k);
                            let b = surviving_index(existed, jj, l);
                            assert(oldc[a].0 != oldc[b].0);
                        }
                    }
                    assert forall|k: int|
                        0 <= k < fin.children@.len() implies (#[trigger] fin.children@[k]).1.wf()
                    by {
                        if k < lastk {
                            let a = surviving_index(existed, jj, k);
                            assert(oldc[a].1.wf());
                        }
                    }
                }
                assert forall|w: Seq<char>|
                    #[trigger] fin.contains_word(w) <==> (oldn.contains_word(w) || w == word@.skip(
                    i as int)) by {
                    lemma_skip_shape(word@, i as int, c, w);
                    if w.len() == 0 {
                        assert(fin.contains_word(w) == fin.end);
                        assert(oldn.contains_word(w) == oldn.end);
                        assert(w.len() != word@.skip(i as int).len());
                    } else if w[0] != c {
                        assert(w != word@.skip(i as int));
                        assert(fin.contains_word(w) <==> oldn.contains_word(w)) by {
                            reveal(surviving_index);
                            if fin.contains_word(w) {
                                let k = choose|k: int|
                                    0 <= k < fin.children@.len() && (#[trigger] fin.children@[k]).0
                                        == w[0] && fin.children@[k].1.contains_word(w.skip(1));
                                assert(k < lastk);
                                let m = surviving_index(existed, jj, k);
                                assert(oldc[m].0 == w[0] && oldc[m].1.contains_word(w.skip(1)));
                            }
                            if oldn.contains_word(w) {
                                let m = choose|m: int|
                                    0 <= m < oldc.len() && (#[trigger] oldc[m]).0 == w[0]
                                        && oldc[m].1.contains_word(w.skip(1));
                                let k = if existed && m > jj {
                                    m - 1
                                } else {
                                    m
                                };
                                assert(mid[k] == oldc[m]);
                                assert(fin.children@[k] == oldc[m]);
                            }
                        }
                    } else {
                        // All paths labelled c go through the reinserted child.
                        assert(fin.contains_word(w) <==> child.contains_word(w.skip(1))) by {
                            if fin.contains_word(w) {
                                let k = choose|k: int|
                                    0 <= k < fin.children@.len() && (#[trigger] fin.children@[k]).0
                                        == w[0] && fin.children@[k].1.contains_word(w.skip(1));
                                assert(k == lastk);
                            }
                            if child.contains_word(w.skip(1)) {
                                assert(fin.children@[lastk].0 == w[0] && fin.children@[
                                lastk].1.contains_word(w.skip(1)));
                            }
                        }
                        assert(oldn.contains_word(w) <==> (existed && prev.contains_word(
                            w.skip(1),
                        ))) by {
                            if oldn.contains_word(w) {
                                let k = choose|k: int|
                                    0 <= k < oldc.len() && (#[trigger] oldc[k]).0 == w[0]
                                        && oldc[k].1.contains_word(w.skip(1));
                                assert(existed);
                                assert(k == jj);
                            }
                            if existed && prev.contains_word(w.skip(1)) {
                                assert(oldc[jj].0 == w[0] && oldc[jj].1.contains_word(w.skip(1)));
                            }
                        }
                    }
                }
                assert forall|p: Seq<char>|
                    #[trigger] fin.has_path(p) <==> (oldn.has_path(p) || p.is_prefix_of(
                    word@.skip(i as int))) by {
                    lemma_skip_shape(word@, i as int, c, p);
                    if p.len() == 0 {
                        assert(fin.has_path(p) && oldn.has_path(p));
                    } else if p[0] != c {
                        lemma_prefix_step(p, word@.skip(i as int));
                        assert(!p.is_prefix_of(word@.skip(i as int)));
                        assert(fin.has_path(p) <==> oldn.has_path(p)) by {
                            reveal(surviving_index);
                            if fin.has_path(p) {
                                let k = choose|k: int|
                                    0 <= k < fin.children@.len() && (#[trigger] fin.children@[k]).0
                                        == p[0] && fin.children@[k].1.has_path(p.skip(1));
                                assert(k < lastk);
                                let m = surviving_index(existed, jj, k);
                                assert(oldc[m].0 == p[0] && oldc[m].1.has_path(p.skip(1)));
                            }
                            if oldn.has_path(p) {
                                let m = choose|m: int|
                                    0 <= m < oldc.len() && (#[trigger] oldc[m]).0 == p[0]
                                        && oldc[m].1.has_path(p.skip(1));
                                let k = if existed && m > jj {
                                    m - 1
                                } else {
                                    m
                                };
                                assert(mid[k] == oldc[m]);
                                assert(fin.children@[k] == oldc[m]);
                            }
                        }
                    } else {
                        lemma_prefix_step(p, word@.skip(i as int));
                        assert(word@.skip(i as int).skip(1) =~= word@.skip(i as int + 1));
                        if p.len() == 1 {
                            lemma_empty_prefix_of(p.skip(1), word@.skip(i as int + 1));
                        }
                        assert(fin.has_path(p) <==> child.has_path(p.skip(1))) by {
                            if fin.has_path(p) {
                                let k = choose|k: int|
                                    0 <= k < fin.children@.len() && (#[trigger] fin.children@[k]).0
                                        == p[0] && fin.children@[k].1.has_path(p.skip(1));
                                assert(k == lastk);
                            }
                            if child.has_path(p.skip(1)) {
                                assert(fin.children@[lastk].0 == p[0] && fin.children@[
                                lastk].1.has_path(p.skip(1)));
                            }
                        }
                        assert(oldn.has_path(p) <==> (existed && prev.has_path(p.skip(1)))) by {
                            if oldn.has_path(p) {
                                let k = choose|k: int|
                                    0 <= k < oldc.len() && (#[trigger] oldc[k]).0 == p[0]
                                        && oldc[k].1.has_path(p.skip(1));
                                assert(existed);
                                assert(k == jj);
                            }
                            if existed && prev.has_path(p.skip(1)) {
                                assert(oldc[jj].0 == p[0] && oldc[jj].1.has_path(p.skip(1)));
                            }
                        }
                    }
                }
            }
        }
    }
}

/// Whether some entry of `v` with index in `[lo, hi)` reads `w`.
pub open spec fn in_range(v: Seq<String>, lo: int, hi: int, w: Seq<char>) -> bool {
    exists|k: int| lo <= k < hi && (#[trigger] v[k])@ == w
}

/// Relies on `String::push`: appends exactly the given character at the end.
#[verifier::external_body]
pub(crate) fn push_char(s: &mut String, c: char)
    ensures
        final(s)@ == old(s)@.push(c),
{
    s.push(c)
}

/// Appending one character to a prefix narrows the strings it leads:
/// `p + [c]` leads `w` exactly when `p` leads `w` and `c` follows it.
proof fn lemma_push_prefix(p: Seq<char>, c: char, w: Seq<char>)
    ensures
        p.push(c).is_prefix_of(w) <==> (p.is_prefix_of(w) && w.len() > p.len() && w[p.len() as int]
            == c),
{
    if p.push(c).is_prefix_of(w) {
        let q = w.subrange(0, p.len() as int + 1);
        assert(w[p.len() as int] == q[p.len() as int]);
        assert(q[p.len() as int] == p.push(c)[p.len() as int]);
        assert forall|k: int| 0 <= k < p.len() implies p[k] == w.subrange(0, p.len() as int)[k] by {
            assert(p[k] == p.push(c)[k]);
            assert(p.push(c)[k] == q[k]);
        }
        assert(p =~= w.subrange(0, p.len() as int));
    }
    if p.is_prefix_of(w) && w.len() > p.len() && w[p.len() as int] == c {
        assert(p.push(c) =~= w.subrange(0, p.len() as int + 1));
    }
}

/// A nonempty prefix relation steps through equal first characters.
proof fn lemma_prefix_step(p: Seq<char>, s: Seq<char>)
    requires
        p.len() > 0,
        s.len() > 0,
    ensures
        p.is_prefix_of(s) <==> (p[0] == s[0] && p.skip(1).is_prefix_of(s.skip(1))),
{
    if p.is_prefix_of(s) {
        assert(p[0] == s.subrange(0, p.len() as int)[0]);
        assert forall|k: int|
            0 <= k < p.len() - 1 implies p.skip(1)[k] == s.skip(1).subrange(
            0,
            p.len() as int - 1,
        )[k] by {
            assert(p[k + 1] == s.subrange(0, p.len() as int)[k + 1]);
        }
        assert(p.skip(1) =~= s.skip(1).subrange(0, p.len() as int - 1));
    }
    if p[0] == s[0] && p.skip(1).is_prefix_of(s.skip(1)) {
        assert forall|k: int| 0 <= k < p.len() implies p[k] == s.subrange(0, p.len() as int)[k] by {
            if k > 0 {
                assert(p.skip(1)[k - 1] == s.skip(1).subrange(0, p.len() as int - 1)[k - 1]);
            }
        }
        assert(p =~= s.subrange(0, p.len() as int));
    }
}

/// The empty path leads every sequence.
proof fn lemma_empty_prefix_of(p: Seq<char>, s: Seq<char>)
    requires
        p.len() == 0,
    ensures
        p.is_prefix_of(s),
{
    assert(p =~= s.subrange(0, 0));
}

/// A stored word's path exists in full: the tree has a node at every
/// leading substring of every word it holds.
pub proof fn lemma_word_paths(t: TrieNode, w: Seq<char>)
    requires
        t.contains_word(w),
    ensures
        forall|p: Seq<char>| p.is_prefix_of(w) ==> #[trigger] t.has_path(p),
    decreases w.len(),
{
    assert forall|p: Seq<char>| p.is_prefix_of(w) implies #[trigger] t.has_path(p) by {
        if p.len() > 0 {
            let i = choose|i: int|
                0 <= i < t.children@.len() && (#[trigger] t.children@[i]).0 == w[0]
                    && t.children@[i].1.contains_word(w.skip(1));
            lemma_word_paths(t.children@[i].1, w.skip(1));
            lemma_prefix_step(p, w);
            assert(t.children@[i].1.has_path(p.skip(1)));
            assert(t.children@[i].0 == p[0]);
        }
    }
}

/// Where the surviving edge at position `k` stood among the original edges,
/// after the edge at position `jj` was taken out (when one was).
#[verifier::opaque]
spec fn surviving_index(existed: bool, jj: int, k: int) -> int {
    if existed && k >= jj {
        k + 1
    } else {
        k
    }
}

impl TrieNode {
    /// All completions of `prefix`: every stored word that begins with
    /// `prefix`, each exactly once, in no guaranteed order. An absent
    /// prefix yields an empty result, never a failure.
    pub fn complete(&self, prefix: String) -> (r: Vec<String>)
        requires
            self.wf(),
        ensures
            forall|w: Seq<char>|
                #[trigger] in_range(r@, 0, r@.len() as int, w) <==> (prefix@.is_prefix_of(w)
                    && self.contains_word(w)),
            forall|a: int, b: int|
                0 <= a < b < r@.len() ==> (#[trigger] r@[a])@ != (#[trigger] r@[b])@,
            forall|k: int|
                0 <= k < r@.len() ==> prefix@.is_prefix_of((#[trigger] r@[k])@)
                    && self.contains_word(r@[k]@),
    {
        let mut completions: Vec<String> = Vec::new();
        let mut node: &TrieNode = self;
        let plen = prefix.as_str().unicode_len();
        let mut k: usize = 0;
        proof {
            assert forall|w: Seq<char>| prefix@.is_prefix_of(w) implies (
            #[trigger] self.contains_word(w) <==> node.contains_word(w.skip(0))) by {
                assert(w.skip(0) =~= w);
            }
        }
        while k < plen
            invariant
                k <= plen,
                plen == prefix@.len(),
                node.wf(),
                completions@.len() == 0,
                forall|w: Seq<char>|
                    prefix@.is_prefix_of(w) ==> (#[trigger] self.contains_word(w)
                        <==> node.contains_word(w.skip(k as int))),
            decreases plen - k,
        {
            let c = prefix.as_str().get_char(k);
            match node.find_child(c) {
                Some(j) => {
                    let next: &TrieNode = &node.children[j].1;
                    proof {
                        assert forall|w: Seq<char>| prefix@.is_prefix_of(w) implies (
                        #[trigger] self.contains_word(w) <==> next.contains_word(
                            w.skip(k as int + 1),
                        )) by {
                            lemma_prefix_index(prefix@, w, k as int);
                            let t = w.skip(k as int);
                            assert(t.len() > 0 && t[0] == c);
                            assert(t.skip(1) =~= w.skip(k as int + 1));
                            assert(node.contains_word(t) <==> next.contains_word(t.skip(1))) by {
                                if node.contains_word(t) {
                                    let m = choose|m: int|
                                        0 <= m < node.children@.len() && (
                                        #[trigger] node.children@[m]).0 == t[0]
                                            && node.children@[m].1.contains_word(t.skip(1));
                                    assert(m == j);
                                }
                                if next.contains_word(t.skip(1)) {
                                    assert(node.children@[j as int].0 == t[0]
                                        && node.children@[j as int].1.contains_word(t.skip(1)));
                                }
                            }
                        }
                    }
                    node = next;
                }
                None => {
                    proof {
                        assert forall|w: Seq<char>|
                            !(prefix@.is_prefix_of(w) && self.contains_word(w)) by {
                            if prefix@.is_prefix_of(w) {
                                lemma_prefix_index(prefix@, w, k as int);
                                let t = w.skip(k as int);
                                assert(t.len() > 0 && t[0] == c);
                                assert(!node.contains_word(t));
                            }
                        }
                    }
                    return completions;
                }
            }
            k += 1;
        }
        node.complete_helper(prefix, &mut completions);
        proof {
            assert forall|w: Seq<char>|
                #[trigger] in_range(completions@, 0, completions@.len() as int, w) <==> (
            prefix@.is_prefix_of(w) && self.contains_word(w)) by {
                assert(in_range(completions@, 0, completions@.len() as int, w) <==> (
                prefix@.is_prefix_of(w) && node.contains_word(w.skip(plen as int))));
            }
            assert forall|k2: int|
                0 <= k2 < completions@.len() implies prefix@.is_prefix_of((#[trigger] completions@[
            k2])@) && self.contains_word(completions@[k2]@) by {
                let w = completions@[k2]@;
                assert(in_range(completions@, 0, completions@.len() as int, w)) by {
                    assert(completions@[k2]@ == w);
                }
            }
        }
        completions
    }

    /// Append to `completions` every stored word of the subtree at `self`,
    /// written out in full as `prefix` followed by the path to its terminal
    /// node; each appended word is new and appears once, and what was in
    /// `completions` before stays untouched.
    pub fn complete_helper(&self, prefix: String, completions: &mut Vec<String>)
        requires
            self.wf(),
        ensures
            old(completions)@.is_prefix_of(final(completions)@),
            forall|w: Seq<char>|
                #[trigger] in_range(
                    final(completions)@,
                    old(completions)@.len() as int,
                    final(completions)@.len() as int,
                    w,
                ) <==> (prefix@.is_prefix_of(w) && self.contains_word(
                    w.skip(prefix@.len() as int),
                )),
            forall|a: int, b: int|
                old(completions)@.len() <= a < b < final(completions)@.len() ==> (
                #[trigger] final(completions)@[a])@ != (#[trigger] final(completions)@[b])@,
        decreases *self, 0int,
    {
        let ghost base = completions@.len() as int;
        let ghost plen = prefix@.len() as int;
        if self.end {
            let copy = prefix.clone();
            completions.push(copy);
        }
        let ghost mid = completions@;
        complete_children(&self.children, 0, &prefix, completions);
        proof {
            let fin = completions@;
            assert(old(completions)@.is_prefix_of(fin));
            assert forall|w: Seq<char>|
                #[trigger] in_range(fin, base, fin.len() as int, w) <==> (prefix@.is_prefix_of(w)
                    && self.contains_word(w.skip(plen))) by {
                assert(prefix@.is_prefix_of(prefix@));
                if in_range(fin, base, fin.len() as int, w) {
                    let k = choose|k: int| base <= k < fin.len() && (#[trigger] fin[k])@ == w;
                    if k < mid.len() {
                        assert(self.end && k == base);
                        assert(fin[k] == mid[k]);
                        assert(mid[k]@ == prefix@);
                        assert(w == prefix@);
                        assert(w.skip(plen) =~= Seq::<char>::empty());
                    } else {
                        assert(in_range(fin, mid.len() as int, fin.len() as int, w));
                        lemma_via_child(*self, prefix@, w);
                    }
                }
                if prefix@.is_prefix_of(w) && self.contains_word(w.skip(plen)) {
                    let t = w.skip(plen);
                    if t.len() == 0 {
                        assert(w =~= prefix@);
                        assert(self.end);
                        assert(mid[base]@ == w);
                        assert(fin[base]@ == w);
                    } else {
                        lemma_via_child(*self, prefix@, w);
                        assert(in_range(fin, mid.len() as int, fin.len() as int, w));
                    }
                }
            }
            assert forall|a: int, b: int|
                base <= a < b < fin.len() implies (#[trigger] fin[a])@ != (#[trigger] fin[b])@ by {
                if a < mid.len() {
                    assert(fin[a] == mid[a]);
                    assert(fin[a]@ == prefix@);
                    assert(b >= mid.len());
                    assert(in_range(fin, mid.len() as int, fin.len() as int, fin[b]@)) by {
                        assert(fin[b]@ == fin[b]@);
                    }
                    assert(fin[b]@.len() > plen);
                }
            }
        }
    }
}

/// A word strictly longer than the prefix is collected from the subtree
/// exactly when some child continues it: the bridge between one node's
/// stored-word predicate and its children's.
proof fn lemma_via_child(node: TrieNode, prefix: Seq<char>, w: Seq<char>)
    requires
        w.len() != prefix.len(),
    ensures
        (prefix.is_prefix_of(w) && node.contains_word(w.skip(prefix.len() as int))) <==> (exists|
            ci: int,
        |
            0 <= ci < node.children@.len() && w.len() > prefix.len() && prefix.is_prefix_of(w) && (
            #[trigger] node.children@[ci]).0 == w[prefix.len() as int]
                && node.children@[ci].1.contains_word(w.skip(prefix.len() as int + 1))),
{
    let plen = prefix.len() as int;
    if prefix.is_prefix_of(w) {
        let t = w.skip(plen);
        assert(t.len() == w.len() - plen);
        if w.len() > prefix.len() {
            assert(t[0] == w[plen]);
            assert(t.skip(1) =~= w.skip(plen + 1));
        }
    }
}

/// Append the completions contributed by one node's children, from child
/// `j` on: each is `prefix`, then the child's edge label, then a word
/// stored in that child's subtree.
fn complete_children(
    children: &Vec<(char, TrieNode)>,
    j: usize,
    prefix: &String,
    completions: &mut Vec<String>,
)
    requires
        j <= children@.len(),
        forall|a: int, b: int|
            0 <= a < b < children@.len() ==> (#[trigger] children@[a]).0 != (
            #[trigger] children@[b]).0,
        forall|a: int| 0 <= a < children@.len() ==> (#[trigger] children@[a]).1.wf(),
    ensures
        old(completions)@.is_prefix_of(final(completions)@),
        forall|w: Seq<char>|
            #[trigger] in_range(
                final(completions)@,
                old(completions)@.len() as int,
                final(completions)@.len() as int,
                w,
            ) <==> exists|ci: int|
                j <= ci < children@.len() && w.len() > prefix@.len() && prefix@.is_prefix_of(w) && (
                #[trigger] children@[ci]).0 == w[prefix@.len() as int]
                    && children@[ci].1.contains_word(w.skip(prefix@.len() as int + 1)),
        forall|a: int, b: int|
            old(completions)@.len() <= a < b < final(completions)@.len() ==> (
            #[trigger] final(completions)@[a])@ != (#[trigger] final(completions)@[b])@,
    decreases children, children@.len() - j,
{
    if j < children.len() {
        let ghost base = completions@.len() as int;
        let ghost plen = prefix@.len() as int;
        let c = children[j].0;
        let mut np = prefix.clone();
        push_char(&mut np, c);
        let ghost npv = np@;
        children[j].1.complete_helper(np, completions);
        let ghost mid = completions@;
        complete_children(children, j + 1, prefix, completions);
        proof {
            let fin = completions@;
            lemma_prefix_of_trans(old(completions)@, mid, fin);
            assert(forall|k: int| 0 <= k < mid.len() ==> #[trigger] fin[k] == mid[k]) by {
                assert(forall|k: int|
                    0 <= k < mid.len() ==> mid[k] == #[trigger] fin.subrange(0, mid.len() as int)[
                    k]);
            }
            assert forall|w: Seq<char>|
                #[trigger] in_range(fin, base, fin.len() as int, w) <==> exists|ci: int|
                    j <= ci < children@.len() && w.len() > plen && prefix@.is_prefix_of(w) && (
                    #[trigger] children@[ci]).0 == w[plen] && children@[ci].1.contains_word(
                        w.skip(plen + 1),
                    ) by {
                lemma_push_prefix(prefix@, c, w);
                assert(npv == prefix@.push(c));
                assert(npv.len() == plen + 1);
                if in_range(fin, base, fin.len() as int, w) {
                    let k = choose|k: int| base <= k < fin.len() && (#[trigger] fin[k])@ == w;
                    if k < mid.len() {
                        assert(fin[k] == mid[k]);
                        assert(in_range(mid, base, mid.len() as int, w)) by {
                            assert(mid[k]@ == w);
                        }
                        assert(npv.is_prefix_of(w) && children@[j as int].1.contains_word(
                            w.skip(plen + 1),
                        ));
                        assert(children@[j as int].0 == w[plen]);
                    } else {
                        assert(in_range(fin, mid.len() as int, fin.len() as int, w)) by {
                            assert(fin[k]@ == w);
                        }
                    }
                }
                if exists|ci: int|
                    j <= ci < children@.len() && w.len() > plen && prefix@.is_prefix_of(w) && (
                    #[trigger] children@[ci]).0 == w[plen] && children@[ci].1.contains_word(
                        w.skip(plen + 1),
                    ) {
                    let ci = choose|ci: int|
                        j <= ci < children@.len() && w.len() > plen && prefix@.is_prefix_of(w) && (
                        #[trigger] children@[ci]).0 == w[plen] && children@[ci].1.contains_word(
                            w.skip(plen + 1),
                        );
                    if ci == j {
                        assert(npv.is_prefix_of(w));
                        assert(in_range(mid, base, mid.len() as int, w));
                        let k = choose|k: int| base <= k < mid.len() && (#[trigger] mid[k])@ == w;
                        assert(fin[k]@ == w);
                        assert(in_range(fin, base, fin.len() as int, w));
                    } else {
                        assert(in_range(fin, mid.len() as int, fin.len() as int, w));
                        let k = choose|k: int|
                            mid.len() <= k < fin.len() && (#[trigger] fin[k])@ == w;
                        assert(in_range(fin, base, fin.len() as int, w)) by {
                            assert(fin[k]@ == w);
                        }
                    }
                }
            }
            assert forall|a: int, b: int|
                base <= a < b < fin.len() implies (#[trigger] fin[a])@ != (#[trigger] fin[b])@ by {
                if a < mid.len() && b >= mid.len() {
                    let wa = fin[a]@;
                    let wb = fin[b]@;
                    assert(in_range(mid, base, mid.len() as int, wa)) by {
                        assert(mid[a]@ == wa);
                    }
                    assert(npv.is_prefix_of(wa));
                    lemma_push_prefix(prefix@, c, wa);
                    assert(in_range(fin, mid.len() as int, fin.len() as int, wb)) by {
                        assert(fin[b]@ == wb);
                    }
                    let ci = choose|ci: int|
                        j + 1 <= ci < children@.len() && wb.len() > plen && prefix@.is_prefix_of(wb)
                            && (#[trigger] children@[ci]).0 == wb[plen]
                            && children@[ci].1.contains_word(wb.skip(plen + 1));
                    assert(children@[ci].0 != c);
                    assert(wa[plen] == c);
                } else if a < mid.len() && b < mid.len() {
                    assert(fin[a] == mid[a] && fin[b] == mid[b]);
                }
            }
        }
    } else {
        proof {
            assert(old(completions)@ =~= completions@.subrange(0, completions@.len() as int));
        }
    }
}

/// A prefix of a prefix of a sequence is a prefix of that sequence.
pub proof fn lemma_prefix_of_trans<A>(a: Seq<A>, b: Seq<A>, c: Seq<A>)
    requires
        a.is_prefix_of(b),
        b.is_prefix_of(c),
    ensures
        a.is_prefix_of(c),
{
    assert forall|k: int| 0 <= k < a.len() implies a[k] == c.subrange(0, a.len() as int)[k] by {
        assert(a[k] == b.subrange(0, a.len() as int)[k]);
        assert(b[k] == c.subrange(0, b.len() as int)[k]);
    }
    assert(a =~= c.subrange(0, a.len() as int));
}

/// A sequence led by `p` carries the characters of `p` at its front.
proof fn lemma_prefix_index(p: Seq<char>, w: Seq<char>, k: int)
    requires
        p.is_prefix_of(w),
        0 <= k < p.len(),
    ensures
        w.len() >= p.len(),
        w.skip(k).len() > 0,
        w.skip(k)[0] == p[k],
{
    assert(p[k] == w.subrange(0, p.len() as int)[k]);
    assert(w.skip(k)[0] == w[k]);
}

/// How a word `w` beginning with `c` relates to the suffix `word.skip(i)`,
/// when `word[i] == c`: they are equal exactly when their tails are.
proof fn lemma_skip_shape(word: Seq<char>, i: int, c: char, w: Seq<char>)
    requires
        0 <= i < word.len(),
        word[i] == c,
    ensures
        word.skip(i).len() > 0,
        word.skip(i)[0] == c,
        w.len() > 0 && w[0] == c ==> (w == word.skip(i) <==> w.skip(1) == word.skip(i + 1)),
{
    assert(word.skip(i).len() == word.len() - i);
    assert(word.skip(i)[0] == word[i]);
    if w.len() > 0 && w[0] == c {
        assert(word.skip(i).skip(1) =~= word.skip(i + 1));
        if w.skip(1) == word.skip(i + 1) {
            assert(w =~= word.skip(i)) by {
                assert(w.len() == word.skip(i).len());
                assert forall|k: int| 0 < k < w.len() implies w[k] == word.skip(i)[k] by {
                    assert(w[k] == w.skip(1)[k - 1]);
                    assert(word.skip(i)[k] == word.skip(i + 1)[k - 1]);
                }
            }
        }
    }
}

} // verus!
