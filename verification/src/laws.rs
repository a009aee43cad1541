//! The laws the tree obeys, stated over its spec-level model: the
//! stored-word predicate and the completion sets that the contracts of
//! `insert` and `complete` speak of.

use vstd::prelude::*;
use crate::trie::TrieNode;
use crate::trie::lemma_prefix_of_trans;
use crate::trie::lemma_word_paths;

verus! {

/// Round-trip containment: a word just inserted is among the completions of
/// itself. By `complete`'s contract (membership and distinctness) it then
/// appears in `complete(word)` exactly once.
pub proof fn lemma_round_trip(pre: TrieNode, post: TrieNode, word: Seq<char>)
    requires
        forall|w: Seq<char>|
            #[trigger] post.contains_word(w) <==> (pre.contains_word(w) || w == word),
    ensures
        post.completions_of(word).contains(word),
{
    assert(word =~= word.subrange(0, word.len() as int));
    assert(post.contains_word(word));
}

/// Prefix monotonicity: completions of a longer prefix are a subset of the
/// completions of any of its leading prefixes.
pub proof fn lemma_prefix_monotonic(t: TrieNode, p1: Seq<char>, p2: Seq<char>)
    requires
        p1.is_prefix_of(p2),
    ensures
        t.completions_of(p2).subset_of(t.completions_of(p1)),
{
    assert forall|w: Seq<char>|
        t.completions_of(p2).contains(w) implies t.completions_of(p1).contains(w) by {
        lemma_prefix_of_trans(p1, p2, w);
    }
}

/// Empty-prefix property: completing the empty prefix yields every stored
/// word. By `complete`'s distinctness clause, each appears exactly once,
/// however often it was inserted.
pub proof fn lemma_empty_prefix(t: TrieNode)
    ensures
        t.completions_of(Seq::empty()) == t.words(),
{
    assert forall|w: Seq<char>|
        t.words().contains(w) implies t.completions_of(Seq::empty()).contains(w) by {
        assert(Seq::<char>::empty() =~= w.subrange(0, 0));
    }
    assert(t.completions_of(Seq::empty()) =~= t.words());
}

/// Absent-prefix property: a nonempty prefix that shares no leading
/// character with any stored word has no completions. (The empty prefix is
/// left out: it leads every stored word.)
pub proof fn lemma_absent_prefix(t: TrieNode, x: Seq<char>)
    requires
        x.len() > 0,
        forall|w: Seq<char>| #[trigger] t.contains_word(w) ==> w.len() == 0 || w[0] != x[0],
    ensures
        t.completions_of(x) == Set::<Seq<char>>::empty(),
{
    assert forall|w: Seq<char>| !(#[trigger] t.completions_of(x).contains(w)) by {
        if x.is_prefix_of(w) && t.contains_word(w) {
            assert(x[0] == w.subrange(0, x.len() as int)[0]);
            assert(w[0] == x[0] && w.len() > 0);
        }
    }
    assert(t.completions_of(x) =~= Set::<Seq<char>>::empty());
}

/// Idempotent insertion: inserting a word that is already stored changes
/// nothing observable — the node set (as paths), the stored words and every
/// completion set all stay as they were, so inserting the same word again
/// yields the same `complete` results and the same dump shape.
pub proof fn lemma_insert_idempotent(once: TrieNode, twice: TrieNode, word: Seq<char>)
    requires
        once.contains_word(word),
        forall|w: Seq<char>|
            #[trigger] twice.contains_word(w) <==> (once.contains_word(w) || w == word),
        forall|p: Seq<char>|
            #[trigger] twice.has_path(p) <==> (once.has_path(p) || p.is_prefix_of(word)),
    ensures
        twice.words() == once.words(),
        twice.paths() == once.paths(),
        forall|p: Seq<char>| #[trigger] twice.has_path(p) <==> once.has_path(p),
        forall|p: Seq<char>| #[trigger] twice.completions_of(p) == once.completions_of(p),
{
    lemma_word_paths(once, word);
    assert(twice.words() =~= once.words());
    assert(twice.paths() =~= once.paths());
    assert forall|p: Seq<char>| #[trigger] twice.completions_of(p) == once.completions_of(p) by {
        assert(twice.completions_of(p) =~= once.completions_of(p));
    }
}

/// Inserting the empty word into an empty tree marks the root terminal and
/// creates no nodes: the root keeps an empty child list, so the root is
/// terminal exactly when the empty string was explicitly inserted.
pub proof fn lemma_empty_word_adds_no_nodes(pre: TrieNode, post: TrieNode)
    requires
        pre.children@.len() == 0,
        forall|p: Seq<char>|
            #[trigger] post.has_path(p) <==> (pre.has_path(p) || p.is_prefix_of(
                Seq::<char>::empty(),
            )),
    ensures
        post.children@.len() == 0,
{
    if post.children@.len() > 0 {
        let single = Seq::<char>::empty().push(post.children@[0].0);
        assert(post.has_path(single)) by {
            assert(post.children@[0].0 == single[0]);
            assert(single.skip(1).len() == 0);
            assert(post.children@[0].1.has_path(single.skip(1)));
        }
        assert(!single.is_prefix_of(Seq::<char>::empty()));
        assert(false);
    }
}

} // verus!
