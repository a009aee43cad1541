//! Rendering the tree as a graph-description file: one node statement per
//! tree node and one edge statement per parent-child edge, each node under
//! a dump-local identifier assigned in traversal order.

use vstd::prelude::*;
use crate::trie::TrieNode;
use crate::trie::lemma_prefix_of_trans;
use crate::trie::push_char;

verus! {

/// One statement of the graph dump: a node declaration (terminal nodes are
/// marked), or an edge labelled with its transition character.
#[derive(Debug, PartialEq, Eq, Structural)]
pub enum GraphStmt {
    Node { id: usize, terminal: bool },
    Edge { from: usize, to: usize, label: char },
}

pub open spec fn is_node_stmt(g: GraphStmt) -> bool {
    match g {
        GraphStmt::Node { .. } => true,
        GraphStmt::Edge { .. } => false,
    }
}

impl TrieNode {
    /// Number of nodes in the subtree: this node and all below it.
    pub open spec fn node_count(self) -> nat
        decreases self, 0int,
    {
        1 + node_count_from(self.children@, 0)
    }

    /// The statements of the dump of this subtree, in traversal order.
    pub open spec fn spec_dump(self, index: int, counter: int) -> Seq<GraphStmt> {
        spec_dump_node(self, index, counter)
    }

    /// Emit the dump of this subtree onto `sink`: `index` is this node's
    /// identifier, `counter` the first identifier not yet assigned, and the
    /// identifier after the whole subtree is returned. Dump completeness:
    /// what was on the sink stays, the subtree's own node statement comes
    /// first, and the dump adds exactly one node statement per tree node of
    /// the subtree and one edge statement per parent-child edge — one
    /// fewer, the subtree's root having no incoming edge.
    pub fn dump_dot(&self, sink: &mut Vec<GraphStmt>, index: usize, counter: usize) -> (next:
        usize)
        requires
            counter as int + self.node_count() - 1 <= usize::MAX as int,
        ensures
            next as int == counter as int + self.node_count() - 1,
            old(sink)@.is_prefix_of(final(sink)@),
            final(sink)@.len() == old(sink)@.len() + 2 * self.node_count() - 1,
            final(sink)@[old(sink)@.len() as int] == (GraphStmt::Node {
                id: index,
                terminal: self.end,
            }),
            final(sink)@ == old(sink)@ + self.spec_dump(index as int, counter as int),
            count_nodes(final(sink)@) == count_nodes(old(sink)@) + self.node_count(),
            count_edges(final(sink)@) == count_edges(old(sink)@) + self.node_count() - 1,
        decreases *self, 0int,
    {
        let ghost pre = sink@;
        let stmt = GraphStmt::Node { id: index, terminal: self.end };
        let ghost gstmt = stmt;
        proof {
            lemma_counts_push(pre, gstmt);
            lemma_prefix_of_push(pre, gstmt);
        }
        sink.push(stmt);
        let ghost pre1 = sink@;
        let next = dump_children(&self.children, 0, sink, index, counter);
        proof {
            assert(pre1 == pre.push(gstmt));
            lemma_prefix_of_trans(pre, pre1, sink@);
            lemma_index_of_prefix(pre1, sink@, pre.len() as int);
            lemma_dump_node_parts(*self, index as int, counter as int);
            assert(sink@ =~= pre + self.spec_dump(index as int, counter as int));
        }
        next
    }
}

/// A node statement, its identifier clipped to the machine word.
pub open spec fn mk_node(id: int, terminal: bool) -> GraphStmt {
    GraphStmt::Node { id: id as usize, terminal }
}

/// An edge statement, its endpoints clipped to the machine word.
pub open spec fn mk_edge(from: int, to: int, label: char) -> GraphStmt {
    GraphStmt::Edge { from: from as usize, to: to as usize, label }
}

/// The dump of the subtree at `t`, in traversal order: its node statement
/// under the identifier `index`, then each child's edge and subtree, with
/// fresh identifiers assigned from `counter` on.
pub open spec fn spec_dump_node(t: TrieNode, index: int, counter: int) -> Seq<GraphStmt>
    decreases t, 0int,
{
    Seq::<GraphStmt>::empty().push(mk_node(index, t.end)) + spec_dump_from(
        t.children@,
        0,
        index,
        counter,
    )
}

/// The dump statements contributed by the edges `s[j..]` of the node with
/// identifier `parent`: for each edge, the edge statement and then the
/// child's whole subtree, with identifiers assigned from `counter` on.
pub open spec fn spec_dump_from(s: Seq<(char, TrieNode)>, j: int, parent: int, counter: int) -> Seq<
    GraphStmt,
>
    decreases s, s.len() - j,
{
    if j < 0 || j >= s.len() {
        Seq::empty()
    } else {
        Seq::<GraphStmt>::empty().push(mk_edge(parent, counter, s[j].0)) + spec_dump_node(
            s[j].1,
            counter,
            counter + 1,
        ) + spec_dump_from(s, j + 1, parent, counter + s[j].1.node_count())
    }
}

/// One step of the dump, written out: the edge statement, the child's
/// subtree, then the remaining edges.
proof fn lemma_dump_from_parts(s: Seq<(char, TrieNode)>, j: int, parent: int, counter: int)
    requires
        0 <= j < s.len(),
    ensures
        spec_dump_from(s, j, parent, counter) == Seq::<GraphStmt>::empty().push(
            mk_edge(parent, counter, s[j].0),
        ) + spec_dump_node(s[j].1, counter, counter + 1) + spec_dump_from(
            s,
            j + 1,
            parent,
            counter + s[j].1.node_count(),
        ),
{
}

/// The dump of a subtree, written out: the root's node statement, then the
/// children's contributions.
proof fn lemma_dump_node_parts(t: TrieNode, index: int, counter: int)
    ensures
        spec_dump_node(t, index, counter) == Seq::<GraphStmt>::empty().push(
            mk_node(index, t.end),
        ) + spec_dump_from(t.children@, 0, index, counter),
{
}

/// Total node count of the subtrees hanging off the edges `s[j..]`.
pub open spec fn node_count_from(s: Seq<(char, TrieNode)>, j: int) -> nat
    decreases s, s.len() - j,
{
    if j < 0 || j >= s.len() {
        0
    } else {
        s[j].1.node_count() + node_count_from(s, j + 1)
    }
}

/// One step of the tally: the nodes hanging off the edges from `j` on are
/// those below edge `j` plus those hanging off the later edges.
proof fn lemma_node_count_from_unfold(s: Seq<(char, TrieNode)>, j: int)
    requires
        0 <= j < s.len(),
    ensures
        node_count_from(s, j) == s[j].1.node_count() + node_count_from(s, j + 1),
{
    reveal_with_fuel(node_count_from, 1);
}

/// A subtree holds at least its own root.
proof fn lemma_node_count_at_least_one(t: TrieNode)
    ensures
        t.node_count() >= 1,
{
}

/// Emit the edges `children[j..]` of the node `parent`, each followed by
/// the dump of its subtree.
fn dump_children(
    children: &Vec<(char, TrieNode)>,
    j: usize,
    sink: &mut Vec<GraphStmt>,
    parent: usize,
    counter: usize,
) -> (next: usize)
    requires
        j <= children@.len(),
        counter as int + node_count_from(children@, j as int) <= usize::MAX as int,
    ensures
        next as int == counter as int + node_count_from(children@, j as int),
        old(sink)@.is_prefix_of(final(sink)@),
        final(sink)@.len() == old(sink)@.len() + 2 * node_count_from(children@, j as int),
        final(sink)@ == old(sink)@ + spec_dump_from(
            children@,
            j as int,
            parent as int,
            counter as int,
        ),
        count_nodes(final(sink)@) == count_nodes(old(sink)@) + node_count_from(
            children@,
            j as int,
        ),
        count_edges(final(sink)@) == count_edges(old(sink)@) + node_count_from(
            children@,
            j as int,
        ),
    decreases children, children@.len() - j,
{
    if j < children.len() {
        let ghost pre = sink@;
        proof {
            lemma_node_count_at_least_one(children@[j as int].1);
            lemma_node_count_from_unfold(children@, j as int);
        }
        let stmt = GraphStmt::Edge { from: parent, to: counter, label: children[j].0 };
        let ghost gstmt = stmt;
        proof {
            lemma_counts_push(pre, gstmt);
            lemma_prefix_of_push(pre, gstmt);
        }
        sink.push(stmt);
        let ghost pre1 = sink@;
        let after = children[j].1.dump_dot(sink, counter, counter + 1);
        let ghost pre2 = sink@;
        let next = dump_children(children, j + 1, sink, parent, after);
        proof {
            lemma_node_count_from_unfold(children@, j as int);
            assert(pre1 == pre.push(gstmt));
            lemma_prefix_of_trans(pre, pre1, pre2);
            lemma_prefix_of_trans(pre, pre2, sink@);
            lemma_dump_from_parts(children@, j as int, parent as int, counter as int);
            assert(after as int == counter as int + children@[j as int].1.node_count());
            assert(sink@ =~= pre + spec_dump_from(
                children@,
                j as int,
                parent as int,
                counter as int,
            ));
        }
        next
    } else {
        proof {
            lemma_prefix_of_self(sink@);
            assert(sink@ =~= sink@ + spec_dump_from(
                children@,
                j as int,
                parent as int,
                counter as int,
            ));
        }
        counter
    }
}

/// The identifiers carried by the node statements of `s`.
pub open spec fn node_ids(s: Seq<GraphStmt>) -> Set<int>
    decreases s.len(),
{
    if s.len() == 0 {
        Set::empty()
    } else {
        match s.last() {
            GraphStmt::Node { id, .. } => node_ids(s.drop_last()).insert(id as int),
            GraphStmt::Edge { .. } => node_ids(s.drop_last()),
        }
    }
}

/// Appending a statement adds its identifier, if it declares a node.
proof fn lemma_node_ids_push(s: Seq<GraphStmt>, g: GraphStmt)
    ensures
        node_ids(s.push(g)) == (match g {
            GraphStmt::Node { id, .. } => node_ids(s).insert(id as int),
            GraphStmt::Edge { .. } => node_ids(s),
        }),
{
    assert(s.push(g).drop_last() =~= s);
    assert(s.push(g).last() == g);
}

/// Identifier sets distribute over concatenation.
proof fn lemma_node_ids_add(a: Seq<GraphStmt>, b: Seq<GraphStmt>)
    ensures
        node_ids(a + b) == node_ids(a).union(node_ids(b)),
    decreases b.len(),
{
    if b.len() == 0 {
        assert(a + b =~= a);
        assert(node_ids(a).union(node_ids(b)) =~= node_ids(a));
    } else {
        lemma_node_ids_add(a, b.drop_last());
        assert((a + b).drop_last() =~= a + b.drop_last());
        assert((a + b).last() == b.last());
        match b.last() {
            GraphStmt::Node { id, .. } => {
                assert(node_ids(a).union(node_ids(b.drop_last())).insert(id as int)
                    =~= node_ids(a).union(node_ids(b.drop_last()).insert(id as int)));
            },
            GraphStmt::Edge { .. } => {},
        }
    }
}

/// Dump identifiers are dump-local and unique: the dump of a subtree
/// carries exactly the identifiers `index` and `counter` up to (but not
/// including) the returned next counter — as many distinct identifiers as
/// the subtree has nodes, so no two node statements share one.
pub proof fn lemma_dump_ids(t: TrieNode, index: int, counter: int)
    requires
        0 <= index < counter,
        counter + t.node_count() - 1 <= usize::MAX as int,
    ensures
        node_ids(spec_dump_node(t, index, counter)) == vstd::set_lib::set_int_range(
            counter,
            counter + t.node_count() - 1,
        ).insert(index),
        node_ids(spec_dump_node(t, index, counter)).finite(),
        node_ids(spec_dump_node(t, index, counter)).len() == t.node_count(),
    decreases t, 0int,
{
    lemma_dump_node_parts(t, index, counter);
    lemma_dump_ids_from(t.children@, 0, index, counter);
    let head = Seq::<GraphStmt>::empty().push(mk_node(index, t.end));
    let rest = spec_dump_from(t.children@, 0, index, counter);
    lemma_node_ids_add(head, rest);
    lemma_node_ids_push(Seq::<GraphStmt>::empty(), mk_node(index, t.end));
    let range = vstd::set_lib::set_int_range(counter, counter + t.node_count() - 1);
    assert(node_ids(head) =~= Set::<int>::empty().insert(index));
    assert(node_ids(head).union(node_ids(rest)) =~= range.insert(index));
    vstd::set_lib::lemma_int_range(counter, counter + t.node_count() - 1);
    assert(!range.contains(index));
}

/// The identifiers of the dump of the edges `s[j..]` are exactly the fresh
/// ones handed out: `counter` up to `counter + node_count_from(s, j)`.
proof fn lemma_dump_ids_from(s: Seq<(char, TrieNode)>, j: int, parent: int, counter: int)
    requires
        0 <= j,
        0 <= counter,
        counter + node_count_from(s, j) <= usize::MAX as int,
    ensures
        node_ids(spec_dump_from(s, j, parent, counter)) == vstd::set_lib::set_int_range(
            counter,
            counter + node_count_from(s, j),
        ),
    decreases s, s.len() - j,
{
    if j >= s.len() {
        assert(node_ids(spec_dump_from(s, j, parent, counter)) =~= vstd::set_lib::set_int_range(
            counter,
            counter,
        ));
    } else {
        lemma_dump_from_parts(s, j, parent, counter);
        lemma_node_count_from_unfold(s, j);
        lemma_node_count_at_least_one(s[j].1);
        let nc = s[j].1.node_count();
        let edge = Seq::<GraphStmt>::empty().push(mk_edge(parent, counter, s[j].0));
        let sub = spec_dump_node(s[j].1, counter, counter + 1);
        let rest = spec_dump_from(s, j + 1, parent, counter + nc);
        lemma_dump_ids(s[j].1, counter, counter + 1);
        lemma_dump_ids_from(s, j + 1, parent, counter + nc);
        lemma_node_ids_add(edge, sub);
        lemma_node_ids_add(edge + sub, rest);
        lemma_node_ids_push(Seq::<GraphStmt>::empty(), mk_edge(parent, counter, s[j].0));
        assert(node_ids(edge) =~= Set::<int>::empty());
        assert(node_ids(edge).union(node_ids(sub)).union(node_ids(rest))
            =~= vstd::set_lib::set_int_range(counter, counter + node_count_from(s, j)));
    }
}

/// The nonempty node paths that enter through the edges `s[j..]`.
spec fn paths_from(s: Seq<(char, TrieNode)>, j: int) -> Set<Seq<char>> {
    Set::new(
        |p: Seq<char>|
            p.len() > 0 && exists|i: int|
                j <= i < s.len() && (#[trigger] s[i]).0 == p[0] && s[i].1.has_path(p.skip(1)),
    )
}

/// A finite set and a finite set apart from it together count both.
proof fn lemma_len_disjoint_union<A>(s1: Set<A>, s2: Set<A>)
    requires
        s1.finite(),
        s2.finite(),
        s1.disjoint(s2),
    ensures
        s1.union(s2).finite(),
        s1.union(s2).len() == s1.len() + s2.len(),
    decreases s1.len(),
{
    if s1.is_empty() {
        assert(s1.union(s2) =~= s2);
    } else {
        let a = s1.choose();
        assert(s1.remove(a).union(s2) =~= s1.union(s2).remove(a));
        lemma_len_disjoint_union(s1.remove(a), s2);
        assert(s1.union(s2) =~= s1.remove(a).union(s2).insert(a));
    }
}

/// A node per path: a well-formed subtree has exactly as many nodes as it
/// has distinct paths, the root's empty path included. Together with
/// `insert`'s contract this ties the dump's node-statement count to the
/// insertions: one statement per distinct leading substring created, plus
/// the root.
pub proof fn lemma_node_count_is_path_count(t: TrieNode)
    requires
        t.wf(),
    ensures
        t.paths().finite(),
        t.paths().len() == t.node_count(),
    decreases t, 0int,
{
    lemma_paths_from_count(t.children@, 0);
    let root = Set::<Seq<char>>::empty().insert(Seq::<char>::empty());
    assert forall|p: Seq<char>|
        t.paths().contains(p) <==> root.union(paths_from(t.children@, 0)).contains(p) by {
        if p.len() == 0 {
            assert(p =~= Seq::<char>::empty());
        }
    }
    assert(t.paths() =~= root.union(paths_from(t.children@, 0)));
    assert(root.disjoint(paths_from(t.children@, 0)));
    lemma_len_disjoint_union(root, paths_from(t.children@, 0));
}

/// The paths through the edges `s[j..]` number exactly the nodes hanging
/// off them.
proof fn lemma_paths_from_count(s: Seq<(char, TrieNode)>, j: int)
    requires
        0 <= j,
        forall|a: int, b: int| 0 <= a < b < s.len() ==> (#[trigger] s[a]).0 != (#[trigger] s[b]).0,
        forall|a: int| 0 <= a < s.len() ==> (#[trigger] s[a]).1.wf(),
    ensures
        paths_from(s, j).finite(),
        paths_from(s, j).len() == node_count_from(s, j),
    decreases s, s.len() - j,
{
    if j >= s.len() {
        assert forall|p: Seq<char>| !(#[trigger] paths_from(s, j).contains(p)) by {
            if paths_from(s, j).contains(p) {
                let i = choose|i: int|
                    j <= i < s.len() && (#[trigger] s[i]).0 == p[0] && s[i].1.has_path(p.skip(1));
                assert(false);
            }
        }
        assert(paths_from(s, j) =~= Set::<Seq<char>>::empty());
    } else {
        let c = s[j].0;
        let cp = s[j].1.paths();
        let prepend = |p: Seq<char>| Seq::<char>::empty().push(c) + p;
        let head = cp.map(prepend);
        lemma_node_count_is_path_count(s[j].1);
        lemma_paths_from_count(s, j + 1);
        lemma_node_count_from_unfold(s, j);
        assert(vstd::relations::injective_on(prepend, cp)) by {
            assert forall|p1: Seq<char>, p2: Seq<char>|
                #[trigger] prepend(p1) == #[trigger] prepend(p2) implies p1 == p2 by {
                assert(prepend(p1) == Seq::<char>::empty().push(c) + p1);
                assert(prepend(p2) == Seq::<char>::empty().push(c) + p2);
                assert(Seq::<char>::empty().push(c).len() == 1);
                assert(p1.len() == p2.len());
                assert forall|k: int| 0 <= k < p1.len() implies p1[k] == p2[k] by {
                    assert((Seq::<char>::empty().push(c) + p1)[k + 1] == p1[k]);
                    assert((Seq::<char>::empty().push(c) + p2)[k + 1] == p2[k]);
                }
                assert(p1 =~= p2);
            }
        }
        vstd::set_lib::lemma_map_size(cp, head, prepend);
        assert forall|p: Seq<char>|
            head.contains(p) <==> (p.len() > 0 && p[0] == c && s[j].1.has_path(p.skip(1))) by {
            if head.contains(p) {
                let q = choose|q: Seq<char>| cp.contains(q) && p == prepend(q);
                assert(prepend(q) == Seq::<char>::empty().push(c) + q);
                assert(Seq::<char>::empty().push(c).len() == 1);
                assert(p[0] == c);
                assert(p.skip(1) =~= q);
            }
            if p.len() > 0 && p[0] == c && s[j].1.has_path(p.skip(1)) {
                assert(prepend(p.skip(1)) == Seq::<char>::empty().push(c) + p.skip(1));
                assert(Seq::<char>::empty().push(c).len() == 1);
                assert(p =~= prepend(p.skip(1)));
                assert(cp.contains(p.skip(1)) && p == prepend(p.skip(1)));
            }
        }
        assert forall|p: Seq<char>|
            paths_from(s, j).contains(p) <==> head.union(paths_from(s, j + 1)).contains(p) by {
            if paths_from(s, j).contains(p) {
                let i = choose|i: int|
                    j <= i < s.len() && (#[trigger] s[i]).0 == p[0] && s[i].1.has_path(p.skip(1));
                if i == j {
                    assert(head.contains(p));
                } else {
                    assert(paths_from(s, j + 1).contains(p));
                }
            }
        }
        assert(paths_from(s, j) =~= head.union(paths_from(s, j + 1)));
        assert(head.disjoint(paths_from(s, j + 1))) by {
            assert forall|p: Seq<char>|
                head.contains(p) implies !paths_from(s, j + 1).contains(p) by {
                if paths_from(s, j + 1).contains(p) {
                    let i = choose|i: int|
                        j + 1 <= i < s.len() && (#[trigger] s[i]).0 == p[0] && s[i].1.has_path(
                            p.skip(1),
                        );
                    assert(s[i].0 != c);
                }
            }
        }
        lemma_len_disjoint_union(head, paths_from(s, j + 1));
    }
}

/// How many statements of `s` declare a node.
pub open spec fn count_nodes(s: Seq<GraphStmt>) -> nat
    decreases s.len(),
{
    if s.len() == 0 {
        0
    } else {
        count_nodes(s.drop_last()) + (if is_node_stmt(s.last()) {
            1nat
        } else {
            0nat
        })
    }
}

/// How many statements of `s` declare an edge.
pub open spec fn count_edges(s: Seq<GraphStmt>) -> nat
    decreases s.len(),
{
    if s.len() == 0 {
        0
    } else {
        count_edges(s.drop_last()) + (if is_node_stmt(s.last()) {
            0nat
        } else {
            1nat
        })
    }
}

/// Appending one statement lengthens the dump by one and raises exactly
/// one of the two counts by one.
proof fn lemma_counts_push(s: Seq<GraphStmt>, g: GraphStmt)
    ensures
        s.push(g).len() == s.len() + 1,
        count_nodes(s.push(g)) == count_nodes(s) + (if is_node_stmt(g) {
            1nat
        } else {
            0nat
        }),
        count_edges(s.push(g)) == count_edges(s) + (if is_node_stmt(g) {
            0nat
        } else {
            1nat
        }),
{
    assert(s.push(g).drop_last() =~= s);
    assert(s.push(g).last() == g);
}

/// A sequence is a leading part of itself with anything appended.
proof fn lemma_prefix_of_push<A>(s: Seq<A>, x: A)
    ensures
        s.is_prefix_of(s.push(x)),
{
    assert(s =~= s.push(x).subrange(0, s.len() as int));
}

/// A sequence is a leading part of itself.
proof fn lemma_prefix_of_self<A>(s: Seq<A>)
    ensures
        s.is_prefix_of(s),
{
    assert(s =~= s.subrange(0, s.len() as int));
}

/// An entry of a leading part is the entry of the whole.
proof fn lemma_index_of_prefix<A>(a: Seq<A>, b: Seq<A>, k: int)
    requires
        a.is_prefix_of(b),
        0 <= k < a.len(),
    ensures
        b[k] == a[k],
{
    assert(a[k] == b.subrange(0, a.len() as int)[k]);
}

/// The character for one decimal digit.
pub open spec fn digit_char(d: nat) -> char {
    if d == 0 {
        '0'
    } else if d == 1 {
        '1'
    } else if d == 2 {
        '2'
    } else if d == 3 {
        '3'
    } else if d == 4 {
        '4'
    } else if d == 5 {
        '5'
    } else if d == 6 {
        '6'
    } else if d == 7 {
        '7'
    } else if d == 8 {
        '8'
    } else {
        '9'
    }
}

/// The decimal notation of `n`, most significant digit first, no leading
/// zeroes (except for zero itself).
pub open spec fn dec_digits(n: nat) -> Seq<char>
    decreases n,
{
    if n < 10 {
        Seq::<char>::empty().push(digit_char(n))
    } else {
        dec_digits(n / 10).push(digit_char(n % 10))
    }
}

/// The text of one dump statement, as it stands in the emitted file.
pub open spec fn spec_render(g: GraphStmt) -> Seq<char> {
    match g {
        GraphStmt::Node { id, terminal } => ("    Node_"@ + dec_digits(id as nat)
            + " [label=\""@).push(
            if terminal {
                '*'
            } else {
                ' '
            },
        ) + "\"]"@,
        GraphStmt::Edge { from, to, label } => ("    Node_"@ + dec_digits(from as nat)
            + " -> Node_"@ + dec_digits(to as nat) + " [label=\""@).push(label) + "\"]"@,
    }
}

/// One decimal digit as a character.
fn digit(d: usize) -> (c: char)
    requires
        d < 10,
    ensures
        c == digit_char(d as nat),
{
    if d == 0 {
        '0'
    } else if d == 1 {
        '1'
    } else if d == 2 {
        '2'
    } else if d == 3 {
        '3'
    } else if d == 4 {
        '4'
    } else if d == 5 {
        '5'
    } else if d == 6 {
        '6'
    } else if d == 7 {
        '7'
    } else if d == 8 {
        '8'
    } else {
        '9'
    }
}

/// `n` written in decimal.
pub fn dec_string(n: usize) -> (s: String)
    ensures
        s@ == dec_digits(n as nat),
    decreases n,
{
    if n < 10 {
        let mut s = String::new();
        push_char(&mut s, digit(n));
        s
    } else {
        let mut s = dec_string(n / 10);
        push_char(&mut s, digit(n % 10));
        s
    }
}

/// One dump statement written out as a line of the graph-description file.
pub fn render_stmt(g: &GraphStmt) -> (s: String)
    ensures
        s@ == spec_render(*g),
{
    match g {
        GraphStmt::Node { id, terminal } => {
            let mut s = "    Node_".to_owned();
            let d = dec_string(*id);
            s.append(d.as_str());
            s.append(" [label=\"");
            push_char(
                &mut s,
                if *terminal {
                    '*'
                } else {
                    ' '
                },
            );
            s.append("\"]");
            s
        }
        GraphStmt::Edge { from, to, label } => {
            let mut s = "    Node_".to_owned();
            let d = dec_string(*from);
            s.append(d.as_str());
            s.append(" -> Node_");
            let d2 = dec_string(*to);
            s.append(d2.as_str());
            s.append(" [label=\"");
            push_char(&mut s, *label);
            s.append("\"]");
            s
        }
    }
}

} // verus!
