//! The mathematical model of a node store: a sequence of node views whose
//! relation lists hold handles into the same sequence.
//!
//! A relation list is a set keyed by node key: membership, insertion and
//! removal all go by the key of the node a handle names, never by the handle
//! itself or by the node's value.

use vstd::prelude::*;
use crate::node::NodeRef;

verus! {

/// What a stored node is worth in specifications.
pub struct NodeView<T> {
    pub key: Seq<char>,
    pub value: T,
    pub parents: Seq<NodeRef>,
    pub children: Seq<NodeRef>,
}

/// The model of a whole store; a handle's index is a position in it.
pub type Graph<T> = Seq<NodeView<T>>;

/// The handle names a node of the graph.
pub open spec fn in_graph<T>(g: Graph<T>, h: NodeRef) -> bool {
    h.index < g.len()
}

/// The key of the node that a handle names.
pub open spec fn key_of<T>(g: Graph<T>, h: NodeRef) -> Seq<char> {
    g[h.index as int].key
}

/// The keys of the nodes that a relation list names, in list order.
pub open spec fn keys_of<T>(g: Graph<T>, rel: Seq<NodeRef>) -> Seq<Seq<char>> {
    Seq::new(rel.len(), |j: int| key_of(g, rel[j]))
}

/// Keyed membership: some entry of the list names a node with key `k`.
pub open spec fn holds_key<T>(g: Graph<T>, rel: Seq<NodeRef>, k: Seq<char>) -> bool {
    keys_of(g, rel).contains(k)
}

/// Keyed insertion: the list is unchanged if it already holds the key of
/// `h`, and gains `h` at its end otherwise.
pub open spec fn insert_keyed<T>(g: Graph<T>, rel: Seq<NodeRef>, h: NodeRef) -> Seq<NodeRef> {
    if holds_key(g, rel, key_of(g, h)) {
        rel
    } else {
        rel.push(h)
    }
}

/// Keyed removal: every entry that names a node with key `k` leaves.
pub open spec fn remove_keyed<T>(g: Graph<T>, rel: Seq<NodeRef>, k: Seq<char>) -> Seq<NodeRef> {
    rel.filter(|h: NodeRef| key_of(g, h) != k)
}

/// Some entry of the list is the handle with index `i`.
pub open spec fn names(rel: Seq<NodeRef>, i: int) -> bool {
    exists|j: int| 0 <= j < rel.len() && (#[trigger] rel[j]).index == i
}

/// A relation list is a keyed set over the graph: every entry names a node
/// of the graph and no two entries name nodes with the same key.
pub open spec fn relation_wf<T>(g: Graph<T>, rel: Seq<NodeRef>) -> bool {
    &&& forall|j: int| 0 <= j < rel.len() ==> in_graph(g, #[trigger] rel[j])
    &&& keys_of(g, rel).no_duplicates()
}

/// Both relation lists of every node are keyed sets over the graph.
pub open spec fn graph_wf<T>(g: Graph<T>) -> bool {
    forall|i: int|
        0 <= i < g.len() ==> relation_wf(g, (#[trigger] g[i]).parents) && relation_wf(
            g,
            g[i].children,
        )
}

/// The node has neither a parent nor a child.
pub open spec fn isolated<T>(g: Graph<T>, h: NodeRef) -> bool {
    g[h.index as int].parents.len() == 0 && g[h.index as int].children.len() == 0
}

/// The view of a node as its constructor leaves it.
pub open spec fn fresh_node<T>(key: Seq<char>, value: T) -> NodeView<T> {
    NodeView { key, value, parents: Seq::empty(), children: Seq::empty() }
}

/// The graph after `child` is recorded under `parent` and `parent` over
/// `child`, each by keyed insertion.
pub open spec fn link<T>(g: Graph<T>, parent: NodeRef, child: NodeRef) -> Graph<T> {
    let p = parent.index as int;
    let c = child.index as int;
    let g1 = g.update(
        p,
        NodeView { children: insert_keyed(g, g[p].children, child), ..g[p] },
    );
    g1.update(c, NodeView { parents: insert_keyed(g, g1[c].parents, parent), ..g1[c] })
}

/// The graph after the node `h` is cut loose: each of its parents loses the
/// key of `h` among its children, each of its children loses that key among
/// its parents, and `h` itself keeps neither parent nor child.
pub open spec fn unlink<T>(g: Graph<T>, h: NodeRef) -> Graph<T> {
    let me = g[h.index as int];
    Seq::new(
        g.len(),
        |i: int|
            if i == h.index {
                NodeView { parents: Seq::empty(), children: Seq::empty(), ..g[i] }
            } else {
                NodeView {
                    children: if names(me.parents, i) {
                        remove_keyed(g, g[i].children, me.key)
                    } else {
                        g[i].children
                    },
                    parents: if names(me.children, i) {
                        remove_keyed(g, g[i].parents, me.key)
                    } else {
                        g[i].parents
                    },
                    ..g[i]
                }
            },
    )
}

/// The graph after the value of `h` is replaced.
pub open spec fn with_value<T>(g: Graph<T>, h: NodeRef, value: T) -> Graph<T> {
    g.update(h.index as int, NodeView { value, ..g[h.index as int] })
}

/// Keys, and with them keyed membership, depend on the keys of the graph only.
pub proof fn lemma_keys_of_same_keys<T>(g: Graph<T>, g2: Graph<T>, rel: Seq<NodeRef>)
    requires
        g2.len() >= g.len(),
        forall|i: int| 0 <= i < g.len() ==> (#[trigger] g2[i]).key == g[i].key,
        forall|j: int| 0 <= j < rel.len() ==> in_graph(g, #[trigger] rel[j]),
    ensures
        keys_of(g2, rel) == keys_of(g, rel),
{
    assert(keys_of(g2, rel) =~= keys_of(g, rel));
}

/// A relation list that is a keyed set over a graph is one over every graph
/// with the same keys at the same places.
pub proof fn lemma_relation_wf_same_keys<T>(g: Graph<T>, g2: Graph<T>, rel: Seq<NodeRef>)
    requires
        g2.len() >= g.len(),
        forall|i: int| 0 <= i < g.len() ==> (#[trigger] g2[i]).key == g[i].key,
        relation_wf(g, rel),
    ensures
        relation_wf(g2, rel),
{
    lemma_keys_of_same_keys(g, g2, rel);
}

/// After a keyed insertion the list holds the keys it held and the key of
/// the inserted node, and no others.
pub proof fn lemma_insert_keyed_holds<T>(g: Graph<T>, rel: Seq<NodeRef>, h: NodeRef, k: Seq<char>)
    ensures
        holds_key(g, insert_keyed(g, rel, h), k) <==> holds_key(g, rel, k) || k == key_of(g, h),
{
    let out = insert_keyed(g, rel, h);
    if !holds_key(g, rel, key_of(g, h)) {
        assert(keys_of(g, out) =~= keys_of(g, rel).push(key_of(g, h)));
        if holds_key(g, out, k) {
            let j = choose|j: int| 0 <= j < out.len() && keys_of(g, out)[j] == k;
            if j < rel.len() {
                assert(keys_of(g, rel)[j] == k);
            }
        }
        if holds_key(g, rel, k) {
            let j = choose|j: int| 0 <= j < rel.len() && keys_of(g, rel)[j] == k;
            assert(keys_of(g, out)[j] == k);
        }
        if k == key_of(g, h) {
            assert(keys_of(g, out)[rel.len() as int] == k);
        }
    }
}

/// Keyed insertion keeps a keyed set a keyed set.
pub proof fn lemma_insert_keyed_wf<T>(g: Graph<T>, rel: Seq<NodeRef>, h: NodeRef)
    requires
        relation_wf(g, rel),
        in_graph(g, h),
    ensures
        relation_wf(g, insert_keyed(g, rel, h)),
        holds_key(g, insert_keyed(g, rel, h), key_of(g, h)),
{
    let out = insert_keyed(g, rel, h);
    if !holds_key(g, rel, key_of(g, h)) {
        assert(keys_of(g, out) =~= keys_of(g, rel).push(key_of(g, h)));
        assert(keys_of(g, out)[rel.len() as int] == key_of(g, h));
        assert forall|i: int, j: int|
            0 <= i < out.len() && 0 <= j < out.len() && i != j implies keys_of(g, out)[i]
            != keys_of(g, out)[j] by {
            if i < rel.len() && j < rel.len() {
                assert(keys_of(g, rel)[i] != keys_of(g, rel)[j]);
            } else if i < rel.len() {
                assert(keys_of(g, rel)[i] != key_of(g, h));
            } else {
                assert(keys_of(g, rel)[j] != key_of(g, h));
            }
        }
    }
}

/// Key identity in relation lists: two nodes with the same key count as one
/// entry, whatever their values. The list that has taken one of them in is
/// unchanged by taking the other in.
pub proof fn lemma_same_key_one_entry<T>(g: Graph<T>, rel: Seq<NodeRef>, a: NodeRef, b: NodeRef)
    requires
        key_of(g, a) == key_of(g, b),
    ensures
        insert_keyed(g, insert_keyed(g, rel, a), b) == insert_keyed(g, rel, a),
        holds_key(g, insert_keyed(g, rel, a), key_of(g, b)),
{
    lemma_insert_keyed_holds(g, rel, a, key_of(g, b));
}

/// Keyed removal from the empty list leaves the empty list.
pub proof fn lemma_remove_keyed_empty<T>(g: Graph<T>, k: Seq<char>)
    ensures
        remove_keyed(g, Seq::<NodeRef>::empty(), k) == Seq::<NodeRef>::empty(),
{
    reveal(Seq::filter);
}

/// Keyed removal, one entry at a time from the end of the list.
pub proof fn lemma_remove_keyed_last<T>(g: Graph<T>, rel: Seq<NodeRef>, k: Seq<char>)
    requires
        rel.len() > 0,
    ensures
        remove_keyed(g, rel, k) == if key_of(g, rel.last()) == k {
            remove_keyed(g, rel.drop_last(), k)
        } else {
            remove_keyed(g, rel.drop_last(), k).push(rel.last())
        },
{
    reveal(Seq::filter);
}

/// Keyed removal depends on the keys of the graph only.
pub proof fn lemma_remove_keyed_same_keys<T>(
    g: Graph<T>,
    g2: Graph<T>,
    rel: Seq<NodeRef>,
    k: Seq<char>,
)
    requires
        g2.len() >= g.len(),
        forall|i: int| 0 <= i < g.len() ==> (#[trigger] g2[i]).key == g[i].key,
        forall|j: int| 0 <= j < rel.len() ==> in_graph(g, #[trigger] rel[j]),
    ensures
        remove_keyed(g2, rel, k) == remove_keyed(g, rel, k),
    decreases rel.len(),
{
    if rel.len() == 0 {
        lemma_remove_keyed_empty(g, k);
        lemma_remove_keyed_empty(g2, k);
        assert(rel =~= Seq::<NodeRef>::empty());
    } else {
        lemma_remove_keyed_last(g, rel, k);
        lemma_remove_keyed_last(g2, rel, k);
        assert(in_graph(g, rel[rel.len() - 1]));
        lemma_remove_keyed_same_keys(g, g2, rel.drop_last(), k);
    }
}

/// What keyed removal leaves is what the list held under another key, and
/// a keyed set stays a keyed set.
pub proof fn lemma_remove_keyed_wf<T>(g: Graph<T>, rel: Seq<NodeRef>, k: Seq<char>)
    requires
        relation_wf(g, rel),
    ensures
        relation_wf(g, remove_keyed(g, rel, k)),
        forall|x: Seq<char>|
            holds_key(g, remove_keyed(g, rel, k), x) <==> x != k && holds_key(g, rel, x),
    decreases rel.len(),
{
    let out = remove_keyed(g, rel, k);
    if rel.len() == 0 {
        lemma_remove_keyed_empty(g, k);
        assert(rel =~= Seq::<NodeRef>::empty());
    } else {
        let front = rel.drop_last();
        let last = rel.last();
        let rest = remove_keyed(g, front, k);
        lemma_remove_keyed_last(g, rel, k);
        assert forall|i: int, j: int|
            0 <= i < front.len() && 0 <= j < front.len() && i != j implies keys_of(g, front)[i]
            != keys_of(g, front)[j] by {
            assert(keys_of(g, rel)[i] != keys_of(g, rel)[j]);
        }
        lemma_remove_keyed_wf(g, front, k);
        assert forall|x: Seq<char>| holds_key(g, rel, x) <==> holds_key(g, front, x) || x
            == key_of(g, last) by {
            if holds_key(g, rel, x) {
                let j = choose|j: int| 0 <= j < rel.len() && keys_of(g, rel)[j] == x;
                if j < front.len() {
                    assert(keys_of(g, front)[j] == x);
                }
            }
            if holds_key(g, front, x) {
                let j = choose|j: int| 0 <= j < front.len() && keys_of(g, front)[j] == x;
                assert(keys_of(g, rel)[j] == x);
            }
            if x == key_of(g, last) {
                assert(keys_of(g, rel)[rel.len() - 1] == x);
            }
        }
        if key_of(g, last) != k {
            assert(out == rest.push(last));
            assert(keys_of(g, out) =~= keys_of(g, rest).push(key_of(g, last)));
            assert(!holds_key(g, front, key_of(g, last))) by {
                if holds_key(g, front, key_of(g, last)) {
                    let j = choose|j: int|
                        0 <= j < front.len() && keys_of(g, front)[j] == key_of(g, last);
                    assert(keys_of(g, rel)[j] == keys_of(g, rel)[rel.len() - 1]);
                }
            }
            assert(!holds_key(g, rest, key_of(g, last)));
            assert forall|i: int, j: int|
                0 <= i < out.len() && 0 <= j < out.len() && i != j implies keys_of(g, out)[i]
                != keys_of(g, out)[j] by {
                if i < rest.len() && j < rest.len() {
                    assert(keys_of(g, rest)[i] != keys_of(g, rest)[j]);
                } else if i < rest.len() {
                    assert(keys_of(g, rest)[i] != key_of(g, last));
                } else {
                    assert(keys_of(g, rest)[j] != key_of(g, last));
                }
            }
            assert forall|x: Seq<char>| holds_key(g, out, x) <==> holds_key(g, rest, x) || x
                == key_of(g, last) by {
                if holds_key(g, out, x) {
                    let j = choose|j: int| 0 <= j < out.len() && keys_of(g, out)[j] == x;
                    if j < rest.len() {
                        assert(keys_of(g, rest)[j] == x);
                    }
                }
                if holds_key(g, rest, x) {
                    let j = choose|j: int| 0 <= j < rest.len() && keys_of(g, rest)[j] == x;
                    assert(keys_of(g, out)[j] == x);
                }
                if x == key_of(g, last) {
                    assert(keys_of(g, out)[out.len() - 1] == x);
                }
            }
        }
    }
}

/// Adding an isolated node keeps a graph well formed.
pub proof fn lemma_push_fresh_wf<T>(g: Graph<T>, n: NodeView<T>)
    requires
        graph_wf(g),
        n.parents.len() == 0,
        n.children.len() == 0,
    ensures
        graph_wf(g.push(n)),
{
    let g2 = g.push(n);
    assert forall|i: int| 0 <= i < g2.len() implies relation_wf(g2, (#[trigger] g2[i]).parents)
        && relation_wf(g2, g2[i].children) by {
        if i < g.len() {
            assert(g2[i] == g[i]);
            lemma_relation_wf_same_keys(g, g2, g[i].parents);
            lemma_relation_wf_same_keys(g, g2, g[i].children);
        }
    }
}

/// Replacing a value keeps a graph well formed.
pub proof fn lemma_with_value_wf<T>(g: Graph<T>, h: NodeRef, value: T)
    requires
        graph_wf(g),
        in_graph(g, h),
    ensures
        graph_wf(with_value(g, h, value)),
{
    let g2 = with_value(g, h, value);
    assert forall|i: int| 0 <= i < g2.len() implies relation_wf(g2, (#[trigger] g2[i]).parents)
        && relation_wf(g2, g2[i].children) by {
        assert(g2[i].parents == g[i].parents);
        assert(g2[i].children == g[i].children);
        lemma_relation_wf_same_keys(g, g2, g[i].parents);
        lemma_relation_wf_same_keys(g, g2, g[i].children);
    }
}

/// Linking keeps a graph well formed.
pub proof fn lemma_link_wf<T>(g: Graph<T>, parent: NodeRef, child: NodeRef)
    requires
        graph_wf(g),
        in_graph(g, parent),
        in_graph(g, child),
    ensures
        graph_wf(link(g, parent, child)),
        link(g, parent, child).len() == g.len(),
        forall|i: int| 0 <= i < g.len() ==> (#[trigger] link(g, parent, child)[i]).key == g[i].key,
{
    let g2 = link(g, parent, child);
    let p = parent.index as int;
    let c = child.index as int;
    lemma_insert_keyed_wf(g, g[p].children, child);
    lemma_insert_keyed_wf(g, g[c].parents, parent);
    assert forall|i: int| 0 <= i < g2.len() implies relation_wf(g2, (#[trigger] g2[i]).parents)
        && relation_wf(g2, g2[i].children) by {
        let ps = if i == c {
            insert_keyed(g, g[c].parents, parent)
        } else {
            g[i].parents
        };
        let cs = if i == p {
            insert_keyed(g, g[p].children, child)
        } else {
            g[i].children
        };
        assert(g2[i].parents == ps);
        assert(g2[i].children == cs);
        lemma_relation_wf_same_keys(g, g2, ps);
        lemma_relation_wf_same_keys(g, g2, cs);
    }
}

/// Cutting a node loose keeps a graph well formed and leaves the node
/// isolated.
pub proof fn lemma_unlink_wf<T>(g: Graph<T>, h: NodeRef)
    requires
        graph_wf(g),
        in_graph(g, h),
    ensures
        graph_wf(unlink(g, h)),
        isolated(unlink(g, h), h),
        unlink(g, h).len() == g.len(),
        forall|i: int| 0 <= i < g.len() ==> (#[trigger] unlink(g, h)[i]).key == g[i].key,
        forall|i: int| 0 <= i < g.len() ==> (#[trigger] unlink(g, h)[i]).value == g[i].value,
{
    let g2 = unlink(g, h);
    let k = g[h.index as int].key;
    assert forall|i: int| 0 <= i < g2.len() implies relation_wf(g2, (#[trigger] g2[i]).parents)
        && relation_wf(g2, g2[i].children) by {
        assert(relation_wf(g, g[i].parents));
        assert(relation_wf(g, g[i].children));
        lemma_remove_keyed_wf(g, g[i].parents, k);
        lemma_remove_keyed_wf(g, g[i].children, k);
        assert(relation_wf(g, Seq::<NodeRef>::empty()));
        lemma_relation_wf_same_keys(g, g2, g2[i].parents);
        lemma_relation_wf_same_keys(g, g2, g2[i].children);
    }
}

} // verus!
