//! Mutual relations: when the child lists and the parent lists of a graph
//! tell the same story, and which operations keep it so.
//!
//! Keyed sets take nodes with one key for one node, so a graph in which two
//! nodes share a key can hold a relation on one side only. The laws here are
//! stated for graphs whose keys are distinct.

use vstd::prelude::*;
use crate::graph::{
    graph_wf, holds_key, in_graph, insert_keyed, keys_of, lemma_insert_keyed_holds,
    lemma_insert_keyed_wf, lemma_keys_of_same_keys, lemma_link_wf, lemma_remove_keyed_wf,
    lemma_unlink_wf, link, names, relation_wf, unlink, Graph, NodeView,
};
use crate::node::NodeRef;

verus! {

/// No two nodes of the graph have the same key.
pub open spec fn distinct_keys<T>(g: Graph<T>) -> bool {
    forall|i: int, j: int|
        0 <= i < g.len() && 0 <= j < g.len() && i != j ==> (#[trigger] g[i]).key != (
        #[trigger] g[j]).key
}

/// No node of the graph has the key.
pub open spec fn key_is_new<T>(g: Graph<T>, k: Seq<char>) -> bool {
    forall|i: int| 0 <= i < g.len() ==> (#[trigger] g[i]).key != k
}

/// Relations are mutual: a node holds the key of another among its children
/// exactly when the other holds the key of the first among its parents.
pub open spec fn symmetric<T>(g: Graph<T>) -> bool {
    forall|a: int, b: int|
        0 <= a < g.len() && 0 <= b < g.len() ==> (holds_key(
            g,
            (#[trigger] g[a]).children,
            (#[trigger] g[b]).key,
        ) <==> holds_key(g, g[b].parents, g[a].key))
}

/// One call of a linking method, by the handle it is made on and the handle
/// it is given.
pub enum LinkCall {
    AddParent { node: NodeRef, parent: NodeRef },
    AddChild { node: NodeRef, child: NodeRef },
}

/// Both handles of the call name nodes of the graph.
pub open spec fn call_in_graph<T>(g: Graph<T>, call: LinkCall) -> bool {
    match call {
        LinkCall::AddParent { node, parent } => in_graph(g, node) && in_graph(g, parent),
        LinkCall::AddChild { node, child } => in_graph(g, node) && in_graph(g, child),
    }
}

/// The graph after one linking call.
pub open spec fn after_call<T>(g: Graph<T>, call: LinkCall) -> Graph<T> {
    match call {
        LinkCall::AddParent { node, parent } => link(g, parent, node),
        LinkCall::AddChild { node, child } => link(g, node, child),
    }
}

/// The graph after a sequence of linking calls, made in order.
pub open spec fn after_calls<T>(g: Graph<T>, calls: Seq<LinkCall>) -> Graph<T>
    decreases calls.len(),
{
    if calls.len() == 0 {
        g
    } else {
        after_call(after_calls(g, calls.drop_last()), calls.last())
    }
}

/// In a graph whose nodes are isolated, relations are mutual.
pub proof fn lemma_isolated_symmetric<T>(g: Graph<T>)
    requires
        forall|i: int|
            0 <= i < g.len() ==> (#[trigger] g[i]).parents.len() == 0 && g[i].children.len() == 0,
    ensures
        symmetric(g),
{
}

/// Where keys are distinct, a keyed set names a node exactly when it holds
/// the node's key.
pub proof fn lemma_names_iff_holds_key<T>(g: Graph<T>, rel: Seq<NodeRef>, i: int)
    requires
        distinct_keys(g),
        forall|j: int| 0 <= j < rel.len() ==> in_graph(g, #[trigger] rel[j]),
        0 <= i < g.len(),
    ensures
        names(rel, i) <==> holds_key(g, rel, g[i].key),
{
    if names(rel, i) {
        let j = choose|j: int| 0 <= j < rel.len() && (#[trigger] rel[j]).index == i;
        assert(keys_of(g, rel)[j] == g[i].key);
    }
    if holds_key(g, rel, g[i].key) {
        let j = choose|j: int| 0 <= j < rel.len() && keys_of(g, rel)[j] == g[i].key;
        assert(in_graph(g, rel[j]));
        assert(g[rel[j].index as int].key == g[i].key);
        assert(rel[j].index == i);
    }
}

/// One link keeps relations mutual in a graph whose keys are distinct.
pub proof fn lemma_link_keeps_symmetry<T>(g: Graph<T>, parent: NodeRef, child: NodeRef)
    requires
        graph_wf(g),
        distinct_keys(g),
        symmetric(g),
        in_graph(g, parent),
        in_graph(g, child),
    ensures
        symmetric(link(g, parent, child)),
{
    let g2 = link(g, parent, child);
    let p = parent.index as int;
    let c = child.index as int;
    lemma_link_wf(g, parent, child);
    assert forall|a: int, b: int| 0 <= a < g2.len() && 0 <= b < g2.len() implies (holds_key(
        g2,
        (#[trigger] g2[a]).children,
        (#[trigger] g2[b]).key,
    ) <==> holds_key(g2, g2[b].parents, g2[a].key)) by {
        let cs = g2[a].children;
        let ps = g2[b].parents;
        assert(relation_wf(g, g[a].children) && relation_wf(g, g[b].parents));
        lemma_insert_keyed_wf(g, g[p].children, child);
        lemma_insert_keyed_wf(g, g[c].parents, parent);
        assert(cs == if a == p {
            insert_keyed(g, g[p].children, child)
        } else {
            g[a].children
        });
        assert(ps == if b == c {
            insert_keyed(g, g[c].parents, parent)
        } else {
            g[b].parents
        });
        lemma_keys_of_same_keys(g, g2, cs);
        lemma_keys_of_same_keys(g, g2, ps);
        lemma_insert_keyed_holds(g, g[p].children, child, g[b].key);
        lemma_insert_keyed_holds(g, g[c].parents, parent, g[a].key);
        assert(g2[a].key == g[a].key && g2[b].key == g[b].key);
        assert(holds_key(g, g[a].children, g[b].key) <==> holds_key(g, g[b].parents, g[a].key));
        assert(g[b].key == g[c].key ==> b == c);
        assert(g[a].key == g[p].key ==> a == p);
    }
}

/// Symmetry: in a graph whose keys are distinct, relations that are mutual
/// stay mutual through any sequence of linking calls.
pub proof fn lemma_symmetry_after_calls<T>(g: Graph<T>, calls: Seq<LinkCall>)
    requires
        graph_wf(g),
        distinct_keys(g),
        symmetric(g),
        forall|i: int| 0 <= i < calls.len() ==> call_in_graph(g, #[trigger] calls[i]),
    ensures
        symmetric(after_calls(g, calls)),
        graph_wf(after_calls(g, calls)),
        distinct_keys(after_calls(g, calls)),
        after_calls(g, calls).len() == g.len(),
    decreases calls.len(),
{
    if calls.len() > 0 {
        let before = after_calls(g, calls.drop_last());
        let call = calls.last();
        assert forall|i: int| 0 <= i < calls.drop_last().len() implies call_in_graph(
            g,
            #[trigger] calls.drop_last()[i],
        ) by {
            assert(call_in_graph(g, calls[i]));
        }
        lemma_symmetry_after_calls(g, calls.drop_last());
        assert(call_in_graph(g, calls[calls.len() - 1]));
        match call {
            LinkCall::AddParent { node, parent } => {
                lemma_link_keeps_symmetry(before, parent, node);
                lemma_link_wf(before, parent, node);
            },
            LinkCall::AddChild { node, child } => {
                lemma_link_keeps_symmetry(before, node, child);
                lemma_link_wf(before, node, child);
            },
        }
    }
}

/// Cutting a node loose keeps relations mutual in a graph whose keys are
/// distinct.
pub proof fn lemma_unlink_keeps_symmetry<T>(g: Graph<T>, h: NodeRef)
    requires
        graph_wf(g),
        distinct_keys(g),
        symmetric(g),
        in_graph(g, h),
    ensures
        symmetric(unlink(g, h)),
{
    let g2 = unlink(g, h);
    let me = h.index as int;
    let k = g[me].key;
    lemma_unlink_wf(g, h);
    assert(relation_wf(g, g[me].parents) && relation_wf(g, g[me].children));
    assert forall|a: int, b: int| 0 <= a < g2.len() && 0 <= b < g2.len() implies (holds_key(
        g2,
        (#[trigger] g2[a]).children,
        (#[trigger] g2[b]).key,
    ) <==> holds_key(g2, g2[b].parents, g2[a].key)) by {
        let cs = g2[a].children;
        let ps = g2[b].parents;
        assert(relation_wf(g2, cs) && relation_wf(g2, ps));
        assert(relation_wf(g, g[a].children) && relation_wf(g, g[b].parents));
        lemma_keys_of_same_keys(g, g2, cs);
        lemma_keys_of_same_keys(g, g2, ps);
        assert(g2[a].key == g[a].key && g2[b].key == g[b].key);
        lemma_remove_keyed_wf(g, g[a].children, k);
        lemma_remove_keyed_wf(g, g[b].parents, k);
        lemma_names_iff_holds_key(g, g[me].parents, a);
        lemma_names_iff_holds_key(g, g[me].children, b);
        assert(holds_key(g, g[a].children, g[b].key) <==> holds_key(g, g[b].parents, g[a].key));
        assert(holds_key(g, g[me].children, g[b].key) <==> holds_key(g, g[b].parents, k));
        assert(holds_key(g, g[a].children, k) <==> holds_key(g, g[me].parents, g[a].key));
        assert(g[b].key == k ==> b == me);
        assert(g[a].key == k ==> a == me);
        if a == me {
            assert(cs =~= Seq::<NodeRef>::empty());
        }
        if b == me {
            assert(ps =~= Seq::<NodeRef>::empty());
        }
    }
}

/// Adding an isolated node under a new key keeps keys distinct and relations
/// mutual.
pub proof fn lemma_push_fresh_keeps_symmetry<T>(g: Graph<T>, n: NodeView<T>)
    requires
        graph_wf(g),
        distinct_keys(g),
        symmetric(g),
        key_is_new(g, n.key),
        n.parents.len() == 0,
        n.children.len() == 0,
    ensures
        distinct_keys(g.push(n)),
        symmetric(g.push(n)),
{
    let g2 = g.push(n);
    assert forall|i: int, j: int| 0 <= i < g2.len() && 0 <= j < g2.len() && i != j implies (
    #[trigger] g2[i]).key != (#[trigger] g2[j]).key by {
        if i < g.len() && j < g.len() {
            assert(g[i].key != g[j].key);
        } else if i < g.len() {
            assert(g[i].key != n.key);
        } else {
            assert(g[j].key != n.key);
        }
    }
    assert forall|a: int, b: int| 0 <= a < g2.len() && 0 <= b < g2.len() implies (holds_key(
        g2,
        (#[trigger] g2[a]).children,
        (#[trigger] g2[b]).key,
    ) <==> holds_key(g2, g2[b].parents, g2[a].key)) by {
        let cs = g2[a].children;
        let ps = g2[b].parents;
        if a < g.len() {
            assert(relation_wf(g, g[a].children));
            lemma_keys_of_same_keys(g, g2, cs);
            if b == g.len() && holds_key(g, cs, n.key) {
                let j = choose|j: int| 0 <= j < cs.len() && keys_of(g, cs)[j] == n.key;
                assert(in_graph(g, cs[j]));
                assert(g[cs[j].index as int].key != n.key);
            }
        }
        if b < g.len() {
            assert(relation_wf(g, g[b].parents));
            lemma_keys_of_same_keys(g, g2, ps);
            if a == g.len() && holds_key(g, ps, n.key) {
                let j = choose|j: int| 0 <= j < ps.len() && keys_of(g, ps)[j] == n.key;
                assert(in_graph(g, ps[j]));
                assert(g[ps[j].index as int].key != n.key);
            }
        }
        if a < g.len() && b < g.len() {
            assert(holds_key(g, g[a].children, g[b].key) <==> holds_key(
                g,
                g[b].parents,
                g[a].key,
            ));
        }
    }
}

} // verus!
