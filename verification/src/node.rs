//! Nodes, the arena that owns them, and the handles that name them.

use vstd::prelude::*;
use crate::graph::{
    fresh_node, graph_wf, holds_key, in_graph, insert_keyed, isolated, key_of, keys_of,
    lemma_keys_of_same_keys, lemma_link_wf, lemma_push_fresh_wf, lemma_remove_keyed_empty,
    lemma_remove_keyed_last, lemma_remove_keyed_same_keys, lemma_unlink_wf, lemma_with_value_wf,
    link, names, relation_wf, remove_keyed, unlink, with_value, Graph, NodeView,
};
use crate::symmetry::{
    distinct_keys, key_is_new, lemma_link_keeps_symmetry, lemma_push_fresh_keeps_symmetry,
    lemma_unlink_keeps_symmetry, symmetric,
};
use crate::text::str_eq;

verus! {

/// A handle to a node of an [`Arena`]. Copying a handle yields another name
/// for the same node.
#[derive(Clone, Copy, Debug, PartialEq, Eq, Structural)]
pub struct NodeRef {
    pub index: usize,
}

/// A keyed value with its relation lists.
pub struct Node<T> {
    pub key: String,
    pub value: T,
    pub parents: Vec<NodeRef>,
    pub children: Vec<NodeRef>,
}

impl<T> View for Node<T> {
    type V = NodeView<T>;

    open spec fn view(&self) -> NodeView<T> {
        NodeView {
            key: self.key@,
            value: self.value,
            parents: self.parents@,
            children: self.children@,
        }
    }
}

/// The owner of every node. Nodes refer to each other by handle, so cycles
/// of relations need no shared ownership.
pub struct Arena<T> {
    pub nodes: Vec<Node<T>>,
}

impl<T> View for Arena<T> {
    type V = Graph<T>;

    open spec fn view(&self) -> Graph<T> {
        Seq::new(self.nodes@.len(), |i: int| self.nodes@[i]@)
    }
}

impl<T> Arena<T> {
    /// The relation lists of every node are keyed sets over this arena.
    pub open spec fn wf(&self) -> bool {
        graph_wf(self@)
    }

    /// The handle names a node of this arena.
    pub open spec fn contains(&self, h: NodeRef) -> bool {
        in_graph(self@, h)
    }

    /// An arena without nodes.
    pub fn new() -> (arena: Self)
        ensures
            arena@ == Seq::<NodeView<T>>::empty(),
            arena.wf(),
    {
        let arena = Arena { nodes: Vec::new() };
        assert(arena@ =~= Seq::<NodeView<T>>::empty());
        arena
    }

    /// The number of nodes ever created in this arena.
    pub fn len(&self) -> (n: usize)
        ensures
            n == self@.len(),
    {
        self.nodes.len()
    }

    /// Tells whether the handle names a node of this arena.
    pub fn holds(&self, h: NodeRef) -> (b: bool)
        ensures
            b == self.contains(h),
    {
        h.index < self.nodes.len()
    }

    /// In a well-formed arena the relation lists of each node are keyed sets.
    pub proof fn lemma_relations_wf(&self, h: NodeRef)
        requires
            self.wf(),
            self.contains(h),
        ensures
            relation_wf(self@, self.nodes@[h.index as int].parents@),
            relation_wf(self@, self.nodes@[h.index as int].children@),
            self@[h.index as int].parents == self.nodes@[h.index as int].parents@,
            self@[h.index as int].children == self.nodes@[h.index as int].children@,
    {
        assert(relation_wf(self@, self@[h.index as int].parents));
    }

    /// Tells whether the arena is well formed. Only writes through
    /// [`NodeRef::borrow_mut`] or to the fields can make it otherwise.
    pub fn is_well_formed(&self) -> (ok: bool)
        ensures
            ok == self.wf(),
    {
        let mut i: usize = 0;
        while i < self.nodes.len()
            invariant
                i <= self.nodes@.len(),
                forall|x: int|
                    0 <= x < i ==> relation_wf(self@, (#[trigger] self@[x]).parents) && relation_wf(
                        self@,
                        self@[x].children,
                    ),
            decreases self.nodes@.len() - i,
        {
            assert(self@[i as int] == self.nodes@[i as int]@);
            if !self.is_keyed_set(&self.nodes[i].parents) || !self.is_keyed_set(
                &self.nodes[i].children,
            ) {
                return false;
            }
            i = i + 1;
        }
        true
    }

    /// Tells whether the list is a keyed set over this arena.
    fn is_keyed_set(&self, rel: &Vec<NodeRef>) -> (ok: bool)
        ensures
            ok == relation_wf(self@, rel@),
    {
        let mut j: usize = 0;
        while j < rel.len()
            invariant
                j <= rel@.len(),
                forall|x: int| 0 <= x < j ==> in_graph(self@, #[trigger] rel@[x]),
                forall|x: int, y: int|
                    0 <= x < y < j ==> keys_of(self@, rel@)[x] != keys_of(self@, rel@)[y],
            decreases rel@.len() - j,
        {
            let h = rel[j];
            if h.index >= self.nodes.len() {
                assert(!in_graph(self@, rel@[j as int]));
                return false;
            }
            let mut k: usize = 0;
            while k < j
                invariant
                    k <= j < rel@.len(),
                    h == rel@[j as int],
                    in_graph(self@, h),
                    forall|x: int| 0 <= x < j ==> in_graph(self@, #[trigger] rel@[x]),
                    forall|x: int| 0 <= x < k ==> keys_of(self@, rel@)[x] != keys_of(self@, rel@)[j as int],
                decreases j - k,
            {
                let earlier = rel[k];
                assert(in_graph(self@, rel@[k as int]));
                if str_eq(
                    self.nodes[earlier.index].key.as_str(),
                    self.nodes[h.index].key.as_str(),
                ) {
                    assert(keys_of(self@, rel@)[k as int] == keys_of(self@, rel@)[j as int]);
                    return false;
                }
                k = k + 1;
            }
            j = j + 1;
        }
        assert forall|x: int, y: int|
            0 <= x < rel@.len() && 0 <= y < rel@.len() && x != y implies keys_of(self@, rel@)[x]
            != keys_of(self@, rel@)[y] by {
            if x < y {
                assert(keys_of(self@, rel@)[x] != keys_of(self@, rel@)[y]);
            } else {
                assert(keys_of(self@, rel@)[y] != keys_of(self@, rel@)[x]);
            }
        }
        true
    }
}

impl<T> Node<T> {
    /// Creates an isolated node in the arena and returns its handle.
    pub fn new(arena: &mut Arena<T>, key: String, value: T) -> (h: NodeRef)
        ensures
            h.index == old(arena)@.len(),
            final(arena)@ == old(arena)@.push(fresh_node(key@, value)),
            old(arena).wf() ==> final(arena).wf(),
            old(arena).wf() && distinct_keys(old(arena)@) && symmetric(old(arena)@) && key_is_new(
                old(arena)@,
                key@,
            ) ==> distinct_keys(final(arena)@) && symmetric(final(arena)@),
    {
        NodeRef::new(arena, key, value)
    }
}

impl NodeRef {
    /// Creates an isolated node in the arena and returns its handle. Nothing
    /// asks the key to be new: nodes that share a key are distinct nodes
    /// which every keyed set takes for one.
    pub fn new<T>(arena: &mut Arena<T>, key: String, value: T) -> (h: NodeRef)
        ensures
            h.index == old(arena)@.len(),
            final(arena)@ == old(arena)@.push(fresh_node(key@, value)),
            old(arena).wf() ==> final(arena).wf(),
            old(arena).wf() && distinct_keys(old(arena)@) && symmetric(old(arena)@) && key_is_new(
                old(arena)@,
                key@,
            ) ==> distinct_keys(final(arena)@) && symmetric(final(arena)@),
    {
        let index = arena.nodes.len();
        arena.nodes.push(Node { key, value, parents: Vec::new(), children: Vec::new() });
        proof {
            let g = old(arena)@;
            assert(arena@ =~= g.push(fresh_node(key@, value)));
            if old(arena).wf() {
                lemma_push_fresh_wf(g, fresh_node(key@, value));
                if distinct_keys(g) && symmetric(g) && key_is_new(g, key@) {
                    lemma_push_fresh_keeps_symmetry(g, fresh_node(key@, value));
                }
            }
        }
        NodeRef { index }
    }

    /// Tells whether two handles name nodes with the same key. Every keyed
    /// set takes such nodes for one, whatever their values.
    pub fn same_key<T>(&self, arena: &Arena<T>, other: NodeRef) -> (same: bool)
        requires
            arena.contains(*self),
            arena.contains(other),
        ensures
            same == (key_of(arena@, *self) == key_of(arena@, other)),
    {
        str_eq(arena.nodes[self.index].key.as_str(), arena.nodes[other.index].key.as_str())
    }

    /// Another handle to the same node.
    pub fn rc_clone(&self) -> (h: NodeRef)
        ensures
            h == *self,
    {
        NodeRef { index: self.index }
    }

    /// Read access to the node.
    pub fn borrow<'a, T>(&self, arena: &'a Arena<T>) -> (node: &'a Node<T>)
        requires
            arena.contains(*self),
        ensures
            *node == arena.nodes@[self.index as int],
            node@ == arena@[self.index as int],
    {
        &arena.nodes[self.index]
    }

    /// Exclusive access to the node. Whatever the caller writes through the
    /// reference lands in the arena at this handle and nowhere else; relation
    /// lists edited this way bypass the bookkeeping of the linking methods.
    pub fn borrow_mut<'a, T>(&self, arena: &'a mut Arena<T>) -> (node: &'a mut Node<T>)
        requires
            old(arena).contains(*self),
        ensures
            *node == old(arena).nodes@[self.index as int],
            final(arena).nodes@ == old(arena).nodes@.update(self.index as int, *final(node)),
            final(arena)@ == old(arena)@.update(self.index as int, final(node)@),
    {
        &mut arena.nodes[self.index]
    }

    /// The key of the node.
    pub fn key<T>(&self, arena: &Arena<T>) -> (k: String)
        requires
            arena.contains(*self),
        ensures
            k@ == key_of(arena@, *self),
    {
        arena.nodes[self.index].key.clone()
    }

    /// The value of the node.
    pub fn value<'a, T>(&self, arena: &'a Arena<T>) -> (v: &'a T)
        requires
            arena.contains(*self),
        ensures
            *v == arena@[self.index as int].value,
    {
        &arena.nodes[self.index].value
    }

    /// Replaces the value of the node; its key and relations stay.
    pub fn edit_value<T>(&self, arena: &mut Arena<T>, value: T)
        requires
            old(arena).contains(*self),
        ensures
            final(arena)@ == with_value(old(arena)@, *self, value),
            old(arena).wf() ==> final(arena).wf(),
    {
        arena.nodes[self.index].value = value;
        proof {
            assert(arena@ =~= with_value(old(arena)@, *self, value));
            if old(arena).wf() {
                lemma_with_value_wf(old(arena)@, *self, value);
            }
        }
    }

    /// The parents of the node, in the order in which they were linked.
    pub fn parents<'a, T>(&self, arena: &'a Arena<T>) -> (rel: &'a Vec<NodeRef>)
        requires
            arena.contains(*self),
        ensures
            rel@ == arena@[self.index as int].parents,
    {
        &arena.nodes[self.index].parents
    }

    /// The children of the node, in the order in which they were linked.
    pub fn children<'a, T>(&self, arena: &'a Arena<T>) -> (rel: &'a Vec<NodeRef>)
        requires
            arena.contains(*self),
        ensures
            rel@ == arena@[self.index as int].children,
    {
        &arena.nodes[self.index].children
    }

    /// Tells whether some parent of the node has the given key.
    pub fn has_parent_by_key<T>(&self, arena: &Arena<T>, key: &str) -> (found: bool)
        requires
            arena.wf(),
            arena.contains(*self),
        ensures
            found == holds_key(arena@, arena@[self.index as int].parents, key@),
    {
        proof {
            arena.lemma_relations_wf(*self);
        }
        find_keyed(arena, &arena.nodes[self.index].parents, key).is_some()
    }

    /// Tells whether some child of the node has the given key.
    pub fn has_child_by_key<T>(&self, arena: &Arena<T>, key: &str) -> (found: bool)
        requires
            arena.wf(),
            arena.contains(*self),
        ensures
            found == holds_key(arena@, arena@[self.index as int].children, key@),
    {
        proof {
            arena.lemma_relations_wf(*self);
        }
        find_keyed(arena, &arena.nodes[self.index].children, key).is_some()
    }

    /// The parent of the node that has the given key, if there is one.
    pub fn get_parent_by_key<T>(&self, arena: &Arena<T>, key: &str) -> (found: Option<NodeRef>)
        requires
            arena.wf(),
            arena.contains(*self),
        ensures
            found is Some <==> holds_key(arena@, arena@[self.index as int].parents, key@),
            found matches Some(h) ==> arena@[self.index as int].parents.contains(h) && key_of(
                arena@,
                h,
            ) == key@,
    {
        proof {
            arena.lemma_relations_wf(*self);
        }
        let rel = &arena.nodes[self.index].parents;
        match find_keyed(arena, rel, key) {
            Some(j) => Some(rel[j]),
            None => None,
        }
    }

    /// The child of the node that has the given key, if there is one.
    pub fn get_child_by_key<T>(&self, arena: &Arena<T>, key: &str) -> (found: Option<NodeRef>)
        requires
            arena.wf(),
            arena.contains(*self),
        ensures
            found is Some <==> holds_key(arena@, arena@[self.index as int].children, key@),
            found matches Some(h) ==> arena@[self.index as int].children.contains(h) && key_of(
                arena@,
                h,
            ) == key@,
    {
        proof {
            arena.lemma_relations_wf(*self);
        }
        let rel = &arena.nodes[self.index].children;
        match find_keyed(arena, rel, key) {
            Some(j) => Some(rel[j]),
            None => None,
        }
    }

    /// Records `parent` among the parents of this node and this node among
    /// the children of `parent`. A relation that is already held, by key,
    /// stays as it is.
    pub fn add_parent<T>(&self, arena: &mut Arena<T>, parent: NodeRef)
        requires
            old(arena).wf(),
            old(arena).contains(*self),
            old(arena).contains(parent),
        ensures
            final(arena)@ == link(old(arena)@, parent, *self),
            final(arena).wf(),
            distinct_keys(old(arena)@) && symmetric(old(arena)@) ==> symmetric(final(arena)@),
    {
        link_nodes(arena, parent, *self);
    }

    /// Records `child` among the children of this node and this node among
    /// the parents of `child`. A relation that is already held, by key, stays
    /// as it is.
    pub fn add_child<T>(&self, arena: &mut Arena<T>, child: NodeRef)
        requires
            old(arena).wf(),
            old(arena).contains(*self),
            old(arena).contains(child),
        ensures
            final(arena)@ == link(old(arena)@, *self, child),
            final(arena).wf(),
            distinct_keys(old(arena)@) && symmetric(old(arena)@) ==> symmetric(final(arena)@),
    {
        link_nodes(arena, *self, child);
    }

    /// Cuts the node loose: every parent forgets it as a child, every child
    /// forgets it as a parent, and the node itself is left isolated. The node
    /// stays in the arena, with its key and value.
    pub fn delete_node<T>(&self, arena: &mut Arena<T>)
        requires
            old(arena).wf(),
            old(arena).contains(*self),
        ensures
            final(arena)@ == unlink(old(arena)@, *self),
            final(arena).wf(),
            isolated(final(arena)@, *self),
            distinct_keys(old(arena)@) && symmetric(old(arena)@) ==> symmetric(final(arena)@),
    {
        let ghost g = arena@;
        let me = self.index;
        proof {
            arena.lemma_relations_wf(*self);
        }
        let key = arena.nodes[me].key.clone();
        let mut parents: Vec<NodeRef> = Vec::new();
        let mut children: Vec<NodeRef> = Vec::new();
        std::mem::swap(&mut parents, &mut arena.nodes[me].parents);
        std::mem::swap(&mut children, &mut arena.nodes[me].children);
        assert(arena@ =~= unlink_upto(g, *self, 0, 0));
        let mut i: usize = 0;
        while i < parents.len()
            invariant
                i <= parents@.len(),
                graph_wf(g),
                in_graph(g, *self),
                me == self.index,
                key@ == g[me as int].key,
                parents@ == g[me as int].parents,
                arena@ == unlink_upto(g, *self, i as int, 0),
            decreases parents@.len() - i,
        {
            let p = parents[i];
            let ghost cur = arena@;
            proof {
                lemma_told_next(g, g[me as int].parents, i as int);
                assert(relation_wf(g, g[p.index as int].children));
            }
            if p.index != me {
                proof {
                    assert(arena@.len() == g.len());
                    assert(arena.nodes@[p.index as int]@ == arena@[p.index as int]);
                    assert(arena@[p.index as int].children == g[p.index as int].children);
                }
                let kept = without_key(arena, &arena.nodes[p.index].children, key.as_str());
                arena.nodes[p.index].children = kept;
                proof {
                    lemma_remove_keyed_same_keys(
                        g,
                        unlink_upto(g, *self, i as int, 0),
                        g[p.index as int].children,
                        key@,
                    );
                }
            }
            proof {
                let next = unlink_upto(g, *self, i + 1, 0);
                assert forall|x: int| 0 <= x < g.len() implies arena@[x] == next[x] by {
                    assert(names(g[me as int].parents.take(i + 1), x) <==> names(
                        g[me as int].parents.take(i as int),
                        x,
                    ) || x == p.index);
                    if x == p.index && x != me {
                        assert(arena@[x].children == remove_keyed(g, g[x].children, key@));
                    } else {
                        assert(arena@[x] == cur[x]);
                    }
                }
                assert(arena@ =~= next);
            }
            i = i + 1;
        }
        let ghost np = parents@.len() as int;
        let mut i: usize = 0;
        while i < children.len()
            invariant
                i <= children@.len(),
                graph_wf(g),
                in_graph(g, *self),
                me == self.index,
                key@ == g[me as int].key,
                np == g[me as int].parents.len(),
                children@ == g[me as int].children,
                arena@ == unlink_upto(g, *self, np, i as int),
            decreases children@.len() - i,
        {
            let c = children[i];
            let ghost cur = arena@;
            proof {
                lemma_told_next(g, g[me as int].children, i as int);
                assert(relation_wf(g, g[c.index as int].parents));
            }
            if c.index != me {
                proof {
                    assert(arena@.len() == g.len());
                    assert(arena.nodes@[c.index as int]@ == arena@[c.index as int]);
                    assert(arena@[c.index as int].parents == g[c.index as int].parents);
                }
                let kept = without_key(arena, &arena.nodes[c.index].parents, key.as_str());
                arena.nodes[c.index].parents = kept;
                proof {
                    lemma_remove_keyed_same_keys(
                        g,
                        unlink_upto(g, *self, np, i as int),
                        g[c.index as int].parents,
                        key@,
                    );
                }
            }
            proof {
                let next = unlink_upto(g, *self, np, i + 1);
                assert forall|x: int| 0 <= x < g.len() implies arena@[x] == next[x] by {
                    assert(names(g[me as int].children.take(i + 1), x) <==> names(
                        g[me as int].children.take(i as int),
                        x,
                    ) || x == c.index);
                    if x == c.index && x != me {
                        assert(arena@[x].parents == remove_keyed(g, g[x].parents, key@));
                    } else {
                        assert(arena@[x] == cur[x]);
                    }
                }
                assert(arena@ =~= next);
            }
            i = i + 1;
        }
        proof {
            lemma_unlink_upto_all(g, *self);
            lemma_unlink_wf(g, *self);
            if distinct_keys(g) && symmetric(g) {
                lemma_unlink_keeps_symmetry(g, *self);
            }
        }
    }
}

/// The graph while `h` is being cut loose: `h` has let go of its relations,
/// its first `np` parents and its first `nc` children have been told.
spec fn unlink_upto<T>(g: Graph<T>, h: NodeRef, np: int, nc: int) -> Graph<T> {
    let me = g[h.index as int];
    Seq::new(
        g.len(),
        |i: int|
            if i == h.index {
                NodeView { parents: Seq::empty(), children: Seq::empty(), ..g[i] }
            } else {
                NodeView {
                    children: if names(me.parents.take(np), i) {
                        remove_keyed(g, g[i].children, me.key)
                    } else {
                        g[i].children
                    },
                    parents: if names(me.children.take(nc), i) {
                        remove_keyed(g, g[i].parents, me.key)
                    } else {
                        g[i].parents
                    },
                    ..g[i]
                }
            },
    )
}

/// Once every parent and every child has been told, the node is cut loose.
proof fn lemma_unlink_upto_all<T>(g: Graph<T>, h: NodeRef)
    ensures
        unlink_upto(
            g,
            h,
            g[h.index as int].parents.len() as int,
            g[h.index as int].children.len() as int,
        ) == unlink(g, h),
{
    let me = g[h.index as int];
    assert(me.parents.take(me.parents.len() as int) =~= me.parents);
    assert(me.children.take(me.children.len() as int) =~= me.children);
}

/// Telling the entry at position `i` adds exactly that entry to those told,
/// and in a keyed set it was not among them before.
proof fn lemma_told_next<T>(g: Graph<T>, rel: Seq<NodeRef>, i: int)
    requires
        relation_wf(g, rel),
        0 <= i < rel.len(),
    ensures
        in_graph(g, rel[i]),
        !names(rel.take(i), rel[i].index as int),
        forall|x: int| names(rel.take(i + 1), x) <==> names(rel.take(i), x) || x == rel[i].index,
{
    let before = rel.take(i);
    let upto = rel.take(i + 1);
    if names(before, rel[i].index as int) {
        let j = choose|j: int| 0 <= j < before.len() && (#[trigger] before[j]).index == rel[i].index;
        assert(keys_of(g, rel)[j] == keys_of(g, rel)[i]);
    }
    assert forall|x: int| names(upto, x) <==> names(before, x) || x == rel[i].index by {
        if names(upto, x) {
            let j = choose|j: int| 0 <= j < upto.len() && (#[trigger] upto[j]).index == x;
            if j < i {
                assert(before[j].index == x);
            }
        }
        if names(before, x) {
            let j = choose|j: int| 0 <= j < before.len() && (#[trigger] before[j]).index == x;
            assert(upto[j].index == x);
        }
        if x == rel[i].index {
            assert(upto[i].index == x);
        }
    }
}

/// The entries of `rel` that name nodes with another key than the given one.
fn without_key<T>(arena: &Arena<T>, rel: &Vec<NodeRef>, key: &str) -> (kept: Vec<NodeRef>)
    requires
        forall|j: int| 0 <= j < rel@.len() ==> in_graph(arena@, #[trigger] rel@[j]),
    ensures
        kept@ == remove_keyed(arena@, rel@, key@),
{
    let mut kept: Vec<NodeRef> = Vec::new();
    let mut i: usize = 0;
    proof {
        lemma_remove_keyed_empty(arena@, key@);
        assert(rel@.take(0) =~= Seq::<NodeRef>::empty());
    }
    while i < rel.len()
        invariant
            i <= rel@.len(),
            forall|j: int| 0 <= j < rel@.len() ==> in_graph(arena@, #[trigger] rel@[j]),
            kept@ == remove_keyed(arena@, rel@.take(i as int), key@),
        decreases rel@.len() - i,
    {
        let h = rel[i];
        proof {
            assert(in_graph(arena@, rel@[i as int]));
            assert(rel@.take(i + 1).drop_last() =~= rel@.take(i as int));
            lemma_remove_keyed_last(arena@, rel@.take(i + 1), key@);
        }
        if !str_eq(arena.nodes[h.index].key.as_str(), key) {
            kept.push(h);
        }
        i = i + 1;
    }
    assert(rel@.take(rel@.len() as int) =~= rel@);
    kept
}

/// The position of the first entry of `rel` that names a node with the given
/// key.
fn find_keyed<T>(arena: &Arena<T>, rel: &Vec<NodeRef>, key: &str) -> (found: Option<usize>)
    requires
        forall|j: int| 0 <= j < rel@.len() ==> in_graph(arena@, #[trigger] rel@[j]),
    ensures
        found is Some <==> holds_key(arena@, rel@, key@),
        found matches Some(j) ==> j < rel@.len() && key_of(arena@, rel@[j as int]) == key@,
{
    let mut i: usize = 0;
    while i < rel.len()
        invariant
            i <= rel@.len(),
            forall|j: int| 0 <= j < rel@.len() ==> in_graph(arena@, #[trigger] rel@[j]),
            forall|j: int| 0 <= j < i ==> keys_of(arena@, rel@)[j] != key@,
        decreases rel@.len() - i,
    {
        let h = rel[i];
        assert(in_graph(arena@, rel@[i as int]));
        if str_eq(arena.nodes[h.index].key.as_str(), key) {
            assert(keys_of(arena@, rel@)[i as int] == key@);
            return Some(i);
        }
        i = i + 1;
    }
    None
}

/// Performs both keyed insertions of a link.
fn link_nodes<T>(arena: &mut Arena<T>, parent: NodeRef, child: NodeRef)
    requires
        old(arena).wf(),
        old(arena).contains(parent),
        old(arena).contains(child),
    ensures
        final(arena)@ == link(old(arena)@, parent, child),
        final(arena).wf(),
        distinct_keys(old(arena)@) && symmetric(old(arena)@) ==> symmetric(final(arena)@),
{
    let ghost g = arena@;
    let ghost p = parent.index as int;
    let ghost c = child.index as int;
    proof {
        arena.lemma_relations_wf(parent);
        arena.lemma_relations_wf(child);
    }
    let held = find_keyed(
        arena,
        &arena.nodes[parent.index].children,
        arena.nodes[child.index].key.as_str(),
    ).is_some();
    if !held {
        arena.nodes[parent.index].children.push(child);
    }
    let ghost g1 = g.update(p, NodeView { children: insert_keyed(g, g[p].children, child), ..g[p] });
    proof {
        assert(arena@ =~= g1);
        lemma_keys_of_same_keys(g, g1, g1[c].parents);
    }
    let held = find_keyed(
        arena,
        &arena.nodes[child.index].parents,
        arena.nodes[parent.index].key.as_str(),
    ).is_some();
    if !held {
        arena.nodes[child.index].parents.push(parent);
    }
    proof {
        assert(arena@ =~= link(g, parent, child));
        lemma_link_wf(g, parent, child);
        if distinct_keys(g) && symmetric(g) {
            lemma_link_keeps_symmetry(g, parent, child);
        }
    }
}

} // verus!
