//! A registry of nodes by key that accepts and releases nodes as its mode
//! allows.

use vstd::prelude::*;
use vstd::hash_map::StringHashMap;
use crate::graph::{in_graph, key_of, keys_of, lemma_unlink_wf, relation_wf, unlink, Graph};
use crate::node::{Arena, NodeRef};
use crate::policy::{
    all_keep_a_relation, all_registered, any_registered, insertion_verdict, keeps_a_relation,
    mode_of, other_registered, parse_mode, removal_verdict, semi_strict_accepts, strict_accepts,
    Mode, StructureError,
};
use crate::text::str_eq;

verus! {

/// A registry of nodes under a mode.
pub struct Structure {
    /// One designated node, if any.
    pub root: Option<NodeRef>,
    /// The registered nodes, each under its key.
    pub nodes: StringHashMap<NodeRef>,
    /// The name of the mode, fixed at construction.
    pub mode: String,
    /// Whether the registry holds a first node: set by every insertion and
    /// dropped when a removal empties the registry.
    pub has_first_node: bool,
}

/// The root of a structure after `key` has left its registry.
pub open spec fn root_without<T>(g: Graph<T>, root: Option<NodeRef>, key: Seq<char>) -> Option<
    NodeRef,
> {
    match root {
        Some(r) => if key_of(g, r) == key {
            None
        } else {
            root
        },
        None => None,
    }
}

impl Structure {
    /// The registered keys.
    pub open spec fn keys(&self) -> Set<Seq<char>> {
        self.nodes@.dom()
    }

    /// The policy that the mode name selects.
    pub open spec fn policy(&self) -> Mode {
        mode_of(self.mode@)
    }

    /// The structure fits the arena: every registered handle names a node of
    /// the arena that has the key it is registered under, and so does the
    /// root's handle name a node.
    pub open spec fn wf<T>(&self, arena: &Arena<T>) -> bool {
        &&& forall|k: Seq<char>| #[trigger]
            self.nodes@.contains_key(k) ==> arena.contains(self.nodes@[k]) && key_of(
                arena@,
                self.nodes@[k],
            ) == k
        &&& self.root matches Some(r) ==> arena.contains(r)
    }

    /// The flag tells the truth: it is set exactly when a key is registered.
    pub open spec fn flag_consistent(&self) -> bool {
        self.has_first_node == !self.nodes@.dom().is_empty()
    }

    /// A structure under the named mode, holding the root if one is given.
    pub fn new<T>(arena: &Arena<T>, root: Option<NodeRef>, mode: String) -> (s: Structure)
        requires
            root matches Some(r) ==> arena.contains(r),
        ensures
            s.root == root,
            s.mode == mode,
            s.has_first_node == root.is_some(),
            s.nodes@ == match root {
                Some(r) => Map::<Seq<char>, NodeRef>::empty().insert(key_of(arena@, r), r),
                None => Map::<Seq<char>, NodeRef>::empty(),
            },
            s.wf(arena),
            s.flag_consistent(),
    {
        let mut nodes: StringHashMap<NodeRef> = StringHashMap::new();
        let mut has_first_node = false;
        if let Some(r) = root {
            nodes.insert(r.key(arena), r);
            has_first_node = true;
            assert(nodes@.dom().contains(key_of(arena@, r)));
        }
        Structure { root, nodes, mode, has_first_node }
    }

    /// The node registered under the key, if there is one.
    pub fn find_node_by_key(&self, key: &str) -> (found: Option<NodeRef>)
        ensures
            found == if self.nodes@.contains_key(key@) {
                Some(self.nodes@[key@])
            } else {
                None
            },
    {
        match self.nodes.get(key) {
            Some(h) => Some(*h),
            None => None,
        }
    }

    /// Tells whether the semi-strict rule accepts the node.
    pub fn semi_strict_test<T>(&self, arena: &Arena<T>, node: NodeRef) -> (accepted: bool)
        requires
            arena.wf(),
            arena.contains(node),
        ensures
            accepted == semi_strict_accepts(arena@, self.keys(), self.has_first_node, node),
    {
        proof {
            arena.lemma_relations_wf(node);
        }
        let parents = &arena.nodes[node.index].parents;
        let children = &arena.nodes[node.index].children;
        if parents.len() == 0 && children.len() == 0 {
            return self.has_first_node;
        }
        if self.some_registered(arena, parents, None) {
            return true;
        }
        self.some_registered(arena, children, None)
    }

    /// Tells whether the strict rule accepts the node.
    pub fn strict_test<T>(&self, arena: &Arena<T>, node: NodeRef) -> (accepted: bool)
        requires
            arena.wf(),
            arena.contains(node),
        ensures
            accepted == strict_accepts(arena@, self.keys(), self.has_first_node, node),
    {
        proof {
            arena.lemma_relations_wf(node);
        }
        if !self.has_first_node {
            return true;
        }
        self.every_registered(arena, &arena.nodes[node.index].parents) && self.every_registered(
            arena,
            &arena.nodes[node.index].children,
        )
    }

    /// Tells whether `node`, a neighbour of the node registered under
    /// `off_limit_key`, would keep a registered relation without it.
    pub fn semi_strict_check_for_one<T>(
        &self,
        arena: &Arena<T>,
        node: NodeRef,
        off_limit_key: &str,
    ) -> (kept: bool)
        requires
            arena.wf(),
            arena.contains(node),
        ensures
            kept == keeps_a_relation(arena@, self.keys(), node, off_limit_key@),
    {
        proof {
            arena.lemma_relations_wf(node);
        }
        let parents = &arena.nodes[node.index].parents;
        let children = &arena.nodes[node.index].children;
        if parents.len() == 1 && children.len() == 1 {
            return false;
        }
        if self.some_registered(arena, children, Some(off_limit_key)) {
            return true;
        }
        self.some_registered(arena, parents, Some(off_limit_key))
    }

    /// Registers the node under its key if the mode accepts it. A node
    /// already registered under that key makes way for it.
    pub fn add_node<T>(&mut self, arena: &Arena<T>, node: NodeRef) -> (r: Result<
        NodeRef,
        StructureError,
    >)
        requires
            arena.wf(),
            arena.contains(node),
        ensures
            r == match insertion_verdict(
                old(self).policy(),
                arena@,
                old(self).keys(),
                old(self).has_first_node,
                node,
            ) {
                Ok(_) => Ok::<NodeRef, StructureError>(node),
                Err(e) => Err(e),
            },
            old(self).policy() == Mode::UnStrict ==> r is Ok,
            old(self).policy() == Mode::Unrecognized ==> r == Err::<NodeRef, StructureError>(
                StructureError::UnrecognizedMode,
            ),
            r is Ok ==> {
                &&& final(self).nodes@ == old(self).nodes@.insert(key_of(arena@, node), node)
                &&& final(self).has_first_node
                &&& final(self).root == old(self).root
                &&& final(self).mode == old(self).mode
            },
            r is Err ==> *final(self) == *old(self),
            old(self).wf(arena) ==> final(self).wf(arena),
            old(self).flag_consistent() ==> final(self).flag_consistent(),
    {
        match parse_mode(self.mode.as_str()) {
            Mode::SemiStrict => self.semi_strict_add(arena, node),
            Mode::UnStrict => self.un_strict_add(arena, node),
            Mode::Strict => {
                if self.strict_test(arena, node) {
                    self.un_strict_add(arena, node)
                } else {
                    Err(StructureError::PolicyRejected)
                }
            },
            Mode::Unrecognized => Err(StructureError::UnrecognizedMode),
        }
    }

    /// Takes the key out of the registry and cuts its node loose in the
    /// arena, if the key is registered and the mode lets the node go.
    /// Otherwise nothing changes.
    pub fn delete_node_by_key<T>(&mut self, arena: &mut Arena<T>, key: &str) -> (r: Result<
        (),
        StructureError,
    >)
        requires
            old(arena).wf(),
            old(self).wf(old(arena)),
        ensures
            r == removal_verdict(
                old(self).policy(),
                old(arena)@,
                old(self).nodes@,
                old(self).has_first_node,
                key@,
            ),
            !old(self).nodes@.contains_key(key@) ==> r == Err::<(), StructureError>(
                StructureError::NotFound,
            ),
            old(self).policy() == Mode::UnStrict && old(self).nodes@.contains_key(key@) ==> r is Ok,
            r is Ok ==> {
                &&& final(self).nodes@ == old(self).nodes@.remove(key@)
                &&& final(self).root == root_without(old(arena)@, old(self).root, key@)
                &&& final(self).has_first_node == (old(self).has_first_node
                    && !final(self).nodes@.dom().is_empty())
                &&& final(self).mode == old(self).mode
                &&& final(arena)@ == unlink(old(arena)@, old(self).nodes@[key@])
            },
            r is Err ==> *final(self) == *old(self) && *final(arena) == *old(arena),
            final(arena).wf(),
            final(self).wf(final(arena)),
            old(self).flag_consistent() ==> final(self).flag_consistent(),
    {
        let node = match self.removal_check(arena, key) {
            Ok(h) => h,
            Err(e) => {
                return Err(e);
            },
        };
        self.detach(arena, key);
        let ghost before = arena@;
        node.delete_node(arena);
        proof {
            lemma_unlink_wf(before, node);
            assert forall|k: Seq<char>| #[trigger]
                self.nodes@.contains_key(k) implies arena.contains(self.nodes@[k]) && key_of(
                arena@,
                self.nodes@[k],
            ) == k by {
                assert(old(self).nodes@.contains_key(k));
            }
        }
        Ok(())
    }

    /// Takes the key out of the registry, on the conditions of
    /// [`Structure::delete_node_by_key`], and leaves the node and its
    /// relations as they are.
    pub fn remove_node_by_key<T>(&mut self, arena: &Arena<T>, key: &str) -> (r: Result<
        (),
        StructureError,
    >)
        requires
            arena.wf(),
            old(self).wf(arena),
        ensures
            r == removal_verdict(
                old(self).policy(),
                arena@,
                old(self).nodes@,
                old(self).has_first_node,
                key@,
            ),
            !old(self).nodes@.contains_key(key@) ==> r == Err::<(), StructureError>(
                StructureError::NotFound,
            ),
            old(self).policy() == Mode::UnStrict && old(self).nodes@.contains_key(key@) ==> r is Ok,
            r is Ok ==> {
                &&& final(self).nodes@ == old(self).nodes@.remove(key@)
                &&& final(self).root == root_without(arena@, old(self).root, key@)
                &&& final(self).has_first_node == (old(self).has_first_node
                    && !final(self).nodes@.dom().is_empty())
                &&& final(self).mode == old(self).mode
            },
            r is Err ==> *final(self) == *old(self),
            final(self).wf(arena),
            old(self).flag_consistent() ==> final(self).flag_consistent(),
    {
        match self.removal_check(arena, key) {
            Ok(_) => {
                self.detach(arena, key);
                Ok(())
            },
            Err(e) => Err(e),
        }
    }

    /// Decides whether the key may leave the registry, and finds its node.
    fn removal_check<T>(&self, arena: &Arena<T>, key: &str) -> (r: Result<NodeRef, StructureError>)
        requires
            arena.wf(),
            self.wf(arena),
        ensures
            r == match removal_verdict(
                self.policy(),
                arena@,
                self.nodes@,
                self.has_first_node,
                key@,
            ) {
                Ok(_) => Ok::<NodeRef, StructureError>(self.nodes@[key@]),
                Err(e) => Err(e),
            },
            r matches Ok(h) ==> arena.contains(h),
    {
        let node = match self.nodes.get(key) {
            Some(h) => *h,
            None => {
                return Err(StructureError::NotFound);
            },
        };
        assert(self.nodes@.contains_key(key@));
        match parse_mode(self.mode.as_str()) {
            Mode::UnStrict => {
                return Ok(node);
            },
            _ => {},
        }
        proof {
            arena.lemma_relations_wf(node);
        }
        let parents = &arena.nodes[node.index].parents;
        let children = &arena.nodes[node.index].children;
        let allowed = if parents.len() == 0 && children.len() == 0 {
            self.has_first_node
        } else {
            self.every_neighbour_keeps(arena, parents, key) && self.every_neighbour_keeps(
                arena,
                children,
                key,
            )
        };
        if allowed {
            Ok(node)
        } else {
            Err(StructureError::StrictnessViolation)
        }
    }

    /// Tells whether every node that the relation list names passes
    /// [`Structure::semi_strict_check_for_one`].
    fn every_neighbour_keeps<T>(&self, arena: &Arena<T>, rel: &Vec<NodeRef>, key: &str) -> (all:
        bool)
        requires
            arena.wf(),
            relation_wf(arena@, rel@),
        ensures
            all == all_keep_a_relation(arena@, self.keys(), rel@, key@),
    {
        let mut i: usize = 0;
        while i < rel.len()
            invariant
                i <= rel@.len(),
                arena.wf(),
                relation_wf(arena@, rel@),
                forall|j: int|
                    0 <= j < i ==> keeps_a_relation(arena@, self.keys(), #[trigger] rel@[j], key@),
            decreases rel@.len() - i,
        {
            let h = rel[i];
            assert(in_graph(arena@, rel@[i as int]));
            if !self.semi_strict_check_for_one(arena, h, key) {
                return false;
            }
            i = i + 1;
        }
        true
    }

    /// Takes the key out of the registry, forgets the root if it has that
    /// key, and drops the flag if the registry is left empty.
    fn detach<T>(&mut self, arena: &Arena<T>, key: &str)
        requires
            old(self).wf(arena),
        ensures
            final(self).nodes@ == old(self).nodes@.remove(key@),
            final(self).root == root_without(arena@, old(self).root, key@),
            final(self).has_first_node == (old(self).has_first_node
                && !final(self).nodes@.dom().is_empty()),
            final(self).mode == old(self).mode,
            final(self).wf(arena),
            old(self).flag_consistent() ==> final(self).flag_consistent(),
    {
        self.nodes.remove(key);
        let forget = match self.root {
            Some(r) => str_eq(arena.nodes[r.index].key.as_str(), key),
            None => false,
        };
        if forget {
            self.root = None;
        }
        if self.nodes.is_empty() {
            self.has_first_node = false;
        }
        proof {
            if old(self).flag_consistent() && !self.nodes@.dom().is_empty() {
                assert(!old(self).nodes@.dom().is_empty()) by {
                    if old(self).nodes@.dom().is_empty() {
                        assert(self.nodes@.dom() =~= Set::<Seq<char>>::empty());
                    }
                }
            }
        }
    }

    /// Registers the node if the semi-strict rule accepts it.
    fn semi_strict_add<T>(&mut self, arena: &Arena<T>, node: NodeRef) -> (r: Result<
        NodeRef,
        StructureError,
    >)
        requires
            arena.wf(),
            arena.contains(node),
        ensures
            r == if semi_strict_accepts(
                arena@,
                old(self).keys(),
                old(self).has_first_node,
                node,
            ) {
                Ok::<NodeRef, StructureError>(node)
            } else {
                Err(StructureError::PolicyRejected)
            },
            r is Ok ==> {
                &&& final(self).nodes@ == old(self).nodes@.insert(key_of(arena@, node), node)
                &&& final(self).has_first_node
                &&& final(self).root == old(self).root
                &&& final(self).mode == old(self).mode
            },
            r is Err ==> *final(self) == *old(self),
            old(self).wf(arena) ==> final(self).wf(arena),
            old(self).flag_consistent() ==> final(self).flag_consistent(),
    {
        if self.semi_strict_test(arena, node) {
            self.un_strict_add(arena, node)
        } else {
            Err(StructureError::PolicyRejected)
        }
    }

    /// Registers the node whatever its relations.
    fn un_strict_add<T>(&mut self, arena: &Arena<T>, node: NodeRef) -> (r: Result<
        NodeRef,
        StructureError,
    >)
        requires
            arena.contains(node),
        ensures
            r == Ok::<NodeRef, StructureError>(node),
            final(self).nodes@ == old(self).nodes@.insert(key_of(arena@, node), node),
            final(self).has_first_node,
            final(self).root == old(self).root,
            final(self).mode == old(self).mode,
            old(self).wf(arena) ==> final(self).wf(arena),
            final(self).flag_consistent(),
    {
        self.nodes.insert(node.key(arena), node);
        self.has_first_node = true;
        assert(self.nodes@.dom().contains(key_of(arena@, node)));
        Ok(node)
    }

    /// Tells whether some entry of the relation list names a node whose key
    /// is registered and, where a key is excluded, is not that key.
    fn some_registered<T>(&self, arena: &Arena<T>, rel: &Vec<NodeRef>, excluded: Option<&str>) -> (found:
        bool)
        requires
            relation_wf(arena@, rel@),
        ensures
            found == match excluded {
                Some(x) => other_registered(arena@, rel@, self.keys(), x@),
                None => any_registered(arena@, rel@, self.keys()),
            },
    {
        let mut i: usize = 0;
        while i < rel.len()
            invariant
                i <= rel@.len(),
                relation_wf(arena@, rel@),
                forall|j: int|
                    0 <= j < i ==> !(self.keys().contains(#[trigger] keys_of(arena@, rel@)[j])
                        && (excluded matches Some(x) ==> keys_of(arena@, rel@)[j] != x@)),
            decreases rel@.len() - i,
        {
            let h = rel[i];
            assert(in_graph(arena@, rel@[i as int]));
            let key = arena.nodes[h.index].key.as_str();
            assert(key@ == keys_of(arena@, rel@)[i as int]);
            let counts = match excluded {
                Some(x) => !str_eq(key, x),
                None => true,
            };
            if counts && self.nodes.contains_key(key) {
                return true;
            }
            i = i + 1;
        }
        false
    }

    /// Tells whether every entry of the relation list names a node with a
    /// registered key.
    fn every_registered<T>(&self, arena: &Arena<T>, rel: &Vec<NodeRef>) -> (all: bool)
        requires
            relation_wf(arena@, rel@),
        ensures
            all == all_registered(arena@, rel@, self.keys()),
    {
        let mut i: usize = 0;
        while i < rel.len()
            invariant
                i <= rel@.len(),
                relation_wf(arena@, rel@),
                forall|j: int| 0 <= j < i ==> self.keys().contains(#[trigger] keys_of(arena@, rel@)[j]),
            decreases rel@.len() - i,
        {
            let h = rel[i];
            assert(in_graph(arena@, rel@[i as int]));
            let key = arena.nodes[h.index].key.as_str();
            assert(key@ == keys_of(arena@, rel@)[i as int]);
            if !self.nodes.contains_key(key) {
                return false;
            }
            i = i + 1;
        }
        true
    }
}

} // verus!
