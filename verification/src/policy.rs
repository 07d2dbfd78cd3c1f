//! The insertion and deletion policies of a structure, as functions of the
//! graph, the registered keys and the flag that tells whether the structure
//! holds a first node.

use vstd::prelude::*;
use crate::graph::{isolated, keys_of, Graph};
use crate::node::NodeRef;
use crate::text::str_eq;

verus! {

/// The policy that a mode name selects.
#[derive(Clone, Copy, Debug, PartialEq, Eq, Structural)]
pub enum Mode {
    /// Every insertion is accepted, and every deletion of a registered key.
    UnStrict,
    /// A node must be connected to what is registered, with the exceptions
    /// that [`semi_strict_accepts`] spells out.
    SemiStrict,
    /// Every neighbour of a node must be registered before the node, unless
    /// the structure holds no first node. This mode completes the family; it
    /// deletes as `SemiStrict` does.
    Strict,
    /// Any other name: nothing can be inserted.
    Unrecognized,
}

/// Why a structure turned an operation down.
#[derive(Clone, Copy, Debug, PartialEq, Eq, Structural)]
pub enum StructureError {
    /// The key is not registered.
    NotFound,
    /// The insertion breaks the connectivity rule of the mode.
    PolicyRejected,
    /// The deletion would leave a neighbour without the relation that the
    /// mode asks for.
    StrictnessViolation,
    /// The mode name selects no policy.
    UnrecognizedMode,
}

/// The policy behind a mode name.
pub open spec fn mode_of(name: Seq<char>) -> Mode {
    if name == "un-strict"@ {
        Mode::UnStrict
    } else if name == "semi-strict"@ {
        Mode::SemiStrict
    } else if name == "strict"@ {
        Mode::Strict
    } else {
        Mode::Unrecognized
    }
}

/// Reads a mode name.
pub fn parse_mode(name: &str) -> (mode: Mode)
    ensures
        mode == mode_of(name@),
{
    if str_eq(name, "un-strict") {
        Mode::UnStrict
    } else if str_eq(name, "semi-strict") {
        Mode::SemiStrict
    } else if str_eq(name, "strict") {
        Mode::Strict
    } else {
        Mode::Unrecognized
    }
}

/// Some entry of the relation list names a node with a registered key.
pub open spec fn any_registered<T>(g: Graph<T>, rel: Seq<NodeRef>, reg: Set<Seq<char>>) -> bool {
    exists|j: int| 0 <= j < rel.len() && reg.contains(#[trigger] keys_of(g, rel)[j])
}

/// Every entry of the relation list names a node with a registered key.
pub open spec fn all_registered<T>(g: Graph<T>, rel: Seq<NodeRef>, reg: Set<Seq<char>>) -> bool {
    forall|j: int| 0 <= j < rel.len() ==> reg.contains(#[trigger] keys_of(g, rel)[j])
}

/// Some entry of the relation list names a node whose key is registered
/// and is not the excluded one.
pub open spec fn other_registered<T>(
    g: Graph<T>,
    rel: Seq<NodeRef>,
    reg: Set<Seq<char>>,
    excluded: Seq<char>,
) -> bool {
    exists|j: int|
        0 <= j < rel.len() && (#[trigger] keys_of(g, rel)[j]) != excluded && reg.contains(
            keys_of(g, rel)[j],
        )
}

/// The semi-strict insertion rule. An isolated node is accepted exactly when
/// the structure holds a first node; any other node is accepted exactly when
/// one of its parents or one of its children is registered.
pub open spec fn semi_strict_accepts<T>(
    g: Graph<T>,
    reg: Set<Seq<char>>,
    has_first_node: bool,
    h: NodeRef,
) -> bool {
    if isolated(g, h) {
        has_first_node
    } else {
        any_registered(g, g[h.index as int].parents, reg) || any_registered(
            g,
            g[h.index as int].children,
            reg,
        )
    }
}

/// The strict insertion rule. A structure that holds no first node accepts
/// any node; afterwards a node is accepted exactly when all of its parents
/// and all of its children are registered.
pub open spec fn strict_accepts<T>(
    g: Graph<T>,
    reg: Set<Seq<char>>,
    has_first_node: bool,
    h: NodeRef,
) -> bool {
    !has_first_node || (all_registered(g, g[h.index as int].parents, reg) && all_registered(
        g,
        g[h.index as int].children,
        reg,
    ))
}

/// What inserting the node `h` comes to under each mode.
pub open spec fn insertion_verdict<T>(
    mode: Mode,
    g: Graph<T>,
    reg: Set<Seq<char>>,
    has_first_node: bool,
    h: NodeRef,
) -> Result<(), StructureError> {
    match mode {
        Mode::UnStrict => Ok(()),
        Mode::SemiStrict => if semi_strict_accepts(g, reg, has_first_node, h) {
            Ok(())
        } else {
            Err(StructureError::PolicyRejected)
        },
        Mode::Strict => if strict_accepts(g, reg, has_first_node, h) {
            Ok(())
        } else {
            Err(StructureError::PolicyRejected)
        },
        Mode::Unrecognized => Err(StructureError::UnrecognizedMode),
    }
}

/// The test that a neighbour of a node to be deleted must pass. A neighbour
/// with exactly one parent and exactly one child fails outright. Any other
/// passes exactly when one of its children or one of its parents has a
/// registered key other than the excluded one.
pub open spec fn keeps_a_relation<T>(
    g: Graph<T>,
    reg: Set<Seq<char>>,
    h: NodeRef,
    excluded: Seq<char>,
) -> bool {
    let n = g[h.index as int];
    &&& !(n.parents.len() == 1 && n.children.len() == 1)
    &&& other_registered(g, n.children, reg, excluded) || other_registered(
        g,
        n.parents,
        reg,
        excluded,
    )
}

/// Every node that the relation list names passes [`keeps_a_relation`].
pub open spec fn all_keep_a_relation<T>(
    g: Graph<T>,
    reg: Set<Seq<char>>,
    rel: Seq<NodeRef>,
    excluded: Seq<char>,
) -> bool {
    forall|j: int| 0 <= j < rel.len() ==> keeps_a_relation(g, reg, #[trigger] rel[j], excluded)
}

/// The deletion rule for the node `h`, registered under `key`. The
/// un-strict mode lets every registered node go. Every other mode lets an
/// isolated node go exactly when the structure holds a first node, and any
/// other node exactly when each of its parents and each of its children
/// passes [`keeps_a_relation`] with `key` excluded.
pub open spec fn removal_allowed<T>(
    mode: Mode,
    g: Graph<T>,
    reg: Set<Seq<char>>,
    has_first_node: bool,
    h: NodeRef,
    key: Seq<char>,
) -> bool {
    mode == Mode::UnStrict || if isolated(g, h) {
        has_first_node
    } else {
        all_keep_a_relation(g, reg, g[h.index as int].parents, key) && all_keep_a_relation(
            g,
            reg,
            g[h.index as int].children,
            key,
        )
    }
}

/// What taking the key out of the registry comes to.
pub open spec fn removal_verdict<T>(
    mode: Mode,
    g: Graph<T>,
    registry: Map<Seq<char>, NodeRef>,
    has_first_node: bool,
    key: Seq<char>,
) -> Result<(), StructureError> {
    if !registry.contains_key(key) {
        Err(StructureError::NotFound)
    } else if removal_allowed(mode, g, registry.dom(), has_first_node, registry[key], key) {
        Ok(())
    } else {
        Err(StructureError::StrictnessViolation)
    }
}

/// The un-strict mode turns no insertion down, and lets every registered key
/// go and no other.
pub proof fn lemma_un_strict_permits<T>(
    g: Graph<T>,
    registry: Map<Seq<char>, NodeRef>,
    has_first_node: bool,
    h: NodeRef,
    key: Seq<char>,
)
    ensures
        insertion_verdict(Mode::UnStrict, g, registry.dom(), has_first_node, h) is Ok,
        removal_verdict(Mode::UnStrict, g, registry, has_first_node, key) is Ok
            <==> registry.contains_key(key),
        !registry.contains_key(key) ==> removal_verdict(
            Mode::UnStrict,
            g,
            registry,
            has_first_node,
            key,
        ) == Err::<(), StructureError>(StructureError::NotFound),
{
}

/// A semi-strict structure that holds a first node accepts every isolated
/// node.
pub proof fn lemma_semi_strict_takes_isolated<T>(g: Graph<T>, reg: Set<Seq<char>>, h: NodeRef)
    requires
        isolated(g, h),
    ensures
        insertion_verdict(Mode::SemiStrict, g, reg, true, h) is Ok,
{
}

/// A semi-strict structure turns down every node that has relations, none
/// of them to a registered key.
pub proof fn lemma_semi_strict_rejects_unconnected<T>(
    g: Graph<T>,
    reg: Set<Seq<char>>,
    has_first_node: bool,
    h: NodeRef,
)
    requires
        !isolated(g, h),
        !any_registered(g, g[h.index as int].parents, reg),
        !any_registered(g, g[h.index as int].children, reg),
    ensures
        insertion_verdict(Mode::SemiStrict, g, reg, has_first_node, h) == Err::<
            (),
            StructureError,
        >(StructureError::PolicyRejected),
{
}

/// A semi-strict structure with nothing registered and no first node turns
/// every node down: its first node can only come with its construction.
pub proof fn lemma_semi_strict_empty_rejects<T>(g: Graph<T>, h: NodeRef)
    ensures
        insertion_verdict(Mode::SemiStrict, g, Set::<Seq<char>>::empty(), false, h) == Err::<
            (),
            StructureError,
        >(StructureError::PolicyRejected),
{
}

/// A strict structure that holds no first node accepts every node.
pub proof fn lemma_strict_takes_first<T>(g: Graph<T>, reg: Set<Seq<char>>, h: NodeRef)
    ensures
        insertion_verdict(Mode::Strict, g, reg, false, h) is Ok,
{
}

/// Deletion safety: outside the un-strict mode a registered node stays if
/// one of its neighbours has no relation to a registered key other than the
/// node's own.
pub proof fn lemma_stranding_blocks_removal<T>(
    mode: Mode,
    g: Graph<T>,
    registry: Map<Seq<char>, NodeRef>,
    has_first_node: bool,
    key: Seq<char>,
    neighbour: NodeRef,
)
    requires
        mode != Mode::UnStrict,
        registry.contains_key(key),
        g[registry[key].index as int].parents.contains(neighbour) || g[registry[key].index as int].children.contains(
            neighbour,
        ),
        !other_registered(g, g[neighbour.index as int].parents, registry.dom(), key),
        !other_registered(g, g[neighbour.index as int].children, registry.dom(), key),
    ensures
        removal_verdict(mode, g, registry, has_first_node, key) == Err::<(), StructureError>(
            StructureError::StrictnessViolation,
        ),
{
    let h = registry[key];
    let n = g[h.index as int];
    assert(!keeps_a_relation(g, registry.dom(), neighbour, key));
    if n.parents.contains(neighbour) {
        let j = choose|j: int| 0 <= j < n.parents.len() && n.parents[j] == neighbour;
        assert(!keeps_a_relation(g, registry.dom(), n.parents[j], key));
    } else {
        let j = choose|j: int| 0 <= j < n.children.len() && n.children[j] == neighbour;
        assert(!keeps_a_relation(g, registry.dom(), n.children[j], key));
    }
}

/// Outside the un-strict mode a registered node with relations goes exactly
/// when each of its neighbours passes [`keeps_a_relation`]; an isolated one
/// goes exactly when the structure holds a first node.
pub proof fn lemma_removal_rule<T>(
    mode: Mode,
    g: Graph<T>,
    registry: Map<Seq<char>, NodeRef>,
    has_first_node: bool,
    key: Seq<char>,
)
    requires
        mode != Mode::UnStrict,
        registry.contains_key(key),
    ensures
        removal_verdict(mode, g, registry, has_first_node, key) is Ok <==> if isolated(
            g,
            registry[key],
        ) {
            has_first_node
        } else {
            forall|n: NodeRef|
                g[registry[key].index as int].parents.contains(n) || g[registry[key].index as int].children.contains(
                    n,
                ) ==> #[trigger] keeps_a_relation(g, registry.dom(), n, key)
        },
{
    let h = registry[key];
    let node = g[h.index as int];
    if !isolated(g, h) {
        if removal_verdict(mode, g, registry, has_first_node, key) is Ok {
            assert forall|n: NodeRef|
                node.parents.contains(n) || node.children.contains(
                    n,
                ) implies #[trigger] keeps_a_relation(g, registry.dom(), n, key) by {
                if node.parents.contains(n) {
                    let j = choose|j: int| 0 <= j < node.parents.len() && node.parents[j] == n;
                    assert(keeps_a_relation(g, registry.dom(), node.parents[j], key));
                } else {
                    let j = choose|j: int| 0 <= j < node.children.len() && node.children[j] == n;
                    assert(keeps_a_relation(g, registry.dom(), node.children[j], key));
                }
            }
        }
        if forall|n: NodeRef|
            node.parents.contains(n) || node.children.contains(n) ==> #[trigger] keeps_a_relation(
                g,
                registry.dom(),
                n,
                key,
            ) {
            assert forall|j: int| 0 <= j < node.parents.len() implies keeps_a_relation(
                g,
                registry.dom(),
                #[trigger] node.parents[j],
                key,
            ) by {
                assert(node.parents.contains(node.parents[j]));
            }
            assert forall|j: int| 0 <= j < node.children.len() implies keeps_a_relation(
                g,
                registry.dom(),
                #[trigger] node.children[j],
                key,
            ) by {
                assert(node.children.contains(node.children[j]));
            }
        }
    }
}

/// Key identity in a registry: two nodes registered under one key leave one
/// entry, which names the later of them.
pub proof fn lemma_same_key_one_registration(
    registry: Map<Seq<char>, NodeRef>,
    key: Seq<char>,
    a: NodeRef,
    b: NodeRef,
)
    ensures
        registry.insert(key, a).insert(key, b) == registry.insert(key, b),
        registry.insert(key, a).insert(key, b).dom() == registry.dom().insert(key),
{
    assert(registry.insert(key, a).insert(key, b) =~= registry.insert(key, b));
    assert(registry.insert(key, a).insert(key, b).dom() =~= registry.dom().insert(key));
}

} // verus!
