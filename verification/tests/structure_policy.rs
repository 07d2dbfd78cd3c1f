use priminit::node::{Arena, NodeRef};
use priminit::policy::{parse_mode, Mode, StructureError};
use priminit::structure::Structure;

fn arena_of(keys: &[&str]) -> (Arena<String>, Vec<NodeRef>) {
    let mut arena: Arena<String> = Arena::new();
    let mut handles = Vec::new();
    for k in keys {
        handles.push(NodeRef::new(&mut arena, k.to_string(), format!("value of {}", k)));
    }
    (arena, handles)
}

fn structure(arena: &Arena<String>, root: Option<NodeRef>, mode: &str) -> Structure {
    Structure::new(arena, root, mode.to_string())
}

#[test]
fn mode_names() {
    assert_eq!(parse_mode("un-strict"), Mode::UnStrict);
    assert_eq!(parse_mode("semi-strict"), Mode::SemiStrict);
    assert_eq!(parse_mode("strict"), Mode::Strict);
    assert_eq!(parse_mode("Un-Strict"), Mode::Unrecognized);
    assert_eq!(parse_mode(""), Mode::Unrecognized);
    assert_eq!(parse_mode("semi-strict "), Mode::Unrecognized);
}

#[test]
fn new_without_root_is_empty() {
    let (arena, _) = arena_of(&["a"]);
    let s = structure(&arena, None, "semi-strict");
    assert!(s.root.is_none());
    assert_eq!(s.nodes.len(), 0);
    assert!(!s.has_first_node);
    assert_eq!(s.mode, "semi-strict");
    assert_eq!(s.find_node_by_key("a"), None);
}

#[test]
fn new_with_root_registers_it() {
    let (arena, h) = arena_of(&["a", "b"]);
    let s = structure(&arena, Some(h[1]), "semi-strict");
    assert_eq!(s.root, Some(h[1]));
    assert_eq!(s.nodes.len(), 1);
    assert!(s.has_first_node);
    assert_eq!(s.find_node_by_key("b"), Some(h[1]));
    assert_eq!(s.find_node_by_key("a"), None);
}

#[test]
fn un_strict_accepts_every_node() {
    let (mut arena, h) = arena_of(&["a", "b", "c"]);
    h[1].add_child(&mut arena, h[2]);
    let mut s = structure(&arena, None, "un-strict");
    assert_eq!(s.add_node(&arena, h[0]), Ok(h[0]));
    assert!(s.has_first_node);
    assert_eq!(s.add_node(&arena, h[1]), Ok(h[1]));
    assert_eq!(s.add_node(&arena, h[2]), Ok(h[2]));
    assert_eq!(s.nodes.len(), 3);
    assert_eq!(s.find_node_by_key("c"), Some(h[2]));
    assert!(s.root.is_none());
}

#[test]
fn un_strict_deletes_what_is_registered_and_nothing_else() {
    let (mut arena, h) = arena_of(&["a", "b", "c"]);
    h[0].add_child(&mut arena, h[1]);
    h[1].add_child(&mut arena, h[2]);
    let mut s = structure(&arena, None, "un-strict");
    for n in &h {
        assert_eq!(s.add_node(&arena, *n), Ok(*n));
    }
    assert_eq!(s.delete_node_by_key(&mut arena, "zzz"), Err(StructureError::NotFound));
    assert_eq!(s.nodes.len(), 3);
    assert_eq!(s.delete_node_by_key(&mut arena, "b"), Ok(()));
    assert_eq!(s.nodes.len(), 2);
    assert_eq!(s.find_node_by_key("b"), None);
    assert!(h[1].parents(&arena).is_empty());
    assert!(h[1].children(&arena).is_empty());
    assert!(h[0].children(&arena).is_empty());
    assert!(h[2].parents(&arena).is_empty());
    assert_eq!(s.delete_node_by_key(&mut arena, "b"), Err(StructureError::NotFound));
    assert!(s.has_first_node);
}

#[test]
fn deleting_the_last_node_drops_the_flag() {
    let (mut arena, h) = arena_of(&["a", "b"]);
    let mut s = structure(&arena, None, "un-strict");
    assert_eq!(s.add_node(&arena, h[0]), Ok(h[0]));
    assert_eq!(s.add_node(&arena, h[1]), Ok(h[1]));
    assert_eq!(s.delete_node_by_key(&mut arena, "a"), Ok(()));
    assert!(s.has_first_node);
    assert_eq!(s.delete_node_by_key(&mut arena, "b"), Ok(()));
    assert!(!s.has_first_node);
    assert_eq!(s.nodes.len(), 0);
}

#[test]
fn deleting_the_root_forgets_it() {
    let (mut arena, h) = arena_of(&["a", "b"]);
    let mut s = structure(&arena, Some(h[0]), "un-strict");
    assert_eq!(s.add_node(&arena, h[1]), Ok(h[1]));
    assert_eq!(s.delete_node_by_key(&mut arena, "b"), Ok(()));
    assert_eq!(s.root, Some(h[0]));
    assert_eq!(s.delete_node_by_key(&mut arena, "a"), Ok(()));
    assert_eq!(s.root, None);
    assert!(!s.has_first_node);
}

#[test]
fn unrecognized_mode_rejects_every_insertion() {
    let (arena, h) = arena_of(&["a", "b"]);
    let mut s = structure(&arena, Some(h[0]), "relaxed");
    assert_eq!(s.add_node(&arena, h[1]), Err(StructureError::UnrecognizedMode));
    assert_eq!(s.add_node(&arena, h[0]), Err(StructureError::UnrecognizedMode));
    assert_eq!(s.nodes.len(), 1);
    let mut empty = structure(&arena, None, "");
    assert_eq!(empty.add_node(&arena, h[0]), Err(StructureError::UnrecognizedMode));
    assert!(!empty.has_first_node);
}

#[test]
fn unrecognized_mode_deletes_as_semi_strict_does() {
    let (mut arena, h) = arena_of(&["a"]);
    let mut s = structure(&arena, Some(h[0]), "relaxed");
    assert_eq!(s.delete_node_by_key(&mut arena, "a"), Ok(()));
    assert_eq!(s.nodes.len(), 0);
    assert_eq!(s.delete_node_by_key(&mut arena, "a"), Err(StructureError::NotFound));
}

#[test]
fn semi_strict_without_a_first_node_rejects() {
    let (mut arena, h) = arena_of(&["a", "b", "c"]);
    h[1].add_child(&mut arena, h[2]);
    let mut s = structure(&arena, None, "semi-strict");
    assert!(!s.semi_strict_test(&arena, h[0]));
    assert_eq!(s.add_node(&arena, h[0]), Err(StructureError::PolicyRejected));
    assert_eq!(s.add_node(&arena, h[1]), Err(StructureError::PolicyRejected));
    assert_eq!(s.nodes.len(), 0);
    assert!(!s.has_first_node);
    assert!(s.root.is_none());
}

#[test]
fn semi_strict_with_a_first_node() {
    let (mut arena, h) = arena_of(&["root", "lone", "x", "y", "kid", "up"]);
    h[2].add_child(&mut arena, h[3]);
    h[0].add_child(&mut arena, h[4]);
    h[5].add_child(&mut arena, h[0]);
    let mut s = structure(&arena, Some(h[0]), "semi-strict");
    assert!(s.has_first_node);
    // an isolated node is accepted once a first node is held
    assert!(s.semi_strict_test(&arena, h[1]));
    assert_eq!(s.add_node(&arena, h[1]), Ok(h[1]));
    // a node with relations, none of them registered, is rejected
    assert!(!s.semi_strict_test(&arena, h[2]));
    assert_eq!(s.add_node(&arena, h[2]), Err(StructureError::PolicyRejected));
    assert_eq!(s.add_node(&arena, h[3]), Err(StructureError::PolicyRejected));
    assert_eq!(s.nodes.len(), 2);
    // one registered parent is enough
    assert_eq!(s.add_node(&arena, h[4]), Ok(h[4]));
    // one registered child is enough
    assert_eq!(s.add_node(&arena, h[5]), Ok(h[5]));
    assert_eq!(s.nodes.len(), 4);
    assert_eq!(s.root, Some(h[0]));
}

#[test]
fn strict_takes_any_first_node_and_then_asks_for_every_neighbour() {
    let (mut arena, h) = arena_of(&["a", "b", "c", "d"]);
    h[0].add_child(&mut arena, h[1]);
    h[1].add_child(&mut arena, h[2]);
    let mut s = structure(&arena, None, "strict");
    assert!(s.strict_test(&arena, h[1]));
    assert_eq!(s.add_node(&arena, h[1]), Ok(h[1]));
    // "a" has its one neighbour registered
    assert_eq!(s.add_node(&arena, h[0]), Ok(h[0]));
    // an isolated node has no neighbour that could be missing
    assert_eq!(s.add_node(&arena, h[3]), Ok(h[3]));
    assert_eq!(s.nodes.len(), 3);
    // "c" gains an unregistered child and is turned down
    let (mut arena2, g) = arena_of(&["a", "b", "c"]);
    g[0].add_child(&mut arena2, g[1]);
    g[1].add_child(&mut arena2, g[2]);
    let mut t = structure(&arena2, Some(g[0]), "strict");
    assert!(!t.strict_test(&arena2, g[1]));
    assert_eq!(t.add_node(&arena2, g[1]), Err(StructureError::PolicyRejected));
    assert_eq!(t.add_node(&arena2, g[2]), Err(StructureError::PolicyRejected));
    assert_eq!(t.nodes.len(), 1);
}

#[test]
fn semi_strict_path_deleting_the_middle_fails() {
    // a is the parent of b, b is the parent of c
    let (mut arena, h) = arena_of(&["a", "b", "c"]);
    h[0].add_child(&mut arena, h[1]);
    h[1].add_child(&mut arena, h[2]);
    let mut s = structure(&arena, Some(h[0]), "semi-strict");
    assert_eq!(s.add_node(&arena, h[1]), Ok(h[1]));
    assert_eq!(s.add_node(&arena, h[2]), Ok(h[2]));
    assert_eq!(
        s.delete_node_by_key(&mut arena, "b"),
        Err(StructureError::StrictnessViolation)
    );
    assert_eq!(s.nodes.len(), 3);
    assert_eq!(s.root, Some(h[0]));
    assert!(s.has_first_node);
    assert_eq!(h[1].parents(&arena), &vec![h[0]]);
    assert_eq!(h[1].children(&arena), &vec![h[2]]);
    assert_eq!(h[0].children(&arena), &vec![h[1]]);
}

#[test]
fn semi_strict_star_deleting_an_endpoint_succeeds() {
    // b is the parent of both a and c: the path a - b - c
    let (mut arena, h) = arena_of(&["a", "b", "c"]);
    h[1].add_child(&mut arena, h[0]);
    h[1].add_child(&mut arena, h[2]);
    let mut s = structure(&arena, Some(h[1]), "semi-strict");
    assert_eq!(s.add_node(&arena, h[0]), Ok(h[0]));
    assert_eq!(s.add_node(&arena, h[2]), Ok(h[2]));
    // deleting b would leave a and c without a registered relation
    assert_eq!(
        s.delete_node_by_key(&mut arena, "b"),
        Err(StructureError::StrictnessViolation)
    );
    // deleting a leaves b with c
    assert_eq!(s.delete_node_by_key(&mut arena, "a"), Ok(()));
    assert_eq!(s.nodes.len(), 2);
    assert_eq!(s.find_node_by_key("a"), None);
    assert_eq!(h[1].children(&arena), &vec![h[2]]);
    assert!(h[0].parents(&arena).is_empty());
    // now deleting c would leave b with nothing
    assert_eq!(
        s.delete_node_by_key(&mut arena, "c"),
        Err(StructureError::StrictnessViolation)
    );
}

#[test]
fn semi_strict_chain_endpoint_meets_the_one_parent_one_child_rule() {
    // a is the parent of b, b is the parent of c: b has exactly one parent
    // and exactly one child, so it fails the neighbour test outright
    let (mut arena, h) = arena_of(&["a", "b", "c"]);
    h[0].add_child(&mut arena, h[1]);
    h[1].add_child(&mut arena, h[2]);
    let mut s = structure(&arena, Some(h[0]), "semi-strict");
    assert_eq!(s.add_node(&arena, h[1]), Ok(h[1]));
    assert_eq!(s.add_node(&arena, h[2]), Ok(h[2]));
    assert!(!s.semi_strict_check_for_one(&arena, h[1], "a"));
    assert_eq!(
        s.delete_node_by_key(&mut arena, "a"),
        Err(StructureError::StrictnessViolation)
    );
    assert_eq!(
        s.delete_node_by_key(&mut arena, "c"),
        Err(StructureError::StrictnessViolation)
    );
    assert_eq!(s.nodes.len(), 3);
}

#[test]
fn neighbour_test_scans_children_and_parents() {
    let (mut arena, h) = arena_of(&["n", "kid", "twin", "up", "out"]);
    h[0].add_child(&mut arena, h[1]);
    h[0].add_child(&mut arena, h[2]);
    h[0].add_parent(&mut arena, h[3]);
    h[0].add_parent(&mut arena, h[4]);
    let mut s = structure(&arena, None, "un-strict");
    assert_eq!(s.add_node(&arena, h[1]), Ok(h[1]));
    // the only registered neighbour is the excluded one
    assert!(!s.semi_strict_check_for_one(&arena, h[0], "kid"));
    assert!(s.semi_strict_check_for_one(&arena, h[0], "twin"));
    assert_eq!(s.add_node(&arena, h[3]), Ok(h[3]));
    // a registered parent counts as well
    assert!(s.semi_strict_check_for_one(&arena, h[0], "kid"));
    // nothing registered around an unrelated node
    assert!(!s.semi_strict_check_for_one(&arena, h[4], "kid"));
}

#[test]
fn semi_strict_deletes_an_isolated_node() {
    let (mut arena, h) = arena_of(&["a", "b"]);
    let mut s = structure(&arena, Some(h[0]), "semi-strict");
    assert_eq!(s.add_node(&arena, h[1]), Ok(h[1]));
    assert_eq!(s.delete_node_by_key(&mut arena, "b"), Ok(()));
    assert_eq!(s.nodes.len(), 1);
    assert_eq!(s.delete_node_by_key(&mut arena, "a"), Ok(()));
    assert_eq!(s.nodes.len(), 0);
    assert!(!s.has_first_node);
    assert_eq!(s.root, None);
}

#[test]
fn isolated_node_stays_when_the_flag_is_down() {
    let (mut arena, h) = arena_of(&["a"]);
    let mut s = structure(&arena, Some(h[0]), "semi-strict");
    s.has_first_node = false;
    assert_eq!(
        s.delete_node_by_key(&mut arena, "a"),
        Err(StructureError::StrictnessViolation)
    );
    assert_eq!(s.nodes.len(), 1);
    assert_eq!(s.root, Some(h[0]));
}

#[test]
fn remove_node_by_key_keeps_the_relations() {
    let (mut arena, h) = arena_of(&["a", "b", "c"]);
    h[1].add_child(&mut arena, h[0]);
    h[1].add_child(&mut arena, h[2]);
    let mut s = structure(&arena, Some(h[1]), "semi-strict");
    assert_eq!(s.add_node(&arena, h[0]), Ok(h[0]));
    assert_eq!(s.add_node(&arena, h[2]), Ok(h[2]));
    assert_eq!(s.remove_node_by_key(&arena, "zzz"), Err(StructureError::NotFound));
    assert_eq!(
        s.remove_node_by_key(&arena, "b"),
        Err(StructureError::StrictnessViolation)
    );
    assert_eq!(s.nodes.len(), 3);
    assert_eq!(s.remove_node_by_key(&arena, "a"), Ok(()));
    assert_eq!(s.nodes.len(), 2);
    assert_eq!(s.find_node_by_key("a"), None);
    assert_eq!(h[0].parents(&arena), &vec![h[1]]);
    assert_eq!(h[1].children(&arena), &vec![h[0], h[2]]);
    assert_eq!(s.root, Some(h[1]));
}

#[test]
fn remove_node_by_key_in_un_strict_mode() {
    let (mut arena, h) = arena_of(&["a", "b"]);
    h[0].add_child(&mut arena, h[1]);
    let mut s = structure(&arena, Some(h[0]), "un-strict");
    assert_eq!(s.add_node(&arena, h[1]), Ok(h[1]));
    assert_eq!(s.remove_node_by_key(&arena, "a"), Ok(()));
    assert_eq!(s.root, None);
    assert!(s.has_first_node);
    assert_eq!(s.remove_node_by_key(&arena, "b"), Ok(()));
    assert!(!s.has_first_node);
    assert_eq!(h[0].children(&arena), &vec![h[1]]);
}

#[test]
fn nodes_with_one_key_are_one_registration() {
    let mut arena: Arena<String> = Arena::new();
    let first = NodeRef::new(&mut arena, "k".to_string(), "first".to_string());
    let second = NodeRef::new(&mut arena, "k".to_string(), "second".to_string());
    let mut s = structure(&arena, None, "un-strict");
    assert_eq!(s.add_node(&arena, first), Ok(first));
    assert_eq!(s.add_node(&arena, second), Ok(second));
    assert_eq!(s.nodes.len(), 1);
    assert_eq!(s.find_node_by_key("k"), Some(second));
}

#[test]
fn find_node_by_key_reads_the_registry() {
    let (arena, h) = arena_of(&["a", "b"]);
    let mut s = structure(&arena, None, "un-strict");
    assert_eq!(s.find_node_by_key("a"), None);
    assert_eq!(s.add_node(&arena, h[0]), Ok(h[0]));
    assert_eq!(s.find_node_by_key("a"), Some(h[0]));
    assert_eq!(s.find_node_by_key("b"), None);
    assert_eq!(s.find_node_by_key("A"), None);
}
