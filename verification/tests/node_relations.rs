use priminit::node::{Arena, Node, NodeRef};

fn arena_of(keys: &[&str]) -> (Arena<String>, Vec<NodeRef>) {
    let mut arena: Arena<String> = Arena::new();
    let mut handles = Vec::new();
    for k in keys {
        handles.push(NodeRef::new(&mut arena, k.to_string(), format!("value of {}", k)));
    }
    (arena, handles)
}

fn keys_of(arena: &Arena<String>, rel: &Vec<NodeRef>) -> Vec<String> {
    rel.iter().map(|h| h.key(arena)).collect()
}

#[test]
fn new_node_is_isolated() {
    let mut arena: Arena<String> = Arena::new();
    assert_eq!(arena.len(), 0);
    let a = NodeRef::new(&mut arena, "a".to_string(), "Ann".to_string());
    assert_eq!(arena.len(), 1);
    assert!(arena.holds(a));
    assert_eq!(a.key(&arena), "a");
    assert_eq!(a.value(&arena), "Ann");
    assert!(a.parents(&arena).is_empty());
    assert!(a.children(&arena).is_empty());
}

#[test]
fn node_new_is_the_same_constructor() {
    let mut arena: Arena<u32> = Arena::new();
    let a = Node::new(&mut arena, "a".to_string(), 7);
    let b = NodeRef::new(&mut arena, "b".to_string(), 8);
    assert_eq!(a.index, 0);
    assert_eq!(b.index, 1);
    assert_eq!(*a.value(&arena), 7);
    assert_eq!(*b.value(&arena), 8);
    assert!(!arena.holds(NodeRef { index: 2 }));
}

#[test]
fn add_child_links_both_sides() {
    let (mut arena, h) = arena_of(&["a", "b"]);
    h[0].add_child(&mut arena, h[1]);
    assert_eq!(h[0].children(&arena), &vec![h[1]]);
    assert_eq!(h[1].parents(&arena), &vec![h[0]]);
    assert!(h[0].parents(&arena).is_empty());
    assert!(h[1].children(&arena).is_empty());
}

#[test]
fn add_parent_links_both_sides() {
    let (mut arena, h) = arena_of(&["a", "b"]);
    h[0].add_parent(&mut arena, h[1]);
    assert_eq!(h[0].parents(&arena), &vec![h[1]]);
    assert_eq!(h[1].children(&arena), &vec![h[0]]);
    assert!(h[0].children(&arena).is_empty());
    assert!(h[1].parents(&arena).is_empty());
}

#[test]
fn add_parent_and_add_child_agree() {
    let (mut left, l) = arena_of(&["a", "b"]);
    let (mut right, r) = arena_of(&["a", "b"]);
    l[0].add_child(&mut left, l[1]);
    r[1].add_parent(&mut right, r[0]);
    for i in 0..2 {
        assert_eq!(l[i].parents(&left), r[i].parents(&right));
        assert_eq!(l[i].children(&left), r[i].children(&right));
    }
}

#[test]
fn relinking_changes_nothing() {
    let (mut arena, h) = arena_of(&["a", "b"]);
    h[0].add_child(&mut arena, h[1]);
    h[0].add_child(&mut arena, h[1]);
    h[1].add_parent(&mut arena, h[0]);
    assert_eq!(h[0].children(&arena).len(), 1);
    assert_eq!(h[1].parents(&arena).len(), 1);
}

#[test]
fn relations_keep_linking_order() {
    let (mut arena, h) = arena_of(&["a", "b", "c", "d"]);
    h[0].add_child(&mut arena, h[2]);
    h[0].add_child(&mut arena, h[1]);
    h[0].add_child(&mut arena, h[3]);
    assert_eq!(keys_of(&arena, h[0].children(&arena)), vec!["c", "b", "d"]);
}

#[test]
fn nodes_with_one_key_are_one_entry_of_a_relation() {
    let mut arena: Arena<String> = Arena::new();
    let p = NodeRef::new(&mut arena, "p".to_string(), "parent".to_string());
    let first = NodeRef::new(&mut arena, "k".to_string(), "first".to_string());
    let second = NodeRef::new(&mut arena, "k".to_string(), "second".to_string());
    assert!(first.same_key(&arena, second));
    assert!(second.same_key(&arena, first));
    assert!(!first.same_key(&arena, p));
    assert_eq!(first.key(&arena), second.key(&arena));
    assert_ne!(first.value(&arena), second.value(&arena));
    p.add_child(&mut arena, first);
    p.add_child(&mut arena, second);
    assert_eq!(p.children(&arena), &vec![first]);
    assert_eq!(first.parents(&arena), &vec![p]);
    assert_eq!(second.parents(&arena), &vec![p]);
    assert_eq!(p.get_child_by_key(&arena, "k"), Some(first));
}

#[test]
fn relations_are_mutual_after_a_run_of_links() {
    let (mut arena, h) = arena_of(&["a", "b", "c", "d", "e"]);
    h[0].add_child(&mut arena, h[1]);
    h[2].add_parent(&mut arena, h[1]);
    h[2].add_child(&mut arena, h[0]);
    h[3].add_parent(&mut arena, h[3]);
    h[4].add_parent(&mut arena, h[0]);
    h[0].add_child(&mut arena, h[1]);
    for a in &h {
        for b in &h {
            let key_a = a.key(&arena);
            let key_b = b.key(&arena);
            assert_eq!(
                a.has_child_by_key(&arena, &key_b),
                b.has_parent_by_key(&arena, &key_a)
            );
            assert_eq!(
                a.has_parent_by_key(&arena, &key_b),
                b.has_child_by_key(&arena, &key_a)
            );
        }
    }
    assert!(h[0].has_child_by_key(&arena, "b"));
    assert!(h[2].has_child_by_key(&arena, "a"));
    assert!(h[3].has_child_by_key(&arena, "d"));
    assert!(!h[4].has_child_by_key(&arena, "a"));
}

#[test]
fn cycles_are_permitted() {
    let (mut arena, h) = arena_of(&["a", "b", "c"]);
    h[0].add_child(&mut arena, h[1]);
    h[1].add_child(&mut arena, h[2]);
    h[2].add_child(&mut arena, h[0]);
    assert_eq!(h[0].parents(&arena), &vec![h[2]]);
    assert_eq!(h[0].children(&arena), &vec![h[1]]);
    assert_eq!(h[2].children(&arena), &vec![h[0]]);
}

#[test]
fn lookups_by_key() {
    let (mut arena, h) = arena_of(&["a", "b", "c"]);
    h[0].add_child(&mut arena, h[1]);
    h[0].add_parent(&mut arena, h[2]);
    assert!(h[0].has_child_by_key(&arena, "b"));
    assert!(!h[0].has_child_by_key(&arena, "c"));
    assert!(h[0].has_parent_by_key(&arena, "c"));
    assert!(!h[0].has_parent_by_key(&arena, "b"));
    assert_eq!(h[0].get_child_by_key(&arena, "b"), Some(h[1]));
    assert_eq!(h[0].get_child_by_key(&arena, "c"), None);
    assert_eq!(h[0].get_parent_by_key(&arena, "c"), Some(h[2]));
    assert_eq!(h[0].get_parent_by_key(&arena, ""), None);
    assert!(!h[1].has_child_by_key(&arena, "a"));
}

#[test]
fn edit_value_keeps_key_and_relations() {
    let (mut arena, h) = arena_of(&["a", "b"]);
    h[0].add_child(&mut arena, h[1]);
    h[0].edit_value(&mut arena, "changed".to_string());
    assert_eq!(h[0].value(&arena), "changed");
    assert_eq!(h[0].key(&arena), "a");
    assert_eq!(h[0].children(&arena), &vec![h[1]]);
    assert_eq!(h[1].value(&arena), "value of b");
    assert_eq!(h[1].parents(&arena), &vec![h[0]]);
}

#[test]
fn rc_clone_names_the_same_node() {
    let (mut arena, h) = arena_of(&["a"]);
    let again = h[0].rc_clone();
    assert_eq!(again, h[0]);
    again.edit_value(&mut arena, "seen by both".to_string());
    assert_eq!(h[0].value(&arena), "seen by both");
}

#[test]
fn borrow_reads_and_borrow_mut_writes() {
    let (mut arena, h) = arena_of(&["a", "b"]);
    assert_eq!(h[1].borrow(&arena).key, "b");
    assert_eq!(h[1].borrow(&arena).value, "value of b");
    h[1].borrow_mut(&mut arena).value = "written".to_string();
    assert_eq!(h[1].value(&arena), "written");
    assert_eq!(h[0].value(&arena), "value of a");
    assert_eq!(arena.len(), 2);
}

#[test]
fn delete_node_unlinks_every_neighbour() {
    let (mut arena, h) = arena_of(&["a", "b", "c", "d"]);
    h[1].add_parent(&mut arena, h[0]);
    h[1].add_child(&mut arena, h[2]);
    h[3].add_child(&mut arena, h[2]);
    h[1].delete_node(&mut arena);
    assert!(h[1].parents(&arena).is_empty());
    assert!(h[1].children(&arena).is_empty());
    assert!(h[0].children(&arena).is_empty());
    assert_eq!(h[2].parents(&arena), &vec![h[3]]);
    assert_eq!(h[3].children(&arena), &vec![h[2]]);
    assert_eq!(h[1].key(&arena), "b");
    assert_eq!(h[1].value(&arena), "value of b");
    assert_eq!(arena.len(), 4);
}

#[test]
fn delete_node_of_a_self_related_node() {
    let (mut arena, h) = arena_of(&["a", "b"]);
    h[0].add_child(&mut arena, h[0]);
    h[0].add_child(&mut arena, h[1]);
    assert_eq!(h[0].parents(&arena), &vec![h[0]]);
    h[0].delete_node(&mut arena);
    assert!(h[0].parents(&arena).is_empty());
    assert!(h[0].children(&arena).is_empty());
    assert!(h[1].parents(&arena).is_empty());
}

#[test]
fn delete_node_of_an_isolated_node_changes_nothing() {
    let (mut arena, h) = arena_of(&["a", "b", "c"]);
    h[0].add_child(&mut arena, h[1]);
    h[2].delete_node(&mut arena);
    assert_eq!(h[0].children(&arena), &vec![h[1]]);
    assert_eq!(h[1].parents(&arena), &vec![h[0]]);
}

#[test]
fn delete_node_keeps_relations_between_others_in_order() {
    let (mut arena, h) = arena_of(&["a", "b", "c", "d"]);
    h[0].add_child(&mut arena, h[1]);
    h[0].add_child(&mut arena, h[2]);
    h[0].add_child(&mut arena, h[3]);
    h[2].delete_node(&mut arena);
    assert_eq!(h[0].children(&arena), &vec![h[1], h[3]]);
}

#[test]
fn arenas_built_by_linking_are_well_formed() {
    let (mut arena, h) = arena_of(&["a", "b", "c"]);
    assert!(arena.is_well_formed());
    h[0].add_child(&mut arena, h[1]);
    h[1].add_child(&mut arena, h[2]);
    h[2].add_child(&mut arena, h[0]);
    assert!(arena.is_well_formed());
    h[1].delete_node(&mut arena);
    assert!(arena.is_well_formed());
}

#[test]
fn hand_written_relations_can_break_well_formedness() {
    let (mut arena, h) = arena_of(&["a", "b"]);
    h[0].borrow_mut(&mut arena).children.push(NodeRef { index: 9 });
    assert!(!arena.is_well_formed());
    h[0].borrow_mut(&mut arena).children.clear();
    assert!(arena.is_well_formed());
    h[0].borrow_mut(&mut arena).parents.push(h[1]);
    h[0].borrow_mut(&mut arena).parents.push(h[1]);
    assert!(!arena.is_well_formed());
    let mut other: Arena<String> = Arena::new();
    let x = NodeRef::new(&mut other, "k".to_string(), "one".to_string());
    let y = NodeRef::new(&mut other, "k".to_string(), "two".to_string());
    let z = NodeRef::new(&mut other, "z".to_string(), "three".to_string());
    z.borrow_mut(&mut other).children.push(x);
    assert!(other.is_well_formed());
    z.borrow_mut(&mut other).children.push(y);
    assert!(!other.is_well_formed());
}
