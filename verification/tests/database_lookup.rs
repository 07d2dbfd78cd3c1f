use priminit::database::{PrimInitDatabase, PrimInitStructureWrapper};
use priminit::node::{Arena, NodeRef};
use priminit::structure::Structure;
use priminit::text::str_eq;

fn wrapper(arena: &Arena<u8>, name: &str, mode: &str) -> PrimInitStructureWrapper {
    PrimInitStructureWrapper::new(name.to_string(), Structure::new(arena, None, mode.to_string()))
}

#[test]
fn wrapper_keeps_name_and_structure() {
    let arena: Arena<u8> = Arena::new();
    let w = wrapper(&arena, "people", "semi-strict");
    assert_eq!(w.name, "people");
    assert_eq!(w.structure.mode, "semi-strict");
    assert!(!w.structure.has_first_node);
}

#[test]
fn empty_database_finds_nothing() {
    let mut db = PrimInitDatabase::new();
    assert!(db.data.is_empty());
    assert!(db.structure("people").is_none());
    assert!(db.structure_mut("people").is_none());
    assert_eq!(db.position("people"), None);
}

#[test]
fn structures_are_found_by_name() {
    let arena: Arena<u8> = Arena::new();
    let mut db = PrimInitDatabase::new();
    db.add_structure(wrapper(&arena, "people", "un-strict"));
    db.add_structure(wrapper(&arena, "places", "semi-strict"));
    assert_eq!(db.data.len(), 2);
    assert_eq!(db.position("places"), Some(1));
    assert_eq!(db.structure("people").unwrap().structure.mode, "un-strict");
    assert_eq!(db.structure("places").unwrap().structure.mode, "semi-strict");
    assert!(db.structure("things").is_none());
    assert!(db.structure("People").is_none());
}

#[test]
fn repeated_names_find_the_earliest() {
    let arena: Arena<u8> = Arena::new();
    let mut db = PrimInitDatabase::new();
    db.add_structure(wrapper(&arena, "other", "strict"));
    db.add_structure(wrapper(&arena, "twice", "un-strict"));
    db.add_structure(wrapper(&arena, "twice", "semi-strict"));
    assert_eq!(db.data.len(), 3);
    assert_eq!(db.position("twice"), Some(1));
    assert_eq!(db.structure("twice").unwrap().structure.mode, "un-strict");
    assert_eq!(db.structure_mut("twice").unwrap().structure.mode, "un-strict");
}

#[test]
fn structure_mut_writes_in_place() {
    let mut arena: Arena<u8> = Arena::new();
    let a = NodeRef::new(&mut arena, "a".to_string(), 1);
    let mut db = PrimInitDatabase::new();
    db.add_structure(wrapper(&arena, "people", "un-strict"));
    db.add_structure(wrapper(&arena, "places", "un-strict"));
    {
        let w = db.structure_mut("places").unwrap();
        assert_eq!(w.structure.add_node(&arena, a), Ok(a));
    }
    assert_eq!(db.structure("places").unwrap().structure.find_node_by_key("a"), Some(a));
    assert_eq!(db.structure("people").unwrap().structure.find_node_by_key("a"), None);
    assert!(db.structure_mut("things").is_none());
}

#[test]
fn str_eq_compares_characters() {
    assert!(str_eq("", ""));
    assert!(str_eq("un-strict", "un-strict"));
    assert!(!str_eq("un-strict", "un-strick"));
    assert!(!str_eq("a", "ab"));
    assert!(!str_eq("ab", "a"));
    assert!(str_eq("é€𝄞", "é€𝄞"));
    assert!(!str_eq("é", "e"));
}
