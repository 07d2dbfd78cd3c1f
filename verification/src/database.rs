//! A list of named structures, searched by name from the front.

use vstd::prelude::*;
use crate::structure::Structure;
use crate::text::str_eq;

verus! {

/// A structure and the name it goes by in a database.
pub struct PrimInitStructureWrapper {
    pub name: String,
    pub structure: Structure,
}

impl PrimInitStructureWrapper {
    /// Pairs a structure with a name.
    pub fn new(name: String, structure: Structure) -> (w: Self)
        ensures
            w.name == name,
            w.structure == structure,
    {
        PrimInitStructureWrapper { name, structure }
    }
}

/// Named structures in the order in which they were added. Names may repeat;
/// a search finds the earliest.
pub struct PrimInitDatabase {
    pub data: Vec<PrimInitStructureWrapper>,
}

/// Some entry goes by the name.
pub open spec fn has_name(data: Seq<PrimInitStructureWrapper>, name: Seq<char>) -> bool {
    exists|i: int| 0 <= i < data.len() && (#[trigger] data[i]).name@ == name
}

/// The entry at position `i` goes by the name and none before it does.
pub open spec fn is_first_named(
    data: Seq<PrimInitStructureWrapper>,
    name: Seq<char>,
    i: int,
) -> bool {
    &&& 0 <= i < data.len()
    &&& data[i].name@ == name
    &&& forall|j: int| 0 <= j < i ==> (#[trigger] data[j]).name@ != name
}

impl PrimInitDatabase {
    /// A database without structures.
    pub fn new() -> (db: Self)
        ensures
            db.data@ == Seq::<PrimInitStructureWrapper>::empty(),
    {
        PrimInitDatabase { data: Vec::new() }
    }

    /// Appends the structure, whatever names are already in use.
    pub fn add_structure(&mut self, structure: PrimInitStructureWrapper)
        ensures
            final(self).data@ == old(self).data@.push(structure),
    {
        self.data.push(structure);
    }

    /// The position of the earliest entry that goes by the name.
    pub fn position(&self, name: &str) -> (found: Option<usize>)
        ensures
            found is Some <==> has_name(self.data@, name@),
            found matches Some(i) ==> is_first_named(self.data@, name@, i as int),
    {
        let mut i: usize = 0;
        while i < self.data.len()
            invariant
                i <= self.data@.len(),
                forall|j: int| 0 <= j < i ==> (#[trigger] self.data@[j]).name@ != name@,
            decreases self.data@.len() - i,
        {
            if str_eq(self.data[i].name.as_str(), name) {
                return Some(i);
            }
            i = i + 1;
        }
        None
    }

    /// Exclusive access to the earliest entry that goes by the name. What the
    /// caller writes through the reference lands at that entry; the others
    /// stay.
    pub fn structure_mut(&mut self, name: &str) -> (found: Option<&mut PrimInitStructureWrapper>)
        ensures
            found is Some <==> has_name(old(self).data@, name@),
            found matches Some(w) ==> exists|i: int|
                is_first_named(old(self).data@, name@, i) && *w == old(self).data@[i]
                    && final(self).data@ == old(self).data@.update(i, *final(w)),
            found is None ==> final(self).data@ == old(self).data@,
    {
        match self.position(name) {
            Some(i) => {
                assert(is_first_named(self.data@, name@, i as int));
                Some(&mut self.data[i])
            },
            None => None,
        }
    }

    /// Read access to the earliest entry that goes by the name.
    pub fn structure(&self, name: &str) -> (found: Option<&PrimInitStructureWrapper>)
        ensures
            found is Some <==> has_name(self.data@, name@),
            found matches Some(w) ==> exists|i: int|
                is_first_named(self.data@, name@, i) && *w == self.data@[i],
    {
        match self.position(name) {
            Some(i) => {
                assert(is_first_named(self.data@, name@, i as int));
                Some(&self.data[i])
            },
            None => None,
        }
    }
}

} // verus!
