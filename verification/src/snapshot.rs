//! The byte snapshot of one node: its key, its value and the keys of its
//! parents and of its children, each as a length-prefixed segment.

use vstd::prelude::*;
use vstd::bytes::{lemma_auto_spec_u64_to_from_le_bytes, spec_u64_to_le_bytes, u64_to_le_bytes};
use vstd::utf8::encode_utf8;
use crate::graph::{in_graph, key_of, keys_of, relation_wf, Graph};
use crate::node::{Arena, NodeRef};

verus! {

/// The error type of the `bincode` crate, carried through unread.
#[verifier::external_type_specification]
#[verifier::external_body]
pub struct ExErrorKind(bincode::ErrorKind);

/// Which part of a snapshot could not be encoded.
#[derive(Clone, Copy, Debug, PartialEq, Eq, Structural)]
pub enum SnapshotError {
    /// The key of the node.
    Key,
    /// The keys of its parents.
    Parents,
    /// The keys of its children.
    Children,
}

/// The encoding of a string: the number of its UTF-8 bytes as eight
/// little-endian bytes, then those bytes.
pub open spec fn encoded_str(s: Seq<char>) -> Seq<u8> {
    spec_u64_to_le_bytes(encode_utf8(s).len() as u64) + encode_utf8(s)
}

/// The encodings of the strings of a list, one after the other.
pub open spec fn encoded_strs(list: Seq<Seq<char>>) -> Seq<u8>
    decreases list.len(),
{
    if list.len() == 0 {
        Seq::empty()
    } else {
        encoded_strs(list.drop_last()) + encoded_str(list.last())
    }
}

/// The encoding of a list of strings: the number of its items as eight
/// little-endian bytes, then the encoding of each item in order.
pub open spec fn encoded_list(list: Seq<Seq<char>>) -> Seq<u8> {
    spec_u64_to_le_bytes(list.len() as u64) + encoded_strs(list)
}

/// A segment: the length of the payload as eight little-endian bytes, then
/// the payload.
pub open spec fn framed(payload: Seq<u8>) -> Seq<u8> {
    spec_u64_to_le_bytes(payload.len() as u64) + payload
}

/// The four segments of a snapshot in their fixed order, with nothing
/// before, between or after them.
pub open spec fn snapshot_bytes(
    key: Seq<u8>,
    value: Seq<u8>,
    parents: Seq<u8>,
    children: Seq<u8>,
) -> Seq<u8> {
    framed(key) + framed(value) + framed(parents) + framed(children)
}

/// The snapshot of the node `h` around the given encoding of its value.
pub open spec fn node_snapshot<T>(g: Graph<T>, h: NodeRef, value: Seq<u8>) -> Seq<u8> {
    snapshot_bytes(
        encoded_str(key_of(g, h)),
        value,
        encoded_list(keys_of(g, g[h.index as int].parents)),
        encoded_list(keys_of(g, g[h.index as int].children)),
    )
}

/// A segment is eight bytes longer than its payload, and a snapshot takes
/// thirty-two bytes more than its four payloads together.
pub proof fn lemma_snapshot_len(key: Seq<u8>, value: Seq<u8>, parents: Seq<u8>, children: Seq<u8>)
    ensures
        framed(key).len() == 8 + key.len(),
        snapshot_bytes(key, value, parents, children).len() == 32 + key.len() + value.len()
            + parents.len() + children.len(),
{
    lemma_auto_spec_u64_to_from_le_bytes();
}

/// What `bincode::serialize` comes to on a string: the bytes it returns, or
/// `None` where it returns an error. The call reads nothing but the string.
pub uninterp spec fn bincode_of_str(s: Seq<char>) -> Option<Seq<u8>>;

/// What `bincode::serialize` comes to on a list of strings: the bytes it
/// returns, or `None` where it returns an error. The call reads nothing but
/// the list.
pub uninterp spec fn bincode_of_str_list(list: Seq<Seq<char>>) -> Option<Seq<u8>>;

/// What one call of the encoder came to: its bytes, or `None` for an error.
pub open spec fn encoder_outcome(r: Result<Vec<u8>, Box<bincode::ErrorKind>>) -> Option<Seq<u8>> {
    match r {
        Ok(bytes) => Some(bytes@),
        Err(_) => None,
    }
}

/// Calls `bincode::serialize` on a string. The outcome is the one that
/// [`bincode_of_str`] names. With the settings that this entry point fixes
/// (fixed-width integers, little endian, no size limit) the bytes of a
/// successful call are the byte length of the string as a `u64` and then its
/// UTF-8 bytes. Whether a call succeeds is not claimed.
#[verifier::external_body]
fn encode_key(key: &String) -> (r: Result<Vec<u8>, Box<bincode::ErrorKind>>)
    ensures
        encoder_outcome(r) == bincode_of_str(key@),
        r matches Ok(bytes) ==> bytes@ == encoded_str(key@),
{
    bincode::serialize(key)
}

/// Calls `bincode::serialize` on a list of strings. The outcome is the one
/// that [`bincode_of_str_list`] names. With the settings that this entry
/// point fixes the bytes of a successful call are the number of items as a
/// `u64` and then each item as a string is written. Whether a call succeeds
/// is not claimed.
#[verifier::external_body]
fn encode_key_list(keys: &Vec<String>) -> (r: Result<Vec<u8>, Box<bincode::ErrorKind>>)
    ensures
        encoder_outcome(r) == bincode_of_str_list(keys.deep_view()),
        r matches Ok(bytes) ==> bytes@ == encoded_list(keys.deep_view()),
{
    bincode::serialize(keys)
}

/// Appends the payload to the buffer as one segment.
pub fn write_with_length(buffer: &mut Vec<u8>, data: Vec<u8>)
    ensures
        final(buffer)@ == old(buffer)@ + framed(data@),
{
    let ghost payload = data@;
    let mut data = data;
    let mut prefix = u64_to_le_bytes(data.len() as u64);
    buffer.append(&mut prefix);
    buffer.append(&mut data);
    assert(buffer@ =~= old(buffer)@ + framed(payload));
}

/// Frames the four payloads of a snapshot.
pub fn frame_snapshot(key: Vec<u8>, value: Vec<u8>, parents: Vec<u8>, children: Vec<u8>) -> (bytes:
    Vec<u8>)
    ensures
        bytes@ == snapshot_bytes(key@, value@, parents@, children@),
        bytes@.len() == 32 + key@.len() + value@.len() + parents@.len() + children@.len(),
{
    let mut bytes: Vec<u8> = Vec::new();
    write_with_length(&mut bytes, key);
    write_with_length(&mut bytes, value);
    write_with_length(&mut bytes, parents);
    write_with_length(&mut bytes, children);
    proof {
        assert(bytes@ =~= snapshot_bytes(key@, value@, parents@, children@));
        lemma_snapshot_len(key@, value@, parents@, children@);
    }
    bytes
}

/// Builds a snapshot from what the encoder returned for the key and for the
/// two key lists. The first part that failed, in the order key, parents,
/// children, names the error; with none failed the four payloads are framed.
pub fn assemble_snapshot(
    key: Result<Vec<u8>, Box<bincode::ErrorKind>>,
    value: Vec<u8>,
    parents: Result<Vec<u8>, Box<bincode::ErrorKind>>,
    children: Result<Vec<u8>, Box<bincode::ErrorKind>>,
) -> (r: Result<Vec<u8>, SnapshotError>)
    ensures
        match (key, parents, children) {
            (Ok(k), Ok(p), Ok(c)) => r matches Ok(bytes) && bytes@ == snapshot_bytes(
                k@,
                value@,
                p@,
                c@,
            ),
            (Err(_), _, _) => r == Err::<Vec<u8>, SnapshotError>(SnapshotError::Key),
            (Ok(_), Err(_), _) => r == Err::<Vec<u8>, SnapshotError>(SnapshotError::Parents),
            (Ok(_), Ok(_), Err(_)) => r == Err::<Vec<u8>, SnapshotError>(SnapshotError::Children),
        },
{
    let k = match key {
        Ok(k) => k,
        Err(_) => {
            return Err(SnapshotError::Key);
        },
    };
    let p = match parents {
        Ok(p) => p,
        Err(_) => {
            return Err(SnapshotError::Parents);
        },
    };
    let c = match children {
        Ok(c) => c,
        Err(_) => {
            return Err(SnapshotError::Children);
        },
    };
    Ok(frame_snapshot(k, value, p, c))
}

/// The keys of the nodes that a relation list names, in list order.
fn collect_keys<T>(arena: &Arena<T>, rel: &Vec<NodeRef>) -> (keys: Vec<String>)
    requires
        relation_wf(arena@, rel@),
    ensures
        keys.deep_view() == keys_of(arena@, rel@),
{
    let mut keys: Vec<String> = Vec::new();
    let mut i: usize = 0;
    while i < rel.len()
        invariant
            i <= rel@.len(),
            relation_wf(arena@, rel@),
            keys@.len() == i,
            forall|j: int| 0 <= j < i ==> (#[trigger] keys@[j])@ == keys_of(arena@, rel@)[j],
        decreases rel@.len() - i,
    {
        let h = rel[i];
        assert(in_graph(arena@, rel@[i as int]));
        keys.push(arena.nodes[h.index].key.clone());
        i = i + 1;
    }
    assert(keys.deep_view() =~= keys_of(arena@, rel@));
    keys
}

/// What the snapshot of the node `h` comes to, given what the encoder comes
/// to on its key and on its two key lists: the four segments where all three
/// were encoded, and else the first part that was not, in the order key,
/// parents, children.
pub open spec fn snapshot_outcome<T>(g: Graph<T>, h: NodeRef, value: Seq<u8>) -> Result<
    Seq<u8>,
    SnapshotError,
> {
    let node = g[h.index as int];
    match (
        bincode_of_str(node.key),
        bincode_of_str_list(keys_of(g, node.parents)),
        bincode_of_str_list(keys_of(g, node.children)),
    ) {
        (Some(k), Some(p), Some(c)) => Ok(snapshot_bytes(k, value, p, c)),
        (None, _, _) => Err(SnapshotError::Key),
        (Some(_), None, _) => Err(SnapshotError::Parents),
        (Some(_), Some(_), None) => Err(SnapshotError::Children),
    }
}

impl NodeRef {
    /// The snapshot of the node around the given encoding of its value:
    /// the encoded key, the value's bytes as they are, the encoded list of
    /// the parents' keys and the encoded list of the children's keys, each
    /// as a segment. Neighbours enter by key only. The call fails exactly
    /// where the encoder fails on the key or on one of the lists.
    pub fn serialize_node<T>(&self, arena: &Arena<T>, value_serialized: Vec<u8>) -> (r: Result<
        Vec<u8>,
        SnapshotError,
    >)
        requires
            arena.wf(),
            arena.contains(*self),
        ensures
            match snapshot_outcome(arena@, *self, value_serialized@) {
                Ok(expected) => r matches Ok(bytes) && bytes@ == expected,
                Err(e) => r == Err::<Vec<u8>, SnapshotError>(e),
            },
            r matches Ok(bytes) ==> bytes@ == node_snapshot(arena@, *self, value_serialized@),
    {
        proof {
            arena.lemma_relations_wf(*self);
        }
        let node = &arena.nodes[self.index];
        let parents = collect_keys(arena, &node.parents);
        let children = collect_keys(arena, &node.children);
        assemble_snapshot(
            encode_key(&node.key),
            value_serialized,
            encode_key_list(&parents),
            encode_key_list(&children),
        )
    }
}

} // verus!
