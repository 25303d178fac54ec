use crate::chunk::{encode_chunk, encode_chunks, lemma_encode_chunks_push, Chunk, ChunkModel};
use crate::component::{kind_to_tag, spec_kind_of_tag, spec_tag, tag_to_kind, Component, ComponentKind};
use vstd::bytes::{
    spec_u64_from_le_bytes, spec_u64_to_le_bytes, u32_to_le_bytes, u64_from_le_bytes,
    u64_to_le_bytes,
};
use vstd::prelude::*;

verus! {

/// The payload of a component's value: eight bytes, little endian.
pub open spec fn value_bytes(v: i64) -> Seq<u8> {
    spec_u64_to_le_bytes(v as u64)
}

/// The chunk that encodes a component.
pub open spec fn component_chunk(c: Component) -> ChunkModel {
    (spec_tag(c.kind), value_bytes(c.value))
}

pub open spec fn component_chunks(cs: Seq<Component>) -> Seq<ChunkModel> {
    cs.map_values(|c: Component| component_chunk(c))
}

/// The byte stream of a sequence of components.
pub open spec fn spec_serialize(cs: Seq<Component>) -> Seq<u8> {
    encode_chunks(component_chunks(cs))
}

/// Why one chunk does not decode to a component.
#[derive(Debug, Clone, Copy, PartialEq, Eq, Structural)]
pub enum DecodeError {
    /// The tag names no known kind.
    UnknownKind { tag: u8 },
    /// The payload is not the eight bytes that the kind's value takes.
    BadPayloadLength { kind: ComponentKind, length: usize },
}

/// The semantic decoding of one chunk.
pub open spec fn decode_chunk(c: ChunkModel) -> Result<Component, DecodeError> {
    match spec_kind_of_tag(c.0) {
        None => Err(DecodeError::UnknownKind { tag: c.0 }),
        Some(kind) => if c.1.len() == 8 {
            Ok(Component { kind, value: spec_u64_from_le_bytes(c.1) as i64 })
        } else {
            Err(DecodeError::BadPayloadLength { kind, length: c.1.len() as usize })
        },
    }
}

/// The components that a sequence of chunks decodes to, in order, leaving out
/// each chunk that does not decode.
pub open spec fn decode_chunks(cs: Seq<ChunkModel>) -> Seq<Component>
    decreases cs.len(),
{
    if cs.len() == 0 {
        Seq::empty()
    } else {
        let init = decode_chunks(cs.drop_last());
        match decode_chunk(cs.last()) {
            Ok(c) => init.push(c),
            Err(_) => init,
        }
    }
}

/// Returns the bytes of one component's chunk.
pub fn encode_component(c: &Component) -> (bytes: Vec<u8>)
    ensures
        bytes@ == encode_chunk(component_chunk(*c)),
{
    let mut bytes: Vec<u8> = Vec::new();
    bytes.push(kind_to_tag(c.kind));
    let mut length = u32_to_le_bytes(8);
    bytes.append(&mut length);
    let mut payload = u64_to_le_bytes(c.value as u64);
    bytes.append(&mut payload);
    assert(bytes@ =~= encode_chunk(component_chunk(*c)));
    bytes
}

/// Returns the byte stream of `components`: their chunks concatenated in order.
pub fn serialize(components: &[Component]) -> (bytes: Vec<u8>)
    ensures
        bytes@ == spec_serialize(components@),
{
    let mut bytes: Vec<u8> = Vec::new();
    let mut i: usize = 0;
    assert(component_chunks(components@.subrange(0, 0)) =~= Seq::empty());
    while i < components.len()
        invariant
            i <= components@.len(),
            bytes@ == spec_serialize(components@.subrange(0, i as int)),
        decreases components@.len() - i,
    {
        let mut chunk = encode_component(&components[i]);
        assert(component_chunks(components@.subrange(0, i + 1)) =~= component_chunks(
            components@.subrange(0, i as int),
        ).push(component_chunk(components@[i as int])));
        proof {
            lemma_encode_chunks_push(
                component_chunks(components@.subrange(0, i as int)),
                component_chunk(components@[i as int]),
            );
        }
        bytes.append(&mut chunk);
        i = i + 1;
    }
    assert(components@.subrange(0, i as int) =~= components@);
    bytes
}

/// Decodes one chunk into the component it encodes.
pub fn chunk_to_component(chunk: &Chunk) -> (r: Result<Component, DecodeError>)
    ensures
        r == decode_chunk(chunk.model()),
{
    match tag_to_kind(chunk.kind) {
        None => Err(DecodeError::UnknownKind { tag: chunk.kind }),
        Some(kind) => {
            if chunk.data.len() == 8 {
                let raw = u64_from_le_bytes(chunk.data.as_slice());
                Ok(Component { kind, value: raw as i64 })
            } else {
                Err(DecodeError::BadPayloadLength { kind, length: chunk.data.len() })
            }
        },
    }
}

/// Decodes chunks into components, in order, skipping each chunk with an
/// unknown tag or a payload of the wrong width.
pub fn deserialize(chunks: Vec<Chunk>) -> (components: Vec<Component>)
    ensures
        components@ == decode_chunks(crate::chunk::models(chunks@)),
{
    let mut components: Vec<Component> = Vec::new();
    let mut i: usize = 0;
    assert(crate::chunk::models(chunks@).subrange(0, 0) =~= Seq::empty());
    while i < chunks.len()
        invariant
            i <= chunks@.len(),
            components@ == decode_chunks(crate::chunk::models(chunks@).subrange(0, i as int)),
        decreases chunks@.len() - i,
    {
        let ghost ms = crate::chunk::models(chunks@);
        assert(ms.subrange(0, i + 1).drop_last() =~= ms.subrange(0, i as int));
        match chunk_to_component(&chunks[i]) {
            Ok(c) => components.push(c),
            Err(_) => {},
        }
        i = i + 1;
    }
    assert(crate::chunk::models(chunks@).subrange(0, i as int) =~= crate::chunk::models(chunks@));
    components
}

} // verus!
