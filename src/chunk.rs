use vstd::bytes::{
    spec_u32_from_le_bytes, spec_u32_to_le_bytes, u32_from_le_bytes, u32_to_le_bytes,
};
use vstd::prelude::*;
use vstd::slice::{slice_subrange, slice_to_vec};

verus! {

/// A chunk as a value: its kind tag and its payload bytes.
pub type ChunkModel = (u8, Seq<u8>);

/// A wire-level record: a kind tag, the payload length and the payload.
pub struct Chunk {
    pub kind: u8,
    pub length: u32,
    pub data: Vec<u8>,
}

impl Chunk {
    /// The declared length is the payload's length.
    pub open spec fn wf(&self) -> bool {
        self.length as int == self.data@.len()
    }

    pub open spec fn model(&self) -> ChunkModel {
        (self.kind, self.data@)
    }
}

/// The models of a sequence of chunks.
pub open spec fn models(chunks: Seq<Chunk>) -> Seq<ChunkModel> {
    chunks.map_values(|c: Chunk| c.model())
}

/// A payload fits the four-byte length field.
pub open spec fn fits(c: ChunkModel) -> bool {
    c.1.len() <= u32::MAX
}

pub open spec fn all_fit(cs: Seq<ChunkModel>) -> bool {
    forall|i: int| 0 <= i < cs.len() ==> fits(#[trigger] cs[i])
}

/// The bytes of one chunk: `[kind][length, little endian][payload]`.
pub open spec fn encode_chunk(c: ChunkModel) -> Seq<u8> {
    seq![c.0] + spec_u32_to_le_bytes(c.1.len() as u32) + c.1
}

/// The bytes of a sequence of chunks, concatenated in order.
pub open spec fn encode_chunks(cs: Seq<ChunkModel>) -> Seq<u8>
    decreases cs.len(),
{
    if cs.len() == 0 {
        Seq::empty()
    } else {
        encode_chunk(cs[0]) + encode_chunks(cs.drop_first())
    }
}

/// The structural decoding of a byte stream: the chunks it is made of, in
/// order, or `None` where a header or a payload runs past the end.
pub open spec fn parse_stream(s: Seq<u8>) -> Option<Seq<ChunkModel>>
    decreases s.len(),
{
    if s.len() == 0 {
        Some(Seq::empty())
    } else if s.len() < 5 {
        None
    } else {
        let len = spec_u32_from_le_bytes(s.subrange(1, 5)) as int;
        if s.len() - 5 < len {
            None
        } else {
            match parse_stream(s.subrange(5 + len, s.len() as int)) {
                Some(rest) => Some(seq![(s[0], s.subrange(5, 5 + len))] + rest),
                None => None,
            }
        }
    }
}

/// The structural error: a chunk's header or payload overruns the buffer.
#[derive(Debug, Clone, Copy, PartialEq, Eq, Structural)]
pub enum StreamError {
    /// A chunk header or payload runs past the end of the buffer.
    Truncated,
}

/// Puts `prefix` in front of the chunks of a parse that may have failed.
pub open spec fn prepend(prefix: Seq<ChunkModel>, rest: Option<Seq<ChunkModel>>) -> Option<
    Seq<ChunkModel>,
> {
    match rest {
        Some(r) => Some(prefix + r),
        None => None,
    }
}

pub proof fn lemma_encode_chunks_push(cs: Seq<ChunkModel>, c: ChunkModel)
    ensures
        encode_chunks(cs.push(c)) == encode_chunks(cs) + encode_chunk(c),
    decreases cs.len(),
{
    if cs.len() == 0 {
        assert(cs.push(c).drop_first() =~= Seq::empty());
        assert(encode_chunks(Seq::<ChunkModel>::empty()) =~= Seq::<u8>::empty());
        assert(encode_chunk(c) + Seq::<u8>::empty() =~= encode_chunk(c));
    } else {
        assert(cs.push(c).drop_first() =~= cs.drop_first().push(c));
        lemma_encode_chunks_push(cs.drop_first(), c);
        assert(encode_chunks(cs.push(c)) =~= encode_chunks(cs) + encode_chunk(c));
    }
}

/// Appends the bytes of `chunk` to `out`.
fn append_chunk(out: &mut Vec<u8>, chunk: &Chunk)
    requires
        chunk.wf(),
    ensures
        final(out)@ == old(out)@ + encode_chunk(chunk.model()),
{
    out.push(chunk.kind);
    let mut length = u32_to_le_bytes(chunk.length);
    out.append(&mut length);
    let mut i: usize = 0;
    let ghost start = out@;
    while i < chunk.data.len()
        invariant
            i <= chunk.data@.len(),
            out@ == start + chunk.data@.subrange(0, i as int),
        decreases chunk.data@.len() - i,
    {
        out.push(chunk.data[i]);
        assert(chunk.data@.subrange(0, i + 1) =~= chunk.data@.subrange(0, i as int).push(
            chunk.data@[i as int],
        ));
        i = i + 1;
    }
    assert(chunk.data@.subrange(0, i as int) =~= chunk.data@);
    assert(out@ =~= old(out)@ + encode_chunk(chunk.model()));
}

/// Returns the bytes of `chunk`: its tag, its length and its payload.
pub fn chunk_to_bytes(chunk: &Chunk) -> (bytes: Vec<u8>)
    requires
        chunk.wf(),
    ensures
        bytes@ == encode_chunk(chunk.model()),
{
    let mut bytes: Vec<u8> = Vec::new();
    append_chunk(&mut bytes, chunk);
    assert(bytes@ =~= encode_chunk(chunk.model()));
    bytes
}

/// Splits a byte stream into its chunks, without looking at their payloads.
///
/// Fails exactly when the stream is not a whole number of chunks.
pub fn to_chunks(input: &Vec<u8>) -> (r: Result<Vec<Chunk>, StreamError>)
    ensures
        match r {
            Ok(chunks) => {
                &&& parse_stream(input@) == Some(models(chunks@))
                &&& forall|i: int| 0 <= i < chunks@.len() ==> (#[trigger] chunks@[i]).wf()
            },
            Err(_) => parse_stream(input@) is None,
        },
{
    let mut chunks: Vec<Chunk> = Vec::new();
    let mut cursor: usize = 0;
    let n = input.len();
    assert(input@.subrange(0, n as int) =~= input@);
    assert(models(chunks@) + parse_stream(input@)->0 =~= parse_stream(input@)->0);
    while cursor < n
        invariant
            n == input@.len(),
            cursor <= n,
            forall|i: int| 0 <= i < chunks@.len() ==> (#[trigger] chunks@[i]).wf(),
            parse_stream(input@) == prepend(
                models(chunks@),
                parse_stream(input@.subrange(cursor as int, n as int)),
            ),
        decreases n - cursor,
    {
        let ghost suffix = input@.subrange(cursor as int, n as int);
        if n - cursor < 5 {
            return Err(StreamError::Truncated);
        }
        let kind = input[cursor];
        let length = u32_from_le_bytes(slice_subrange(input.as_slice(), cursor + 1, cursor + 5));
        assert(suffix.subrange(1, 5) =~= input@.subrange(cursor + 1, cursor + 5));
        if n - cursor - 5 < length as usize {
            return Err(StreamError::Truncated);
        }
        let end = cursor + 5 + length as usize;
        let data = slice_to_vec(slice_subrange(input.as_slice(), cursor + 5, end));
        let chunk = Chunk { kind, length, data };
        assert(suffix.subrange(5 + length, suffix.len() as int) =~= input@.subrange(
            end as int,
            n as int,
        ));
        assert(suffix.subrange(5, 5 + length) =~= data@);
        let ghost before = chunks@;
        chunks.push(chunk);
        assert(models(chunks@) =~= models(before).push((kind, data@)));
        assert forall|r: Seq<ChunkModel>|
            models(before) + (seq![(kind, data@)] + r) =~= models(chunks@) + r by {}
        cursor = end;
    }
    assert(input@.subrange(n as int, n as int) =~= Seq::<u8>::empty());
    assert(models(chunks@) + Seq::<ChunkModel>::empty() =~= models(chunks@));
    Ok(chunks)
}

} // verus!
