use crate::chunk::{
    chunk_to_bytes, encode_chunks, lemma_encode_chunks_push, models, parse_stream, to_chunks,
    ChunkModel,
};
use vstd::prelude::*;

verus! {

/// The positional correction of two aligned chunk sequences: in order, each
/// trusted chunk whose payload differs from the candidate's at the same place.
pub open spec fn corrections(trusted: Seq<ChunkModel>, candidate: Seq<ChunkModel>) -> Seq<
    ChunkModel,
>
    decreases trusted.len(),
{
    if trusted.len() == 0 {
        Seq::empty()
    } else {
        let init = corrections(trusted.drop_last(), candidate.drop_last());
        if trusted.last().1 != candidate.last().1 {
            init.push(trusted.last())
        } else {
            init
        }
    }
}

/// Why two streams cannot be compared.
#[derive(Debug, Clone, Copy, PartialEq, Eq, Structural)]
pub enum DiffError {
    /// The trusted stream is not a whole number of chunks.
    MalformedTrusted,
    /// The candidate stream is not a whole number of chunks.
    MalformedCandidate,
    /// The two streams hold different numbers of chunks.
    LengthMismatch { trusted: usize, candidate: usize },
}

/// What comparing a trusted stream with a candidate stream gives.
pub open spec fn spec_diff(trusted: Seq<u8>, candidate: Seq<u8>) -> Result<Seq<u8>, DiffError> {
    match parse_stream(trusted) {
        None => Err(DiffError::MalformedTrusted),
        Some(ts) => match parse_stream(candidate) {
            None => Err(DiffError::MalformedCandidate),
            Some(cs) => if ts.len() != cs.len() {
                Err(
                    DiffError::LengthMismatch {
                        trusted: ts.len() as usize,
                        candidate: cs.len() as usize,
                    },
                )
            } else {
                Ok(encode_chunks(corrections(ts, cs)))
            },
        },
    }
}

fn same_bytes(a: &Vec<u8>, b: &Vec<u8>) -> (r: bool)
    ensures
        r == (a@ == b@),
{
    if a.len() != b.len() {
        return false;
    }
    let mut i: usize = 0;
    while i < a.len()
        invariant
            a@.len() == b@.len(),
            i <= a@.len(),
            a@.subrange(0, i as int) == b@.subrange(0, i as int),
        decreases a@.len() - i,
    {
        if a[i] != b[i] {
            assert(a@.subrange(0, a@.len() as int)[i as int] != b@.subrange(
                0,
                a@.len() as int,
            )[i as int]);
            assert(a@.subrange(0, a@.len() as int) =~= a@);
            assert(b@.subrange(0, a@.len() as int) =~= b@);
            return false;
        }
        assert(a@.subrange(0, i + 1) =~= a@.subrange(0, i as int).push(a@[i as int]));
        assert(b@.subrange(0, i + 1) =~= b@.subrange(0, i as int).push(b@[i as int]));
        i = i + 1;
    }
    assert(a@.subrange(0, i as int) =~= a@);
    assert(b@.subrange(0, i as int) =~= b@);
    true
}

/// Compares a trusted stream with a candidate stream chunk by chunk, by
/// position, and returns the stream of the trusted chunks whose payload
/// differs from the candidate's.
pub fn diff(data1: Vec<u8>, data2: Vec<u8>) -> (r: Result<Vec<u8>, DiffError>)
    ensures
        match r {
            Ok(bytes) => spec_diff(data1@, data2@) == Ok::<Seq<u8>, DiffError>(bytes@),
            Err(e) => spec_diff(data1@, data2@) == Err::<Seq<u8>, DiffError>(e),
        },
{
    let chunks1 = match to_chunks(&data1) {
        Ok(c) => c,
        Err(_) => return Err(DiffError::MalformedTrusted),
    };
    let chunks2 = match to_chunks(&data2) {
        Ok(c) => c,
        Err(_) => return Err(DiffError::MalformedCandidate),
    };
    if chunks1.len() != chunks2.len() {
        return Err(DiffError::LengthMismatch { trusted: chunks1.len(), candidate: chunks2.len() });
    }
    let ghost ts = models(chunks1@);
    let ghost cs = models(chunks2@);
    let mut result: Vec<u8> = Vec::new();
    let mut i: usize = 0;
    assert(corrections(ts.subrange(0, 0), cs.subrange(0, 0)) =~= Seq::empty());
    while i < chunks1.len()
        invariant
            chunks1@.len() == chunks2@.len(),
            ts == models(chunks1@),
            cs == models(chunks2@),
            forall|k: int| 0 <= k < chunks1@.len() ==> (#[trigger] chunks1@[k]).wf(),
            i <= chunks1@.len(),
            result@ == encode_chunks(
                corrections(ts.subrange(0, i as int), cs.subrange(0, i as int)),
            ),
        decreases chunks1@.len() - i,
    {
        assert(ts.subrange(0, i + 1).drop_last() =~= ts.subrange(0, i as int));
        assert(cs.subrange(0, i + 1).drop_last() =~= cs.subrange(0, i as int));
        if !same_bytes(&chunks1[i].data, &chunks2[i].data) {
            let mut bytes = chunk_to_bytes(&chunks1[i]);
            proof {
                lemma_encode_chunks_push(
                    corrections(ts.subrange(0, i as int), cs.subrange(0, i as int)),
                    ts[i as int],
                );
            }
            result.append(&mut bytes);
        }
        i = i + 1;
    }
    assert(ts.subrange(0, i as int) =~= ts);
    assert(cs.subrange(0, i as int) =~= cs);
    Ok(result)
}

} // verus!
