use crate::chunk::{all_fit, encode_chunk, encode_chunks, fits, parse_stream, prepend, ChunkModel};
use crate::codec::{
    component_chunk, component_chunks, decode_chunk, decode_chunks, spec_serialize, value_bytes,
};
use crate::component::{lemma_tag_bijection, spec_kind_of_tag, Component};
use crate::diff::{corrections, spec_diff};
use vstd::bytes::{
    lemma_auto_spec_u32_to_from_le_bytes, lemma_auto_spec_u64_to_from_le_bytes,
    spec_u32_from_le_bytes, spec_u32_to_le_bytes, spec_u64_from_le_bytes,
};
use vstd::prelude::*;

verus! {

proof fn lemma_parse_one(c: ChunkModel, rest: Seq<u8>)
    requires
        fits(c),
    ensures
        parse_stream(encode_chunk(c) + rest) == prepend(seq![c], parse_stream(rest)),
{
    lemma_auto_spec_u32_to_from_le_bytes();
    let s = encode_chunk(c) + rest;
    let len = c.1.len() as int;
    assert(spec_u32_to_le_bytes(len as u32).len() == 4);
    assert(s.subrange(1, 5) =~= spec_u32_to_le_bytes(len as u32));
    assert(spec_u32_from_le_bytes(s.subrange(1, 5)) as int == len);
    assert(s.subrange(5 + len, s.len() as int) =~= rest);
    assert(s.subrange(5, 5 + len) =~= c.1);
    match parse_stream(rest) {
        Some(r) => {
            assert(seq![(s[0], s.subrange(5, 5 + len))] + r =~= seq![c] + r);
        },
        None => {},
    }
}

proof fn lemma_encode_chunks_append(a: Seq<ChunkModel>, b: Seq<ChunkModel>)
    ensures
        encode_chunks(a + b) == encode_chunks(a) + encode_chunks(b),
    decreases a.len(),
{
    if a.len() == 0 {
        assert(a + b =~= b);
        assert(encode_chunks(a) + encode_chunks(b) =~= encode_chunks(b));
    } else {
        assert((a + b).drop_first() =~= a.drop_first() + b);
        lemma_encode_chunks_append(a.drop_first(), b);
        assert(encode_chunks(a + b) =~= encode_chunks(a) + encode_chunks(b));
    }
}

/// The bytes of chunks whose payloads fit the length field parse back to
/// those chunks.
pub proof fn lemma_parse_encoded(cs: Seq<ChunkModel>)
    requires
        all_fit(cs),
    ensures
        parse_stream(encode_chunks(cs)) == Some(cs),
    decreases cs.len(),
{
    if cs.len() == 0 {
    } else {
        assert(fits(cs[0]));
        assert(all_fit(cs.drop_first()));
        lemma_parse_encoded(cs.drop_first());
        lemma_parse_one(cs[0], encode_chunks(cs.drop_first()));
        assert(seq![cs[0]] + cs.drop_first() =~= cs);
    }
}

/// A stream that parses is exactly the bytes of the chunks it parses to.
pub proof fn lemma_parse_sound(s: Seq<u8>)
    requires
        parse_stream(s) is Some,
    ensures
        encode_chunks(parse_stream(s)->0) == s,
        all_fit(parse_stream(s)->0),
    decreases s.len(),
{
    lemma_auto_spec_u32_to_from_le_bytes();
    if s.len() > 0 {
        let len = spec_u32_from_le_bytes(s.subrange(1, 5)) as int;
        let head = (s[0], s.subrange(5, 5 + len));
        let tail = s.subrange(5 + len, s.len() as int);
        lemma_parse_sound(tail);
        let cs = parse_stream(s)->0;
        assert(cs =~= seq![head] + parse_stream(tail)->0);
        assert(cs.drop_first() =~= parse_stream(tail)->0);
        assert(spec_u32_to_le_bytes(spec_u32_from_le_bytes(s.subrange(1, 5))) == s.subrange(1, 5));
        assert(encode_chunk(head) + tail =~= s);
        assert forall|i: int| 0 <= i < cs.len() implies fits(#[trigger] cs[i]) by {
            if i > 0 {
                assert(cs[i] == cs.drop_first()[i - 1]);
            }
        }
    }
}

/// Parsing the concatenation of two valid streams gives the concatenation
/// of their chunk sequences.
pub proof fn lemma_parse_concat(a: Seq<u8>, b: Seq<u8>)
    requires
        parse_stream(a) is Some,
        parse_stream(b) is Some,
    ensures
        parse_stream(a + b) == Some(parse_stream(a)->0 + parse_stream(b)->0),
{
    let ca = parse_stream(a)->0;
    let cb = parse_stream(b)->0;
    lemma_parse_sound(a);
    lemma_parse_sound(b);
    lemma_encode_chunks_append(ca, cb);
    assert(all_fit(ca + cb)) by {
        assert forall|i: int| 0 <= i < (ca + cb).len() implies fits(#[trigger] (ca + cb)[i]) by {
            if i >= ca.len() {
                assert((ca + cb)[i] == cb[i - ca.len()]);
            }
        }
    }
    lemma_parse_encoded(ca + cb);
}

proof fn lemma_value_round_trip(v: i64)
    ensures
        value_bytes(v).len() == 8,
        spec_u64_from_le_bytes(value_bytes(v)) as i64 == v,
{
    lemma_auto_spec_u64_to_from_le_bytes();
    assert((v as u64) as i64 == v) by (bit_vector);
}

proof fn lemma_component_round_trip(c: Component)
    ensures
        fits(component_chunk(c)),
        decode_chunk(component_chunk(c)) == Ok::<Component, crate::codec::DecodeError>(c),
{
    lemma_value_round_trip(c.value);
    lemma_tag_bijection(c.kind, 0);
}

proof fn lemma_component_chunks_fit(cs: Seq<Component>)
    ensures
        all_fit(component_chunks(cs)),
{
    assert forall|i: int| 0 <= i < component_chunks(cs).len() implies fits(
        #[trigger] component_chunks(cs)[i],
    ) by {
        lemma_component_round_trip(cs[i]);
    }
}

proof fn lemma_decode_component_chunks(cs: Seq<Component>)
    ensures
        decode_chunks(component_chunks(cs)) == cs,
    decreases cs.len(),
{
    if cs.len() > 0 {
        assert(component_chunks(cs).drop_last() =~= component_chunks(cs.drop_last()));
        lemma_decode_component_chunks(cs.drop_last());
        lemma_component_round_trip(cs.last());
        assert(cs.drop_last().push(cs.last()) =~= cs);
    }
}

proof fn lemma_decode_chunks_append(a: Seq<ChunkModel>, b: Seq<ChunkModel>)
    ensures
        decode_chunks(a + b) == decode_chunks(a) + decode_chunks(b),
    decreases b.len(),
{
    if b.len() == 0 {
        assert(a + b =~= a);
        assert(decode_chunks(a) + decode_chunks(b) =~= decode_chunks(a));
    } else {
        assert((a + b).drop_last() =~= a + b.drop_last());
        lemma_decode_chunks_append(a, b.drop_last());
        match decode_chunk(b.last()) {
            Ok(c) => {
                assert(decode_chunks(a + b) =~= decode_chunks(a) + decode_chunks(b));
            },
            Err(_) => {},
        }
    }
}

/// Serializing components, parsing the bytes into chunks and decoding the
/// chunks gives back the same components in the same order.
pub proof fn lemma_round_trip(cs: Seq<Component>)
    ensures
        parse_stream(spec_serialize(cs)) == Some(component_chunks(cs)),
        decode_chunks(parse_stream(spec_serialize(cs))->0) == cs,
{
    lemma_component_chunks_fit(cs);
    lemma_parse_encoded(component_chunks(cs));
    lemma_decode_component_chunks(cs);
}

proof fn lemma_corrections_identical(cs: Seq<ChunkModel>)
    ensures
        corrections(cs, cs) == Seq::<ChunkModel>::empty(),
    decreases cs.len(),
{
    if cs.len() > 0 {
        lemma_corrections_identical(cs.drop_last());
    }
}

/// Comparing the bytes of a component sequence with themselves yields an
/// empty correction.
pub proof fn lemma_diff_identical(cs: Seq<Component>)
    ensures
        spec_diff(spec_serialize(cs), spec_serialize(cs)) == Ok::<Seq<u8>, crate::diff::DiffError>(
            Seq::empty(),
        ),
{
    lemma_round_trip(cs);
    lemma_corrections_identical(component_chunks(cs));
}

/// A stream that holds one chunk with an unknown tag between the chunks of
/// two component sequences decodes to those components, with that chunk left
/// out.
pub proof fn lemma_unknown_tag_skipped(
    before: Seq<Component>,
    tag: u8,
    payload: Seq<u8>,
    after: Seq<Component>,
)
    requires
        spec_kind_of_tag(tag) is None,
        payload.len() <= u32::MAX,
    ensures
        ({
            let s = spec_serialize(before) + encode_chunk((tag, payload)) + spec_serialize(after);
            &&& parse_stream(s) is Some
            &&& decode_chunks(parse_stream(s)->0) == before + after
        }),
{
    let odd = (tag, payload);
    lemma_round_trip(before);
    lemma_round_trip(after);
    assert(seq![odd].drop_first() =~= Seq::<ChunkModel>::empty());
    assert(encode_chunks(Seq::<ChunkModel>::empty()) =~= Seq::<u8>::empty());
    assert(encode_chunks(seq![odd]) =~= encode_chunk(odd));
    assert(all_fit(seq![odd]));
    lemma_parse_encoded(seq![odd]);
    lemma_parse_concat(spec_serialize(before), encode_chunk(odd));
    lemma_parse_concat(spec_serialize(before) + encode_chunk(odd), spec_serialize(after));
    let chunks = component_chunks(before) + seq![odd] + component_chunks(after);
    lemma_decode_chunks_append(component_chunks(before) + seq![odd], component_chunks(after));
    lemma_decode_chunks_append(component_chunks(before), seq![odd]);
    assert(seq![odd].drop_last() =~= Seq::<ChunkModel>::empty());
    assert(seq![odd].last() == odd);
    assert(decode_chunk(odd) is Err);
    assert(decode_chunks(Seq::<ChunkModel>::empty()) =~= Seq::<Component>::empty());
    assert(decode_chunks(seq![odd]) == decode_chunks(seq![odd].drop_last()));
    assert(decode_chunks(seq![odd]) =~= Seq::<Component>::empty());
    lemma_decode_component_chunks(before);
    lemma_decode_component_chunks(after);
    assert(before + Seq::<Component>::empty() =~= before);
}

/// The positions, in increasing order, at which two aligned component
/// sequences hold different values.
pub open spec fn differing_positions(trusted: Seq<Component>, candidate: Seq<Component>) -> Seq<
    int,
>
    decreases trusted.len(),
{
    if trusted.len() == 0 {
        Seq::empty()
    } else {
        let init = differing_positions(trusted.drop_last(), candidate.drop_last());
        if trusted.last().value != candidate.last().value {
            init.push(trusted.len() - 1)
        } else {
            init
        }
    }
}

/// The trusted chunks at the given positions, in their order.
pub open spec fn chunks_at(trusted: Seq<Component>, positions: Seq<int>) -> Seq<ChunkModel> {
    positions.map_values(|i: int| component_chunk(trusted[i]))
}

proof fn lemma_differing_positions(trusted: Seq<Component>, candidate: Seq<Component>)
    requires
        trusted.len() == candidate.len(),
    ensures
        ({
            let pos = differing_positions(trusted, candidate);
            &&& forall|j: int|
                0 <= j < pos.len() ==> 0 <= #[trigger] pos[j] < trusted.len()
                    && trusted[pos[j]].value != candidate[pos[j]].value
            &&& forall|j: int, k: int| 0 <= j < k < pos.len() ==> pos[j] < pos[k]
            &&& forall|i: int|
                0 <= i < trusted.len() && #[trigger] trusted[i].value != candidate[i].value
                    ==> pos.contains(i)
            &&& corrections(component_chunks(trusted), component_chunks(candidate))
                == chunks_at(trusted, pos)
        }),
    decreases trusted.len(),
{
    if trusted.len() > 0 {
        let t = trusted.drop_last();
        let c = candidate.drop_last();
        let n = trusted.len() - 1;
        lemma_differing_positions(t, c);
        let prev = differing_positions(t, c);
        let pos = differing_positions(trusted, candidate);
        assert(component_chunks(trusted).drop_last() =~= component_chunks(t));
        assert(component_chunks(candidate).drop_last() =~= component_chunks(c));
        lemma_value_round_trip(trusted.last().value);
        lemma_value_round_trip(candidate.last().value);
        assert(chunks_at(t, prev) =~= chunks_at(trusted, prev));
        if trusted.last().value != candidate.last().value {
            assert(pos == prev.push(n));
            assert(chunks_at(trusted, pos) =~= chunks_at(trusted, prev).push(
                component_chunk(trusted[n]),
            ));
            assert forall|i: int|
                0 <= i < trusted.len() && #[trigger] trusted[i].value
                    != candidate[i].value implies pos.contains(i) by {
                if i < n {
                    assert(t[i] == trusted[i]);
                    assert(c[i] == candidate[i]);
                    let j = choose|j: int| 0 <= j < prev.len() && prev[j] == i;
                    assert(pos[j] == i);
                } else {
                    assert(pos[pos.len() - 1] == i);
                }
            }
        } else {
            assert forall|i: int|
                0 <= i < trusted.len() && #[trigger] trusted[i].value
                    != candidate[i].value implies pos.contains(i) by {
                assert(t[i] == trusted[i]);
                assert(c[i] == candidate[i]);
            }
        }
    }
}

/// For two component sequences of equal length with aligned kinds that
/// differ in value exactly at the positions in `changed`, the correction is
/// one chunk per changed position, in order, each the trusted side's chunk
/// byte for byte.
pub proof fn lemma_diff_minimal(
    trusted: Seq<Component>,
    candidate: Seq<Component>,
    changed: Set<int>,
)
    requires
        trusted.len() == candidate.len(),
        forall|i: int| 0 <= i < trusted.len() ==> #[trigger] trusted[i].kind == candidate[i].kind,
        forall|i: int|
            #[trigger] changed.contains(i) <==> 0 <= i < trusted.len() && trusted[i].value
                != candidate[i].value,
    ensures
        ({
            let out = spec_diff(spec_serialize(trusted), spec_serialize(candidate));
            let pos = differing_positions(trusted, candidate);
            &&& out is Ok
            &&& parse_stream(out->Ok_0) == Some(chunks_at(trusted, pos))
            &&& pos.len() == changed.len()
            &&& pos.to_set() == changed
            &&& forall|j: int, k: int| 0 <= j < k < pos.len() ==> pos[j] < pos[k]
        }),
{
    lemma_round_trip(trusted);
    lemma_round_trip(candidate);
    lemma_differing_positions(trusted, candidate);
    let pos = differing_positions(trusted, candidate);
    let corr = chunks_at(trusted, pos);
    assert(all_fit(corr)) by {
        assert forall|j: int| 0 <= j < corr.len() implies fits(#[trigger] corr[j]) by {
            lemma_component_round_trip(trusted[pos[j]]);
        }
    }
    lemma_parse_encoded(corr);
    assert(pos.to_set() =~= changed) by {
        assert forall|i: int| pos.to_set().contains(i) implies changed.contains(i) by {
            let j = choose|j: int| 0 <= j < pos.len() && pos[j] == i;
        }
    }
    assert(pos.no_duplicates()) by {
        assert forall|j: int, k: int|
            0 <= j < pos.len() && 0 <= k < pos.len() && j != k implies pos[j] != pos[k] by {
            if j < k {
            } else {
            }
        }
    }
    pos.unique_seq_to_set();
}

} // verus!
