//! The 64-byte header that both file formats start with: an 8-byte format
//! tag, three little-endian 8-byte fields and 32 reserved zero bytes.
use crate::codec::{
    le_bytes, le_value, lemma_le_bytes_len, lemma_le_round_trip, lemma_pow256_values, push_le,
    read_le,
};
use crate::store::StoreError;
use vstd::prelude::*;

verus! {

/// Size in bytes of the header that starts every sealed file.
pub const HEADER_SIZE: usize = 64;

/// The header bytes: `tag`, then `a`, `b` and `c` as 8-byte little-endian
/// numbers, then 32 zero bytes.
pub open spec fn header_image(tag: Seq<u8>, a: nat, b: nat, c: nat) -> Seq<u8> {
    tag + le_bytes(a, 8) + le_bytes(b, 8) + le_bytes(c, 8) + Seq::new(32, |i: int| 0u8)
}

/// The three 8-byte header fields of `data`.
pub open spec fn header_fields(data: Seq<u8>) -> (nat, nat, nat) {
    (
        le_value(data.subrange(8, 16)),
        le_value(data.subrange(16, 24)),
        le_value(data.subrange(24, 32)),
    )
}

/// Appends bytes one by one.
pub fn append_bytes(out: &mut Vec<u8>, src: &[u8])
    ensures
        final(out)@ == old(out)@ + src@,
{
    let mut i: usize = 0;
    while i < src.len()
        invariant
            i <= src@.len(),
            out@ == old(out)@ + src@.subrange(0, i as int),
        decreases src@.len() - i,
    {
        out.push(src[i]);
        proof {
            assert(src@.subrange(0, i + 1) =~= src@.subrange(0, i as int).push(src@[i as int]));
        }
        i = i + 1;
    }
    proof {
        assert(src@.subrange(0, i as int) =~= src@);
    }
}

/// Appends a header with format tag `tag` and fields `a`, `b`, `c`.
pub fn push_header(out: &mut Vec<u8>, tag: &[u8], a: u64, b: u64, c: u64)
    ensures
        final(out)@ == old(out)@ + header_image(tag@, a as nat, b as nat, c as nat),
{
    append_bytes(out, tag);
    push_le(out, a, 8);
    push_le(out, b, 8);
    push_le(out, c, 8);
    let mut i: usize = 0;
    let ghost before = out@;
    while i < 32
        invariant
            i <= 32,
            out@ == before + Seq::new(i as nat, |j: int| 0u8),
        decreases 32 - i,
    {
        out.push(0u8);
        proof {
            assert(Seq::new((i + 1) as nat, |j: int| 0u8) =~= Seq::new(i as nat, |j: int| 0u8).push(
                0u8,
            ));
        }
        i = i + 1;
    }
    proof {
        assert(out@ =~= old(out)@ + header_image(tag@, a as nat, b as nat, c as nat));
    }
}

/// Reads the header at the start of `data`: the format tag must be `tag`.
pub fn read_header(data: &[u8], tag: &[u8]) -> (r: Result<(u64, u64, u64), StoreError>)
    requires
        tag@.len() == 8,
    ensures
        data@.len() < HEADER_SIZE ==> r == Err::<(u64, u64, u64), StoreError>(StoreError::Truncated),
        data@.len() >= HEADER_SIZE && data@.subrange(0, 8) != tag@ ==> r == Err::<
            (u64, u64, u64),
            StoreError,
        >(StoreError::BadMagic),
        data@.len() >= HEADER_SIZE && data@.subrange(0, 8) == tag@ ==> (r matches Ok(f) && f.0
            as nat == header_fields(data@).0 && f.1 as nat == header_fields(data@).1 && f.2 as nat
            == header_fields(data@).2),
{
    if data.len() < HEADER_SIZE {
        return Err(StoreError::Truncated);
    }
    let mut i: usize = 0;
    while i < 8
        invariant
            i <= 8,
            tag@.len() == 8,
            data@.len() >= 64,
            data@.subrange(0, i as int) == tag@.subrange(0, i as int),
        decreases 8 - i,
    {
        if data[i] != tag[i] {
            return Err(StoreError::BadMagic);
        }
        proof {
            assert(data@.subrange(0, i + 1) =~= data@.subrange(0, i as int).push(data@[i as int]));
            assert(tag@.subrange(0, i + 1) =~= tag@.subrange(0, i as int).push(tag@[i as int]));
        }
        i = i + 1;
    }
    proof {
        assert(tag@.subrange(0, 8) =~= tag@);
    }
    let a = read_le(data, 8, 8);
    let b = read_le(data, 16, 8);
    let c = read_le(data, 24, 8);
    Ok((a, b, c))
}

/// A header image is 64 bytes long and reads back as the tag and fields it was made of.
pub proof fn lemma_header_round_trip(tag: Seq<u8>, a: u64, b: u64, c: u64, rest: Seq<u8>)
    requires
        tag.len() == 8,
    ensures
        header_image(tag, a as nat, b as nat, c as nat).len() == 64,
        ({
            let d = header_image(tag, a as nat, b as nat, c as nat) + rest;
            &&& d.subrange(0, 8) == tag
            &&& header_fields(d) == (a as nat, b as nat, c as nat)
        }),
{
    lemma_le_bytes_len(a as nat, 8);
    lemma_le_bytes_len(b as nat, 8);
    lemma_le_bytes_len(c as nat, 8);
    lemma_pow256_values();
    lemma_le_round_trip(a as nat, 8);
    lemma_le_round_trip(b as nat, 8);
    lemma_le_round_trip(c as nat, 8);
    let d = header_image(tag, a as nat, b as nat, c as nat) + rest;
    assert(d.subrange(0, 8) =~= tag);
    assert(d.subrange(8, 16) =~= le_bytes(a as nat, 8));
    assert(d.subrange(16, 24) =~= le_bytes(b as nat, 8));
    assert(d.subrange(24, 32) =~= le_bytes(c as nat, 8));
}

} // verus!
