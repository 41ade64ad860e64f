//! Big-endian byte encodings for the fixed-width fields of a qid record.

use vstd::prelude::*;

verus! {

/// The four bytes of `x`, most significant first.
pub open spec fn spec_u32_to_be_bytes(x: u32) -> Seq<u8> {
    seq![
        ((x >> 24) & 0xff) as u8,
        ((x >> 16) & 0xff) as u8,
        ((x >> 8) & 0xff) as u8,
        (x & 0xff) as u8,
    ]
}

/// The eight bytes of `x`, most significant first.
pub open spec fn spec_u64_to_be_bytes(x: u64) -> Seq<u8> {
    seq![
        ((x >> 56) & 0xff) as u8,
        ((x >> 48) & 0xff) as u8,
        ((x >> 40) & 0xff) as u8,
        ((x >> 32) & 0xff) as u8,
        ((x >> 24) & 0xff) as u8,
        ((x >> 16) & 0xff) as u8,
        ((x >> 8) & 0xff) as u8,
        (x & 0xff) as u8,
    ]
}

pub open spec fn spec_u32_from_be_bytes(s: Seq<u8>) -> u32
    recommends
        s.len() == 4,
{
    (((s[0] as u32) << 24) | ((s[1] as u32) << 16) | ((s[2] as u32) << 8) | (s[3] as u32)) as u32
}

pub open spec fn spec_u64_from_be_bytes(s: Seq<u8>) -> u64
    recommends
        s.len() == 8,
{
    (((s[0] as u64) << 56) | ((s[1] as u64) << 48) | ((s[2] as u64) << 40) | ((s[3] as u64) << 32)
        | ((s[4] as u64) << 24) | ((s[5] as u64) << 16) | ((s[6] as u64) << 8) | (s[7] as u64)) as u64
}

pub exec fn u32_to_be_bytes(x: u32) -> (r: Vec<u8>)
    ensures
        r@ == spec_u32_to_be_bytes(x),
        r@.len() == 4,
{
    let mut r: Vec<u8> = Vec::new();
    r.push(((x >> 24) & 0xff) as u8);
    r.push(((x >> 16) & 0xff) as u8);
    r.push(((x >> 8) & 0xff) as u8);
    r.push((x & 0xff) as u8);
    proof {
        assert(r@ =~= spec_u32_to_be_bytes(x));
    }
    r
}

pub exec fn u64_to_be_bytes(x: u64) -> (r: Vec<u8>)
    ensures
        r@ == spec_u64_to_be_bytes(x),
        r@.len() == 8,
{
    let mut r: Vec<u8> = Vec::new();
    r.push(((x >> 56) & 0xff) as u8);
    r.push(((x >> 48) & 0xff) as u8);
    r.push(((x >> 40) & 0xff) as u8);
    r.push(((x >> 32) & 0xff) as u8);
    r.push(((x >> 24) & 0xff) as u8);
    r.push(((x >> 16) & 0xff) as u8);
    r.push(((x >> 8) & 0xff) as u8);
    r.push((x & 0xff) as u8);
    proof {
        assert(r@ =~= spec_u64_to_be_bytes(x));
    }
    r
}

pub exec fn u32_from_be_bytes(s: &[u8], start: usize) -> (r: u32)
    requires
        start + 4 <= s@.len(),
    ensures
        r == spec_u32_from_be_bytes(s@.subrange(start as int, start as int + 4)),
{
    let r = ((s[start] as u32) << 24) | ((s[start + 1] as u32) << 16) | ((s[start + 2] as u32) << 8)
        | (s[start + 3] as u32);
    proof {
        let sub = s@.subrange(start as int, start as int + 4);
        assert(sub[0] == s@[start as int] && sub[1] == s@[start as int + 1] && sub[2] == s@[start
            as int + 2] && sub[3] == s@[start as int + 3]);
    }
    r
}

pub exec fn u64_from_be_bytes(s: &[u8], start: usize) -> (r: u64)
    requires
        start + 8 <= s@.len(),
    ensures
        r == spec_u64_from_be_bytes(s@.subrange(start as int, start as int + 8)),
{
    let r = ((s[start] as u64) << 56) | ((s[start + 1] as u64) << 48) | ((s[start + 2] as u64)
        << 40) | ((s[start + 3] as u64) << 32) | ((s[start + 4] as u64) << 24) | ((s[start + 5]
        as u64) << 16) | ((s[start + 6] as u64) << 8) | (s[start + 7] as u64);
    proof {
        let sub = s@.subrange(start as int, start as int + 8);
        assert(forall|i: int| 0 <= i < 8 ==> sub[i] == s@[start as int + i]);
    }
    r
}

/// Reading four big-endian bytes back gives the encoded value.
pub proof fn lemma_u32_be_round_trip(x: u32)
    ensures
        spec_u32_from_be_bytes(spec_u32_to_be_bytes(x)) == x,
{
    let s = spec_u32_to_be_bytes(x);
    let b0 = s[0];
    let b1 = s[1];
    let b2 = s[2];
    let b3 = s[3];
    assert((b0 as u32) << 24 | (b1 as u32) << 16 | (b2 as u32) << 8 | b3 as u32 == x) by (bit_vector)
        requires
            b0 == (x >> 24 & 0xff) as u8,
            b1 == (x >> 16 & 0xff) as u8,
            b2 == (x >> 8 & 0xff) as u8,
            b3 == (x & 0xff) as u8;
}

/// Reading eight big-endian bytes back gives the encoded value.
pub proof fn lemma_u64_be_round_trip(x: u64)
    ensures
        spec_u64_from_be_bytes(spec_u64_to_be_bytes(x)) == x,
{
    let s = spec_u64_to_be_bytes(x);
    let b0 = s[0];
    let b1 = s[1];
    let b2 = s[2];
    let b3 = s[3];
    let b4 = s[4];
    let b5 = s[5];
    let b6 = s[6];
    let b7 = s[7];
    assert((b0 as u64) << 56 | (b1 as u64) << 48 | (b2 as u64) << 40 | (b3 as u64) << 32 | (b4
        as u64) << 24 | (b5 as u64) << 16 | (b6 as u64) << 8 | b7 as u64 == x) by (bit_vector)
        requires
            b0 == (x >> 56 & 0xff) as u8,
            b1 == (x >> 48 & 0xff) as u8,
            b2 == (x >> 40 & 0xff) as u8,
            b3 == (x >> 32 & 0xff) as u8,
            b4 == (x >> 24 & 0xff) as u8,
            b5 == (x >> 16 & 0xff) as u8,
            b6 == (x >> 8 & 0xff) as u8,
            b7 == (x & 0xff) as u8;
}

} // verus!
