//! The binary glTF container: a 12-byte header, then a JSON chunk padded
//! with spaces and a binary chunk padded with zeros, each to 4 bytes.

use vstd::prelude::*;
use crate::dict::{push_u32, u32_bytes, le_u32, lemma_u32_bytes};

verus! {

/// The padding that takes a length of `n` to a multiple of 4.
pub open spec fn pad_len(n: int) -> int {
    (4 - n % 4) % 4
}

/// `s` padded with `b` to a multiple of 4 bytes.
pub open spec fn padded(s: Seq<u8>, b: u8) -> Seq<u8> {
    s + Seq::new(pad_len(s.len() as int) as nat, |i: int| b)
}

/// The `.glb` holding the JSON document `json` and the buffer `bin`.
pub open spec fn glb_bytes(json: Seq<u8>, bin: Seq<u8>) -> Seq<u8> {
    let j = padded(json, 0x20);
    let b = padded(bin, 0);
    seq![0x67u8, 0x6c, 0x54, 0x46] + u32_bytes(2) + u32_bytes(28 + j.len() as int + b.len() as int) + u32_bytes(
        j.len() as int,
    ) + u32_bytes(0x4E4F_534A) + j + u32_bytes(b.len() as int) + u32_bytes(0x004E_4942) + b
}

fn push_padded(out: &mut Vec<u8>, s: &[u8], b: u8)
    ensures
        final(out)@ == old(out)@ + padded(s@, b),
{
    let mut i: usize = 0;
    while i < s.len()
        invariant
            i <= s.len(),
            out@ == old(out)@ + s@.subrange(0, i as int),
        decreases s.len() - i,
    {
        out.push(s[i]);
        i = i + 1;
    }
    assert(s@.subrange(0, s@.len() as int) == s@);
    let pad = (4 - s.len() % 4) % 4;
    let mut k: usize = 0;
    while k < pad
        invariant
            k <= pad,
            pad == pad_len(s@.len() as int),
            out@ == old(out)@ + s@ + Seq::new(k as nat, |i: int| b),
        decreases pad - k,
    {
        out.push(b);
        k = k + 1;
        assert(out@ =~= old(out)@ + s@ + Seq::new(k as nat, |i: int| b));
    }
}

/// Frame a JSON document and a binary buffer as a `.glb` (glTF 2.0).
pub fn pack_glb(json: &[u8], bin: &[u8]) -> (out: Vec<u8>)
    requires
        28 + json@.len() + pad_len(json@.len() as int) + bin@.len() + pad_len(bin@.len() as int)
            <= u32::MAX,
    ensures
        out@ == glb_bytes(json@, bin@),
{
    let json_len = (json.len() + (4 - json.len() % 4) % 4) as u32;
    let bin_len = (bin.len() + (4 - bin.len() % 4) % 4) as u32;
    let total = 12 + 8 + json_len + 8 + bin_len;
    let mut out: Vec<u8> = Vec::new();
    out.push(0x67);
    out.push(0x6c);
    out.push(0x54);
    out.push(0x46);
    push_u32(&mut out, 2);
    push_u32(&mut out, total);
    push_u32(&mut out, json_len);
    push_u32(&mut out, 0x4E4F_534A);
    push_padded(&mut out, json, 0x20);
    push_u32(&mut out, bin_len);
    push_u32(&mut out, 0x004E_4942);
    push_padded(&mut out, bin, 0);
    assert(out@ =~= glb_bytes(json@, bin@));
    out
}


/// The first 20 bytes of a `.glb`: magic, version, total length, and the
/// JSON chunk's header.
pub open spec fn glb_head(total: int, jl: int) -> Seq<u8> {
    seq![0x67u8, 0x6c, 0x54, 0x46] + u32_bytes(2) + u32_bytes(total) + u32_bytes(jl) + u32_bytes(
        0x4E4F_534A,
    )
}

proof fn lemma_pad(n: int)
    requires
        n >= 0,
    ensures
        (n + pad_len(n)) % 4 == 0,
        0 <= pad_len(n) < 4,
{
}

/// The length a `.glb` header states is the length of the file, and each
/// chunk's stated length is the length of its padded content, a multiple of 4.
pub proof fn lemma_glb_lengths(json: Seq<u8>, bin: Seq<u8>)
    requires
        28 + json.len() + pad_len(json.len() as int) + bin.len() + pad_len(bin.len() as int) <= u32::MAX,
    ensures
        ({
            let g = glb_bytes(json, bin);
            let jl = json.len() + pad_len(json.len() as int);
            let bl = bin.len() + pad_len(bin.len() as int);
            &&& g.len() == 28 + jl + bl
            &&& le_u32(g, 8) == g.len()
            &&& le_u32(g, 12) == jl
            &&& le_u32(g, 20 + jl) == bl
            &&& jl % 4 == 0
            &&& bl % 4 == 0
        }),
{
    lemma_pad(json.len() as int);
    lemma_pad(bin.len() as int);
    let j = padded(json, 0x20);
    let b = padded(bin, 0);
    let jl = j.len() as int;
    let bl = b.len() as int;
    let total = 28 + jl + bl;
    let h = glb_head(total, jl);
    let tail = u32_bytes(bl) + u32_bytes(0x004E_4942) + b;
    let g = glb_bytes(json, bin);
    assert(h.len() == 20);
    assert(g =~= h + j + tail);
    assert(g.subrange(8, 12) =~= h.subrange(8, 12));
    assert(h.subrange(8, 12) =~= u32_bytes(total));
    lemma_u32_bytes(g, 8, total);
    assert(g.subrange(12, 16) =~= h.subrange(12, 16));
    assert(h.subrange(12, 16) =~= u32_bytes(jl));
    lemma_u32_bytes(g, 12, jl);
    assert(g.subrange(20 + jl, 24 + jl) =~= tail.subrange(0, 4));
    assert(tail.subrange(0, 4) =~= u32_bytes(bl));
    lemma_u32_bytes(g, 20 + jl, bl);
}

} // verus!
