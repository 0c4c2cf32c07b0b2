//! Little-endian integers, `STRING` and `DICT` fields of MagicaVoxel
//! extension chunks.

use vstd::prelude::*;
use vstd::utf8::{valid_utf8, decode_utf8, encode_utf8};
use crate::text::{chars_of, parse_int_chars, parse_i32, split_words, words, same_text};
use crate::vox::{ChunkKind, VoxError};

verus! {

/// The unsigned value of the four bytes at `off`, least significant first.
pub open spec fn le_u32(b: Seq<u8>, off: int) -> int {
    b[off] + 256 * b[off + 1] + 65536 * b[off + 2] + 16777216 * b[off + 3]
}

/// The two's-complement value of the four bytes at `off`.
pub open spec fn le_i32(b: Seq<u8>, off: int) -> int {
    let u = le_u32(b, off);
    if u >= 0x8000_0000 {
        u - 0x1_0000_0000
    } else {
        u
    }
}

/// The four little-endian bytes of `x` modulo 2^32.
pub open spec fn u32_bytes(x: int) -> Seq<u8> {
    let u = x % 0x1_0000_0000;
    seq![(u % 256) as u8, ((u / 256) % 256) as u8, ((u / 65536) % 256) as u8, (u / 16777216) as u8]
}

pub proof fn lemma_u32_bytes(b: Seq<u8>, off: int, x: int)
    requires
        0 <= off,
        off + 4 <= b.len(),
        b.subrange(off, off + 4) == u32_bytes(x),
    ensures
        le_u32(b, off) == x % 0x1_0000_0000,
        0 <= x < 0x8000_0000 ==> le_i32(b, off) == x,
        -0x8000_0000 <= x < 0 ==> le_i32(b, off) == x,
        0 <= x < 0x1_0000_0000 ==> le_u32(b, off) == x,
{
    let u = x % 0x1_0000_0000;
    assert(b[off] == u32_bytes(x)[0]);
    assert(b[off + 1] == u32_bytes(x)[1]);
    assert(b[off + 2] == u32_bytes(x)[2]);
    assert(b[off + 3] == u32_bytes(x)[3]);
    assert(0 <= u < 0x1_0000_0000);
    assert((u % 256) + 256 * ((u / 256) % 256) + 65536 * ((u / 65536) % 256) + 16777216 * (u
        / 16777216) == u) by (nonlinear_arith)
        requires
            0 <= u < 0x1_0000_0000,
    ;
    if -0x8000_0000 <= x < 0 {
        assert(u == x + 0x1_0000_0000);
    }
}

/// Append the four little-endian bytes of `x`.
pub fn push_u32(out: &mut Vec<u8>, x: u32)
    ensures
        final(out)@ == old(out)@ + u32_bytes(x as int),
{
    out.push((x % 256) as u8);
    out.push(((x / 256) % 256) as u8);
    out.push(((x / 65536) % 256) as u8);
    out.push((x / 16777216) as u8);
    assert(final(out)@ =~= old(out)@ + u32_bytes(x as int));
}

/// Append the four little-endian two's-complement bytes of `x`.
pub fn push_i32(out: &mut Vec<u8>, x: i32)
    ensures
        final(out)@ == old(out)@ + u32_bytes(x as int),
{
    let u: u32 = if x < 0 {
        (x as i64 + 0x1_0000_0000i64) as u32
    } else {
        x as u32
    };
    proof {
        assert(u32_bytes(u as int) =~= u32_bytes(x as int));
    }
    push_u32(out, u);
}

/// The unsigned little-endian value at `off`.
pub fn read_u32(data: &[u8], off: usize) -> (r: u32)
    requires
        off + 4 <= data@.len(),
    ensures
        r == le_u32(data@, off as int),
{
    data[off] as u32 + 256 * (data[off + 1] as u32) + 65536 * (data[off + 2] as u32) + 16777216 * (
    data[off + 3] as u32)
}

/// The two's-complement little-endian value at `off`.
pub fn read_i32(data: &[u8], off: usize) -> (r: i32)
    requires
        off + 4 <= data@.len(),
    ensures
        r == le_i32(data@, off as int),
{
    let u = read_u32(data, off);
    if u >= 0x8000_0000 {
        ((u - 0x8000_0000) as i64 - 0x8000_0000i64) as i32
    } else {
        u as i32
    }
}

/// The text `String::from_utf8_lossy` gives for invalid UTF-8.
pub uninterp spec fn utf8_lossy(bytes: Seq<u8>) -> Seq<char>;

/// The text of bytes read as UTF-8, invalid sequences replaced.
pub open spec fn lossy_text(bytes: Seq<u8>) -> Seq<char> {
    if valid_utf8(bytes) {
        decode_utf8(bytes)
    } else {
        utf8_lossy(bytes)
    }
}

/// `String::from_utf8_lossy`. Its documentation: valid UTF-8 gives the
/// string it encodes; invalid sequences become U+FFFD. Of the second case the
/// contract only names the result.
#[verifier::external_body]
fn text_from_utf8_lossy(bytes: &[u8]) -> (s: String)
    ensures
        valid_utf8(bytes@) ==> s@ == decode_utf8(bytes@),
        !valid_utf8(bytes@) ==> s@ == utf8_lossy(bytes@),
{
    String::from_utf8_lossy(bytes).into_owned()
}

/// `STRING`: a 32-bit byte count, then UTF-8 bytes.
pub open spec fn enc_string(s: Seq<char>) -> Seq<u8> {
    u32_bytes(encode_utf8(s).len() as int) + encode_utf8(s)
}

/// Reading a `STRING` at `off`: the text and the offset after it.
pub open spec fn parse_string(data: Seq<u8>, off: int) -> Result<(Seq<char>, int), ChunkKind> {
    if off < 0 || off + 4 > data.len() {
        Err(ChunkKind::Str)
    } else {
        let n = le_i32(data, off);
        if n < 0 || off + 4 + n > data.len() {
            Err(ChunkKind::Str)
        } else {
            Ok((lossy_text(data.subrange(off + 4, off + 4 + n)), off + 4 + n))
        }
    }
}

/// Where reading a `STRING` at `off` leaves the offset when it fails: at
/// `off` when its length field is cut off, else past the length field.
pub open spec fn string_stop(data: Seq<u8>, off: int) -> int {
    if off < 0 || off + 4 > data.len() {
        off
    } else {
        off + 4
    }
}

/// Read a `STRING` at `*offset` and move past it. A negative or too large
/// byte count is a malformed `STRING`.
pub fn read_string(data: &[u8], offset: &mut usize) -> (r: Result<String, VoxError>)
    ensures
        match parse_string(data@, *old(offset) as int) {
            Ok((s, o)) => r matches Ok(t) && t@ == s && *final(offset) == o,
            Err(k) => r matches Err(VoxError::BadChunk(kk)) && kk == k && *final(offset) == string_stop(
                data@,
                *old(offset) as int,
            ),
        },
{
    let off = *offset;
    if off > data.len() || data.len() - off < 4 {
        return Err(VoxError::BadChunk(ChunkKind::Str));
    }
    let n = read_i32(data, off);
    *offset = off + 4;
    if n < 0 || (n as usize) > data.len() - off - 4 {
        return Err(VoxError::BadChunk(ChunkKind::Str));
    }
    let start = off + 4;
    let end = start + n as usize;
    let bytes = slice_of(data, start, end);
    let s = text_from_utf8_lossy(bytes.as_slice());
    *offset = end;
    Ok(s)
}

/// The bytes `data[start..end]`.
pub fn slice_of(data: &[u8], start: usize, end: usize) -> (v: Vec<u8>)
    requires
        start <= end <= data@.len(),
    ensures
        v@ == data@.subrange(start as int, end as int),
{
    let mut v: Vec<u8> = Vec::new();
    let mut i = start;
    while i < end
        invariant
            start <= i <= end,
            end <= data@.len(),
            v@ == data@.subrange(start as int, i as int),
        decreases end - i,
    {
        v.push(data[i]);
        assert(data@.subrange(start as int, i + 1) == data@.subrange(start as int, i as int).push(
            data@[i as int],
        ));
        i = i + 1;
    }
    v
}

/// Append bytes.
pub fn push_bytes(out: &mut Vec<u8>, bytes: &[u8])
    ensures
        final(out)@ == old(out)@ + bytes@,
{
    let mut i: usize = 0;
    while i < bytes.len()
        invariant
            i <= bytes.len(),
            out@ == old(out)@ + bytes@.subrange(0, i as int),
        decreases bytes.len() - i,
    {
        out.push(bytes[i]);
        assert(bytes@.subrange(0, i + 1) == bytes@.subrange(0, i as int).push(bytes@[i as int]));
        i = i + 1;
    }
    assert(bytes@.subrange(0, bytes.len() as int) == bytes@);
}

/// Write a `STRING`. The byte count is written modulo 2^32.
pub fn write_string(out: &mut Vec<u8>, s: &str)
    ensures
        final(out)@ == old(out)@ + enc_string(s@),
{
    let bytes = s.as_bytes();
    let n = bytes.len();
    let n32: u32 = if n <= 0xffff_ffff {
        n as u32
    } else {
        ((n as u64) % 0x1_0000_0000) as u32
    };
    proof {
        assert(u32_bytes(n32 as int) =~= u32_bytes(n as int));
    }
    push_u32(out, n32);
    push_bytes(out, bytes);
    assert(final(out)@ =~= old(out)@ + enc_string(s@));
}

/// Text pairs as plain values.
pub open spec fn pairs_view(p: Seq<(String, String)>) -> Seq<(Seq<char>, Seq<char>)> {
    p.map_values(|kv: (String, String)| (kv.0@, kv.1@))
}

/// The `STRING` pairs of a `DICT`, without its count.
pub open spec fn enc_pairs(p: Seq<(Seq<char>, Seq<char>)>) -> Seq<u8>
    decreases p.len(),
{
    if p.len() == 0 {
        Seq::empty()
    } else {
        enc_pairs(p.drop_last()) + enc_string(p.last().0) + enc_string(p.last().1)
    }
}

/// `DICT`: a 32-bit pair count, then key and value `STRING`s.
pub open spec fn enc_dict(p: Seq<(Seq<char>, Seq<char>)>) -> Seq<u8> {
    u32_bytes(p.len() as int) + enc_pairs(p)
}

/// Reading one key/value pair of `STRING`s at `off`.
pub open spec fn parse_pair(data: Seq<u8>, off: int) -> Result<((Seq<char>, Seq<char>), int), ChunkKind> {
    match parse_string(data, off) {
        Err(k) => Err(k),
        Ok((key, o2)) => match parse_string(data, o2) {
            Err(k) => Err(k),
            Ok((v, o3)) => Ok(((key, v), o3)),
        },
    }
}

/// Where reading a key/value pair at `off` leaves the offset when it fails.
pub open spec fn pair_stop(data: Seq<u8>, off: int) -> int {
    match parse_string(data, off) {
        Err(_) => string_stop(data, off),
        Ok((_, o2)) => string_stop(data, o2),
    }
}

/// Reading `n` key/value pairs at `off`.
pub open spec fn parse_pairs(data: Seq<u8>, off: int, n: int) -> Result<
    (Seq<(Seq<char>, Seq<char>)>, int),
    ChunkKind,
>
    decreases n,
{
    if n <= 0 {
        Ok((Seq::empty(), off))
    } else {
        match parse_pairs(data, off, n - 1) {
            Err(k) => Err(k),
            Ok((ps, o)) => match parse_pair(data, o) {
                Err(k) => Err(k),
                Ok((kv, o3)) => Ok((ps.push(kv), o3)),
            },
        }
    }
}

/// Where reading `n` pairs at `off` leaves the offset when it fails.
pub open spec fn pairs_stop(data: Seq<u8>, off: int, n: int) -> int
    decreases n,
{
    if n <= 0 {
        off
    } else {
        match parse_pairs(data, off, n - 1) {
            Err(_) => pairs_stop(data, off, n - 1),
            Ok((_, o)) => pair_stop(data, o),
        }
    }
}

fn read_pair(data: &[u8], offset: &mut usize) -> (r: Result<(String, String), VoxError>)
    ensures
        match parse_pair(data@, *old(offset) as int) {
            Ok((kv, o)) => r matches Ok(p) && p.0@ == kv.0 && p.1@ == kv.1 && *final(offset) == o,
            Err(k) => r matches Err(VoxError::BadChunk(kk)) && kk == k && *final(offset) == pair_stop(
                data@,
                *old(offset) as int,
            ),
        },
{
    let k = read_string(data, offset)?;
    let v = read_string(data, offset)?;
    Ok((k, v))
}

/// Once reading the pairs fails, reading more pairs fails the same way.
pub proof fn lemma_parse_pairs_err(data: Seq<u8>, off: int, i: int, n: int)
    requires
        0 <= i <= n,
        parse_pairs(data, off, i) is Err,
    ensures
        parse_pairs(data, off, n) == parse_pairs(data, off, i),
        pairs_stop(data, off, n) == pairs_stop(data, off, i),
    decreases n - i,
{
    if i < n {
        lemma_parse_pairs_err(data, off, i, n - 1);
    }
}

/// A `STRING` at `off` whose length field is there and negative.
pub open spec fn negative_string_at(data: Seq<u8>, off: int) -> bool {
    0 <= off && off + 4 <= data.len() && le_i32(data, off) < 0
}

/// The key at `off`, or the value after it, has a negative length.
pub open spec fn pair_has_negative_length(data: Seq<u8>, off: int) -> bool {
    ||| negative_string_at(data, off)
    ||| (parse_string(data, off) matches Ok((_, o2)) && negative_string_at(data, o2))
}

/// The first `i` pairs at `off` read, and the pair after them has a key or a
/// value of negative length.
pub open spec fn negative_after_pairs(data: Seq<u8>, off: int, i: int) -> bool {
    parse_pairs(data, off, i) matches Ok((_, o)) && pair_has_negative_length(data, o)
}

/// Reading the pairs of the `DICT` at `off` reaches a string whose length is
/// negative.
pub open spec fn dict_has_negative_string(data: Seq<u8>, off: int) -> bool {
    &&& 0 <= off && off + 4 <= data.len()
    &&& exists|i: int|
        0 <= i < le_i32(data, off) && #[trigger] negative_after_pairs(data, off + 4, i)
}

/// Reading a `DICT` at `off`: its pairs in order and the offset after it.
pub open spec fn parse_dict(data: Seq<u8>, off: int) -> Result<
    (Seq<(Seq<char>, Seq<char>)>, int),
    ChunkKind,
> {
    if off < 0 || off + 4 > data.len() {
        Err(ChunkKind::Dict)
    } else {
        parse_pairs(data, off + 4, le_i32(data, off))
    }
}

/// A `DICT` in which a key or a value has a negative length is refused as a
/// malformed string.
pub proof fn lemma_negative_string_refused(data: Seq<u8>, off: int)
    requires
        dict_has_negative_string(data, off),
    ensures
        parse_dict(data, off) == Err::<(Seq<(Seq<char>, Seq<char>)>, int), ChunkKind>(ChunkKind::Str),
{
    let i = choose|i: int|
        0 <= i < le_i32(data, off) && #[trigger] negative_after_pairs(data, off + 4, i);
    let n = le_i32(data, off);
    assert(parse_pairs(data, off + 4, i + 1) == Err::<(Seq<(Seq<char>, Seq<char>)>, int), ChunkKind>(
        ChunkKind::Str,
    ));
    lemma_parse_pairs_err(data, off + 4, i + 1, n);
}

/// Where reading a `DICT` at `off` leaves the offset when it fails: at `off`
/// when its count is cut off, else where reading its pairs stopped.
pub open spec fn dict_stop(data: Seq<u8>, off: int) -> int {
    if off < 0 || off + 4 > data.len() {
        off
    } else {
        pairs_stop(data, off + 4, le_i32(data, off))
    }
}

/// Read a `DICT` at `*offset` and move past it; its pairs in file order,
/// repeated keys included.
pub(crate) fn read_dict_pairs(data: &[u8], offset: &mut usize) -> (r: Result<Vec<(String, String)>, VoxError>)
    ensures
        match parse_dict(data@, *old(offset) as int) {
            Ok((p, o)) => r matches Ok(v) && pairs_view(v@) == p && *final(offset) == o,
            Err(k) => r matches Err(VoxError::BadChunk(kk)) && kk == k && *final(offset) == dict_stop(
                data@,
                *old(offset) as int,
            ),
        },
{
    let off = *offset;
    if off > data.len() || data.len() - off < 4 {
        return Err(VoxError::BadChunk(ChunkKind::Dict));
    }
    let n = read_i32(data, off);
    *offset = off + 4;
    let mut map: Vec<(String, String)> = Vec::new();
    let mut i: i32 = 0;
    assert(pairs_view(map@) =~= Seq::<(Seq<char>, Seq<char>)>::empty());
    while i < n
        invariant
            0 <= i,
            n < 0 ==> i == 0,
            n >= 0 ==> i <= n,
            off == *old(offset),
            n == le_i32(data@, off as int),
            off + 4 <= data@.len(),
            parse_pairs(data@, off + 4, i as int) == Ok::<
                (Seq<(Seq<char>, Seq<char>)>, int),
                ChunkKind,
            >((pairs_view(map@), *offset as int)),
        decreases n - i,
    {
        let ghost before = map@;
        let ghost o = *offset as int;
        match read_pair(data, offset) {
            Ok(kv) => {
                map.push(kv);
                assert(pairs_view(map@) =~= pairs_view(before).push((kv.0@, kv.1@)));
            },
            Err(e) => {
                proof {
                    assert(parse_pair(data@, o) is Err);
                    assert(parse_pairs(data@, off + 4, i + 1) is Err);
                    lemma_parse_pairs_err(data@, off + 4, i + 1, n as int);
                }
                return Err(e);
            },
        }
        i = i + 1;
    }
    assert(n <= 0 ==> parse_pairs(data@, off + 4, n as int) == parse_pairs(data@, off + 4, 0));
    assert(n > 0 ==> i == n);
    assert(parse_dict(data@, off as int) == parse_pairs(data@, off + 4, n as int));
    assert(parse_pairs(data@, off + 4, n as int) == Ok::<
        (Seq<(Seq<char>, Seq<char>)>, int),
        ChunkKind,
    >((pairs_view(map@), *offset as int)));
    Ok(map)
}

/// `s` without the pairs whose key is `k`.
pub open spec fn drop_key(s: Seq<(Seq<char>, Seq<char>)>, k: Seq<char>) -> Seq<(Seq<char>, Seq<char>)>
    decreases s.len(),
{
    if s.len() == 0 {
        s
    } else if s.last().0 == k {
        drop_key(s.drop_last(), k)
    } else {
        drop_key(s.drop_last(), k).push(s.last())
    }
}

/// Each key once, with the last value given for it: a pair moves to where
/// its key was last given.
pub open spec fn keep_last(s: Seq<(Seq<char>, Seq<char>)>) -> Seq<(Seq<char>, Seq<char>)>
    decreases s.len(),
{
    if s.len() == 0 {
        s
    } else {
        drop_key(keep_last(s.drop_last()), s.last().0).push(s.last())
    }
}

/// No key occurs twice.
pub open spec fn distinct_keys(s: Seq<(Seq<char>, Seq<char>)>) -> bool {
    forall|i: int, j: int| 0 <= i < j < s.len() ==> s[i].0 != s[j].0
}

proof fn lemma_drop_key(s: Seq<(Seq<char>, Seq<char>)>, k: Seq<char>)
    ensures
        forall|i: int| 0 <= i < drop_key(s, k).len() ==> (#[trigger] drop_key(s, k)[i]).0 != k,
        forall|x: (Seq<char>, Seq<char>)| drop_key(s, k).contains(x) ==> s.contains(x),
        distinct_keys(s) ==> distinct_keys(drop_key(s, k)),
        dict_get(drop_key(s, k), k) is None,
        forall|q: Seq<char>| q != k ==> #[trigger] dict_get(drop_key(s, k), q) == dict_get(s, q),
    decreases s.len(),
{
    if s.len() > 0 {
        let p = s.drop_last();
        lemma_drop_key(p, k);
        let d = drop_key(p, k);
        assert forall|x: (Seq<char>, Seq<char>)| p.contains(x) implies s.contains(x) by {
            let i = choose|i: int| 0 <= i < p.len() && p[i] == x;
            assert(s[i] == x);
        }
        if s.last().0 != k {
            let e = d.push(s.last());
            assert(e.drop_last() =~= d);
            assert(drop_key(s, k) == e);
            assert(e.last() == s.last());
            assert(dict_get(e, k) == dict_get(d, k));
            assert forall|q: Seq<char>| q != k implies #[trigger] dict_get(e, q) == dict_get(s, q) by {
                if q != s.last().0 {
                    assert(dict_get(e, q) == dict_get(d, q));
                    assert(dict_get(s, q) == dict_get(p, q));
                }
            }
            assert forall|x: (Seq<char>, Seq<char>)| e.contains(x) implies s.contains(x) by {
                let i = choose|i: int| 0 <= i < e.len() && e[i] == x;
                if i < d.len() {
                    assert(d[i] == x);
                    assert(d.contains(x));
                } else {
                    assert(s[s.len() - 1] == x);
                }
            }
            if distinct_keys(s) {
                assert(distinct_keys(p)) by {
                    assert forall|i: int, j: int| 0 <= i < j < p.len() implies p[i].0 != p[j].0 by {
                        assert(p[i] == s[i] && p[j] == s[j]);
                    }
                }
                assert forall|i: int, j: int| 0 <= i < j < e.len() implies e[i].0 != e[j].0 by {
                    if j == e.len() - 1 {
                        assert(e[i] == d[i]);
                        assert(0 <= i < d.len());
                        assert(d.contains(d[i]));
                        assert(p.contains(d[i]));
                        let m = choose|m: int| 0 <= m < p.len() && p[m] == d[i];
                        assert(s[m] == p[m]);
                        assert(s[s.len() - 1] == s.last());
                    } else {
                        assert(e[i] == d[i] && e[j] == d[j]);
                    }
                }
            }
        } else {
            assert(drop_key(s, k) == d);
            assert forall|q: Seq<char>| q != k implies #[trigger] dict_get(d, q) == dict_get(s, q) by {
                assert(dict_get(s, q) == dict_get(p, q));
            }
            if distinct_keys(s) {
                assert forall|i: int, j: int| 0 <= i < j < p.len() implies p[i].0 != p[j].0 by {
                    assert(p[i] == s[i] && p[j] == s[j]);
                }
            }
        }
    }
}

/// Keeping the last value per key leaves no key twice and changes no lookup.
pub proof fn lemma_keep_last(s: Seq<(Seq<char>, Seq<char>)>)
    ensures
        distinct_keys(keep_last(s)),
        forall|q: Seq<char>| #[trigger] dict_get(keep_last(s), q) == dict_get(s, q),
    decreases s.len(),
{
    if s.len() > 0 {
        let p = s.drop_last();
        lemma_keep_last(p);
        let k = s.last().0;
        let d = drop_key(keep_last(p), k);
        lemma_drop_key(keep_last(p), k);
        let e = d.push(s.last());
        assert(e.drop_last() =~= d);
        assert forall|i: int, j: int| 0 <= i < j < e.len() implies e[i].0 != e[j].0 by {
            if j == e.len() - 1 {
                assert(d[i].0 != k);
            } else {
                assert(e[i] == d[i] && e[j] == d[j]);
            }
        }
        assert forall|q: Seq<char>| #[trigger] dict_get(e, q) == dict_get(s, q) by {
            if q != k {
                assert(dict_get(d, q) == dict_get(keep_last(p), q));
            }
        }
    }
}

fn drop_key_pairs(v: Vec<(String, String)>, k: &String) -> (r: Vec<(String, String)>)
    ensures
        pairs_view(r@) == drop_key(pairs_view(v@), k@),
{
    let mut out: Vec<(String, String)> = Vec::new();
    let mut j: usize = 0;
    assert(pairs_view(v@).subrange(0, 0) =~= Seq::<(Seq<char>, Seq<char>)>::empty());
    assert(pairs_view(out@) =~= Seq::<(Seq<char>, Seq<char>)>::empty());
    while j < v.len()
        invariant
            j <= v.len(),
            pairs_view(out@) == drop_key(pairs_view(v@).subrange(0, j as int), k@),
        decreases v.len() - j,
    {
        let ghost before = out@;
        assert(pairs_view(v@).subrange(0, j + 1).drop_last() =~= pairs_view(v@).subrange(0, j as int));
        assert(pairs_view(v@).subrange(0, j + 1).last() == (v@[j as int].0@, v@[j as int].1@));
        if v[j].0 != *k {
            let (a, b) = &v[j];
            out.push((a.clone(), b.clone()));
            assert(pairs_view(out@) =~= pairs_view(before).push((v@[j as int].0@, v@[j as int].1@)));
        }
        j = j + 1;
    }
    assert(pairs_view(v@).subrange(0, v.len() as int) =~= pairs_view(v@));
    out
}

/// Read a `DICT` at `*offset` and move past it: each key once, with the last
/// value the dictionary gives it.
pub fn read_dict(data: &[u8], offset: &mut usize) -> (r: Result<Vec<(String, String)>, VoxError>)
    ensures
        match parse_dict(data@, *old(offset) as int) {
            Ok((p, o)) => r matches Ok(v) && pairs_view(v@) == keep_last(p) && *final(offset) == o,
            Err(k) => r matches Err(VoxError::BadChunk(kk)) && kk == k && *final(offset) == dict_stop(
                data@,
                *old(offset) as int,
            ),
        },
        r matches Ok(v) ==> distinct_keys(pairs_view(v@)),
{
    let ps = match read_dict_pairs(data, offset) {
        Ok(ps) => ps,
        Err(e) => {
            return Err(e);
        },
    };
    let mut out: Vec<(String, String)> = Vec::new();
    let mut i: usize = 0;
    assert(pairs_view(ps@).subrange(0, 0) =~= Seq::<(Seq<char>, Seq<char>)>::empty());
    assert(pairs_view(out@) =~= Seq::<(Seq<char>, Seq<char>)>::empty());
    while i < ps.len()
        invariant
            i <= ps.len(),
            pairs_view(out@) == keep_last(pairs_view(ps@).subrange(0, i as int)),
        decreases ps.len() - i,
    {
        assert(pairs_view(ps@).subrange(0, i + 1).drop_last() =~= pairs_view(ps@).subrange(0, i as int));
        assert(pairs_view(ps@).subrange(0, i + 1).last() == (ps@[i as int].0@, ps@[i as int].1@));
        let (a, b) = &ps[i];
        let mut d = drop_key_pairs(out, a);
        let ghost dv = d@;
        d.push((a.clone(), b.clone()));
        assert(pairs_view(d@) =~= pairs_view(dv).push((ps@[i as int].0@, ps@[i as int].1@)));
        out = d;
        i = i + 1;
    }
    assert(pairs_view(ps@).subrange(0, ps.len() as int) =~= pairs_view(ps@));
    proof {
        lemma_keep_last(pairs_view(ps@));
    }
    Ok(out)
}

/// Write a `DICT`. The pair count is written modulo 2^32.
#[verifier::rlimit(60)]
#[verifier::spinoff_prover]
pub fn write_dict(out: &mut Vec<u8>, pairs: &[(&str, &str)])
    ensures
        final(out)@ == old(out)@ + enc_dict(pairs@.map_values(|kv: (&str, &str)| (kv.0@, kv.1@))),
{
    let ghost p = pairs@.map_values(|kv: (&str, &str)| (kv.0@, kv.1@));
    let n = pairs.len();
    let n32: u32 = if n <= 0xffff_ffff {
        n as u32
    } else {
        ((n as u64) % 0x1_0000_0000) as u32
    };
    proof {
        assert(u32_bytes(n32 as int) =~= u32_bytes(n as int));
    }
    push_u32(out, n32);
    let ghost head = out@;
    let mut i: usize = 0;
    assert(p.take(0) =~= Seq::<(Seq<char>, Seq<char>)>::empty());
    while i < pairs.len()
        invariant
            i <= pairs.len(),
            p == pairs@.map_values(|kv: (&str, &str)| (kv.0@, kv.1@)),
            out@ == head + enc_pairs(p.take(i as int)),
        decreases pairs.len() - i,
    {
        let (k, v) = pairs[i];
        write_string(out, k);
        write_string(out, v);
        assert(p.take(i + 1).drop_last() =~= p.take(i as int));
        assert(p.take(i + 1).last() == (k@, v@));
        i = i + 1;
    }
    assert(p.take(i as int) =~= p);
    assert(final(out)@ =~= old(out)@ + enc_dict(p));
}

/// The value of the last pair with key `key` (later pairs win, as in a map).
pub open spec fn dict_get(p: Seq<(Seq<char>, Seq<char>)>, key: Seq<char>) -> Option<Seq<char>>
    decreases p.len(),
{
    if p.len() == 0 {
        None
    } else if p.last().0 == key {
        Some(p.last().1)
    } else {
        dict_get(p.drop_last(), key)
    }
}

/// The value stored under `key`, if any.
pub fn dict_lookup<'a>(map: &'a Vec<(String, String)>, key: &str) -> (r: Option<&'a String>)
    ensures
        match dict_get(pairs_view(map@), key@) {
            Some(v) => r matches Some(s) && s@ == v,
            None => r is None,
        },
{
    let mut i = map.len();
    assert(map@.take(i as int) =~= map@);
    while i > 0
        invariant
            i <= map@.len(),
            dict_get(pairs_view(map@), key@) == dict_get(pairs_view(map@.take(i as int)), key@),
        decreases i,
    {
        let ghost t = pairs_view(map@.take(i as int));
        assert(t.drop_last() =~= pairs_view(map@.take(i - 1)));
        assert(t.last() == (map@[i - 1].0@, map@[i - 1].1@));
        if same_text(map[i - 1].0.as_str(), key) {
            return Some(&map[i - 1].1);
        }
        i = i - 1;
    }
    None
}

/// The value under `key` read as an `i32`.
pub fn dict_get_i32(map: &Vec<(String, String)>, key: &str) -> (r: Option<i32>)
    ensures
        r == (match dict_get(pairs_view(map@), key@) {
            Some(v) => match parse_i32(v) {
                Some(x) => Some(x as i32),
                None => None,
            },
            None => None,
        }),
{
    let s = dict_lookup(map, key)?;
    let cs = chars_of(s.as_str());
    match parse_int_chars(cs.as_slice(), i32::MIN as i64, i32::MAX as i64) {
        Some(v) => Some(v as i32),
        None => None,
    }
}

/// Three whitespace-separated `i32`s.
pub open spec fn parse_ivec3(v: Seq<char>) -> Option<(i32, i32, i32)> {
    let w = words(v);
    if w.len() != 3 {
        None
    } else {
        match (parse_i32(w[0]), parse_i32(w[1]), parse_i32(w[2])) {
            (Some(a), Some(b), Some(c)) => Some((a as i32, b as i32, c as i32)),
            _ => None,
        }
    }
}

/// The value under `key` read as three whitespace-separated `i32`s.
pub fn dict_get_ivec3(map: &Vec<(String, String)>, key: &str) -> (r: Option<(i32, i32, i32)>)
    ensures
        r == (match dict_get(pairs_view(map@), key@) {
            Some(v) => parse_ivec3(v),
            None => None,
        }),
{
    let s = dict_lookup(map, key)?;
    let cs = chars_of(s.as_str());
    let parts = split_words(cs.as_slice());
    if parts.len() != 3 {
        return None;
    }
    let a = parse_int_chars(parts[0].as_slice(), i32::MIN as i64, i32::MAX as i64)?;
    let b = parse_int_chars(parts[1].as_slice(), i32::MIN as i64, i32::MAX as i64)?;
    let c = parse_int_chars(parts[2].as_slice(), i32::MIN as i64, i32::MAX as i64)?;
    Some((a as i32, b as i32, c as i32))
}

/// Strings short enough that their byte count survives the 32-bit field.
pub open spec fn fits_string(s: Seq<char>) -> bool {
    encode_utf8(s).len() < 0x8000_0000
}

/// Pairs whose count and strings survive their 32-bit fields.
pub open spec fn fits_pairs(p: Seq<(Seq<char>, Seq<char>)>) -> bool {
    &&& p.len() < 0x8000_0000
    &&& forall|i: int| 0 <= i < p.len() ==> fits_string(#[trigger] p[i].0) && fits_string(p[i].1)
}

/// A `STRING` written at `off` reads back as the same text.
pub proof fn lemma_string_roundtrip(data: Seq<u8>, off: int, s: Seq<char>)
    requires
        0 <= off,
        off + enc_string(s).len() <= data.len(),
        data.subrange(off, off + enc_string(s).len()) == enc_string(s),
        fits_string(s),
    ensures
        parse_string(data, off) == Ok::<(Seq<char>, int), ChunkKind>((s, off + enc_string(s).len())),
{
    broadcast use vstd::utf8::encode_utf8_valid_utf8, vstd::utf8::encode_utf8_decode_utf8;

    let b = encode_utf8(s);
    let e = enc_string(s);
    assert(data.subrange(off, off + 4) == e.subrange(0, 4));
    assert(e.subrange(0, 4) == u32_bytes(b.len() as int));
    lemma_u32_bytes(data, off, b.len() as int);
    assert(data.subrange(off + 4, off + 4 + b.len()) == e.subrange(4, e.len() as int));
    assert(e.subrange(4, e.len() as int) == b);
}

/// Key/value pairs written at `off` read back as the same pairs.
pub proof fn lemma_pairs_roundtrip(data: Seq<u8>, off: int, p: Seq<(Seq<char>, Seq<char>)>)
    requires
        0 <= off,
        off + enc_pairs(p).len() <= data.len(),
        data.subrange(off, off + enc_pairs(p).len()) == enc_pairs(p),
        fits_pairs(p),
    ensures
        parse_pairs(data, off, p.len() as int) == Ok::<
            (Seq<(Seq<char>, Seq<char>)>, int),
            ChunkKind,
        >((p, off + enc_pairs(p).len())),
    decreases p.len(),
{
    if p.len() > 0 {
        let q = p.drop_last();
        let (k, v) = p.last();
        let eq = enc_pairs(q);
        let ek = enc_string(k);
        let ev = enc_string(v);
        let a = eq.len() as int;
        let bb = a + ek.len();
        let c = bb + ev.len();
        assert(enc_pairs(p) == eq + ek + ev);
        assert(data.subrange(off, off + eq.len()) == enc_pairs(p).subrange(0, eq.len() as int));
        assert(enc_pairs(p).subrange(0, eq.len() as int) == eq);
        assert forall|i: int| 0 <= i < q.len() implies fits_string(#[trigger] q[i].0) && fits_string(
            q[i].1,
        ) by {
            assert(q[i] == p[i]);
        }
        lemma_pairs_roundtrip(data, off, q);
        let o = off + eq.len();
        assert(data.subrange(o, o + ek.len()) == enc_pairs(p).subrange(a, bb));
        assert(enc_pairs(p).subrange(a, bb) == ek);
        assert(fits_string(p[p.len() - 1].0));
        lemma_string_roundtrip(data, o, k);
        let o2 = o + ek.len();
        assert(data.subrange(o2, o2 + ev.len()) == enc_pairs(p).subrange(bb, c));
        assert(enc_pairs(p).subrange(bb, c) == ev);
        lemma_string_roundtrip(data, o2, v);
        assert(parse_pair(data, o) == Ok::<((Seq<char>, Seq<char>), int), ChunkKind>(
            ((k, v), off + c),
        ));
        assert(q.push((k, v)) == p);
        assert(parse_pairs(data, off, p.len() as int) == Ok::<
            (Seq<(Seq<char>, Seq<char>)>, int),
            ChunkKind,
        >((q.push((k, v)), off + c)));
    } else {
        assert(p == Seq::<(Seq<char>, Seq<char>)>::empty());
    }
}

/// A `DICT` written at `off` reads back as the same pairs, in order.
pub proof fn lemma_dict_roundtrip(data: Seq<u8>, off: int, p: Seq<(Seq<char>, Seq<char>)>)
    requires
        0 <= off,
        off + enc_dict(p).len() <= data.len(),
        data.subrange(off, off + enc_dict(p).len()) == enc_dict(p),
        fits_pairs(p),
    ensures
        parse_dict(data, off) == Ok::<(Seq<(Seq<char>, Seq<char>)>, int), ChunkKind>(
            (p, off + enc_dict(p).len()),
        ),
{
    let e = enc_dict(p);
    assert(data.subrange(off, off + 4) == e.subrange(0, 4));
    assert(e.subrange(0, 4) == u32_bytes(p.len() as int));
    lemma_u32_bytes(data, off, p.len() as int);
    assert(data.subrange(off + 4, off + 4 + enc_pairs(p).len()) == e.subrange(4, e.len() as int));
    assert(e.subrange(4, e.len() as int) == enc_pairs(p));
    lemma_pairs_roundtrip(data, off + 4, p);
}

} // verus!
