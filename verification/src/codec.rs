//! The wire codec: a deterministic binary form for every message of both
//! families. Scalars travel little-endian, byte strings length-prefixed,
//! and every message under a leading variant tag. Decoding a frame that
//! some message encodes to yields that message back; anything else is
//! rejected.

use vstd::prelude::*;

use crate::messages::{InitPlayer, TcpClientMsg, TcpServerMsg, UdpClientMsg, UdpServerMsg};
use crate::objects::{GameObject, GameObjects};
use crate::types::{Direction, Location};

verus! {

/// The four little-endian bytes of `v`.
pub open spec fn spec_u32_bytes(v: u32) -> Seq<u8> {
    seq![
        (v % 256) as u8,
        ((v / 256) % 256) as u8,
        ((v / 65536) % 256) as u8,
        ((v / 16777216) % 256) as u8,
    ]
}

/// The value four little-endian bytes carry.
pub open spec fn spec_u32_of(b0: u8, b1: u8, b2: u8, b3: u8) -> u32 {
    (b0 + b1 * 256 + b2 * 65536 + b3 * 16777216) as u32
}

/// Reading back the four bytes of `v` gives `v`.
pub proof fn lemma_u32_rt(v: u32)
    ensures
        spec_u32_of(
            (v % 256) as u8,
            ((v / 256) % 256) as u8,
            ((v / 65536) % 256) as u8,
            ((v / 16777216) % 256) as u8,
        ) == v,
{
    assert(((v % 256) as u8) + (((v / 256) % 256) as u8) * 256 + (((v / 65536) % 256) as u8)
        * 65536 + (((v / 16777216) % 256) as u8) * 16777216 == v) by (nonlinear_arith)
        requires
            v < 0x100000000,
    {
    }
}

/// Four bytes survive being read as a value and written again.
pub proof fn lemma_u32_bytes_of(b0: u8, b1: u8, b2: u8, b3: u8)
    ensures
        spec_u32_bytes(spec_u32_of(b0, b1, b2, b3)) =~= seq![b0, b1, b2, b3],
{
    let v = spec_u32_of(b0, b1, b2, b3);
    assert(v % 256 == b0 && (v / 256) % 256 == b1 && (v / 65536) % 256 == b2 && (v / 16777216)
        % 256 == b3) by (nonlinear_arith)
        requires
            v == b0 + b1 * 256 + b2 * 65536 + b3 * 16777216,
            b0 < 256 && b1 < 256 && b2 < 256 && b3 < 256,
    {
    }
}

/// Appends the four bytes of `v`.
pub fn encode_u32(out: &mut Vec<u8>, v: u32)
    ensures
        final(out)@ =~= old(out)@ + spec_u32_bytes(v),
{
    out.push((v % 256) as u8);
    out.push(((v / 256) % 256) as u8);
    out.push(((v / 65536) % 256) as u8);
    out.push(((v / 16777216) % 256) as u8);
}

/// Reads four bytes at `i` as a value; fails exactly when fewer remain.
pub fn decode_u32(buf: &Vec<u8>, i: usize) -> (r: Option<(u32, usize)>)
    ensures
        r is Some <==> i + 4 <= buf@.len(),
        r matches Some((v, j)) ==> j == i + 4 && v == spec_u32_of(
            buf@[i as int],
            buf@[i as int + 1],
            buf@[i as int + 2],
            buf@[i as int + 3],
        ),
{
    if buf.len() < 4 || i > buf.len() - 4 {
        return None;
    }
    let b0 = buf[i] as u32;
    let b1 = buf[i + 1] as u32;
    let b2 = buf[i + 2] as u32;
    let b3 = buf[i + 3] as u32;
    let v = b0 + b1 * 256 + b2 * 65536 + b3 * 16777216;
    Some((v, i + 4))
}

/// The eight little-endian bytes of `v`: low word first.
pub open spec fn spec_u64_bytes(v: u64) -> Seq<u8> {
    spec_u32_bytes((v % 0x100000000) as u32) + spec_u32_bytes((v / 0x100000000) as u32)
}

/// The value two little-endian words carry.
pub open spec fn spec_u64_of(lo: u32, hi: u32) -> u64 {
    (lo + hi * 0x100000000) as u64
}

/// Reading back the two words of `v` gives `v`.
pub proof fn lemma_u64_rt(v: u64)
    ensures
        spec_u64_of((v % 0x100000000) as u32, (v / 0x100000000) as u32) == v,
{
    assert(((v % 0x100000000) as u32) + ((v / 0x100000000) as u32) * 0x100000000 == v)
        by (nonlinear_arith)
        requires
            v < 0x10000000000000000,
    {
    }
}

/// Appends the eight bytes of `v`.
pub fn encode_u64(out: &mut Vec<u8>, v: u64)
    ensures
        final(out)@ =~= old(out)@ + spec_u64_bytes(v),
{
    encode_u32(out, (v % 0x100000000) as u32);
    encode_u32(out, (v / 0x100000000) as u32);
}

/// Reads eight bytes at `i` as a value; fails exactly when fewer remain.
pub fn decode_u64(buf: &Vec<u8>, i: usize) -> (r: Option<(u64, usize)>)
    ensures
        r is Some <==> i + 8 <= buf@.len(),
        r matches Some((v, j)) ==> j == i + 8 && v == spec_u64_of(
            spec_u32_of(
                buf@[i as int],
                buf@[i as int + 1],
                buf@[i as int + 2],
                buf@[i as int + 3],
            ),
            spec_u32_of(
                buf@[i as int + 4],
                buf@[i as int + 5],
                buf@[i as int + 6],
                buf@[i as int + 7],
            ),
        ),
{
    let (lo, j) = match decode_u32(buf, i) {
        Some(x) => x,
        None => {
            return None;
        },
    };
    let (hi, k) = match decode_u32(buf, j) {
        Some(x) => x,
        None => {
            return None;
        },
    };
    Some(((lo as u64) + (hi as u64) * 0x100000000, k))
}

/// The sixteen little-endian bytes of `v`: low half first.
pub open spec fn spec_u128_bytes(v: u128) -> Seq<u8> {
    spec_u64_bytes((v % 0x10000000000000000) as u64) + spec_u64_bytes(
        (v / 0x10000000000000000) as u64,
    )
}

/// The value two little-endian halves carry.
pub open spec fn spec_u128_of(lo: u64, hi: u64) -> u128 {
    (lo + hi * 0x10000000000000000) as u128
}

/// Reading back the two halves of `v` gives `v`.
pub proof fn lemma_u128_rt(v: u128)
    ensures
        spec_u128_of((v % 0x10000000000000000) as u64, (v / 0x10000000000000000) as u64) == v,
{
    assert(((v % 0x10000000000000000) as u64) + ((v / 0x10000000000000000) as u64)
        * 0x10000000000000000 == v) by (nonlinear_arith)
        requires
            v < 0x100000000000000000000000000000000,
    {
    }
}

/// Appends the sixteen bytes of `v`.
pub fn encode_u128(out: &mut Vec<u8>, v: u128)
    ensures
        final(out)@ =~= old(out)@ + spec_u128_bytes(v),
{
    encode_u64(out, (v % 0x10000000000000000) as u64);
    encode_u64(out, (v / 0x10000000000000000) as u64);
}

/// Reads sixteen bytes at `i` as a value; fails exactly when fewer remain.
pub fn decode_u128(buf: &Vec<u8>, i: usize) -> (r: Option<(u128, usize)>)
    ensures
        r is Some <==> i + 16 <= buf@.len(),
        r matches Some((v, j)) ==> j == i + 16 && spec_u128_bytes(v) =~= buf@.subrange(
            i as int,
            i as int + 16,
        ),
{
    let (lo, j) = match decode_u64(buf, i) {
        Some(x) => x,
        None => {
            return None;
        },
    };
    let (hi, k) = match decode_u64(buf, j) {
        Some(x) => x,
        None => {
            return None;
        },
    };
    let v = (lo as u128) + (hi as u128) * 0x10000000000000000;
    proof {
        lemma_u128_parts(lo, hi, buf@, i as int);
    }
    Some((v, k))
}

/// The sixteen bytes under two parsed halves are the bytes of their value.
proof fn lemma_u128_parts(lo: u64, hi: u64, s: Seq<u8>, i: int)
    requires
        0 <= i,
        i + 16 <= s.len(),
        lo == spec_u64_of(
            spec_u32_of(s[i], s[i + 1], s[i + 2], s[i + 3]),
            spec_u32_of(s[i + 4], s[i + 5], s[i + 6], s[i + 7]),
        ),
        hi == spec_u64_of(
            spec_u32_of(s[i + 8], s[i + 9], s[i + 10], s[i + 11]),
            spec_u32_of(s[i + 12], s[i + 13], s[i + 14], s[i + 15]),
        ),
    ensures
        spec_u128_bytes(spec_u128_of(lo, hi)) =~= s.subrange(i, i + 16),
{
    let v = spec_u128_of(lo, hi);
    assert(v % 0x10000000000000000 == lo && v / 0x10000000000000000 == hi) by (nonlinear_arith)
        requires
            v == lo + hi * 0x10000000000000000,
            lo < 0x10000000000000000 && hi < 0x10000000000000000,
    {
    }
    lemma_u64_bytes_eq(lo, s, i);
    lemma_u64_bytes_eq(hi, s, i + 8);
}

/// The eight bytes a parsed value came from are the bytes of that value.
pub proof fn lemma_u64_bytes_eq(v: u64, s: Seq<u8>, i: int)
    requires
        0 <= i,
        i + 8 <= s.len(),
        v == spec_u64_of(
            spec_u32_of(s[i], s[i + 1], s[i + 2], s[i + 3]),
            spec_u32_of(s[i + 4], s[i + 5], s[i + 6], s[i + 7]),
        ),
    ensures
        spec_u64_bytes(v) =~= s.subrange(i, i + 8),
{
    let lo = spec_u32_of(s[i], s[i + 1], s[i + 2], s[i + 3]);
    let hi = spec_u32_of(s[i + 4], s[i + 5], s[i + 6], s[i + 7]);
    assert(v % 0x100000000 == lo && v / 0x100000000 == hi) by (nonlinear_arith)
        requires
            v == lo + hi * 0x100000000,
            lo < 0x100000000 && hi < 0x100000000,
    {
    }
    lemma_u32_bytes_of(s[i], s[i + 1], s[i + 2], s[i + 3]);
    lemma_u32_bytes_of(s[i + 4], s[i + 5], s[i + 6], s[i + 7]);
}

/// The four bytes a parsed value came from are the bytes of that value.
pub proof fn lemma_u32_bytes_eq(v: u32, s: Seq<u8>, i: int)
    requires
        0 <= i,
        i + 4 <= s.len(),
        v == spec_u32_of(s[i], s[i + 1], s[i + 2], s[i + 3]),
    ensures
        spec_u32_bytes(v) =~= s.subrange(i, i + 4),
{
    lemma_u32_bytes_of(s[i], s[i + 1], s[i + 2], s[i + 3]);
}


/// The encoding `e` sits in `b` at offset `i`.
pub open spec fn prefix_at(b: Seq<u8>, i: int, e: Seq<u8>) -> bool {
    0 <= i && i + e.len() <= b.len() && b.subrange(i, i + e.len()) =~= e
}

/// Parsing the four bytes of `v` gives `v` back.
pub proof fn lemma_u32_parse(v: u32, s: Seq<u8>, i: int)
    requires
        prefix_at(s, i, spec_u32_bytes(v)),
    ensures
        spec_u32_of(s[i], s[i + 1], s[i + 2], s[i + 3]) == v,
{
    assert(s[i] == spec_u32_bytes(v)[0]);
    assert(s[i + 1] == spec_u32_bytes(v)[1]);
    assert(s[i + 2] == spec_u32_bytes(v)[2]);
    assert(s[i + 3] == spec_u32_bytes(v)[3]);
    lemma_u32_rt(v);
}

/// Parsing the eight bytes of `v` gives `v` back.
pub proof fn lemma_u64_parse(v: u64, s: Seq<u8>, i: int)
    requires
        prefix_at(s, i, spec_u64_bytes(v)),
    ensures
        spec_u64_of(
            spec_u32_of(s[i], s[i + 1], s[i + 2], s[i + 3]),
            spec_u32_of(s[i + 4], s[i + 5], s[i + 6], s[i + 7]),
        ) == v,
{
    let lo = (v % 0x100000000) as u32;
    let hi = (v / 0x100000000) as u32;
    assert(prefix_at(s, i, spec_u32_bytes(lo))) by {
        assert forall|k: int| 0 <= k < 4 implies s.subrange(i, i + 4)[k] == spec_u32_bytes(lo)[k]
            by {
            assert(s[i + k] == spec_u64_bytes(v)[k]);
        }
    }
    assert(prefix_at(s, i + 4, spec_u32_bytes(hi))) by {
        assert forall|k: int| 0 <= k < 4 implies s.subrange(i + 4, i + 8)[k] == spec_u32_bytes(
            hi,
        )[k] by {
            assert(s[i + 4 + k] == spec_u64_bytes(v)[4 + k]);
        }
    }
    lemma_u32_parse(lo, s, i);
    lemma_u32_parse(hi, s, i + 4);
    lemma_u64_rt(v);
}

/// Parsing the sixteen bytes of `v` gives `v` back.
pub proof fn lemma_u128_parse(v: u128, s: Seq<u8>, i: int)
    requires
        prefix_at(s, i, spec_u128_bytes(v)),
    ensures
        spec_u128_of(
            spec_u64_of(
                spec_u32_of(s[i], s[i + 1], s[i + 2], s[i + 3]),
                spec_u32_of(s[i + 4], s[i + 5], s[i + 6], s[i + 7]),
            ),
            spec_u64_of(
                spec_u32_of(s[i + 8], s[i + 9], s[i + 10], s[i + 11]),
                spec_u32_of(s[i + 12], s[i + 13], s[i + 14], s[i + 15]),
            ),
        ) == v,
{
    let lo = (v % 0x10000000000000000) as u64;
    let hi = (v / 0x10000000000000000) as u64;
    assert(prefix_at(s, i, spec_u64_bytes(lo))) by {
        assert forall|k: int| 0 <= k < 8 implies s.subrange(i, i + 8)[k] == spec_u64_bytes(lo)[k]
            by {
            assert(s[i + k] == spec_u128_bytes(v)[k]);
        }
    }
    assert(prefix_at(s, i + 8, spec_u64_bytes(hi))) by {
        assert forall|k: int| 0 <= k < 8 implies s.subrange(i + 8, i + 16)[k] == spec_u64_bytes(
            hi,
        )[k] by {
            assert(s[i + 8 + k] == spec_u128_bytes(v)[8 + k]);
        }
    }
    lemma_u64_parse(lo, s, i);
    lemma_u64_parse(hi, s, i + 8);
    lemma_u128_rt(v);
}

/// A byte string on the wire: its length, then its bytes.
pub open spec fn spec_bytes_enc(s: Seq<u8>) -> Seq<u8> {
    spec_u64_bytes(s.len() as u64) + s
}

/// Appends the length and bytes of `v`.
pub fn encode_bytes(out: &mut Vec<u8>, v: &Vec<u8>)
    ensures
        final(out)@ =~= old(out)@ + spec_bytes_enc(v@),
{
    encode_u64(out, v.len() as u64);
    let n = v.len();
    let mut k: usize = 0;
    while k < n
        invariant
            n == v@.len(),
            0 <= k <= n,
            out@ =~= old(out)@ + spec_u64_bytes(v@.len() as u64) + v@.take(k as int),
        decreases n - k,
    {
        out.push(v[k]);
        proof {
            assert(out@ =~= old(out)@ + spec_u64_bytes(v@.len() as u64) + v@.take(k + 1));
        }
        k = k + 1;
    }
    proof {
        assert(v@.take(n as int) =~= v@);
    }
}

/// Reads a length-prefixed byte string at `i`. A frame holding the
/// encoding of some byte string at `i` parses to exactly that string.
pub fn decode_bytes(buf: &Vec<u8>, i: usize) -> (r: Option<(Vec<u8>, usize)>)
    ensures
        r matches Some((v, j)) ==> j == i + 8 + v@.len() && prefix_at(
            buf@,
            i as int,
            spec_bytes_enc(v@),
        ),
        forall|s: Seq<u8>|
            prefix_at(buf@, i as int, #[trigger] spec_bytes_enc(s)) ==> r is Some
                && r->Some_0.0@ == s && r->Some_0.1 == i + 8 + s.len(),
{
    let (n64, j) = match decode_u64(buf, i) {
        Some(x) => x,
        None => {
            proof {
                assert forall|s: Seq<u8>|
                    !prefix_at(buf@, i as int, #[trigger] spec_bytes_enc(s)) by {
                    if prefix_at(buf@, i as int, spec_bytes_enc(s)) {
                        assert(i + 8 <= buf@.len());
                    }
                }
            }
            return None;
        },
    };
    if n64 > (buf.len() - j) as u64 {
        proof {
            assert forall|s: Seq<u8>|
                !prefix_at(buf@, i as int, #[trigger] spec_bytes_enc(s)) by {
                if prefix_at(buf@, i as int, spec_bytes_enc(s)) {
                    lemma_u64_parse(s.len() as u64, buf@, i as int);
                }
            }
        }
        return None;
    }
    let n = n64 as usize;
    let blen = buf.len();
    let mut v: Vec<u8> = Vec::new();
    let mut k: usize = 0;
    while k < n
        invariant
            i + 8 == j,
            blen == buf@.len(),
            j + n <= blen,
            0 <= k <= n,
            v@ =~= buf@.subrange(j as int, j as int + k as int),
        decreases n - k,
    {
        v.push(buf[j + k]);
        proof {
            assert(v@ =~= buf@.subrange(j as int, j as int + k + 1));
        }
        k = k + 1;
    }
    proof {
        assert(n64 == spec_u64_of(
            spec_u32_of(buf@[i as int], buf@[i as int + 1], buf@[i as int + 2], buf@[i as int + 3]),
            spec_u32_of(
                buf@[i as int + 4],
                buf@[i as int + 5],
                buf@[i as int + 6],
                buf@[i as int + 7],
            ),
        ));
        lemma_u64_bytes_eq(n64, buf@, i as int);
        assert(prefix_at(buf@, i as int, spec_bytes_enc(v@))) by {
            assert(spec_bytes_enc(v@).len() == 8 + n);
            assert forall|k2: int| 0 <= k2 < 8 + n implies buf@.subrange(
                i as int,
                i as int + 8 + n,
            )[k2] == spec_bytes_enc(v@)[k2] by {
                if k2 < 8 {
                    assert(buf@.subrange(i as int, i as int + 8)[k2] == spec_u64_bytes(n64)[k2]);
                } else {
                    assert(v@[k2 - 8] == buf@[j + k2 - 8]);
                }
            }
        }
        assert forall|s: Seq<u8>|
            prefix_at(buf@, i as int, #[trigger] spec_bytes_enc(s)) implies v@ == s by {
            lemma_u64_parse(s.len() as u64, buf@, i as int);
            assert(s.len() == n);
            assert forall|k2: int| 0 <= k2 < n implies s[k2] == v@[k2] by {
                assert(buf@.subrange(i as int, i as int + 8 + s.len())[8 + k2] == s[k2]);
            }
            assert(v@ =~= s);
        }
    }
    Some((v, j + n))
}

/// A cell on the wire: its three coordinates.
pub open spec fn spec_loc_enc(l: Location) -> Seq<u8> {
    spec_u32_bytes(l.x) + spec_u32_bytes(l.y) + spec_u32_bytes(l.z)
}

/// Appends the three coordinates of `l`.
pub fn encode_location(out: &mut Vec<u8>, l: Location)
    ensures
        final(out)@ =~= old(out)@ + spec_loc_enc(l),
{
    encode_u32(out, l.x);
    encode_u32(out, l.y);
    encode_u32(out, l.z);
}

/// Reads a cell at `i`; a frame holding a cell's encoding at `i` parses to
/// exactly that cell.
pub fn decode_location(buf: &Vec<u8>, i: usize) -> (r: Option<(Location, usize)>)
    ensures
        r matches Some((l, j)) ==> j == i + 12 && prefix_at(buf@, i as int, spec_loc_enc(l)),
        forall|l: Location|
            prefix_at(buf@, i as int, #[trigger] spec_loc_enc(l)) ==> r == Some::<(
                Location,
                usize,
            )>((l, (i + 12) as usize)),
{
    let (x, j1) = match decode_u32(buf, i) {
        Some(v) => v,
        None => {
            return None;
        },
    };
    let (y, j2) = match decode_u32(buf, j1) {
        Some(v) => v,
        None => {
            return None;
        },
    };
    let (z, j3) = match decode_u32(buf, j2) {
        Some(v) => v,
        None => {
            return None;
        },
    };
    let l = Location { x, y, z };
    proof {
        lemma_u32_bytes_eq(x, buf@, i as int);
        lemma_u32_bytes_eq(y, buf@, i as int + 4);
        lemma_u32_bytes_eq(z, buf@, i as int + 8);
        assert(prefix_at(buf@, i as int, spec_loc_enc(l))) by {
            assert forall|k: int| 0 <= k < 12 implies buf@.subrange(i as int, i as int + 12)[k]
                == spec_loc_enc(l)[k] by {
                if k < 4 {
                    assert(spec_u32_bytes(x)[k] == buf@.subrange(i as int, i as int + 4)[k]);
                } else if k < 8 {
                    assert(spec_u32_bytes(y)[k - 4] == buf@.subrange(
                        i as int + 4,
                        i as int + 8,
                    )[k - 4]);
                } else {
                    assert(spec_u32_bytes(z)[k - 8] == buf@.subrange(
                        i as int + 8,
                        i as int + 12,
                    )[k - 8]);
                }
            }
        }
        assert forall|l2: Location|
            prefix_at(buf@, i as int, #[trigger] spec_loc_enc(l2)) implies l2 == l by {
            lemma_loc_parse(l2, buf@, i as int);
        }
    }
    Some((l, j3))
}

/// Parsing the twelve bytes of a cell gives its coordinates back.
proof fn lemma_loc_parse(l: Location, s: Seq<u8>, i: int)
    requires
        prefix_at(s, i, spec_loc_enc(l)),
    ensures
        spec_u32_of(s[i], s[i + 1], s[i + 2], s[i + 3]) == l.x,
        spec_u32_of(s[i + 4], s[i + 5], s[i + 6], s[i + 7]) == l.y,
        spec_u32_of(s[i + 8], s[i + 9], s[i + 10], s[i + 11]) == l.z,
{
    assert(prefix_at(s, i, spec_u32_bytes(l.x))) by {
        assert forall|k: int| 0 <= k < 4 implies s.subrange(i, i + 4)[k] == spec_u32_bytes(l.x)[k]
            by {
            assert(s[i + k] == spec_loc_enc(l)[k]);
        }
    }
    assert(prefix_at(s, i + 4, spec_u32_bytes(l.y))) by {
        assert forall|k: int| 0 <= k < 4 implies s.subrange(i + 4, i + 8)[k] == spec_u32_bytes(
            l.y,
        )[k] by {
            assert(s[i + 4 + k] == spec_loc_enc(l)[4 + k]);
        }
    }
    assert(prefix_at(s, i + 8, spec_u32_bytes(l.z))) by {
        assert forall|k: int| 0 <= k < 4 implies s.subrange(i + 8, i + 12)[k] == spec_u32_bytes(
            l.z,
        )[k] by {
            assert(s[i + 8 + k] == spec_loc_enc(l)[8 + k]);
        }
    }
    lemma_u32_parse(l.x, s, i);
    lemma_u32_parse(l.y, s, i + 4);
    lemma_u32_parse(l.z, s, i + 8);
}

/// A facing on the wire: one tag byte.
pub open spec fn spec_dir_byte(d: Direction) -> u8 {
    match d {
        Direction::North => 0u8,
        Direction::South => 1u8,
        Direction::East => 2u8,
        Direction::West => 3u8,
    }
}

/// Appends the tag byte of `d`.
pub fn encode_direction(out: &mut Vec<u8>, d: Direction)
    ensures
        final(out)@ =~= old(out)@ + seq![spec_dir_byte(d)],
{
    let b: u8 = match d {
        Direction::North => 0,
        Direction::South => 1,
        Direction::East => 2,
        Direction::West => 3,
    };
    out.push(b);
}

/// Reads a facing at `i`; a frame holding a facing's tag at `i` parses to
/// exactly that facing, and an unknown tag is rejected.
pub fn decode_direction(buf: &Vec<u8>, i: usize) -> (r: Option<(Direction, usize)>)
    ensures
        r matches Some((d, j)) ==> j == i + 1 && prefix_at(buf@, i as int, seq![spec_dir_byte(d)]),
        forall|d: Direction|
            prefix_at(buf@, i as int, seq![#[trigger] spec_dir_byte(d)]) ==> r == Some::<(
                Direction,
                usize,
            )>((d, (i + 1) as usize)),
{
    if i >= buf.len() {
        return None;
    }
    proof {
        assert forall|d: Direction|
            prefix_at(buf@, i as int, seq![#[trigger] spec_dir_byte(d)]) implies buf@[i as int]
            == spec_dir_byte(d) by {
            assert(buf@[i as int] == buf@.subrange(i as int, i as int + 1)[0]);
        }
    }
    let d = match buf[i] {
        0u8 => Direction::North,
        1u8 => Direction::South,
        2u8 => Direction::East,
        3u8 => Direction::West,
        _ => {
            return None;
        },
    };
    proof {
        assert(buf@.subrange(i as int, i as int + 1) =~= seq![buf@[i as int]]);
    }
    Some((d, i + 1))
}


/// A prefix made of two parts puts each part at its own offset.
pub proof fn lemma_prefix_split(b: Seq<u8>, i: int, e1: Seq<u8>, e2: Seq<u8>)
    requires
        prefix_at(b, i, e1 + e2),
    ensures
        prefix_at(b, i, e1),
        prefix_at(b, i + e1.len(), e2),
{
    assert forall|k: int| 0 <= k < e1.len() implies b.subrange(i, i + e1.len() as int)[k]
        == e1[k] by {
        assert(b.subrange(i, i + (e1 + e2).len() as int)[k] == (e1 + e2)[k]);
    }
    assert forall|k: int| 0 <= k < e2.len() implies b.subrange(
        i + e1.len(),
        i + e1.len() + e2.len() as int,
    )[k] == e2[k] by {
        assert(b.subrange(i, i + (e1 + e2).len() as int)[e1.len() + k] == (e1 + e2)[e1.len() + k]);
    }
}

/// Two parts at adjoining offsets make one prefix.
pub proof fn lemma_prefix_join(b: Seq<u8>, i: int, e1: Seq<u8>, e2: Seq<u8>)
    requires
        prefix_at(b, i, e1),
        prefix_at(b, i + e1.len(), e2),
    ensures
        prefix_at(b, i, e1 + e2),
{
    assert forall|k: int| 0 <= k < (e1 + e2).len() implies b.subrange(
        i,
        i + (e1 + e2).len() as int,
    )[k] == (e1 + e2)[k] by {
        if k < e1.len() {
            assert(b.subrange(i, i + e1.len() as int)[k] == e1[k]);
        } else {
            assert(b.subrange(i + e1.len(), i + e1.len() + e2.len() as int)[k - e1.len()]
                == e2[k - e1.len()]);
        }
    }
}

/// A one-byte prefix is just that byte.
pub proof fn lemma_prefix_byte(b: Seq<u8>, i: int, v: u8)
    requires
        0 <= i,
        i + 1 <= b.len(),
        b[i] == v,
    ensures
        prefix_at(b, i, seq![v]),
{
    assert(b.subrange(i, i + 1) =~= seq![v]);
}

/// A world object on the wire: a variant tag, the shared tile fields, and
/// the variant's own fields.
pub open spec fn spec_obj_enc(o: GameObject) -> Seq<u8> {
    match o {
        GameObject::FlowerPot { id, tileset_location } => seq![0u8] + spec_u32_bytes(id)
            + spec_u64_bytes(tileset_location as u64),
        GameObject::Orc { id, tileset_location, hp, direction } => seq![1u8] + spec_u32_bytes(id)
            + spec_u64_bytes(tileset_location as u64) + spec_u32_bytes(hp) + seq![
            spec_dir_byte(direction),
        ],
        GameObject::Ladder { id, tileset_location, target_z } => seq![2u8] + spec_u32_bytes(id)
            + spec_u64_bytes(tileset_location as u64) + spec_u32_bytes(target_z),
    }
}

/// Appends the wire form of `o`.
pub fn encode_game_object(out: &mut Vec<u8>, o: &GameObject)
    ensures
        final(out)@ =~= old(out)@ + spec_obj_enc(*o),
{
    match o {
        GameObject::FlowerPot { id, tileset_location } => {
            out.push(0);
            encode_u32(out, *id);
            encode_u64(out, *tileset_location as u64);
        },
        GameObject::Orc { id, tileset_location, hp, direction } => {
            out.push(1);
            encode_u32(out, *id);
            encode_u64(out, *tileset_location as u64);
            encode_u32(out, *hp);
            encode_direction(out, *direction);
        },
        GameObject::Ladder { id, tileset_location, target_z } => {
            out.push(2);
            encode_u32(out, *id);
            encode_u64(out, *tileset_location as u64);
            encode_u32(out, *target_z);
        },
    }
}

/// Reads a world object at `i`; a frame holding an object's encoding at
/// `i` parses to exactly that object.
#[verifier::rlimit(100)]
pub fn decode_game_object(buf: &Vec<u8>, i: usize) -> (r: Option<(GameObject, usize)>)
    ensures
        r matches Some((o, j)) ==> j == i + spec_obj_enc(o).len() && prefix_at(
            buf@,
            i as int,
            spec_obj_enc(o),
        ),
        forall|o: GameObject|
            prefix_at(buf@, i as int, #[trigger] spec_obj_enc(o)) ==> r == Some::<(
                GameObject,
                usize,
            )>((o, (i + spec_obj_enc(o).len()) as usize)),
{
    proof {
        lemma_obj_head(buf@, i as int);
    }
    if i >= buf.len() {
        return None;
    }
    let tag = buf[i];
    if tag > 2 {
        return None;
    }
    let (id, j1) = match decode_u32(buf, i + 1) {
        Some(v) => v,
        None => {
            return None;
        },
    };
    let (ts64, j2) = match decode_u64(buf, j1) {
        Some(v) => v,
        None => {
            return None;
        },
    };
    if ts64 > usize::MAX as u64 {
        proof {
            assert forall|o: GameObject|
                !prefix_at(buf@, i as int, #[trigger] spec_obj_enc(o)) by {
                if prefix_at(buf@, i as int, spec_obj_enc(o)) {
                    lemma_u64_parse(o.spec_tileset_location() as u64, buf@, i as int + 5);
                }
            }
        }
        return None;
    }
    let tileset_location = ts64 as usize;
    proof {
        lemma_u32_bytes_eq(id, buf@, i as int + 1);
        lemma_u64_bytes_eq(ts64, buf@, i as int + 5);
    }
    if tag == 0 {
        let o = GameObject::FlowerPot { id, tileset_location };
        proof {
            lemma_obj_sound_head(buf@, i as int, 0, id, ts64);
            assert(spec_obj_enc(o) =~= seq![0u8] + spec_u32_bytes(id) + spec_u64_bytes(ts64));
            lemma_obj_complete(buf@, i as int, o);
        }
        return Some((o, j2));
    }
    if tag == 2 {
        let (target_z, j3) = match decode_u32(buf, j2) {
            Some(v) => v,
            None => {
                proof {
                    lemma_obj_tail_reach(buf@, i as int);
                }
                return None;
            },
        };
        let o = GameObject::Ladder { id, tileset_location, target_z };
        proof {
            lemma_obj_sound_head(buf@, i as int, 2, id, ts64);
            lemma_u32_bytes_eq(target_z, buf@, j2 as int);
            lemma_prefix_join(
                buf@,
                i as int,
                seq![2u8] + spec_u32_bytes(id) + spec_u64_bytes(ts64),
                spec_u32_bytes(target_z),
            );
            assert(spec_obj_enc(o) =~= seq![2u8] + spec_u32_bytes(id) + spec_u64_bytes(ts64)
                + spec_u32_bytes(target_z));
            lemma_obj_complete(buf@, i as int, o);
        }
        return Some((o, j3));
    }
    let (hp, j3) = match decode_u32(buf, j2) {
        Some(v) => v,
        None => {
            proof {
                lemma_obj_tail_reach(buf@, i as int);
            }
            return None;
        },
    };
    let (direction, j4) = match decode_direction(buf, j3) {
        Some(v) => v,
        None => {
            proof {
                lemma_obj_tail_reach(buf@, i as int);
            }
            return None;
        },
    };
    let o = GameObject::Orc { id, tileset_location, hp, direction };
    proof {
        lemma_obj_sound_head(buf@, i as int, 1, id, ts64);
        lemma_u32_bytes_eq(hp, buf@, j2 as int);
        lemma_prefix_join(
            buf@,
            i as int,
            seq![1u8] + spec_u32_bytes(id) + spec_u64_bytes(ts64),
            spec_u32_bytes(hp),
        );
        lemma_prefix_join(
            buf@,
            i as int,
            seq![1u8] + spec_u32_bytes(id) + spec_u64_bytes(ts64) + spec_u32_bytes(hp),
            seq![spec_dir_byte(direction)],
        );
        assert(spec_obj_enc(o) =~= seq![1u8] + spec_u32_bytes(id) + spec_u64_bytes(ts64)
            + spec_u32_bytes(hp) + seq![spec_dir_byte(direction)]);
        lemma_obj_complete(buf@, i as int, o);
    }
    Some((o, j4))
}

/// An object prefix fixes the tag byte, makes the shared head fields
/// parseable, and pins what they parse to.
proof fn lemma_obj_head(b: Seq<u8>, i: int)
    ensures
        forall|o: GameObject|
            prefix_at(b, i, #[trigger] spec_obj_enc(o)) ==> i + 13 <= b.len() && b[i] == (
            match o {
                GameObject::FlowerPot { .. } => 0u8,
                GameObject::Orc { .. } => 1u8,
                GameObject::Ladder { .. } => 2u8,
            }) && prefix_at(b, i + 1, spec_u32_bytes(o.spec_id())) && prefix_at(
                b,
                i + 5,
                spec_u64_bytes(o.spec_tileset_location() as u64),
            ),
{
    assert forall|o: GameObject|
        prefix_at(b, i, #[trigger] spec_obj_enc(o)) implies i + 13 <= b.len() && b[i] == (match o {
        GameObject::FlowerPot { .. } => 0u8,
        GameObject::Orc { .. } => 1u8,
        GameObject::Ladder { .. } => 2u8,
    }) && prefix_at(b, i + 1, spec_u32_bytes(o.spec_id())) && prefix_at(
        b,
        i + 5,
        spec_u64_bytes(o.spec_tileset_location() as u64),
    ) by {
        let t = match o {
            GameObject::FlowerPot { .. } => 0u8,
            GameObject::Orc { .. } => 1u8,
            GameObject::Ladder { .. } => 2u8,
        };
        let head = seq![t] + spec_u32_bytes(o.spec_id()) + spec_u64_bytes(
            o.spec_tileset_location() as u64,
        );
        let tail = spec_obj_enc(o).skip(13);
        assert(spec_obj_enc(o) =~= head + tail);
        lemma_prefix_split(b, i, head, tail);
        lemma_prefix_split(
            b,
            i,
            seq![t] + spec_u32_bytes(o.spec_id()),
            spec_u64_bytes(o.spec_tileset_location() as u64),
        );
        lemma_prefix_split(b, i, seq![t], spec_u32_bytes(o.spec_id()));
        assert(b[i] == b.subrange(i, i + 1)[0]);
    }
}

/// An object prefix whose tag asks for more fields reaches past the head:
/// the pursuit and ladder variants are parseable to their full length.
proof fn lemma_obj_tail_reach(b: Seq<u8>, i: int)
    ensures
        forall|o: GameObject|
            prefix_at(b, i, #[trigger] spec_obj_enc(o)) && !(o is FlowerPot) ==> i + 17 <= b.len()
                && prefix_at(b, i + 13, spec_u32_bytes(obj_fourth_field(o))) && (o is Orc ==> i
                + 18 <= b.len() && prefix_at(b, i + 17, seq![spec_dir_byte(obj_direction(o))])),
{
    assert forall|o: GameObject|
        prefix_at(b, i, #[trigger] spec_obj_enc(o)) && !(o is FlowerPot) implies i + 17 <= b.len()
        && prefix_at(b, i + 13, spec_u32_bytes(obj_fourth_field(o))) && (o is Orc ==> i + 18
        <= b.len() && prefix_at(b, i + 17, seq![spec_dir_byte(obj_direction(o))])) by {
        let t: u8 = if o is Orc {
            1u8
        } else {
            2u8
        };
        let head = seq![t] + spec_u32_bytes(o.spec_id()) + spec_u64_bytes(
            o.spec_tileset_location() as u64,
        );
        let tail = spec_obj_enc(o).skip(13);
        assert(spec_obj_enc(o) =~= head + tail);
        lemma_prefix_split(b, i, head, tail);
        if o is Orc {
            assert(tail =~= spec_u32_bytes(obj_fourth_field(o)) + seq![
                spec_dir_byte(obj_direction(o)),
            ]);
            lemma_prefix_split(
                b,
                i + 13,
                spec_u32_bytes(obj_fourth_field(o)),
                seq![spec_dir_byte(obj_direction(o))],
            );
        } else {
            assert(tail =~= spec_u32_bytes(obj_fourth_field(o)));
        }
    }
}

/// The variant-specific scalar after an object's shared head.
pub open spec fn obj_fourth_field(o: GameObject) -> u32 {
    match o {
        GameObject::FlowerPot { .. } => 0u32,
        GameObject::Orc { hp, .. } => hp,
        GameObject::Ladder { target_z, .. } => target_z,
    }
}

/// The facing stored in a pursuing object.
pub open spec fn obj_direction(o: GameObject) -> Direction {
    match o {
        GameObject::Orc { direction, .. } => direction,
        _ => Direction::North,
    }
}

/// Two objects encoded at the same place are the same object.
proof fn lemma_obj_complete(b: Seq<u8>, i: int, parsed: GameObject)
    requires
        prefix_at(b, i, spec_obj_enc(parsed)),
    ensures
        forall|o: GameObject| prefix_at(b, i, #[trigger] spec_obj_enc(o)) ==> o == parsed,
{
    lemma_obj_head(b, i);
    lemma_obj_tail_reach(b, i);
    assert forall|o: GameObject|
        prefix_at(b, i, #[trigger] spec_obj_enc(o)) implies o == parsed by {
        lemma_u32_parse(o.spec_id(), b, i + 1);
        lemma_u32_parse(parsed.spec_id(), b, i + 1);
        lemma_u64_parse(o.spec_tileset_location() as u64, b, i + 5);
        lemma_u64_parse(parsed.spec_tileset_location() as u64, b, i + 5);
        if !(o is FlowerPot) {
            lemma_u32_parse(obj_fourth_field(o), b, i + 13);
            lemma_u32_parse(obj_fourth_field(parsed), b, i + 13);
        }
        if o is Orc {
            assert(b[i + 17] == b.subrange(i + 17, i + 18)[0]);
            assert(spec_dir_byte(obj_direction(o)) == b[i + 17]);
            assert(spec_dir_byte(obj_direction(parsed)) == b[i + 17]);
        }
    }
}

/// Assembles the parsed head fields back into an object-head prefix.
proof fn lemma_obj_sound_head(b: Seq<u8>, i: int, tag: u8, id: u32, ts64: u64)
    requires
        0 <= i,
        i + 13 <= b.len(),
        b[i] == tag,
        prefix_at(b, i + 1, spec_u32_bytes(id)),
        prefix_at(b, i + 5, spec_u64_bytes(ts64)),
    ensures
        prefix_at(b, i, seq![tag] + spec_u32_bytes(id) + spec_u64_bytes(ts64)),
{
    lemma_prefix_byte(b, i, tag);
    lemma_prefix_join(b, i, seq![tag], spec_u32_bytes(id));
    lemma_prefix_join(b, i, seq![tag] + spec_u32_bytes(id), spec_u64_bytes(ts64));
}


/// Two byte strings encoded at the same place are the same string.
#[verifier::rlimit(100)]
#[verifier::spinoff_prover]
proof fn lemma_bytes_inj(b: Seq<u8>, i: int, s1: Seq<u8>, s2: Seq<u8>)
    requires
        prefix_at(b, i, spec_bytes_enc(s1)),
        prefix_at(b, i, spec_bytes_enc(s2)),
        s1.len() < 0x10000000000000000,
        s2.len() < 0x10000000000000000,
    ensures
        s1 == s2,
{
    lemma_prefix_split(b, i, spec_u64_bytes(s1.len() as u64), s1);
    lemma_prefix_split(b, i, spec_u64_bytes(s2.len() as u64), s2);
    lemma_u64_parse(s1.len() as u64, b, i);
    lemma_u64_parse(s2.len() as u64, b, i);
    assert(s1.len() as u64 == s2.len() as u64);
    assert(s1.len() == s2.len());
    assert forall|k: int| 0 <= k < s1.len() implies s1[k] == s2[k] by {
        assert(b.subrange(i + 8, i + 8 + s1.len() as int)[k] == s1[k]);
        assert(b.subrange(i + 8, i + 8 + s2.len() as int)[k] == s2[k]);
    }
    assert(s1 =~= s2);
}

/// One stored object with its cell, on the wire.
pub open spec fn spec_entry_enc(e: (Location, GameObject)) -> Seq<u8> {
    spec_loc_enc(e.0) + spec_obj_enc(e.1)
}

/// Appends the wire form of one cell-object pair.
pub fn encode_entry(out: &mut Vec<u8>, e: &(Location, GameObject))
    ensures
        final(out)@ =~= old(out)@ + spec_entry_enc(*e),
{
    encode_location(out, e.0);
    encode_game_object(out, &e.1);
}

/// Reads one cell-object pair at `i`; a frame holding a pair's encoding at
/// `i` parses to exactly that pair.
pub fn decode_entry(buf: &Vec<u8>, i: usize) -> (r: Option<((Location, GameObject), usize)>)
    ensures
        r matches Some((e, j)) ==> j == i + spec_entry_enc(e).len() && prefix_at(
            buf@,
            i as int,
            spec_entry_enc(e),
        ),
        forall|e: (Location, GameObject)|
            prefix_at(buf@, i as int, #[trigger] spec_entry_enc(e)) ==> r == Some::<(
                (Location, GameObject),
                usize,
            )>((e, (i + spec_entry_enc(e).len()) as usize)),
{
    proof {
        assert forall|e: (Location, GameObject)|
            prefix_at(buf@, i as int, #[trigger] spec_entry_enc(e)) implies prefix_at(
            buf@,
            i as int,
            spec_loc_enc(e.0),
        ) && prefix_at(buf@, i as int + 12, spec_obj_enc(e.1)) by {
            lemma_prefix_split(buf@, i as int, spec_loc_enc(e.0), spec_obj_enc(e.1));
        }
    }
    let (l, j1) = match decode_location(buf, i) {
        Some(v) => v,
        None => {
            return None;
        },
    };
    let (o, j2) = match decode_game_object(buf, j1) {
        Some(v) => v,
        None => {
            return None;
        },
    };
    proof {
        lemma_prefix_join(buf@, i as int, spec_loc_enc(l), spec_obj_enc(o));
    }
    Some(((l, o), j2))
}

/// The first `i` entries of a store, on the wire in order.
pub open spec fn spec_entries_enc(s: Seq<(Location, GameObject)>, i: int) -> Seq<u8>
    decreases i,
{
    if i <= 0 {
        Seq::empty()
    } else {
        spec_entries_enc(s, i - 1) + spec_entry_enc(s[i - 1])
    }
}

/// A list encoding only reads the entries it covers.
proof fn lemma_entries_enc_take(s: Seq<(Location, GameObject)>, k: int)
    requires
        0 <= k <= s.len(),
    ensures
        spec_entries_enc(s.take(k), k) == spec_entries_enc(s, k),
    decreases k,
{
    if k > 0 {
        lemma_entries_enc_take_helper(s, s.take(k), k);
    }
}

proof fn lemma_entries_enc_take_helper(
    s: Seq<(Location, GameObject)>,
    t: Seq<(Location, GameObject)>,
    k: int,
)
    requires
        0 <= k <= s.len(),
        forall|j: int| 0 <= j < k ==> s[j] == t[j],
        k <= t.len(),
    ensures
        spec_entries_enc(t, k) == spec_entries_enc(s, k),
    decreases k,
{
    if k > 0 {
        lemma_entries_enc_take_helper(s, t, k - 1);
    }
}

/// Inside a list prefix, entry `k` sits after the first `k` entries.
proof fn lemma_entries_slice(b: Seq<u8>, i: int, s: Seq<(Location, GameObject)>, n: int, k: int)
    requires
        prefix_at(b, i, spec_entries_enc(s, n)),
        0 <= k < n,
    ensures
        prefix_at(b, i + spec_entries_enc(s, k).len(), spec_entry_enc(s[k])),
        prefix_at(b, i, spec_entries_enc(s, k)),
    decreases n - k,
{
    if k == n - 1 {
        lemma_prefix_split(b, i, spec_entries_enc(s, n - 1), spec_entry_enc(s[n - 1]));
    } else {
        lemma_prefix_split(b, i, spec_entries_enc(s, n - 1), spec_entry_enc(s[n - 1]));
        lemma_entries_slice(b, i, s, n - 1, k);
    }
}

/// Reads `n` cell-object pairs at `i`. A frame holding the encoding of
/// some `n` entries at `i` parses to exactly those entries.
pub fn decode_entries(buf: &Vec<u8>, i: usize, n: usize) -> (r: Option<
    (Vec<(Location, GameObject)>, usize),
>)
    requires
        i <= buf@.len(),
    ensures
        r matches Some((v, j)) ==> v@.len() == n && j == i + spec_entries_enc(
            v@,
            n as int,
        ).len() && prefix_at(buf@, i as int, spec_entries_enc(v@, n as int)),
        forall|s: Seq<(Location, GameObject)>|
            s.len() == n && prefix_at(buf@, i as int, #[trigger] spec_entries_enc(s, n as int))
                ==> (r matches Some((v, j)) && v@ == s),
{
    let mut v: Vec<(Location, GameObject)> = Vec::new();
    let mut pos: usize = i;
    let mut k: usize = 0;
    while k < n
        invariant
            0 <= k <= n,
            v@.len() == k,
            pos == i + spec_entries_enc(v@, k as int).len(),
            prefix_at(buf@, i as int, spec_entries_enc(v@, k as int)),
            forall|s: Seq<(Location, GameObject)>|
                s.len() == n && prefix_at(buf@, i as int, #[trigger] spec_entries_enc(s, n as int))
                    ==> v@ =~= s.take(k as int),
        decreases n - k,
    {
        let ghost pre_v = v@;
        match decode_entry(buf, pos) {
            Some((pair, j)) => {
                proof {
                    assert forall|s: Seq<(Location, GameObject)>|
                        s.len() == n && prefix_at(
                            buf@,
                            i as int,
                            #[trigger] spec_entries_enc(s, n as int),
                        ) implies pre_v.push(pair) =~= s.take(k + 1) && pair == s[k as int] by {
                        lemma_entries_slice(buf@, i as int, s, n as int, k as int);
                        lemma_entries_enc_take(s, k as int);
                        lemma_entries_enc_take_helper(s, pre_v, k as int);
                        assert(spec_entries_enc(pre_v, k as int) == spec_entries_enc(s, k as int));
                        assert(prefix_at(
                            buf@,
                            i as int + spec_entries_enc(pre_v, k as int).len(),
                            spec_entry_enc(s[k as int]),
                        ));
                    }
                }
                v.push(pair);
                pos = j;
            },
            None => {
                proof {
                    assert forall|s: Seq<(Location, GameObject)>|
                        !(s.len() == n && prefix_at(
                            buf@,
                            i as int,
                            #[trigger] spec_entries_enc(s, n as int),
                        )) by {
                        if s.len() == n && prefix_at(
                            buf@,
                            i as int,
                            spec_entries_enc(s, n as int),
                        ) {
                            lemma_entries_slice(buf@, i as int, s, n as int, k as int);
                            lemma_entries_enc_take(s, k as int);
                            lemma_entries_enc_take_helper(s, pre_v, k as int);
                        }
                    }
                }
                return None;
            },
        };
        proof {
            assert(spec_entries_enc(v@, k + 1) == spec_entries_enc(v@, k as int) + spec_entry_enc(
                v@[k as int],
            ));
            lemma_entries_enc_take_helper(v@, pre_v, k as int);
            lemma_prefix_join(
                buf@,
                i as int,
                spec_entries_enc(v@, k as int),
                spec_entry_enc(v@[k as int]),
            );
        }
        k = k + 1;
    }
    proof {
        assert forall|s: Seq<(Location, GameObject)>|
            s.len() == n && prefix_at(buf@, i as int, #[trigger] spec_entries_enc(s, n as int))
            implies v@ == s by {
            assert(v@ =~= s.take(n as int));
            assert(s.take(n as int) =~= s);
        }
    }
    Some((v, pos))
}

/// A whole object store on the wire: the entry count, then the entries.
pub open spec fn spec_objects_enc(s: Seq<(Location, GameObject)>) -> Seq<u8> {
    spec_u64_bytes(s.len() as u64) + spec_entries_enc(s, s.len() as int)
}

/// Appends the wire form of the store.
pub fn encode_objects(out: &mut Vec<u8>, go: &GameObjects)
    ensures
        final(out)@ =~= old(out)@ + spec_objects_enc(go.entries@),
{
    encode_u64(out, go.entries.len() as u64);
    let n = go.entries.len();
    let mut k: usize = 0;
    while k < n
        invariant
            n == go.entries@.len(),
            0 <= k <= n,
            out@ =~= old(out)@ + spec_u64_bytes(go.entries@.len() as u64) + spec_entries_enc(
                go.entries@,
                k as int,
            ),
        decreases n - k,
    {
        let e = go.entries[k];
        encode_entry(out, &e);
        k = k + 1;
    }
}

/// A list encoding is at least as long as the list.
proof fn lemma_entries_enc_len(s: Seq<(Location, GameObject)>, k: int)
    requires
        0 <= k,
    ensures
        spec_entries_enc(s, k).len() >= k,
    decreases k,
{
    if k > 0 {
        lemma_entries_enc_len(s, k - 1);
        assert(spec_entry_enc(s[k - 1]).len() >= 1);
    }
}

/// A store prefix pins its count bytes: they parse to the entry count.
proof fn lemma_objects_len_parse(b: Seq<u8>, i: int, s: Seq<(Location, GameObject)>)
    requires
        prefix_at(b, i, spec_objects_enc(s)),
    ensures
        spec_u64_of(
            spec_u32_of(b[i], b[i + 1], b[i + 2], b[i + 3]),
            spec_u32_of(b[i + 4], b[i + 5], b[i + 6], b[i + 7]),
        ) == s.len() as u64,
        prefix_at(b, i + 8, spec_entries_enc(s, s.len() as int)),
{
    lemma_prefix_split(b, i, spec_u64_bytes(s.len() as u64), spec_entries_enc(s, s.len() as int));
    lemma_u64_parse(s.len() as u64, b, i);
}

/// One store whose encoding sits where a parsed store's does is that store.
#[verifier::rlimit(100)]
#[verifier::spinoff_prover]
proof fn lemma_objects_inj_single(
    b: Seq<u8>,
    i: int,
    n64: u64,
    entries: Seq<(Location, GameObject)>,
    j: int,
    s: Seq<(Location, GameObject)>,
)
    requires
        b.len() < 0x10000000000000000,
        0 <= i,
        n64 == entries.len(),
        entries.len() < 0x10000000000000000,
        prefix_at(b, i + 8, spec_entries_enc(entries, entries.len() as int)),
        j == i + 8 + spec_entries_enc(entries, entries.len() as int).len(),
        forall|s2: Seq<(Location, GameObject)>|
            s2.len() == entries.len() && prefix_at(
                b,
                i + 8,
                #[trigger] spec_entries_enc(s2, entries.len() as int),
            ) ==> s2 == entries,
        prefix_at(b, i, spec_u64_bytes(n64)),
        prefix_at(b, i, spec_objects_enc(s)),
    ensures
        s == entries,
        j == i + spec_objects_enc(s).len(),
{
    lemma_objects_len_parse(b, i, s);
    lemma_entries_enc_len(s, s.len() as int);
    assert(8 + spec_entries_enc(s, s.len() as int).len() <= b.len());
    assert(s.len() <= spec_entries_enc(s, s.len() as int).len());
    assert(s.len() < 0x10000000000000000);
    assert(s.len() as u64 == n64) by {
        lemma_u64_parse(s.len() as u64, b, i);
        lemma_u64_parse(n64, b, i);
    }
    assert(s.len() == entries.len());
    assert(prefix_at(b, i + 8, spec_entries_enc(s, entries.len() as int)));
    assert(s == entries);
}

/// A parsed store is the only one its bytes encode.
proof fn lemma_objects_complete(
    b: Seq<u8>,
    i: int,
    n64: u64,
    entries: Seq<(Location, GameObject)>,
    j: int,
)
    requires
        b.len() < 0x10000000000000000,
        0 <= i,
        n64 == entries.len(),
        entries.len() < 0x10000000000000000,
        prefix_at(b, i, spec_u64_bytes(n64)),
        prefix_at(b, i + 8, spec_entries_enc(entries, entries.len() as int)),
        j == i + 8 + spec_entries_enc(entries, entries.len() as int).len(),
        forall|s2: Seq<(Location, GameObject)>|
            s2.len() == entries.len() && prefix_at(
                b,
                i + 8,
                #[trigger] spec_entries_enc(s2, entries.len() as int),
            ) ==> s2 == entries,
    ensures
        forall|s: Seq<(Location, GameObject)>|
            prefix_at(b, i, #[trigger] spec_objects_enc(s)) ==> s == entries && j == i
                + spec_objects_enc(s).len(),
{
    assert forall|s: Seq<(Location, GameObject)>|
        prefix_at(b, i, #[trigger] spec_objects_enc(s)) implies s == entries && j == i
        + spec_objects_enc(s).len() by {
        lemma_objects_inj_single(b, i, n64, entries, j, s);
    }
}

/// Reads a whole object store at `i`. A frame holding a store's encoding
/// at `i` parses to exactly its entries.
#[verifier::rlimit(100)]
#[verifier::spinoff_prover]
pub fn decode_objects(buf: &Vec<u8>, i: usize) -> (r: Option<(GameObjects, usize)>)
    ensures
        r matches Some((go, j)) ==> j == i + spec_objects_enc(go.entries@).len() && prefix_at(
            buf@,
            i as int,
            spec_objects_enc(go.entries@),
        ),
        forall|s: Seq<(Location, GameObject)>|
            prefix_at(buf@, i as int, #[trigger] spec_objects_enc(s)) ==> (r matches Some((
            go,
            j,
            )) && go.entries@ == s && j == i + spec_objects_enc(s).len()),
{
    let blen = buf.len();
    proof {
        assert(buf@.len() == blen);
    }
    let (n64, j0) = match decode_u64(buf, i) {
        Some(v) => v,
        None => {
            return None;
        },
    };
    if n64 > usize::MAX as u64 {
        proof {
            assert forall|s: Seq<(Location, GameObject)>|
                !prefix_at(buf@, i as int, #[trigger] spec_objects_enc(s)) by {
                if prefix_at(buf@, i as int, spec_objects_enc(s)) {
                    lemma_objects_len_parse(buf@, i as int, s);
                    lemma_entries_enc_len(s, s.len() as int);
                }
            }
        }
        return None;
    }
    let n = n64 as usize;
    let (entries, j) = match decode_entries(buf, j0, n) {
        Some(v) => v,
        None => {
            proof {
                assert forall|s: Seq<(Location, GameObject)>|
                    !prefix_at(buf@, i as int, #[trigger] spec_objects_enc(s)) by {
                    if prefix_at(buf@, i as int, spec_objects_enc(s)) {
                        lemma_objects_len_parse(buf@, i as int, s);
                        lemma_entries_enc_len(s, s.len() as int);
                        assert(s.len() == n);
                    }
                }
            }
            return None;
        },
    };
    proof {
        lemma_u64_bytes_eq(n64, buf@, i as int);
        lemma_prefix_join(
            buf@,
            i as int,
            spec_u64_bytes(n64),
            spec_entries_enc(entries@, n as int),
        );
        assert(spec_objects_enc(entries@) =~= spec_u64_bytes(n64) + spec_entries_enc(
            entries@,
            n as int,
        ));
        assert forall|s: Seq<(Location, GameObject)>|
            s.len() == entries@.len() && prefix_at(
                buf@,
                i as int + 8,
                #[trigger] spec_entries_enc(s, entries@.len() as int),
            ) implies s == entries@ by {
        }
        lemma_objects_complete(buf@, i as int, n64, entries@, j as int);
    }
    Some((GameObjects { entries }, j))
}


/// Two values whose sixteen bytes share a place are equal.
proof fn lemma_u128_inj(b: Seq<u8>, i: int, v: u128, x: u128)
    requires
        prefix_at(b, i, spec_u128_bytes(v)),
        prefix_at(b, i, spec_u128_bytes(x)),
    ensures
        v == x,
{
    lemma_u128_parse(v, b, i);
    lemma_u128_parse(x, b, i);
}

/// Two cells whose bytes share a place are equal.
proof fn lemma_loc_inj(b: Seq<u8>, i: int, v: Location, x: Location)
    requires
        prefix_at(b, i, spec_loc_enc(v)),
        prefix_at(b, i, spec_loc_enc(x)),
    ensures
        v == x,
{
    lemma_loc_parse(v, b, i);
    lemma_loc_parse(x, b, i);
}

/// Two values whose four bytes share a place are equal.
proof fn lemma_u32_inj(b: Seq<u8>, i: int, v: u32, x: u32)
    requires
        prefix_at(b, i, spec_u32_bytes(v)),
        prefix_at(b, i, spec_u32_bytes(x)),
    ensures
        v == x,
{
    lemma_u32_parse(v, b, i);
    lemma_u32_parse(x, b, i);
}

/// A client datagram on the wire: a variant tag, then its fields.
pub open spec fn spec_udp_client_enc(m: UdpClientMsg) -> Seq<u8> {
    match m {
        UdpClientMsg::PlayerMove { id, client_request_id, location } => seq![0u8]
            + spec_u128_bytes(id) + spec_u32_bytes(client_request_id) + spec_loc_enc(location),
        UdpClientMsg::Ping { id, client_request_id } => seq![1u8] + spec_u128_bytes(id)
            + spec_u32_bytes(client_request_id),
        UdpClientMsg::MoveObject { id, from, to } => seq![2u8] + spec_u128_bytes(id) + spec_loc_enc(
            from,
        ) + spec_loc_enc(to),
    }
}

/// Encodes one client datagram as one frame.
pub fn encode_udp_client_msg(m: &UdpClientMsg) -> (r: Vec<u8>)
    ensures
        r@ =~= spec_udp_client_enc(*m),
{
    let mut out: Vec<u8> = Vec::new();
    match m {
        UdpClientMsg::PlayerMove { id, client_request_id, location } => {
            out.push(0);
            encode_u128(&mut out, *id);
            encode_u32(&mut out, *client_request_id);
            encode_location(&mut out, *location);
        },
        UdpClientMsg::Ping { id, client_request_id } => {
            out.push(1);
            encode_u128(&mut out, *id);
            encode_u32(&mut out, *client_request_id);
        },
        UdpClientMsg::MoveObject { id, from, to } => {
            out.push(2);
            encode_u128(&mut out, *id);
            encode_location(&mut out, *from);
            encode_location(&mut out, *to);
        },
    }
    out
}

/// A client-datagram prefix fixes the tag and places every field.
#[verifier::rlimit(100)]
#[verifier::spinoff_prover]
proof fn lemma_udpc_head(b: Seq<u8>)
    ensures
        forall|m: UdpClientMsg|
            prefix_at(b, 0, #[trigger] spec_udp_client_enc(m)) ==> 17 <= b.len() && b[0] == (
            match m {
                UdpClientMsg::PlayerMove { .. } => 0u8,
                UdpClientMsg::Ping { .. } => 1u8,
                UdpClientMsg::MoveObject { .. } => 2u8,
            }) && prefix_at(b, 1, spec_u128_bytes(m.spec_player_id())) && (match m {
                UdpClientMsg::PlayerMove { client_request_id, location, .. } => prefix_at(
                    b,
                    17,
                    spec_u32_bytes(client_request_id),
                ) && prefix_at(b, 21, spec_loc_enc(location)) && spec_udp_client_enc(m).len() == 33,
                UdpClientMsg::Ping { client_request_id, .. } => prefix_at(
                    b,
                    17,
                    spec_u32_bytes(client_request_id),
                ) && spec_udp_client_enc(m).len() == 21,
                UdpClientMsg::MoveObject { from, to, .. } => prefix_at(b, 17, spec_loc_enc(from))
                    && prefix_at(b, 29, spec_loc_enc(to)) && spec_udp_client_enc(m).len() == 41,
            }),
{
    assert forall|m: UdpClientMsg|
        prefix_at(b, 0, #[trigger] spec_udp_client_enc(m)) implies 17 <= b.len() && b[0] == (
    match m {
        UdpClientMsg::PlayerMove { .. } => 0u8,
        UdpClientMsg::Ping { .. } => 1u8,
        UdpClientMsg::MoveObject { .. } => 2u8,
    }) && prefix_at(b, 1, spec_u128_bytes(m.spec_player_id())) && (match m {
        UdpClientMsg::PlayerMove { client_request_id, location, .. } => prefix_at(
            b,
            17,
            spec_u32_bytes(client_request_id),
        ) && prefix_at(b, 21, spec_loc_enc(location)) && spec_udp_client_enc(m).len() == 33,
        UdpClientMsg::Ping { client_request_id, .. } => prefix_at(
            b,
            17,
            spec_u32_bytes(client_request_id),
        ) && spec_udp_client_enc(m).len() == 21,
        UdpClientMsg::MoveObject { from, to, .. } => prefix_at(b, 17, spec_loc_enc(from))
            && prefix_at(b, 29, spec_loc_enc(to)) && spec_udp_client_enc(m).len() == 41,
    }) by {
        let t: u8 = match m {
            UdpClientMsg::PlayerMove { .. } => 0u8,
            UdpClientMsg::Ping { .. } => 1u8,
            UdpClientMsg::MoveObject { .. } => 2u8,
        };
        match m {
            UdpClientMsg::PlayerMove { id, client_request_id, location } => {
                lemma_prefix_split(
                    b,
                    0,
                    seq![t] + spec_u128_bytes(id) + spec_u32_bytes(client_request_id),
                    spec_loc_enc(location),
                );
                lemma_prefix_split(
                    b,
                    0,
                    seq![t] + spec_u128_bytes(id),
                    spec_u32_bytes(client_request_id),
                );
                lemma_prefix_split(b, 0, seq![t], spec_u128_bytes(id));
            },
            UdpClientMsg::Ping { id, client_request_id } => {
                lemma_prefix_split(
                    b,
                    0,
                    seq![t] + spec_u128_bytes(id),
                    spec_u32_bytes(client_request_id),
                );
                lemma_prefix_split(b, 0, seq![t], spec_u128_bytes(id));
            },
            UdpClientMsg::MoveObject { id, from, to } => {
                lemma_prefix_split(
                    b,
                    0,
                    seq![t] + spec_u128_bytes(id) + spec_loc_enc(from),
                    spec_loc_enc(to),
                );
                lemma_prefix_split(b, 0, seq![t] + spec_u128_bytes(id), spec_loc_enc(from));
                lemma_prefix_split(b, 0, seq![t], spec_u128_bytes(id));
            },
        }
        assert(b[0] == b.subrange(0, 1)[0]);
    }
}

/// Decodes one frame as a client datagram: the exact message the frame
/// encodes, or nothing when the frame encodes no message.
#[verifier::rlimit(100)]
#[verifier::spinoff_prover]
pub fn decode_udp_client_msg(buf: &Vec<u8>) -> (r: Option<UdpClientMsg>)
    ensures
        r matches Some(m) ==> buf@ =~= spec_udp_client_enc(m),
        forall|m: UdpClientMsg|
            buf@ == #[trigger] spec_udp_client_enc(m) ==> r == Some(m),
{
    proof {
        lemma_udpc_head(buf@);
        assert forall|m: UdpClientMsg|
            buf@ == #[trigger] spec_udp_client_enc(m) implies prefix_at(
            buf@,
            0,
            spec_udp_client_enc(m),
        ) by {
            assert(buf@.subrange(0, spec_udp_client_enc(m).len() as int) =~= spec_udp_client_enc(
                m,
            ));
        }
    }
    if buf.len() < 1 {
        return None;
    }
    let tag = buf[0];
    if tag > 2 {
        return None;
    }
    let (id, j1) = match decode_u128(buf, 1) {
        Some(v) => v,
        None => {
            return None;
        },
    };
    if tag == 0 {
        let (client_request_id, j2) = match decode_u32(buf, j1) {
            Some(v) => v,
            None => {
                return None;
            },
        };
        let (location, j3) = match decode_location(buf, j2) {
            Some(v) => v,
            None => {
                return None;
            },
        };
        if j3 != buf.len() {
            proof {
                lemma_u32_bytes_eq(client_request_id, buf@, 17);
            }
            return None;
        }
        let m = UdpClientMsg::PlayerMove { id, client_request_id, location };
        proof {
            lemma_u32_bytes_eq(client_request_id, buf@, 17);
            lemma_prefix_byte(buf@, 0, 0u8);
            lemma_prefix_join(buf@, 0, seq![0u8], spec_u128_bytes(id));
            lemma_prefix_join(
                buf@,
                0,
                seq![0u8] + spec_u128_bytes(id),
                spec_u32_bytes(client_request_id),
            );
            lemma_prefix_join(
                buf@,
                0,
                seq![0u8] + spec_u128_bytes(id) + spec_u32_bytes(client_request_id),
                spec_loc_enc(location),
            );
            assert(spec_udp_client_enc(m) =~= seq![0u8] + spec_u128_bytes(id) + spec_u32_bytes(
                client_request_id,
            ) + spec_loc_enc(location));
            assert(buf@ =~= buf@.subrange(0, buf@.len() as int));
            assert forall|m2: UdpClientMsg|
                buf@ == #[trigger] spec_udp_client_enc(m2) implies m2 == m by {
                lemma_u128_inj(buf@, 1, id, m2.spec_player_id());
                match m2 {
                    UdpClientMsg::PlayerMove { client_request_id: c2, location: l2, .. } => {
                        lemma_u32_inj(buf@, 17, client_request_id, c2);
                        lemma_loc_inj(buf@, 21, location, l2);
                    },
                    _ => {
                        assert(false);
                    },
                }
            }
        }
        return Some(m);
    }
    if tag == 1 {
        let (client_request_id, j2) = match decode_u32(buf, j1) {
            Some(v) => v,
            None => {
                return None;
            },
        };
        if j2 != buf.len() {
            return None;
        }
        let m = UdpClientMsg::Ping { id, client_request_id };
        proof {
            lemma_u32_bytes_eq(client_request_id, buf@, 17);
            lemma_prefix_byte(buf@, 0, 1u8);
            lemma_prefix_join(buf@, 0, seq![1u8], spec_u128_bytes(id));
            lemma_prefix_join(
                buf@,
                0,
                seq![1u8] + spec_u128_bytes(id),
                spec_u32_bytes(client_request_id),
            );
            assert(spec_udp_client_enc(m) =~= seq![1u8] + spec_u128_bytes(id) + spec_u32_bytes(
                client_request_id,
            ));
            assert(buf@ =~= buf@.subrange(0, buf@.len() as int));
            assert forall|m2: UdpClientMsg|
                buf@ == #[trigger] spec_udp_client_enc(m2) implies m2 == m by {
                lemma_u128_inj(buf@, 1, id, m2.spec_player_id());
                match m2 {
                    UdpClientMsg::Ping { client_request_id: c2, .. } => {
                        lemma_u32_inj(buf@, 17, client_request_id, c2);
                    },
                    _ => {
                        assert(false);
                    },
                }
            }
        }
        return Some(m);
    }
    let (from, j2) = match decode_location(buf, j1) {
        Some(v) => v,
        None => {
            return None;
        },
    };
    let (to, j3) = match decode_location(buf, j2) {
        Some(v) => v,
        None => {
            return None;
        },
    };
    if j3 != buf.len() {
        return None;
    }
    let m = UdpClientMsg::MoveObject { id, from, to };
    proof {
        lemma_prefix_byte(buf@, 0, 2u8);
        lemma_prefix_join(buf@, 0, seq![2u8], spec_u128_bytes(id));
        lemma_prefix_join(buf@, 0, seq![2u8] + spec_u128_bytes(id), spec_loc_enc(from));
        lemma_prefix_join(
            buf@,
            0,
            seq![2u8] + spec_u128_bytes(id) + spec_loc_enc(from),
            spec_loc_enc(to),
        );
        assert(spec_udp_client_enc(m) =~= seq![2u8] + spec_u128_bytes(id) + spec_loc_enc(from)
            + spec_loc_enc(to));
        assert(buf@ =~= buf@.subrange(0, buf@.len() as int));
        assert forall|m2: UdpClientMsg|
            buf@ == #[trigger] spec_udp_client_enc(m2) implies m2 == m by {
            lemma_u128_inj(buf@, 1, id, m2.spec_player_id());
            match m2 {
                UdpClientMsg::MoveObject { from: f2, to: t2, .. } => {
                    lemma_loc_inj(buf@, 17, from, f2);
                    lemma_loc_inj(buf@, 29, to, t2);
                },
                _ => {
                    assert(false);
                },
            }
        }
    }
    Some(m)
}


/// Equality of stream client messages up to byte-buffer identity.
pub open spec fn tcp_client_eq(a: TcpClientMsg, b: TcpClientMsg) -> bool {
    match (a, b) {
        (TcpClientMsg::Init(u1), TcpClientMsg::Init(u2)) => u1@ == u2@,
        (TcpClientMsg::Reconnect(i1), TcpClientMsg::Reconnect(i2)) => i1 == i2,
        (TcpClientMsg::ChatMsg(m1), TcpClientMsg::ChatMsg(m2)) => m1@ == m2@,
        (TcpClientMsg::Respawn(i1), TcpClientMsg::Respawn(i2)) => i1 == i2,
        (TcpClientMsg::Disconnect, TcpClientMsg::Disconnect) => true,
        _ => false,
    }
}

/// A stream client message on the wire: a variant tag, then its fields.
pub open spec fn spec_tcp_client_enc(m: TcpClientMsg) -> Seq<u8> {
    match m {
        TcpClientMsg::Init(u) => seq![0u8] + spec_bytes_enc(u@),
        TcpClientMsg::Reconnect(id) => seq![1u8] + spec_u128_bytes(id),
        TcpClientMsg::ChatMsg(t) => seq![2u8] + spec_bytes_enc(t@),
        TcpClientMsg::Respawn(id) => seq![3u8] + spec_u128_bytes(id),
        TcpClientMsg::Disconnect => seq![4u8],
    }
}

/// Encodes one stream client message as one frame.
pub fn encode_tcp_client_msg(m: &TcpClientMsg) -> (r: Vec<u8>)
    ensures
        r@ =~= spec_tcp_client_enc(*m),
{
    let mut out: Vec<u8> = Vec::new();
    match m {
        TcpClientMsg::Init(u) => {
            out.push(0);
            encode_bytes(&mut out, u);
        },
        TcpClientMsg::Reconnect(id) => {
            out.push(1);
            encode_u128(&mut out, *id);
        },
        TcpClientMsg::ChatMsg(t) => {
            out.push(2);
            encode_bytes(&mut out, t);
        },
        TcpClientMsg::Respawn(id) => {
            out.push(3);
            encode_u128(&mut out, *id);
        },
        TcpClientMsg::Disconnect => {
            out.push(4);
        },
    }
    out
}

/// A stream-client prefix fixes the tag and places the first field.
#[verifier::rlimit(100)]
#[verifier::spinoff_prover]
proof fn lemma_tcpc_head(b: Seq<u8>)
    ensures
        forall|m: TcpClientMsg|
            prefix_at(b, 0, #[trigger] spec_tcp_client_enc(m)) ==> 1 <= b.len() && b[0] == (
            match m {
                TcpClientMsg::Init(..) => 0u8,
                TcpClientMsg::Reconnect(..) => 1u8,
                TcpClientMsg::ChatMsg(..) => 2u8,
                TcpClientMsg::Respawn(..) => 3u8,
                TcpClientMsg::Disconnect => 4u8,
            }) && (match m {
                TcpClientMsg::Init(u) => prefix_at(b, 1, spec_bytes_enc(u@))
                    && spec_tcp_client_enc(m).len() == 9 + u@.len(),
                TcpClientMsg::Reconnect(id) => prefix_at(b, 1, spec_u128_bytes(id))
                    && spec_tcp_client_enc(m).len() == 17,
                TcpClientMsg::ChatMsg(t) => prefix_at(b, 1, spec_bytes_enc(t@))
                    && spec_tcp_client_enc(m).len() == 9 + t@.len(),
                TcpClientMsg::Respawn(id) => prefix_at(b, 1, spec_u128_bytes(id))
                    && spec_tcp_client_enc(m).len() == 17,
                TcpClientMsg::Disconnect => spec_tcp_client_enc(m).len() == 1,
            }),
{
    assert forall|m: TcpClientMsg|
        prefix_at(b, 0, #[trigger] spec_tcp_client_enc(m)) implies 1 <= b.len() && b[0] == (
    match m {
        TcpClientMsg::Init(..) => 0u8,
        TcpClientMsg::Reconnect(..) => 1u8,
        TcpClientMsg::ChatMsg(..) => 2u8,
        TcpClientMsg::Respawn(..) => 3u8,
        TcpClientMsg::Disconnect => 4u8,
    }) && (match m {
        TcpClientMsg::Init(u) => prefix_at(b, 1, spec_bytes_enc(u@)) && spec_tcp_client_enc(
            m,
        ).len() == 9 + u@.len(),
        TcpClientMsg::Reconnect(id) => prefix_at(b, 1, spec_u128_bytes(id)) && spec_tcp_client_enc(
            m,
        ).len() == 17,
        TcpClientMsg::ChatMsg(t) => prefix_at(b, 1, spec_bytes_enc(t@)) && spec_tcp_client_enc(
            m,
        ).len() == 9 + t@.len(),
        TcpClientMsg::Respawn(id) => prefix_at(b, 1, spec_u128_bytes(id)) && spec_tcp_client_enc(
            m,
        ).len() == 17,
        TcpClientMsg::Disconnect => spec_tcp_client_enc(m).len() == 1,
    }) by {
        match m {
            TcpClientMsg::Init(u) => {
                lemma_prefix_split(b, 0, seq![0u8], spec_bytes_enc(u@));
            },
            TcpClientMsg::Reconnect(id) => {
                lemma_prefix_split(b, 0, seq![1u8], spec_u128_bytes(id));
            },
            TcpClientMsg::ChatMsg(t) => {
                lemma_prefix_split(b, 0, seq![2u8], spec_bytes_enc(t@));
            },
            TcpClientMsg::Respawn(id) => {
                lemma_prefix_split(b, 0, seq![3u8], spec_u128_bytes(id));
            },
            TcpClientMsg::Disconnect => {},
        }
        assert(b[0] == b.subrange(0, spec_tcp_client_enc(m).len() as int)[0]);
    }
}

/// Decodes one frame as a stream client message: the message the frame
/// encodes, byte for byte, or nothing when the frame encodes none.
#[verifier::rlimit(100)]
#[verifier::spinoff_prover]
pub fn decode_tcp_client_msg(buf: &Vec<u8>) -> (r: Option<TcpClientMsg>)
    ensures
        r matches Some(m) ==> buf@ =~= spec_tcp_client_enc(m),
        forall|m: TcpClientMsg|
            buf@ == #[trigger] spec_tcp_client_enc(m) ==> (r matches Some(m2) && tcp_client_eq(
                m2,
                m,
            )),
{
    proof {
        lemma_tcpc_head(buf@);
        assert forall|m: TcpClientMsg|
            buf@ == #[trigger] spec_tcp_client_enc(m) implies prefix_at(
            buf@,
            0,
            spec_tcp_client_enc(m),
        ) by {
            assert(buf@.subrange(0, spec_tcp_client_enc(m).len() as int) =~= spec_tcp_client_enc(
                m,
            ));
        }
    }
    if buf.len() < 1 {
        return None;
    }
    let tag = buf[0];
    if tag > 4 {
        return None;
    }
    if tag == 4 {
        if buf.len() != 1 {
            return None;
        }
        proof {
            assert(buf@ =~= seq![4u8]);
            assert(buf@ =~= spec_tcp_client_enc(TcpClientMsg::Disconnect));
        }
        return Some(TcpClientMsg::Disconnect);
    }
    if tag == 1 || tag == 3 {
        let (id, j) = match decode_u128(buf, 1) {
            Some(v) => v,
            None => {
                return None;
            },
        };
        if j != buf.len() {
            return None;
        }
        let m = if tag == 1 {
            TcpClientMsg::Reconnect(id)
        } else {
            TcpClientMsg::Respawn(id)
        };
        proof {
            lemma_prefix_byte(buf@, 0, tag);
            lemma_prefix_join(buf@, 0, seq![tag], spec_u128_bytes(id));
            assert(spec_tcp_client_enc(m) =~= seq![tag] + spec_u128_bytes(id));
            assert(buf@ =~= buf@.subrange(0, buf@.len() as int));
            assert forall|m2: TcpClientMsg|
                buf@ == #[trigger] spec_tcp_client_enc(m2) implies tcp_client_eq(m, m2) by {
                match m2 {
                    TcpClientMsg::Reconnect(i2) => {
                        lemma_u128_inj(buf@, 1, id, i2);
                    },
                    TcpClientMsg::Respawn(i2) => {
                        lemma_u128_inj(buf@, 1, id, i2);
                    },
                    _ => {
                        assert(false);
                    },
                }
            }
        }
        return Some(m);
    }
    let (body, j) = match decode_bytes(buf, 1) {
        Some(v) => v,
        None => {
            return None;
        },
    };
    if j != buf.len() {
        return None;
    }
    let m = if tag == 0 {
        TcpClientMsg::Init(body)
    } else {
        TcpClientMsg::ChatMsg(body)
    };
    proof {
        let bv = match &m {
            TcpClientMsg::Init(u) => u@,
            TcpClientMsg::ChatMsg(t) => t@,
            _ => Seq::empty(),
        };
        lemma_prefix_byte(buf@, 0, tag);
        lemma_prefix_join(buf@, 0, seq![tag], spec_bytes_enc(bv));
        assert(spec_tcp_client_enc(m) =~= seq![tag] + spec_bytes_enc(bv));
        assert(buf@ =~= buf@.subrange(0, buf@.len() as int));
    }
    Some(m)
}

/// Equality of starting states up to byte-buffer identity.
pub open spec fn init_player_eq(a: InitPlayer, b: InitPlayer) -> bool {
    &&& a.id == b.id
    &&& a.username@ == b.username@
    &&& a.location == b.location
    &&& a.hp == b.hp
    &&& a.max_hp == b.max_hp
    &&& a.level == b.level
    &&& a.direction == b.direction
}

/// A starting state on the wire: the id, the name, the cell, the three
/// scalars, and the facing.
pub open spec fn spec_init_player_enc(p: InitPlayer) -> Seq<u8> {
    spec_u128_bytes(p.id) + spec_bytes_enc(p.username@) + spec_loc_enc(p.location)
        + spec_u32_bytes(p.hp) + spec_u32_bytes(p.max_hp) + spec_u32_bytes(p.level) + seq![
        spec_dir_byte(p.direction),
    ]
}

/// Appends the wire form of a starting state.
pub fn encode_init_player(out: &mut Vec<u8>, p: &InitPlayer)
    ensures
        final(out)@ =~= old(out)@ + spec_init_player_enc(*p),
{
    encode_u128(out, p.id);
    encode_bytes(out, &p.username);
    encode_location(out, p.location);
    encode_u32(out, p.hp);
    encode_u32(out, p.max_hp);
    encode_u32(out, p.level);
    encode_direction(out, p.direction);
}

/// A starting-state prefix places every field after the parsed name.
#[verifier::rlimit(100)]
#[verifier::spinoff_prover]
proof fn lemma_initp_fields(b: Seq<u8>, i: int)
    ensures
        forall|p: InitPlayer|
            prefix_at(b, i, #[trigger] spec_init_player_enc(p)) ==> prefix_at(
                b,
                i,
                spec_u128_bytes(p.id),
            ) && prefix_at(b, i + 16, spec_bytes_enc(p.username@)) && prefix_at(
                b,
                i + 24 + p.username@.len(),
                spec_loc_enc(p.location),
            ) && prefix_at(b, i + 36 + p.username@.len(), spec_u32_bytes(p.hp)) && prefix_at(
                b,
                i + 40 + p.username@.len(),
                spec_u32_bytes(p.max_hp),
            ) && prefix_at(b, i + 44 + p.username@.len(), spec_u32_bytes(p.level)) && prefix_at(
                b,
                i + 48 + p.username@.len(),
                seq![spec_dir_byte(p.direction)],
            ) && spec_init_player_enc(p).len() == 49 + p.username@.len(),
{
    assert forall|p: InitPlayer|
        prefix_at(b, i, #[trigger] spec_init_player_enc(p)) implies prefix_at(
        b,
        i,
        spec_u128_bytes(p.id),
    ) && prefix_at(b, i + 16, spec_bytes_enc(p.username@)) && prefix_at(
        b,
        i + 24 + p.username@.len(),
        spec_loc_enc(p.location),
    ) && prefix_at(b, i + 36 + p.username@.len(), spec_u32_bytes(p.hp)) && prefix_at(
        b,
        i + 40 + p.username@.len(),
        spec_u32_bytes(p.max_hp),
    ) && prefix_at(b, i + 44 + p.username@.len(), spec_u32_bytes(p.level)) && prefix_at(
        b,
        i + 48 + p.username@.len(),
        seq![spec_dir_byte(p.direction)],
    ) && spec_init_player_enc(p).len() == 49 + p.username@.len() by {
        let e1 = spec_u128_bytes(p.id);
        let e2 = spec_bytes_enc(p.username@);
        let e3 = spec_loc_enc(p.location);
        let e4 = spec_u32_bytes(p.hp);
        let e5 = spec_u32_bytes(p.max_hp);
        let e6 = spec_u32_bytes(p.level);
        let e7 = seq![spec_dir_byte(p.direction)];
        lemma_prefix_split(b, i, e1 + e2 + e3 + e4 + e5 + e6, e7);
        lemma_prefix_split(b, i, e1 + e2 + e3 + e4 + e5, e6);
        lemma_prefix_split(b, i, e1 + e2 + e3 + e4, e5);
        lemma_prefix_split(b, i, e1 + e2 + e3, e4);
        lemma_prefix_split(b, i, e1 + e2, e3);
        lemma_prefix_split(b, i, e1, e2);
    }
}

/// Reads a starting state at `i`; a frame holding one's encoding at `i`
/// parses to an equal starting state.
#[verifier::rlimit(100)]
#[verifier::spinoff_prover]
pub fn decode_init_player(buf: &Vec<u8>, i: usize) -> (r: Option<(InitPlayer, usize)>)
    ensures
        r matches Some((p, j)) ==> j == i + spec_init_player_enc(p).len() && prefix_at(
            buf@,
            i as int,
            spec_init_player_enc(p),
        ),
        forall|p: InitPlayer|
            prefix_at(buf@, i as int, #[trigger] spec_init_player_enc(p)) ==> (r matches Some((
            p2,
            j,
            )) && init_player_eq(p2, p) && j == i + spec_init_player_enc(p).len()),
{
    let blen = buf.len();
    proof {
        assert(buf@.len() == blen);
        lemma_initp_fields(buf@, i as int);
    }
    let (id, j1) = match decode_u128(buf, i) {
        Some(v) => v,
        None => {
            return None;
        },
    };
    let (username, j2) = match decode_bytes(buf, j1) {
        Some(v) => v,
        None => {
            return None;
        },
    };
    let (location, j3) = match decode_location(buf, j2) {
        Some(v) => v,
        None => {
            return None;
        },
    };
    let (hp, j4) = match decode_u32(buf, j3) {
        Some(v) => v,
        None => {
            return None;
        },
    };
    let (max_hp, j5) = match decode_u32(buf, j4) {
        Some(v) => v,
        None => {
            return None;
        },
    };
    let (level, j6) = match decode_u32(buf, j5) {
        Some(v) => v,
        None => {
            return None;
        },
    };
    let (direction, j7) = match decode_direction(buf, j6) {
        Some(v) => v,
        None => {
            return None;
        },
    };
    let p = InitPlayer { id, username, location, hp, max_hp, level, direction };
    proof {
        lemma_u32_bytes_eq(hp, buf@, j3 as int);
        lemma_u32_bytes_eq(max_hp, buf@, j4 as int);
        lemma_u32_bytes_eq(level, buf@, j5 as int);
        let e1 = spec_u128_bytes(id);
        let e2 = spec_bytes_enc(p.username@);
        let e3 = spec_loc_enc(location);
        let e4 = spec_u32_bytes(hp);
        let e5 = spec_u32_bytes(max_hp);
        let e6 = spec_u32_bytes(level);
        let e7 = seq![spec_dir_byte(direction)];
        lemma_prefix_join(buf@, i as int, e1, e2);
        lemma_prefix_join(buf@, i as int, e1 + e2, e3);
        lemma_prefix_join(buf@, i as int, e1 + e2 + e3, e4);
        lemma_prefix_join(buf@, i as int, e1 + e2 + e3 + e4, e5);
        lemma_prefix_join(buf@, i as int, e1 + e2 + e3 + e4 + e5, e6);
        lemma_prefix_join(buf@, i as int, e1 + e2 + e3 + e4 + e5 + e6, e7);
        assert(spec_init_player_enc(p) =~= e1 + e2 + e3 + e4 + e5 + e6 + e7);
        lemma_initp_inj(buf@, i as int, p);
    }
    Some((p, j7))
}

/// The split chain of one starting-state encoding.
#[verifier::rlimit(100)]
#[verifier::spinoff_prover]
proof fn lemma_initp_split_one(b: Seq<u8>, i: int, p: InitPlayer)
    requires
        prefix_at(b, i, spec_init_player_enc(p)),
    ensures
        prefix_at(b, i, spec_u128_bytes(p.id)),
        prefix_at(b, i + 16, spec_bytes_enc(p.username@)),
        prefix_at(b, i + 24 + p.username@.len(), spec_loc_enc(p.location)),
        prefix_at(b, i + 36 + p.username@.len(), spec_u32_bytes(p.hp)),
        prefix_at(b, i + 40 + p.username@.len(), spec_u32_bytes(p.max_hp)),
        prefix_at(b, i + 44 + p.username@.len(), spec_u32_bytes(p.level)),
        b[i + 48 + p.username@.len()] == spec_dir_byte(p.direction),
        spec_init_player_enc(p).len() == 49 + p.username@.len(),
{
    let e1 = spec_u128_bytes(p.id);
    let e2 = spec_bytes_enc(p.username@);
    let e3 = spec_loc_enc(p.location);
    let e4 = spec_u32_bytes(p.hp);
    let e5 = spec_u32_bytes(p.max_hp);
    let e6 = spec_u32_bytes(p.level);
    let e7 = seq![spec_dir_byte(p.direction)];
    lemma_prefix_split(b, i, e1 + e2 + e3 + e4 + e5 + e6, e7);
    lemma_prefix_split(b, i, e1 + e2 + e3 + e4 + e5, e6);
    lemma_prefix_split(b, i, e1 + e2 + e3 + e4, e5);
    lemma_prefix_split(b, i, e1 + e2 + e3, e4);
    lemma_prefix_split(b, i, e1 + e2, e3);
    lemma_prefix_split(b, i, e1, e2);
    assert(b[i + 48 + p.username@.len()] == b.subrange(
        i + 48 + p.username@.len(),
        i + 49 + p.username@.len(),
    )[0]);
}

/// The names of two starting states encoded at the same place agree.
#[verifier::rlimit(100)]
#[verifier::spinoff_prover]
proof fn lemma_initp_inj_name(b: Seq<u8>, i: int, p: InitPlayer, p2: InitPlayer)
    requires
        b.len() < 0x10000000000000000,
        prefix_at(b, i, spec_init_player_enc(p)),
        prefix_at(b, i, spec_init_player_enc(p2)),
        p.username@.len() < 0x10000000000000000,
    ensures
        p.id == p2.id,
        p.username@ == p2.username@,
{
    lemma_initp_split_one(b, i, p);
    lemma_initp_split_one(b, i, p2);
    lemma_u128_inj(b, i, p.id, p2.id);
    lemma_initp_name_bound(b, i + 16, p2.username@);
    lemma_bytes_inj(b, i + 16, p.username@, p2.username@);
}

/// A byte string encoded inside a buffer is shorter than the buffer.
#[verifier::rlimit(100)]
#[verifier::spinoff_prover]
proof fn lemma_initp_name_bound(b: Seq<u8>, i: int, s: Seq<u8>)
    requires
        prefix_at(b, i, spec_bytes_enc(s)),
        b.len() < 0x10000000000000000,
    ensures
        s.len() < 0x10000000000000000,
{
    assert(spec_bytes_enc(s).len() == 8 + s.len());
}

/// Two starting states encoded at the same place are equal.
#[verifier::rlimit(100)]
#[verifier::spinoff_prover]
proof fn lemma_initp_inj_pair(b: Seq<u8>, i: int, p: InitPlayer, p2: InitPlayer)
    requires
        b.len() < 0x10000000000000000,
        prefix_at(b, i, spec_init_player_enc(p)),
        prefix_at(b, i, spec_init_player_enc(p2)),
        p.username@.len() < 0x10000000000000000,
    ensures
        init_player_eq(p, p2),
{
    lemma_initp_inj_name(b, i, p, p2);
    lemma_initp_split_one(b, i, p);
    lemma_initp_split_one(b, i, p2);
    lemma_loc_inj(b, i + 24 + p.username@.len(), p.location, p2.location);
    lemma_u32_inj(b, i + 36 + p.username@.len(), p.hp, p2.hp);
    lemma_u32_inj(b, i + 40 + p.username@.len(), p.max_hp, p2.max_hp);
    lemma_u32_inj(b, i + 44 + p.username@.len(), p.level, p2.level);
    assert(spec_dir_byte(p.direction) == spec_dir_byte(p2.direction));
}

/// A parsed starting state is equal to any starting state encoded where
/// it was read.
proof fn lemma_initp_inj(b: Seq<u8>, i: int, p: InitPlayer)
    requires
        b.len() < 0x10000000000000000,
        prefix_at(b, i, spec_init_player_enc(p)),
        p.username@.len() < 0x10000000000000000,
    ensures
        forall|p2: InitPlayer|
            prefix_at(b, i, #[trigger] spec_init_player_enc(p2)) ==> init_player_eq(p, p2),
{
    assert forall|p2: InitPlayer|
        prefix_at(b, i, #[trigger] spec_init_player_enc(p2)) implies init_player_eq(p, p2) by {
        lemma_initp_inj_pair(b, i, p, p2);
    }
}


/// Equality of stream server messages up to byte-buffer identity.
pub open spec fn tcp_server_eq(a: TcpServerMsg, b: TcpServerMsg) -> bool {
    match (a, b) {
        (TcpServerMsg::InitOk(p1), TcpServerMsg::InitOk(p2)) => init_player_eq(p1, p2),
        (TcpServerMsg::InitErr(e1), TcpServerMsg::InitErr(e2)) => e1@ == e2@,
        (TcpServerMsg::ReconnectOk, TcpServerMsg::ReconnectOk) => true,
        (
            TcpServerMsg::ChatMsg { username: u1, msg: m1 },
            TcpServerMsg::ChatMsg { username: u2, msg: m2 },
        ) => u1@ == u2@ && m1@ == m2@,
        (TcpServerMsg::RespawnOk, TcpServerMsg::RespawnOk) => true,
        _ => false,
    }
}

/// A stream server message on the wire: a variant tag, then its fields.
pub open spec fn spec_tcp_server_enc(m: TcpServerMsg) -> Seq<u8> {
    match m {
        TcpServerMsg::InitOk(p) => seq![0u8] + spec_init_player_enc(p),
        TcpServerMsg::InitErr(e) => seq![1u8] + spec_bytes_enc(e@),
        TcpServerMsg::ReconnectOk => seq![2u8],
        TcpServerMsg::ChatMsg { username, msg } => seq![3u8] + spec_bytes_enc(username@)
            + spec_bytes_enc(msg@),
        TcpServerMsg::RespawnOk => seq![4u8],
    }
}

/// Encodes one stream server message as one frame.
pub fn encode_tcp_server_msg(m: &TcpServerMsg) -> (r: Vec<u8>)
    ensures
        r@ =~= spec_tcp_server_enc(*m),
{
    let mut out: Vec<u8> = Vec::new();
    match m {
        TcpServerMsg::InitOk(p) => {
            out.push(0);
            encode_init_player(&mut out, p);
        },
        TcpServerMsg::InitErr(e) => {
            out.push(1);
            encode_bytes(&mut out, e);
        },
        TcpServerMsg::ReconnectOk => {
            out.push(2);
        },
        TcpServerMsg::ChatMsg { username, msg } => {
            out.push(3);
            encode_bytes(&mut out, username);
            encode_bytes(&mut out, msg);
        },
        TcpServerMsg::RespawnOk => {
            out.push(4);
        },
    }
    out
}

/// A stream-server prefix fixes the tag and places the first field.
#[verifier::rlimit(100)]
#[verifier::spinoff_prover]
proof fn lemma_tcps_head(b: Seq<u8>)
    ensures
        forall|m: TcpServerMsg|
            prefix_at(b, 0, #[trigger] spec_tcp_server_enc(m)) ==> 1 <= b.len() && b[0] == (
            match m {
                TcpServerMsg::InitOk(..) => 0u8,
                TcpServerMsg::InitErr(..) => 1u8,
                TcpServerMsg::ReconnectOk => 2u8,
                TcpServerMsg::ChatMsg { .. } => 3u8,
                TcpServerMsg::RespawnOk => 4u8,
            }) && (match m {
                TcpServerMsg::InitOk(p) => prefix_at(b, 1, spec_init_player_enc(p))
                    && spec_tcp_server_enc(m).len() == 1 + spec_init_player_enc(p).len(),
                TcpServerMsg::InitErr(e) => prefix_at(b, 1, spec_bytes_enc(e@))
                    && spec_tcp_server_enc(m).len() == 9 + e@.len(),
                TcpServerMsg::ReconnectOk => spec_tcp_server_enc(m).len() == 1,
                TcpServerMsg::ChatMsg { username, msg } => prefix_at(
                    b,
                    1,
                    spec_bytes_enc(username@),
                ) && prefix_at(b, 9int + username@.len(), spec_bytes_enc(msg@))
                    && spec_tcp_server_enc(m).len() == 17 + username@.len() + msg@.len(),
                TcpServerMsg::RespawnOk => spec_tcp_server_enc(m).len() == 1,
            }),
{
    assert forall|m: TcpServerMsg|
        prefix_at(b, 0, #[trigger] spec_tcp_server_enc(m)) implies 1 <= b.len() && b[0] == (
    match m {
        TcpServerMsg::InitOk(..) => 0u8,
        TcpServerMsg::InitErr(..) => 1u8,
        TcpServerMsg::ReconnectOk => 2u8,
        TcpServerMsg::ChatMsg { .. } => 3u8,
        TcpServerMsg::RespawnOk => 4u8,
    }) && (match m {
        TcpServerMsg::InitOk(p) => prefix_at(b, 1, spec_init_player_enc(p))
            && spec_tcp_server_enc(m).len() == 1 + spec_init_player_enc(p).len(),
        TcpServerMsg::InitErr(e) => prefix_at(b, 1, spec_bytes_enc(e@)) && spec_tcp_server_enc(
            m,
        ).len() == 9 + e@.len(),
        TcpServerMsg::ReconnectOk => spec_tcp_server_enc(m).len() == 1,
        TcpServerMsg::ChatMsg { username, msg } => prefix_at(b, 1, spec_bytes_enc(username@))
            && prefix_at(b, 9int + username@.len(), spec_bytes_enc(msg@)) && spec_tcp_server_enc(
            m,
        ).len() == 17 + username@.len() + msg@.len(),
        TcpServerMsg::RespawnOk => spec_tcp_server_enc(m).len() == 1,
    }) by {
        match m {
            TcpServerMsg::InitOk(p) => {
                lemma_prefix_split(b, 0, seq![0u8], spec_init_player_enc(p));
            },
            TcpServerMsg::InitErr(e) => {
                lemma_prefix_split(b, 0, seq![1u8], spec_bytes_enc(e@));
            },
            TcpServerMsg::ReconnectOk => {},
            TcpServerMsg::ChatMsg { username, msg } => {
                lemma_prefix_split(
                    b,
                    0,
                    seq![3u8] + spec_bytes_enc(username@),
                    spec_bytes_enc(msg@),
                );
                lemma_prefix_split(b, 0, seq![3u8], spec_bytes_enc(username@));
            },
            TcpServerMsg::RespawnOk => {},
        }
        assert(b[0] == b.subrange(0, spec_tcp_server_enc(m).len() as int)[0]);
    }
}

/// Decodes one frame as a stream server message: the message the frame
/// encodes, byte for byte, or nothing when the frame encodes none.
#[verifier::rlimit(100)]
#[verifier::spinoff_prover]
pub fn decode_tcp_server_msg(buf: &Vec<u8>) -> (r: Option<TcpServerMsg>)
    ensures
        r matches Some(m) ==> buf@ =~= spec_tcp_server_enc(m),
        forall|m: TcpServerMsg|
            buf@ == #[trigger] spec_tcp_server_enc(m) ==> (r matches Some(m2) && tcp_server_eq(
                m2,
                m,
            )),
{
    let blen = buf.len();
    proof {
        assert(buf@.len() == blen);
        lemma_tcps_head(buf@);
        assert forall|m: TcpServerMsg|
            buf@ == #[trigger] spec_tcp_server_enc(m) implies prefix_at(
            buf@,
            0,
            spec_tcp_server_enc(m),
        ) by {
            assert(buf@.subrange(0, spec_tcp_server_enc(m).len() as int) =~= spec_tcp_server_enc(
                m,
            ));
        }
    }
    if buf.len() < 1 {
        return None;
    }
    let tag = buf[0];
    if tag > 4 {
        return None;
    }
    if tag == 2 || tag == 4 {
        if buf.len() != 1 {
            return None;
        }
        let m = if tag == 2 {
            TcpServerMsg::ReconnectOk
        } else {
            TcpServerMsg::RespawnOk
        };
        proof {
            assert(buf@ =~= seq![tag]);
            assert(buf@ =~= spec_tcp_server_enc(m));
        }
        return Some(m);
    }
    if tag == 0 {
        let (p, j) = match decode_init_player(buf, 1) {
            Some(v) => v,
            None => {
                return None;
            },
        };
        if j != buf.len() {
            return None;
        }
        let m = TcpServerMsg::InitOk(p);
        proof {
            lemma_prefix_byte(buf@, 0, 0u8);
            lemma_prefix_join(buf@, 0, seq![0u8], spec_init_player_enc(p));
            assert(spec_tcp_server_enc(m) =~= seq![0u8] + spec_init_player_enc(p));
            assert(buf@ =~= buf@.subrange(0, buf@.len() as int));
            assert forall|m2: TcpServerMsg|
                buf@ == #[trigger] spec_tcp_server_enc(m2) implies tcp_server_eq(m, m2) by {
                match m2 {
                    TcpServerMsg::InitOk(p2) => {
                        lemma_initp_inj_pair(buf@, 1, p, p2);
                    },
                    _ => {
                        assert(false);
                    },
                }
            }
        }
        return Some(m);
    }
    if tag == 1 {
        let (e, j) = match decode_bytes(buf, 1) {
            Some(v) => v,
            None => {
                return None;
            },
        };
        if j != buf.len() {
            return None;
        }
        let m = TcpServerMsg::InitErr(e);
        proof {
            let ev = match &m {
                TcpServerMsg::InitErr(e2) => e2@,
                _ => Seq::empty(),
            };
            lemma_prefix_byte(buf@, 0, 1u8);
            lemma_prefix_join(buf@, 0, seq![1u8], spec_bytes_enc(ev));
            assert(spec_tcp_server_enc(m) =~= seq![1u8] + spec_bytes_enc(ev));
            assert(buf@ =~= buf@.subrange(0, buf@.len() as int));
        }
        return Some(m);
    }
    let (username, j1) = match decode_bytes(buf, 1) {
        Some(v) => v,
        None => {
            return None;
        },
    };
    let (msg, j2) = match decode_bytes(buf, j1) {
        Some(v) => v,
        None => {
            return None;
        },
    };
    if j2 != buf.len() {
        return None;
    }
    proof {
        lemma_prefix_byte(buf@, 0, 3u8);
        lemma_prefix_join(buf@, 0, seq![3u8], spec_bytes_enc(username@));
        lemma_prefix_join(
            buf@,
            0,
            seq![3u8] + spec_bytes_enc(username@),
            spec_bytes_enc(msg@),
        );
        assert(buf@ =~= buf@.subrange(0, buf@.len() as int));
        assert forall|m2: TcpServerMsg|
            buf@ == #[trigger] spec_tcp_server_enc(m2) implies (match m2 {
            TcpServerMsg::ChatMsg { username: u2, msg: t2 } => u2@ == username@ && t2@ == msg@,
            _ => false,
        }) by {
            match m2 {
                TcpServerMsg::ChatMsg { username: u2, msg: t2 } => {
                    lemma_bytes_inj(buf@, 1, username@, u2@);
                },
                _ => {
                    assert(false);
                },
            }
        }
    }
    let m = TcpServerMsg::ChatMsg { username, msg };
    proof {
        assert(spec_tcp_server_enc(m) =~= seq![3u8] + spec_bytes_enc(
            match &m {
                TcpServerMsg::ChatMsg { username: u, .. } => u@,
                _ => Seq::empty(),
            },
        ) + spec_bytes_enc(
            match &m {
                TcpServerMsg::ChatMsg { msg: t, .. } => t@,
                _ => Seq::empty(),
            },
        ));
    }
    Some(m)
}


/// Equality of datagram server messages up to byte-buffer identity.
pub open spec fn udp_server_eq(a: UdpServerMsg, b: UdpServerMsg) -> bool {
    match (a, b) {
        (
            UdpServerMsg::PlayerMove { location: l1, client_request_id: c1 },
            UdpServerMsg::PlayerMove { location: l2, client_request_id: c2 },
        ) => l1 == l2 && c1 == c2,
        (
            UdpServerMsg::OtherPlayer { username: u1, location: l1, direction: d1 },
            UdpServerMsg::OtherPlayer { username: u2, location: l2, direction: d2 },
        ) => u1@ == u2@ && l1 == l2 && d1 == d2,
        (UdpServerMsg::Objects(g1), UdpServerMsg::Objects(g2)) => g1.entries@ == g2.entries@,
        (UdpServerMsg::Pong(p1), UdpServerMsg::Pong(p2)) => p1 == p2,
        (
            UdpServerMsg::PlayerHealthUpdate { hp: h1 },
            UdpServerMsg::PlayerHealthUpdate { hp: h2 },
        ) => h1 == h2,
        (
            UdpServerMsg::PlayerDeath { message: m1 },
            UdpServerMsg::PlayerDeath { message: m2 },
        ) => m1@ == m2@,
        (UdpServerMsg::DamageNumber { damage: d1 }, UdpServerMsg::DamageNumber { damage: d2 }) => d1
            == d2,
        _ => false,
    }
}

/// A datagram server message on the wire: a variant tag, then its fields.
pub open spec fn spec_udp_server_enc(m: UdpServerMsg) -> Seq<u8> {
    match m {
        UdpServerMsg::PlayerMove { location, client_request_id } => seq![0u8] + spec_loc_enc(
            location,
        ) + spec_u32_bytes(client_request_id),
        UdpServerMsg::OtherPlayer { username, location, direction } => seq![1u8] + spec_bytes_enc(
            username@,
        ) + spec_loc_enc(location) + seq![spec_dir_byte(direction)],
        UdpServerMsg::Objects(go) => seq![2u8] + spec_objects_enc(go.entries@),
        UdpServerMsg::Pong(p) => seq![3u8] + spec_u32_bytes(p),
        UdpServerMsg::PlayerHealthUpdate { hp } => seq![4u8] + spec_u32_bytes(hp),
        UdpServerMsg::PlayerDeath { message } => seq![5u8] + spec_bytes_enc(message@),
        UdpServerMsg::DamageNumber { damage } => seq![6u8] + spec_u32_bytes(damage),
    }
}

/// Encodes one datagram server message as one frame.
pub fn encode_udp_server_msg(m: &UdpServerMsg) -> (r: Vec<u8>)
    ensures
        r@ =~= spec_udp_server_enc(*m),
{
    let mut out: Vec<u8> = Vec::new();
    match m {
        UdpServerMsg::PlayerMove { location, client_request_id } => {
            out.push(0);
            encode_location(&mut out, *location);
            encode_u32(&mut out, *client_request_id);
        },
        UdpServerMsg::OtherPlayer { username, location, direction } => {
            out.push(1);
            encode_bytes(&mut out, username);
            encode_location(&mut out, *location);
            encode_direction(&mut out, *direction);
        },
        UdpServerMsg::Objects(go) => {
            out.push(2);
            encode_objects(&mut out, go);
        },
        UdpServerMsg::Pong(p) => {
            out.push(3);
            encode_u32(&mut out, *p);
        },
        UdpServerMsg::PlayerHealthUpdate { hp } => {
            out.push(4);
            encode_u32(&mut out, *hp);
        },
        UdpServerMsg::PlayerDeath { message } => {
            out.push(5);
            encode_bytes(&mut out, message);
        },
        UdpServerMsg::DamageNumber { damage } => {
            out.push(6);
            encode_u32(&mut out, *damage);
        },
    }
    out
}

/// A datagram-server prefix fixes the tag and places the first field.
#[verifier::rlimit(100)]
#[verifier::spinoff_prover]
proof fn lemma_udps_head(b: Seq<u8>)
    ensures
        forall|m: UdpServerMsg|
            prefix_at(b, 0, #[trigger] spec_udp_server_enc(m)) ==> 1 <= b.len() && b[0] == (
            match m {
                UdpServerMsg::PlayerMove { .. } => 0u8,
                UdpServerMsg::OtherPlayer { .. } => 1u8,
                UdpServerMsg::Objects(..) => 2u8,
                UdpServerMsg::Pong(..) => 3u8,
                UdpServerMsg::PlayerHealthUpdate { .. } => 4u8,
                UdpServerMsg::PlayerDeath { .. } => 5u8,
                UdpServerMsg::DamageNumber { .. } => 6u8,
            }) && (match m {
                UdpServerMsg::PlayerMove { location, client_request_id } => prefix_at(
                    b,
                    1,
                    spec_loc_enc(location),
                ) && prefix_at(b, 13, spec_u32_bytes(client_request_id)) && spec_udp_server_enc(
                    m,
                ).len() == 17,
                UdpServerMsg::OtherPlayer { username, location, direction } => prefix_at(
                    b,
                    1,
                    spec_bytes_enc(username@),
                ) && prefix_at(b, 9int + username@.len(), spec_loc_enc(location)) && b[21int
                    + username@.len()] == spec_dir_byte(direction) && spec_udp_server_enc(m).len()
                    == 22 + username@.len(),
                UdpServerMsg::Objects(go) => prefix_at(b, 1, spec_objects_enc(go.entries@))
                    && spec_udp_server_enc(m).len() == 1 + spec_objects_enc(go.entries@).len(),
                UdpServerMsg::Pong(p) => prefix_at(b, 1, spec_u32_bytes(p))
                    && spec_udp_server_enc(m).len() == 5,
                UdpServerMsg::PlayerHealthUpdate { hp } => prefix_at(b, 1, spec_u32_bytes(hp))
                    && spec_udp_server_enc(m).len() == 5,
                UdpServerMsg::PlayerDeath { message } => prefix_at(b, 1, spec_bytes_enc(message@))
                    && spec_udp_server_enc(m).len() == 9 + message@.len(),
                UdpServerMsg::DamageNumber { damage } => prefix_at(b, 1, spec_u32_bytes(damage))
                    && spec_udp_server_enc(m).len() == 5,
            }),
{
    assert forall|m: UdpServerMsg|
        prefix_at(b, 0, #[trigger] spec_udp_server_enc(m)) implies 1 <= b.len() && b[0] == (
    match m {
        UdpServerMsg::PlayerMove { .. } => 0u8,
        UdpServerMsg::OtherPlayer { .. } => 1u8,
        UdpServerMsg::Objects(..) => 2u8,
        UdpServerMsg::Pong(..) => 3u8,
        UdpServerMsg::PlayerHealthUpdate { .. } => 4u8,
        UdpServerMsg::PlayerDeath { .. } => 5u8,
        UdpServerMsg::DamageNumber { .. } => 6u8,
    }) && (match m {
        UdpServerMsg::PlayerMove { location, client_request_id } => prefix_at(
            b,
            1,
            spec_loc_enc(location),
        ) && prefix_at(b, 13, spec_u32_bytes(client_request_id)) && spec_udp_server_enc(m).len()
            == 17,
        UdpServerMsg::OtherPlayer { username, location, direction } => prefix_at(
            b,
            1,
            spec_bytes_enc(username@),
        ) && prefix_at(b, 9int + username@.len(), spec_loc_enc(location)) && b[21int
            + username@.len()] == spec_dir_byte(direction) && spec_udp_server_enc(m).len() == 22
            + username@.len(),
        UdpServerMsg::Objects(go) => prefix_at(b, 1, spec_objects_enc(go.entries@))
            && spec_udp_server_enc(m).len() == 1 + spec_objects_enc(go.entries@).len(),
        UdpServerMsg::Pong(p) => prefix_at(b, 1, spec_u32_bytes(p)) && spec_udp_server_enc(
            m,
        ).len() == 5,
        UdpServerMsg::PlayerHealthUpdate { hp } => prefix_at(b, 1, spec_u32_bytes(hp))
            && spec_udp_server_enc(m).len() == 5,
        UdpServerMsg::PlayerDeath { message } => prefix_at(b, 1, spec_bytes_enc(message@))
            && spec_udp_server_enc(m).len() == 9 + message@.len(),
        UdpServerMsg::DamageNumber { damage } => prefix_at(b, 1, spec_u32_bytes(damage))
            && spec_udp_server_enc(m).len() == 5,
    }) by {
        match m {
            UdpServerMsg::PlayerMove { location, client_request_id } => {
                lemma_prefix_split(
                    b,
                    0,
                    seq![0u8] + spec_loc_enc(location),
                    spec_u32_bytes(client_request_id),
                );
                lemma_prefix_split(b, 0, seq![0u8], spec_loc_enc(location));
            },
            UdpServerMsg::OtherPlayer { username, location, direction } => {
                lemma_prefix_split(
                    b,
                    0,
                    seq![1u8] + spec_bytes_enc(username@) + spec_loc_enc(location),
                    seq![spec_dir_byte(direction)],
                );
                lemma_prefix_split(
                    b,
                    0,
                    seq![1u8] + spec_bytes_enc(username@),
                    spec_loc_enc(location),
                );
                lemma_prefix_split(b, 0, seq![1u8], spec_bytes_enc(username@));
                assert(b[21int + username@.len()] == b.subrange(
                    21int + username@.len(),
                    22int + username@.len(),
                )[0]);
            },
            UdpServerMsg::Objects(go) => {
                lemma_prefix_split(b, 0, seq![2u8], spec_objects_enc(go.entries@));
            },
            UdpServerMsg::Pong(p) => {
                lemma_prefix_split(b, 0, seq![3u8], spec_u32_bytes(p));
            },
            UdpServerMsg::PlayerHealthUpdate { hp } => {
                lemma_prefix_split(b, 0, seq![4u8], spec_u32_bytes(hp));
            },
            UdpServerMsg::PlayerDeath { message } => {
                lemma_prefix_split(b, 0, seq![5u8], spec_bytes_enc(message@));
            },
            UdpServerMsg::DamageNumber { damage } => {
                lemma_prefix_split(b, 0, seq![6u8], spec_u32_bytes(damage));
            },
        }
        assert(b[0] == b.subrange(0, spec_udp_server_enc(m).len() as int)[0]);
    }
}

/// Decodes one frame as a datagram server message: the message the frame
/// encodes, byte for byte, or nothing when the frame encodes none.
#[verifier::rlimit(100)]
#[verifier::spinoff_prover]
pub fn decode_udp_server_msg(buf: &Vec<u8>) -> (r: Option<UdpServerMsg>)
    ensures
        r matches Some(m) ==> buf@ =~= spec_udp_server_enc(m),
        forall|m: UdpServerMsg|
            buf@ == #[trigger] spec_udp_server_enc(m) ==> (r matches Some(m2) && udp_server_eq(
                m2,
                m,
            )),
{
    let blen = buf.len();
    proof {
        assert(buf@.len() == blen);
        lemma_udps_head(buf@);
        assert forall|m: UdpServerMsg|
            buf@ == #[trigger] spec_udp_server_enc(m) implies prefix_at(
            buf@,
            0,
            spec_udp_server_enc(m),
        ) by {
            assert(buf@.subrange(0, spec_udp_server_enc(m).len() as int) =~= spec_udp_server_enc(
                m,
            ));
        }
    }
    if buf.len() < 1 {
        return None;
    }
    let tag = buf[0];
    if tag > 6 {
        return None;
    }
    if tag == 3 || tag == 4 || tag == 6 {
        let (v, j) = match decode_u32(buf, 1) {
            Some(v) => v,
            None => {
                return None;
            },
        };
        if j != buf.len() {
            return None;
        }
        let m = if tag == 3 {
            UdpServerMsg::Pong(v)
        } else if tag == 4 {
            UdpServerMsg::PlayerHealthUpdate { hp: v }
        } else {
            UdpServerMsg::DamageNumber { damage: v }
        };
        proof {
            lemma_u32_bytes_eq(v, buf@, 1);
            lemma_prefix_byte(buf@, 0, tag);
            lemma_prefix_join(buf@, 0, seq![tag], spec_u32_bytes(v));
            assert(spec_udp_server_enc(m) =~= seq![tag] + spec_u32_bytes(v));
            assert(buf@ =~= buf@.subrange(0, buf@.len() as int));
            assert forall|m2: UdpServerMsg|
                buf@ == #[trigger] spec_udp_server_enc(m2) implies udp_server_eq(m, m2) by {
                match m2 {
                    UdpServerMsg::Pong(p2) => {
                        lemma_u32_inj(buf@, 1, v, p2);
                    },
                    UdpServerMsg::PlayerHealthUpdate { hp: h2 } => {
                        lemma_u32_inj(buf@, 1, v, h2);
                    },
                    UdpServerMsg::DamageNumber { damage: d2 } => {
                        lemma_u32_inj(buf@, 1, v, d2);
                    },
                    _ => {
                        assert(false);
                    },
                }
            }
        }
        return Some(m);
    }
    if tag == 0 {
        let (location, j1) = match decode_location(buf, 1) {
            Some(v) => v,
            None => {
                return None;
            },
        };
        let (client_request_id, j2) = match decode_u32(buf, j1) {
            Some(v) => v,
            None => {
                return None;
            },
        };
        if j2 != buf.len() {
            return None;
        }
        let m = UdpServerMsg::PlayerMove { location, client_request_id };
        proof {
            lemma_u32_bytes_eq(client_request_id, buf@, 13);
            lemma_prefix_byte(buf@, 0, 0u8);
            lemma_prefix_join(buf@, 0, seq![0u8], spec_loc_enc(location));
            lemma_prefix_join(
                buf@,
                0,
                seq![0u8] + spec_loc_enc(location),
                spec_u32_bytes(client_request_id),
            );
            assert(spec_udp_server_enc(m) =~= seq![0u8] + spec_loc_enc(location) + spec_u32_bytes(
                client_request_id,
            ));
            assert(buf@ =~= buf@.subrange(0, buf@.len() as int));
            assert forall|m2: UdpServerMsg|
                buf@ == #[trigger] spec_udp_server_enc(m2) implies udp_server_eq(m, m2) by {
                match m2 {
                    UdpServerMsg::PlayerMove { location: l2, client_request_id: c2 } => {
                        lemma_loc_inj(buf@, 1, location, l2);
                        lemma_u32_inj(buf@, 13, client_request_id, c2);
                    },
                    _ => {
                        assert(false);
                    },
                }
            }
        }
        return Some(m);
    }
    if tag == 2 {
        let (go, j) = match decode_objects(buf, 1) {
            Some(v) => v,
            None => {
                return None;
            },
        };
        if j != buf.len() {
            return None;
        }
        let m = UdpServerMsg::Objects(go);
        proof {
            let gv = match &m {
                UdpServerMsg::Objects(g) => g.entries@,
                _ => Seq::empty(),
            };
            lemma_prefix_byte(buf@, 0, 2u8);
            lemma_prefix_join(buf@, 0, seq![2u8], spec_objects_enc(gv));
            assert(spec_udp_server_enc(m) =~= seq![2u8] + spec_objects_enc(gv));
            assert(buf@ =~= buf@.subrange(0, buf@.len() as int));
        }
        return Some(m);
    }
    if tag == 5 {
        let (message, j) = match decode_bytes(buf, 1) {
            Some(v) => v,
            None => {
                return None;
            },
        };
        if j != buf.len() {
            return None;
        }
        let m = UdpServerMsg::PlayerDeath { message };
        proof {
            let mv = match &m {
                UdpServerMsg::PlayerDeath { message: t } => t@,
                _ => Seq::empty(),
            };
            lemma_prefix_byte(buf@, 0, 5u8);
            lemma_prefix_join(buf@, 0, seq![5u8], spec_bytes_enc(mv));
            assert(spec_udp_server_enc(m) =~= seq![5u8] + spec_bytes_enc(mv));
            assert(buf@ =~= buf@.subrange(0, buf@.len() as int));
        }
        return Some(m);
    }
    let (username, j1) = match decode_bytes(buf, 1) {
        Some(v) => v,
        None => {
            return None;
        },
    };
    let (location, j2) = match decode_location(buf, j1) {
        Some(v) => v,
        None => {
            return None;
        },
    };
    let (direction, j3) = match decode_direction(buf, j2) {
        Some(v) => v,
        None => {
            return None;
        },
    };
    if j3 != buf.len() {
        return None;
    }
    proof {
        lemma_prefix_byte(buf@, 0, 1u8);
        lemma_prefix_join(buf@, 0, seq![1u8], spec_bytes_enc(username@));
        lemma_prefix_join(
            buf@,
            0,
            seq![1u8] + spec_bytes_enc(username@),
            spec_loc_enc(location),
        );
        lemma_prefix_join(
            buf@,
            0,
            seq![1u8] + spec_bytes_enc(username@) + spec_loc_enc(location),
            seq![spec_dir_byte(direction)],
        );
        assert(buf@ =~= buf@.subrange(0, buf@.len() as int));
        assert forall|m2: UdpServerMsg|
            buf@ == #[trigger] spec_udp_server_enc(m2) implies (match m2 {
            UdpServerMsg::OtherPlayer { username: u2, location: l2, direction: d2 } => u2@
                == username@ && l2 == location && d2 == direction,
            _ => false,
        }) by {
            match m2 {
                UdpServerMsg::OtherPlayer { username: u2, location: l2, direction: d2 } => {
                    lemma_bytes_inj(buf@, 1, username@, u2@);
                    lemma_loc_inj(buf@, 9int + username@.len(), location, l2);
                    assert(buf@[21int + username@.len()] == buf@.subrange(
                        21int + username@.len(),
                        22int + username@.len(),
                    )[0]);
                },
                _ => {
                    assert(false);
                },
            }
        }
    }
    let m = UdpServerMsg::OtherPlayer { username, location, direction };
    proof {
        assert(spec_udp_server_enc(m) =~= seq![1u8] + spec_bytes_enc(
            match &m {
                UdpServerMsg::OtherPlayer { username: u, .. } => u@,
                _ => Seq::empty(),
            },
        ) + spec_loc_enc(location) + seq![spec_dir_byte(direction)]);
    }
    Some(m)
}

} // verus!
