//! The 6-bit "armor" codec of AIVDM payloads.
//!
//! A payload character carries six bits; four characters carry three bytes.
//! `unpack` turns a payload into bytes and reports how many low bits of the
//! last byte are padding (`drop_bits`) and which low bits of the last
//! character were below the fill boundary (`garbage_bits`). `pack` reverses it.
use vstd::prelude::*;

use vstd::string::StringSliceAdditionalSpecFns;

use crate::text::push_char;

verus! {

// ---------------------------------------------------------------------------
// Characters and 6-bit values
// ---------------------------------------------------------------------------

/// A character of the payload alphabet: `'0'..='W'` or `` '`'..='w' ``.
pub open spec fn is_armor_char(c: char) -> bool {
    ('0' <= c && c <= 'W') || ('`' <= c && c <= 'w')
}

/// Every character of `s` is a payload character.
pub open spec fn is_armor_text(s: Seq<char>) -> bool {
    forall|i: int| 0 <= i < s.len() ==> is_armor_char(#[trigger] s[i])
}

/// The six bits that a payload character stands for.
pub open spec fn armor_value(c: char) -> u8 {
    if c <= 'W' {
        (c as u32 - 48) as u8
    } else {
        (c as u32 - 56) as u8
    }
}

/// The payload character of a 6-bit value.
pub open spec fn armor_char(x: u8) -> char {
    if x < 40 {
        (x + 48) as char
    } else {
        (x + 56) as char
    }
}

pub open spec fn armor_values(s: Seq<char>) -> Seq<u8> {
    s.map_values(|c: char| armor_value(c))
}

pub open spec fn armor_chars(v: Seq<u8>) -> Seq<char> {
    v.map_values(|x: u8| armor_char(x))
}

pub open spec fn all_six_bit(v: Seq<u8>) -> bool {
    forall|i: int| 0 <= i < v.len() ==> #[trigger] v[i] < 64
}

/// The bits of `x` at and above position `fill_bits`.
pub open spec fn truncate_spec(x: u8, fill_bits: u8) -> u8 {
    x & (0xffu8 << fill_bits)
}

/// The bits of `x` below position `fill_bits`.
pub open spec fn garbage_spec(x: u8, fill_bits: u8) -> u8 {
    x & !(0xffu8 << fill_bits)
}

// ---------------------------------------------------------------------------
// The model of unpack
// ---------------------------------------------------------------------------

/// The three bytes of four 6-bit values.
pub open spec fn quad_bytes(a: u8, b: u8, c: u8, d: u8) -> Seq<u8> {
    seq![(a << 2) | (b >> 4), (b << 4) | (c >> 2), (c << 6) | d]
}

/// The bytes of the first `k` groups of four values.
pub open spec fn unpack_quads(v: Seq<u8>, k: nat) -> Seq<u8>
    decreases k,
{
    if k == 0 {
        seq![]
    } else {
        let i = 4 * (k - 1) as int;
        unpack_quads(v, (k - 1) as nat) + quad_bytes(v[i], v[i + 1], v[i + 2], v[i + 3])
    }
}

/// What unpacking the 6-bit values `v` with `fill_bits` fill bits gives:
/// the bytes, `drop_bits` and `garbage_bits`.
pub open spec fn unpack_spec(v: Seq<u8>, fill_bits: u8) -> (Seq<u8>, u8, u8) {
    let q = v.len() / 4;
    let i = 4 * q as int;
    let body = unpack_quads(v, q);
    let f = fill_bits;
    if v.len() % 4 == 0 {
        if q == 0 {
            (body, f, 0u8)
        } else {
            let last = body.last();
            (body.update(body.len() - 1, truncate_spec(last, f)), f, garbage_spec(last, f))
        }
    } else if v.len() % 4 == 3 {
        let (a, b, c) = (v[i], v[i + 1], v[i + 2]);
        if f < 2 {
            (
                body + seq![(a << 2) | (b >> 4), (b << 4) | (c >> 2), truncate_spec(c, f) << 6],
                (f + 6) as u8,
                garbage_spec(c, f),
            )
        } else {
            (
                body + seq![(a << 2) | (b >> 4), (b << 4) | (truncate_spec(c, f) >> 2)],
                (f - 2) as u8,
                garbage_spec(c, f),
            )
        }
    } else if v.len() % 4 == 2 {
        let (a, b) = (v[i], v[i + 1]);
        if f < 4 {
            (
                body + seq![(a << 2) | (b >> 4), truncate_spec(b, f) << 4],
                (f + 4) as u8,
                garbage_spec(b, f),
            )
        } else {
            (body + seq![(a << 2) | (truncate_spec(b, f) >> 4)], (f - 4) as u8, garbage_spec(b, f))
        }
    } else {
        let a = v[i];
        (body + seq![truncate_spec(a, f) << 2], (f + 2) as u8, garbage_spec(a, f))
    }
}

// ---------------------------------------------------------------------------
// The model of pack
// ---------------------------------------------------------------------------

/// The four 6-bit values of three bytes.
pub open spec fn triple_values(a: u8, b: u8, c: u8) -> Seq<u8> {
    seq![a >> 2, ((a & 0x03) << 4) | (b >> 4), ((b & 0x0f) << 2) | (c >> 6), c & 0x3f]
}

/// The values of the first `k` groups of three bytes.
pub open spec fn pack_triples(d: Seq<u8>, k: nat) -> Seq<u8>
    decreases k,
{
    if k == 0 {
        seq![]
    } else {
        let i = 3 * (k - 1) as int;
        pack_triples(d, (k - 1) as nat) + triple_values(d[i], d[i + 1], d[i + 2])
    }
}

/// What packing `d` (at least three bytes) gives: the 6-bit values, before
/// they are checked and turned into characters, and `fill_bits`.
pub open spec fn pack_spec(d: Seq<u8>, drop_bits: u8, garbage_bits: u8) -> (Seq<u8>, u8) {
    let t = (d.len() / 3) as int;
    let i = 3 * (t - 1);
    let (a, b, c) = (d[i], d[i + 1], d[i + 2]);
    let head = pack_triples(d, (t - 1) as nat) + seq![a >> 2, ((a & 0x03) << 4) | (b >> 4)];
    let g = garbage_bits;
    let m = 0xffu8 << drop_bits;
    if d.len() % 3 == 0 {
        let c = c & m;
        if drop_bits < 6 {
            (head + seq![((b & 0x0f) << 2) | (c >> 6), (c & 0x3f) | g], drop_bits)
        } else {
            (head + seq![((b & 0x0f) << 2) | (c >> 6) | g], (drop_bits - 6) as u8)
        }
    } else {
        let full = head + seq![((b & 0x0f) << 2) | (c >> 6), c & 0x3f];
        let j = 3 * t;
        if d.len() % 3 == 1 {
            let x = d[j] & m;
            if drop_bits < 2 {
                (full + seq![x >> 2, ((x & 0x03) << 4) | g], (drop_bits + 4) as u8)
            } else {
                (full + seq![(x >> 2) | g], (drop_bits - 2) as u8)
            }
        } else {
            let x = d[j];
            let y = d[j + 1] & m;
            if drop_bits < 4 {
                (
                    full + seq![x >> 2, ((x & 0x03) << 4) | (y >> 4), ((y & 0x0f) << 2) | g],
                    (drop_bits + 2) as u8,
                )
            } else {
                (full + seq![x >> 2, ((x & 0x03) << 4) | (y >> 4) | g], (drop_bits - 4) as u8)
            }
        }
    }
}

/// What `unpack` gives for a payload: `None` where a character lies outside
/// the alphabet or `fill_bits` is out of range.
pub open spec fn unpack_result(body: Seq<char>, fill_bits: u8) -> Option<(Seq<u8>, u8, u8)> {
    if is_armor_text(body) && fill_bits < 6 {
        Some(unpack_spec(armor_values(body), fill_bits))
    } else {
        None
    }
}

/// `pack` succeeds on `d`: three bytes at least, and the garbage bits fit
/// into the character that they are put in.
pub open spec fn pack_succeeds(d: Seq<u8>, drop_bits: u8, garbage_bits: u8) -> bool {
    d.len() >= 3 && all_six_bit(pack_spec(d, drop_bits, garbage_bits).0)
}

// ---------------------------------------------------------------------------
// Executable codec
// ---------------------------------------------------------------------------

/// The bits of `x` below position `fill_bits`.
pub fn extract_garbage(x: u8, fill_bits: u8) -> (r: u8)
    requires
        fill_bits < 8,
    ensures
        r == garbage_spec(x, fill_bits),
{
    x & !(0xff << fill_bits)
}

/// `x` with its bits below position `fill_bits` cleared.
pub fn truncate(x: u8, fill_bits: u8) -> (r: u8)
    requires
        fill_bits < 8,
    ensures
        r == truncate_spec(x, fill_bits),
{
    x & (0xff << fill_bits)
}

/// The six bits of a payload character.
pub fn decode(c: char) -> (r: Result<u8, &'static str>)
    ensures
        r is Ok <==> is_armor_char(c),
        r is Ok ==> r->Ok_0 == armor_value(c) && r->Ok_0 < 64,
{
    if '0' <= c && c <= 'W' {
        Ok((c as u32 - 48) as u8)
    } else if '`' <= c && c <= 'w' {
        Ok((c as u32 - 56) as u8)
    } else {
        Err("decode - invalid char")
    }
}

/// The payload character of a 6-bit value; values of more than six bits
/// are refused.
pub fn encode(x: u8) -> (r: Result<char, &'static str>)
    ensures
        r is Ok <==> x < 64,
        r is Ok ==> r->Ok_0 == armor_char(x) && is_armor_char(r->Ok_0),
        r is Ok ==> armor_value(r->Ok_0) == x,
{
    if x & 0xC0 != 0 {
        assert(x >= 64) by (bit_vector)
            requires
                x & 0xC0 != 0,
        ;
        Err("encode - invalid char")
    } else {
        assert(x < 64) by (bit_vector)
            requires
                x & 0xC0 == 0,
        ;
        if x < 40 {
            Ok((x + 48) as char)
        } else {
            Ok((x - 40 + 96) as char)
        }
    }
}

/// The 6-bit values of a payload; an error where a character lies outside
/// the payload alphabet.
fn decode_all(input: &str) -> (r: Result<Vec<u8>, &'static str>)
    ensures
        r is Ok <==> is_armor_text(input@),
        r is Ok ==> r->Ok_0@ == armor_values(input@),
{
    broadcast use vstd::string::is_ascii_spec_bytes;

    if !input.is_ascii() {
        assert(!is_armor_text(input@)) by {
            assert(!vstd::utf8::is_ascii_chars(input@));
            let k = choose|k: int| 0 <= k < input@.len() && !('\0' <= #[trigger] input@[k] <= '\u{7f}');
            assert(!is_armor_char(input@[k]));
        }
        return Err("decode - invalid char");
    }
    let bytes = input.as_bytes();
    assert(bytes@.len() == input@.len());
    let mut out: Vec<u8> = Vec::new();
    let mut i: usize = 0;
    while i < bytes.len()
        invariant
            i <= bytes@.len(),
            bytes@.len() == input@.len(),
            bytes@ == input.spec_bytes(),
            vstd::string::is_ascii(input),
            out@ == armor_values(input@).subrange(0, i as int),
            forall|j: int| 0 <= j < i ==> is_armor_char(#[trigger] input@[j]),
        decreases bytes@.len() - i,
    {
        let c = bytes[i] as char;
        assert(c == input@[i as int]);
        match decode(c) {
            Ok(x) => {
                out.push(x);
            },
            Err(e) => {
                return Err(e);
            },
        }
        assert(armor_values(input@).subrange(0, i + 1) == armor_values(input@).subrange(
            0,
            i as int,
        ).push(armor_value(input@[i as int])));
        i += 1;
    }
    assert(armor_values(input@).subrange(0, i as int) == armor_values(input@));
    Ok(out)
}

/// Turns a payload into bytes.
///
/// Returns the bytes, `drop_bits` (how many low bits of the last byte carry no
/// information) and `garbage_bits` (the low `fill_bits` bits of the last
/// character, kept so that the character can be restored as it was).
pub fn unpack(input: &str, fill_bits: u8) -> (r: Result<(Vec<u8>, u8, u8), &'static str>)
    requires
        fill_bits < 6,
    ensures
        r is Ok <==> is_armor_text(input@),
        r is Ok ==> (r->Ok_0.0@, r->Ok_0.1, r->Ok_0.2) == unpack_spec(
            armor_values(input@),
            fill_bits,
        ),
        r is Ok ==> r->Ok_0.1 < 8,
        r is Ok ==> 8 * r->Ok_0.0@.len() == 6 * input@.len() - fill_bits + r->Ok_0.1,
        r is Ok ==> (r->Ok_0.1 - fill_bits) % 2 == 0,
{
    let v = match decode_all(input) {
        Ok(v) => v,
        Err(e) => {
            return Err(e);
        },
    };
    let n = v.len();
    let ghost vs = v@;
    let mut out: Vec<u8> = Vec::new();
    let mut i: usize = 0;
    while n - i >= 4
        invariant
            i % 4 == 0,
            i <= n,
            n == vs.len(),
            v@ == vs,
            out@ == unpack_quads(vs, (i / 4) as nat),
        decreases n - i,
    {
        let (a, b, c, d) = (v[i], v[i + 1], v[i + 2], v[i + 3]);
        out.push(a << 2 | b >> 4);
        out.push(b << 4 | c >> 2);
        out.push(c << 6 | d);
        assert(((i + 4) / 4) as nat - 1 == (i / 4) as nat);
        i += 4;
    }
    let f = fill_bits;
    let rem = n - i;
    let (drop_bits, garbage) = if rem == 3 {
        let (a, b, c) = (v[i], v[i + 1], v[i + 2]);
        if f < 2 {
            out.push(a << 2 | b >> 4);
            out.push(b << 4 | c >> 2);
            out.push(truncate(c, f) << 6);
            (f + 6, extract_garbage(c, f))
        } else {
            out.push(a << 2 | b >> 4);
            out.push(b << 4 | (truncate(c, f) >> 2));
            (f - 2, extract_garbage(c, f))
        }
    } else if rem == 2 {
        let (a, b) = (v[i], v[i + 1]);
        if f < 4 {
            out.push(a << 2 | b >> 4);
            out.push(truncate(b, f) << 4);
            (f + 4, extract_garbage(b, f))
        } else {
            out.push(a << 2 | truncate(b, f) >> 4);
            (f - 4, extract_garbage(b, f))
        }
    } else if rem == 1 {
        let a = v[i];
        out.push(truncate(a, f) << 2);
        (f + 2, extract_garbage(a, f))
    } else if out.len() > 0 {
        // The last group of four filled the last byte: its low bits hold the garbage.
        let k = out.len() - 1;
        let last = out[k];
        out[k] = truncate(last, f);
        (f, extract_garbage(last, f))
    } else {
        (f, 0)
    };
    proof {
        lemma_unpack_quads_len(vs, (i / 4) as nat);
        assert(i / 4 == n / 4);
        lemma_unpack_sizes(vs, f);
    }
    Ok((out, drop_bits, garbage))
}

/// Turns bytes back into a payload.
///
/// `drop_bits` low bits of the last byte are left out, and `garbage_bits` is
/// put into the low bits of the last character. Returns the payload and its
/// `fill_bits`. Fails on fewer than three bytes, and where `garbage_bits`
/// does not fit into the last character.
pub fn pack(data: &[u8], drop_bits: u8, garbage_bits: u8) -> (r: Result<(String, u8), &'static str>)
    requires
        drop_bits < 8,
    ensures
        r is Ok <==> pack_succeeds(data@, drop_bits, garbage_bits),
        r is Ok ==> r->Ok_0.0@ == armor_chars(pack_spec(data@, drop_bits, garbage_bits).0),
        r is Ok ==> r->Ok_0.1 == pack_spec(data@, drop_bits, garbage_bits).1,
{
    let n = data.len();
    if n < 3 {
        return Err("data.len() < 3");
    }
    let t = n / 3;
    let mut vals: Vec<u8> = Vec::new();
    let mut k: usize = 0;
    while k + 1 < t
        invariant
            k < t,
            t == n / 3,
            n == data@.len(),
            vals@ == pack_triples(data@, k as nat),
        decreases t - k,
    {
        let i = 3 * k;
        let (a, b, c) = (data[i], data[i + 1], data[i + 2]);
        vals.push(a >> 2);
        vals.push(((a & 0x03) << 4) | (b >> 4));
        vals.push(((b & 0x0f) << 2) | (c >> 6));
        vals.push(c & 0x3f);
        assert((k + 1) as nat - 1 == k as nat);
        k += 1;
    }
    let i = 3 * k;
    let (a, b, c) = (data[i], data[i + 1], data[i + 2]);
    vals.push(a >> 2);
    vals.push(((a & 0x03) << 4) | (b >> 4));
    let m: u8 = 0xff << drop_bits;
    let fill_bits = if n % 3 == 0 {
        // The last group of three is the end: drop_bits fall in it.
        let c = c & m;
        if drop_bits < 6 {
            vals.push(((b & 0x0f) << 2) | (c >> 6));
            vals.push((c & 0x3f) | garbage_bits);
            drop_bits
        } else {
            vals.push(((b & 0x0f) << 2) | (c >> 6) | garbage_bits);
            drop_bits - 6
        }
    } else {
        vals.push(((b & 0x0f) << 2) | (c >> 6));
        vals.push(c & 0x3f);
        let j = 3 * t;
        if n % 3 == 1 {
            let x = data[j] & m;
            if drop_bits < 2 {
                vals.push(x >> 2);
                vals.push(((x & 0x03) << 4) | garbage_bits);
                drop_bits + 4
            } else {
                vals.push((x >> 2) | garbage_bits);
                drop_bits - 2
            }
        } else {
            let x = data[j];
            let y = data[j + 1] & m;
            vals.push(x >> 2);
            if drop_bits < 4 {
                vals.push(((x & 0x03) << 4) | (y >> 4));
                vals.push(((y & 0x0f) << 2) | garbage_bits);
                drop_bits + 2
            } else {
                vals.push(((x & 0x03) << 4) | (y >> 4) | garbage_bits);
                drop_bits - 4
            }
        }
    };
    assert(vals@ =~= pack_spec(data@, drop_bits, garbage_bits).0);
    let mut out = String::new();
    let mut j: usize = 0;
    while j < vals.len()
        invariant
            j <= vals@.len(),
            vals@ == pack_spec(data@, drop_bits, garbage_bits).0,
            n >= 3,
            n == data@.len(),
            out@ == armor_chars(vals@.subrange(0, j as int)),
            forall|l: int| 0 <= l < j ==> #[trigger] vals@[l] < 64,
        decreases vals@.len() - j,
    {
        match encode(vals[j]) {
            Ok(ch) => push_char(&mut out, ch),
            Err(e) => {
                assert(!all_six_bit(vals@));
                return Err(e);
            },
        }
        assert(vals@.subrange(0, j + 1) == vals@.subrange(0, j as int).push(vals@[j as int]));
        assert(armor_chars(vals@.subrange(0, j + 1)) =~= armor_chars(
            vals@.subrange(0, j as int),
        ).push(armor_char(vals@[j as int])));
        j += 1;
    }
    assert(vals@.subrange(0, j as int) == vals@);
    Ok((out, fill_bits))
}

proof fn lemma_unpack_quads_len(v: Seq<u8>, k: nat)
    requires
        4 * k <= v.len(),
    ensures
        unpack_quads(v, k).len() == 3 * k,
    decreases k,
{
    if k > 0 {
        lemma_unpack_quads_len(v, (k - 1) as nat);
    }
}

/// The sizes that unpacking gives: `8 * bytes == 6 * chars - fill_bits + drop_bits`,
/// with `drop_bits < 8`; so `drop_bits` and `fill_bits` differ by an even number.
pub proof fn lemma_unpack_sizes(v: Seq<u8>, fill_bits: u8)
    requires
        fill_bits < 6,
    ensures
        unpack_spec(v, fill_bits).1 < 8,
        8 * unpack_spec(v, fill_bits).0.len() == 6 * v.len() - fill_bits + unpack_spec(
            v,
            fill_bits,
        ).1,
        (unpack_spec(v, fill_bits).1 - fill_bits) % 2 == 0,
{
    lemma_unpack_quads_len(v, v.len() / 4);
}


// ---------------------------------------------------------------------------
// Round trip
// ---------------------------------------------------------------------------

proof fn lemma_quad_triple(a: u8, b: u8, c: u8, d: u8)
    by (bit_vector)
    requires
        a < 64,
        b < 64,
        c < 64,
        d < 64,
    ensures
        ((a << 2) | (b >> 4)) >> 2 == a,
        ((((a << 2) | (b >> 4)) & 0x03) << 4) | (((b << 4) | (c >> 2)) >> 4) == b,
        ((((b << 4) | (c >> 2)) & 0x0f) << 2) | (((c << 6) | d) >> 6) == c,
        ((c << 6) | d) & 0x3f == d,
{
}

/// The last group of four of a payload whose length is a multiple of four.
proof fn lemma_tail_four(b: u8, c: u8, d: u8, f: u8)
    by (bit_vector)
    requires
        b < 64,
        c < 64,
        d < 64,
        f < 6,
    ensures
        ({
            let y = (b << 4) | (c >> 2);
            let z = (c << 6) | d;
            let z2 = (z & (0xffu8 << f)) & (0xffu8 << f);
            &&& ((y & 0x0f) << 2) | (z2 >> 6) == c
            &&& (z2 & 0x3f) | (z & !(0xffu8 << f)) == d
        }),
{
}

proof fn lemma_tail_three_short(b: u8, c: u8, f: u8)
    by (bit_vector)
    requires
        b < 64,
        c < 64,
        f < 2,
    ensures
        ({
            let y = (b << 4) | (c >> 2);
            let w = ((c & (0xffu8 << f)) << 6) & (0xffu8 << ((f + 6) as u8));
            ((y & 0x0f) << 2) | (w >> 6) | (c & !(0xffu8 << f)) == c
        }),
{
}

proof fn lemma_tail_three_long(a: u8, b: u8, c: u8, f: u8)
    by (bit_vector)
    requires
        a < 64,
        b < 64,
        c < 64,
        2 <= f < 6,
    ensures
        ({
            let x = (a << 2) | (b >> 4);
            let y = ((b << 4) | ((c & (0xffu8 << f)) >> 2)) & (0xffu8 << ((f - 2) as u8));
            &&& x >> 2 == a
            &&& ((x & 0x03) << 4) | (y >> 4) == b
            &&& ((y & 0x0f) << 2) | (c & !(0xffu8 << f)) == c
        }),
{
}

proof fn lemma_tail_two_short(a: u8, b: u8, f: u8)
    by (bit_vector)
    requires
        a < 64,
        b < 64,
        f < 4,
    ensures
        ({
            let x = (a << 2) | (b >> 4);
            let y = ((b & (0xffu8 << f)) << 4) & (0xffu8 << ((f + 4) as u8));
            &&& x >> 2 == a
            &&& ((x & 0x03) << 4) | (y >> 4) | (b & !(0xffu8 << f)) == b
        }),
{
}

proof fn lemma_tail_two_long(a: u8, b: u8, f: u8)
    by (bit_vector)
    requires
        a < 64,
        b < 64,
        4 <= f < 6,
    ensures
        ({
            let x = ((a << 2) | ((b & (0xffu8 << f)) >> 4)) & (0xffu8 << ((f - 4) as u8));
            &&& x >> 2 == a
            &&& ((x & 0x03) << 4) | (b & !(0xffu8 << f)) == b
        }),
{
}

proof fn lemma_tail_one(a: u8, f: u8)
    by (bit_vector)
    requires
        a < 64,
        f < 6,
    ensures
        ((((a & (0xffu8 << f)) << 2) & (0xffu8 << ((f + 2) as u8))) >> 2) | (a & !(0xffu8 << f))
            == a,
{
}

proof fn lemma_unpack_quads_prefix(v: Seq<u8>, k: nat, l: nat)
    requires
        l <= k,
        4 * k <= v.len(),
    ensures
        unpack_quads(v, k).subrange(0, 3 * l as int) == unpack_quads(v, l),
    decreases k,
{
    lemma_unpack_quads_len(v, k);
    lemma_unpack_quads_len(v, l);
    if l < k {
        lemma_unpack_quads_prefix(v, (k - 1) as nat, l);
        lemma_unpack_quads_len(v, (k - 1) as nat);
        assert(unpack_quads(v, k).subrange(0, 3 * l as int) =~= unpack_quads(
            v,
            (k - 1) as nat,
        ).subrange(0, 3 * l as int));
    } else {
        assert(unpack_quads(v, k).subrange(0, 3 * l as int) =~= unpack_quads(v, l));
    }
}

proof fn lemma_pack_triples_ext(d1: Seq<u8>, d2: Seq<u8>, k: nat)
    requires
        3 * k <= d1.len(),
        3 * k <= d2.len(),
        d1.subrange(0, 3 * k as int) == d2.subrange(0, 3 * k as int),
    ensures
        pack_triples(d1, k) == pack_triples(d2, k),
    decreases k,
{
    if k > 0 {
        let i = 3 * (k - 1) as int;
        assert(d1[i] == d1.subrange(0, 3 * k as int)[i]);
        assert(d1[i + 1] == d1.subrange(0, 3 * k as int)[i + 1]);
        assert(d1[i + 2] == d1.subrange(0, 3 * k as int)[i + 2]);
        assert(d2[i] == d2.subrange(0, 3 * k as int)[i]);
        assert(d2[i + 1] == d2.subrange(0, 3 * k as int)[i + 1]);
        assert(d2[i + 2] == d2.subrange(0, 3 * k as int)[i + 2]);
        assert(d1.subrange(0, 3 * (k - 1) as int) =~= d1.subrange(0, 3 * k as int).subrange(0, 3 * (k - 1) as int));
        assert(d2.subrange(0, 3 * (k - 1) as int) =~= d2.subrange(0, 3 * k as int).subrange(0, 3 * (k - 1) as int));
        lemma_pack_triples_ext(d1, d2, (k - 1) as nat);
    }
}

proof fn lemma_pack_unpack_quads(v: Seq<u8>, k: nat)
    requires
        all_six_bit(v),
        4 * k <= v.len(),
    ensures
        pack_triples(unpack_quads(v, k), k) == v.subrange(0, 4 * k as int),
    decreases k,
{
    if k > 0 {
        let u = unpack_quads(v, k);
        let p = unpack_quads(v, (k - 1) as nat);
        let i = 4 * (k - 1) as int;
        lemma_unpack_quads_len(v, k);
        lemma_unpack_quads_len(v, (k - 1) as nat);
        assert(u.subrange(0, 3 * (k - 1) as int) =~= p);
        assert(p.subrange(0, 3 * (k - 1) as int) =~= p);
        lemma_pack_triples_ext(u, p, (k - 1) as nat);
        lemma_pack_unpack_quads(v, (k - 1) as nat);
        lemma_quad_triple(v[i], v[i + 1], v[i + 2], v[i + 3]);
        assert(pack_triples(u, k) =~= v.subrange(0, 4 * k as int));
    }
}

/// Packing what unpacking gave restores the payload and its fill bits, for
/// every payload whose bytes number three at least (`pack` refuses fewer).
pub proof fn lemma_armor_round_trip(body: Seq<char>, fill_bits: u8)
    requires
        is_armor_text(body),
        fill_bits < 6,
        unpack_spec(armor_values(body), fill_bits).0.len() >= 3,
    ensures
        ({
            let (bytes, drop_bits, garbage_bits) = unpack_spec(armor_values(body), fill_bits);
            &&& pack_succeeds(bytes, drop_bits, garbage_bits)
            &&& armor_chars(pack_spec(bytes, drop_bits, garbage_bits).0) == body
            &&& pack_spec(bytes, drop_bits, garbage_bits).1 == fill_bits
        }),
{
    let v = armor_values(body);
    assert forall|i: int| 0 <= i < v.len() implies #[trigger] v[i] < 64 by {
        assert(is_armor_char(body[i]));
    }
    lemma_values_round_trip(v, fill_bits);
    assert forall|i: int| 0 <= i < body.len() implies armor_char(#[trigger] v[i]) == body[i] by {
        assert(is_armor_char(body[i]));
    }
    assert(armor_chars(v) =~= body);
}

/// The round trip on 6-bit values.
#[verifier::rlimit(100)]
#[verifier::spinoff_prover]
proof fn lemma_values_round_trip(v: Seq<u8>, f: u8)
    requires
        all_six_bit(v),
        f < 6,
        unpack_spec(v, f).0.len() >= 3,
    ensures
        ({
            let (bytes, drop_bits, garbage_bits) = unpack_spec(v, f);
            &&& pack_succeeds(bytes, drop_bits, garbage_bits)
            &&& pack_spec(bytes, drop_bits, garbage_bits) == (v, f)
        }),
{
    let n = v.len();
    let q = n / 4;
    let i = 4 * q as int;
    let u = unpack_quads(v, q);
    let (bytes, drop_bits, g) = unpack_spec(v, f);
    lemma_unpack_quads_len(v, q);
    lemma_unpack_sizes(v, f);
    let res = pack_spec(bytes, drop_bits, g).0;
    if n % 4 == 3 && f < 2 {
        // The tail's three bytes form the last group of three.
        assert(bytes.subrange(0, 3 * q as int) =~= u);
        assert(u.subrange(0, 3 * q as int) =~= u);
        lemma_pack_triples_ext(bytes, u, q);
        lemma_pack_unpack_quads(v, q);
        lemma_quad_triple(v[i], v[i + 1], v[i + 2], 0);
        lemma_tail_three_short(v[i + 1], v[i + 2], f);
        assert(res =~= v);
    } else {
        // The last group of three comes from the last full group of four.
        assert(q >= 1);
        let p = unpack_quads(v, (q - 1) as nat);
        let k = 4 * (q - 1) as int;
        lemma_unpack_quads_prefix(v, q, (q - 1) as nat);
        lemma_unpack_quads_len(v, (q - 1) as nat);
        assert(bytes.subrange(0, 3 * (q - 1) as int) =~= u.subrange(0, 3 * (q - 1) as int));
        assert(p.subrange(0, 3 * (q - 1) as int) =~= p);
        lemma_pack_triples_ext(bytes, p, (q - 1) as nat);
        lemma_pack_unpack_quads(v, (q - 1) as nat);
        lemma_quad_triple(v[k], v[k + 1], v[k + 2], v[k + 3]);
        if n % 4 == 0 {
            lemma_tail_four(v[k + 1], v[k + 2], v[k + 3], f);
            assert(res =~= v);
        } else if n % 4 == 3 {
            lemma_tail_three_long(v[i], v[i + 1], v[i + 2], f);
            assert(res =~= v);
        } else if n % 4 == 2 {
            if f < 4 {
                lemma_tail_two_short(v[i], v[i + 1], f);
            } else {
                lemma_tail_two_long(v[i], v[i + 1], f);
            }
            assert(res =~= v);
        } else {
            lemma_tail_one(v[i], f);
            assert(res =~= v);
        }
    }
    assert(all_six_bit(res));
}

} // verus!
