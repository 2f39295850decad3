//! The `*HH` checksum of an NMEA sentence: the XOR of every byte between
//! `!` and `*`, written as two hex digits.
use vstd::prelude::*;
use vstd::string::StringSliceAdditionalSpecFns;

verus! {

/// The XOR of all bytes of `s`.
pub open spec fn xor_all(s: Seq<u8>) -> u8
    decreases s.len(),
{
    if s.len() == 0 {
        0
    } else {
        xor_all(s.drop_last()) ^ s.last()
    }
}

pub open spec fn is_hex_digit(b: u8) -> bool {
    (0x30 <= b <= 0x39) || (0x41 <= b <= 0x46) || (0x61 <= b <= 0x66)
}

pub open spec fn hex_digit_value(b: u8) -> u8 {
    if b <= 0x39 {
        (b - 0x30) as u8
    } else if b <= 0x46 {
        (b - 0x41 + 10) as u8
    } else {
        (b - 0x61 + 10) as u8
    }
}

/// `b` has the shape `!<main>*HH`: `main` is not empty and holds no `*`,
/// and `HH` are two hex digits, either case.
pub open spec fn is_checksum_frame(b: Seq<u8>) -> bool {
    &&& b.len() >= 5
    &&& b[0] == 0x21
    &&& b[b.len() - 3] == 0x2a
    &&& forall|i: int| 1 <= i < b.len() - 3 ==> #[trigger] b[i] != 0x2a
    &&& is_hex_digit(b[b.len() - 2])
    &&& is_hex_digit(b[b.len() - 1])
}

/// The bytes between `!` and `*` of a frame.
pub open spec fn frame_main(b: Seq<u8>) -> Seq<u8> {
    b.subrange(1, b.len() - 3)
}

/// The checksum that a frame states.
pub open spec fn frame_checksum(b: Seq<u8>) -> u8 {
    (hex_digit_value(b[b.len() - 2]) * 16 + hex_digit_value(b[b.len() - 1])) as u8
}

/// `b` is a frame whose stated checksum is the XOR of its main part.
pub open spec fn checksum_valid(b: Seq<u8>) -> bool {
    is_checksum_frame(b) && xor_all(frame_main(b)) == frame_checksum(b)
}

/// The value of a hex digit, either case.
pub fn hex_value(b: u8) -> (r: Option<u8>)
    ensures
        r is Some <==> is_hex_digit(b),
        r is Some ==> r->Some_0 == hex_digit_value(b) && r->Some_0 < 16,
{
    if 0x30 <= b && b <= 0x39 {
        Some(b - 0x30)
    } else if 0x41 <= b && b <= 0x46 {
        Some(b - 0x41 + 10)
    } else if 0x61 <= b && b <= 0x66 {
        Some(b - 0x61 + 10)
    } else {
        None
    }
}

/// Checks the checksum of a sentence `!<main>*HH`.
///
/// Returns whether the XOR of the bytes of `main` equals `HH`, and the
/// checksum `HH` itself; an error where the line does not have that shape.
pub fn verify_checksum(s: &str) -> (r: Result<(bool, u8), &'static str>)
    ensures
        r is Ok <==> is_checksum_frame(s.spec_bytes()),
        r is Ok ==> r->Ok_0.1 == frame_checksum(s.spec_bytes()),
        r is Ok ==> (r->Ok_0.0 <==> checksum_valid(s.spec_bytes())),
{
    let b = s.as_bytes();
    let n = b.len();
    if n < 5 || b[0] != 0x21 || b[n - 3] != 0x2a {
        return Err("checksum: expected !<main>*HH");
    }
    let (hi, lo) = match (hex_value(b[n - 2]), hex_value(b[n - 1])) {
        (Some(hi), Some(lo)) => (hi, lo),
        _ => {
            return Err("checksum: expected two hex digits");
        },
    };
    let checksum = hi * 16 + lo;
    let mut acc = checksum;
    assert(checksum ^ 0u8 == checksum) by (bit_vector);
    assert(b@.subrange(1, 1).len() == 0);
    let mut i: usize = 1;
    while i < n - 3
        invariant
            1 <= i <= n - 3,
            n == b@.len(),
            n >= 5,
            b@ == s.spec_bytes(),
            forall|j: int| 1 <= j < i ==> #[trigger] b@[j] != 0x2a,
            acc == checksum ^ xor_all(b@.subrange(1, i as int)),
        decreases n - 3 - i,
    {
        if b[i] == 0x2a {
            return Err("checksum: '*' before the end of the sentence");
        }
        acc = acc ^ b[i];
        proof {
            let p = b@.subrange(1, i as int);
            assert(b@.subrange(1, i + 1).drop_last() == p);
            let x = xor_all(p);
            let y = b@[i as int];
            assert(checksum ^ x ^ y == checksum ^ (x ^ y)) by (bit_vector);
        }
        i += 1;
    }
    let ghost x = xor_all(b@.subrange(1, i as int));
    assert((checksum ^ x == 0) <==> (x == checksum)) by (bit_vector);
    Ok((acc == 0, checksum))
}

} // verus!
