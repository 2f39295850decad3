//! The AIVDM sentence envelope:
//! `!<talker>VDM,<length>,<index>,[<message_id>],<channel>,<body>,<fill_bits>*<HH>`.
use vstd::prelude::*;
use vstd::string::StringSliceAdditionalSpecFns;

use crate::armor::{is_armor_char, is_armor_text};
use crate::checksum::{hex_digit_value, hex_value, is_hex_digit};
use crate::text::{push_char, push_str};

verus! {

/// The two-letter code of the device that sent a sentence.
#[derive(Clone, Copy, Debug, PartialEq, Eq, Structural)]
pub enum TalkerID {
    AB,
    AD,
    AI,
    AN,
    AR,
    AS,
    AT,
    AX,
    BS,
    SA,
}

/// The radio channel of a sentence; `Missing` where the field is empty.
#[derive(Clone, Copy, Debug, PartialEq, Eq, Structural)]
pub enum ChannelCode {
    Missing,
    A,
    B,
    C1,
    C2,
}

/// The fields of a sentence other than its body.
#[derive(Clone, Copy, Debug, PartialEq, Eq, Structural)]
pub struct Metadata {
    pub talker: TalkerID,
    pub length: u8,
    pub index: u8,
    /// `0xff` where the field is empty.
    pub message_id: u8,
    pub channel: ChannelCode,
    pub fill_bits: u8,
    pub checksum: u8,
}

/// A parsed sentence.
#[derive(Debug)]
pub struct Nmea {
    pub metadata: Metadata,
    pub body: String,
}

/// The field at which parsing stopped.
#[derive(Clone, Copy, Debug, PartialEq, Eq, Structural)]
pub enum Field {
    Start,
    TalkerId,
    SentenceType,
    Length,
    Index,
    MessageId,
    Channel,
    Body,
    FillBits,
    Checksum,
}

/// Why a line is not a sentence: the field that failed and the byte offset
/// where that field starts.
#[derive(Clone, Copy, Debug, PartialEq, Eq, Structural)]
pub struct ParseError {
    pub field: Field,
    pub position: usize,
}

/// The value that stands for an empty `message_id` field.
pub const NO_MESSAGE_ID: u8 = 0xff;

// ---------------------------------------------------------------------------
// The grammar, over the bytes of a line
// ---------------------------------------------------------------------------

pub open spec fn talker_of(x: u8, y: u8) -> Option<TalkerID> {
    if x == 0x41 && y == 0x42 {
        Some(TalkerID::AB)
    } else if x == 0x41 && y == 0x44 {
        Some(TalkerID::AD)
    } else if x == 0x41 && y == 0x49 {
        Some(TalkerID::AI)
    } else if x == 0x41 && y == 0x4e {
        Some(TalkerID::AN)
    } else if x == 0x41 && y == 0x52 {
        Some(TalkerID::AR)
    } else if x == 0x41 && y == 0x53 {
        Some(TalkerID::AS)
    } else if x == 0x41 && y == 0x54 {
        Some(TalkerID::AT)
    } else if x == 0x41 && y == 0x58 {
        Some(TalkerID::AX)
    } else if x == 0x42 && y == 0x53 {
        Some(TalkerID::BS)
    } else if x == 0x53 && y == 0x41 {
        Some(TalkerID::SA)
    } else {
        None
    }
}

/// The two letters of a talker.
pub open spec fn talker_code(t: TalkerID) -> Seq<u8> {
    match t {
        TalkerID::AB => seq![0x41u8, 0x42],
        TalkerID::AD => seq![0x41u8, 0x44],
        TalkerID::AI => seq![0x41u8, 0x49],
        TalkerID::AN => seq![0x41u8, 0x4e],
        TalkerID::AR => seq![0x41u8, 0x52],
        TalkerID::AS => seq![0x41u8, 0x53],
        TalkerID::AT => seq![0x41u8, 0x54],
        TalkerID::AX => seq![0x41u8, 0x58],
        TalkerID::BS => seq![0x42u8, 0x53],
        TalkerID::SA => seq![0x53u8, 0x41],
    }
}

/// `A`, `B`, `1` or `2`.
pub open spec fn channel_of(x: u8) -> Option<ChannelCode> {
    if x == 0x41 {
        Some(ChannelCode::A)
    } else if x == 0x42 {
        Some(ChannelCode::B)
    } else if x == 0x31 {
        Some(ChannelCode::C1)
    } else if x == 0x32 {
        Some(ChannelCode::C2)
    } else {
        None
    }
}

/// How a channel is written: nothing for `Missing`.
pub open spec fn channel_code(c: ChannelCode) -> Seq<u8> {
    match c {
        ChannelCode::Missing => seq![],
        ChannelCode::A => seq![0x41u8],
        ChannelCode::B => seq![0x42u8],
        ChannelCode::C1 => seq![0x31u8],
        ChannelCode::C2 => seq![0x32u8],
    }
}

pub open spec fn is_digit(b: u8) -> bool {
    0x30 <= b <= 0x39
}

pub open spec fn is_armor_byte(b: u8) -> bool {
    (0x30 <= b <= 0x57) || (0x60 <= b <= 0x77)
}

/// The end of the run of decimal digits that starts at `p`.
pub open spec fn digits_end(s: Seq<u8>, p: int) -> int
    decreases s.len() - p,
{
    if 0 <= p < s.len() && is_digit(s[p]) {
        digits_end(s, p + 1)
    } else {
        p
    }
}

/// The end of the run of payload characters that starts at `p`.
pub open spec fn armor_end(s: Seq<u8>, p: int) -> int
    decreases s.len() - p,
{
    if 0 <= p < s.len() && is_armor_byte(s[p]) {
        armor_end(s, p + 1)
    } else {
        p
    }
}

/// The number that a run of decimal digits writes.
pub open spec fn decimal_value(d: Seq<u8>) -> nat
    decreases d.len(),
{
    if d.len() == 0 {
        0
    } else {
        decimal_value(d.drop_last()) * 10 + (d.last() - 0x30) as nat
    }
}

/// A number of one or more digits that fits a `u8`, then `,`: its value and
/// the position after the comma.
pub open spec fn number_field(s: Seq<u8>, p: int) -> Option<(u8, int)> {
    let e = digits_end(s, p);
    if e > p && decimal_value(s.subrange(p, e)) < 256 && e < s.len() && s[e] == 0x2c {
        Some((decimal_value(s.subrange(p, e)) as u8, e + 1))
    } else {
        None
    }
}

/// An optional `message_id`, then `,`; an empty field gives `NO_MESSAGE_ID`,
/// and a written `255` is refused.
pub open spec fn message_id_field(s: Seq<u8>, p: int) -> Option<(u8, int)> {
    if 0 <= p < s.len() && s[p] == 0x2c {
        Some((NO_MESSAGE_ID, p + 1))
    } else {
        match number_field(s, p) {
            Some((v, q)) => if v != NO_MESSAGE_ID {
                Some((v, q))
            } else {
                None
            },
            None => None,
        }
    }
}

/// A channel, then `,`.
pub open spec fn channel_field(s: Seq<u8>, p: int) -> Option<(ChannelCode, int)> {
    if 0 <= p < s.len() && s[p] == 0x2c {
        Some((ChannelCode::Missing, p + 1))
    } else if 0 <= p && p + 1 < s.len() && channel_of(s[p]) is Some && s[p + 1] == 0x2c {
        Some((channel_of(s[p])->Some_0, p + 2))
    } else {
        None
    }
}

/// The characters of bytes.
pub open spec fn chars_of(b: Seq<u8>) -> Seq<char> {
    b.map_values(|x: u8| x as char)
}

/// One or more payload characters, then `,`.
pub open spec fn body_field(s: Seq<u8>, p: int) -> Option<(Seq<char>, int)> {
    let e = armor_end(s, p);
    if e > p && e < s.len() && s[e] == 0x2c {
        Some((chars_of(s.subrange(p, e)), e + 1))
    } else {
        None
    }
}

/// One digit `0` to `5`, then `*`.
pub open spec fn fill_bits_field(s: Seq<u8>, p: int) -> Option<(u8, int)> {
    if 0 <= p && p + 1 < s.len() && 0x30 <= s[p] <= 0x35 && s[p + 1] == 0x2a {
        Some(((s[p] - 0x30) as u8, p + 2))
    } else {
        None
    }
}

/// Two hex digits that end the line.
pub open spec fn checksum_field(s: Seq<u8>, p: int) -> Option<u8> {
    if 0 <= p && p + 2 == s.len() && is_hex_digit(s[p]) && is_hex_digit(s[p + 1]) {
        Some((hex_digit_value(s[p]) * 16 + hex_digit_value(s[p + 1])) as u8)
    } else {
        None
    }
}

pub open spec fn parse_error(field: Field, p: int) -> ParseError {
    ParseError { field, position: p as usize }
}

/// What parsing the line `s` gives: its metadata and body, or where it
/// stops being a sentence.
pub open spec fn parse_spec(s: Seq<u8>) -> Result<(Metadata, Seq<char>), ParseError> {
    if !(s.len() > 0 && s[0] == 0x21) {
        Err(parse_error(Field::Start, 0))
    } else if !(s.len() >= 3 && talker_of(s[1], s[2]) is Some) {
        Err(parse_error(Field::TalkerId, 1))
    } else if !(s.len() >= 7 && s.subrange(3, 7) == seq![0x56u8, 0x44, 0x4d, 0x2c]) {
        Err(parse_error(Field::SentenceType, 3))
    } else {
        let talker = talker_of(s[1], s[2])->Some_0;
        match number_field(s, 7) {
            None => Err(parse_error(Field::Length, 7)),
            Some((length, at1)) => match number_field(s, at1) {
                None => Err(parse_error(Field::Index, at1)),
                Some((index, at2)) => match message_id_field(s, at2) {
                    None => Err(parse_error(Field::MessageId, at2)),
                    Some((message_id, at3)) => match channel_field(s, at3) {
                        None => Err(parse_error(Field::Channel, at3)),
                        Some((channel, at4)) => match body_field(s, at4) {
                            None => Err(parse_error(Field::Body, at4)),
                            Some((body, at5)) => match fill_bits_field(s, at5) {
                                None => Err(parse_error(Field::FillBits, at5)),
                                Some((fill_bits, at6)) => match checksum_field(s, at6) {
                                    None => Err(parse_error(Field::Checksum, at6)),
                                    Some(checksum) => Ok(
                                        (
                                            Metadata {
                                                talker,
                                                length,
                                                index,
                                                message_id,
                                                channel,
                                                fill_bits,
                                                checksum,
                                            },
                                            body,
                                        ),
                                    ),
                                },
                            },
                        },
                    },
                },
            },
        }
    }
}

// ---------------------------------------------------------------------------
// The printed form
// ---------------------------------------------------------------------------

/// The decimal digits of `x`, without leading zeros.
pub open spec fn decimal_digits(x: nat) -> Seq<u8>
    decreases x,
{
    if x < 10 {
        seq![(0x30 + x) as u8]
    } else {
        decimal_digits(x / 10).push((0x30 + x % 10) as u8)
    }
}

/// An upper-case hex digit.
pub open spec fn hex_upper(x: u8) -> u8 {
    if x < 10 {
        (0x30 + x) as u8
    } else {
        (0x41 + x - 10) as u8
    }
}

/// The printed bytes before the body: every field up to the channel and its comma.
pub open spec fn print_prefix(m: Metadata) -> Seq<u8> {
    seq![0x21u8] + talker_code(m.talker) + seq![0x56u8, 0x44, 0x4d, 0x2c] + decimal_digits(
        m.length as nat,
    ) + seq![0x2cu8] + decimal_digits(m.index as nat) + seq![0x2cu8] + (if m.message_id
        == NO_MESSAGE_ID {
        Seq::<u8>::empty()
    } else {
        decimal_digits(m.message_id as nat)
    }) + seq![0x2cu8] + channel_code(m.channel) + seq![0x2cu8]
}

/// The printed bytes after the body: `,<fill_bits>*HH`, `HH` in upper case.
pub open spec fn print_suffix(m: Metadata) -> Seq<u8> {
    seq![0x2cu8] + decimal_digits(m.fill_bits as nat) + seq![
        0x2au8,
        hex_upper(m.checksum / 16),
        hex_upper(m.checksum % 16),
    ]
}

/// The printed sentence.
pub open spec fn print_spec(m: Metadata, body: Seq<char>) -> Seq<char> {
    chars_of(print_prefix(m)) + body + chars_of(print_suffix(m))
}

/// The bytes of the printed sentence, where the body is ASCII.
pub open spec fn print_bytes(m: Metadata, body: Seq<char>) -> Seq<u8> {
    print_prefix(m) + body.map_values(|c: char| c as u8) + print_suffix(m)
}

/// An exec result with a `usize` position stands for a spec result with an
/// `int` position.
pub open spec fn same_field<T>(r: Option<(T, usize)>, s: Option<(T, int)>) -> bool {
    match (r, s) {
        (Some((a, p)), Some((b, q))) => a == b && p as int == q,
        (None, None) => true,
        _ => false,
    }
}

// ---------------------------------------------------------------------------
// Parser
// ---------------------------------------------------------------------------

fn talker_at(x: u8, y: u8) -> (r: Option<TalkerID>)
    ensures
        r == talker_of(x, y),
{
    match (x, y) {
        (0x41, 0x42) => Some(TalkerID::AB),
        (0x41, 0x44) => Some(TalkerID::AD),
        (0x41, 0x49) => Some(TalkerID::AI),
        (0x41, 0x4e) => Some(TalkerID::AN),
        (0x41, 0x52) => Some(TalkerID::AR),
        (0x41, 0x53) => Some(TalkerID::AS),
        (0x41, 0x54) => Some(TalkerID::AT),
        (0x41, 0x58) => Some(TalkerID::AX),
        (0x42, 0x53) => Some(TalkerID::BS),
        (0x53, 0x41) => Some(TalkerID::SA),
        _ => None,
    }
}

fn channel_at(x: u8) -> (r: Option<ChannelCode>)
    ensures
        r == channel_of(x),
{
    match x {
        0x41 => Some(ChannelCode::A),
        0x42 => Some(ChannelCode::B),
        0x31 => Some(ChannelCode::C1),
        0x32 => Some(ChannelCode::C2),
        _ => None,
    }
}

fn read_number(b: &[u8], p: usize) -> (r: Option<(u8, usize)>)
    requires
        p <= b@.len(),
    ensures
        same_field(r, number_field(b@, p as int)),
{
    let n = b.len();
    let mut e = p;
    // The value read so far, held at 256 once it is out of range.
    let mut acc: u32 = 0;
    while e < n && 0x30 <= b[e] && b[e] <= 0x39
        invariant
            p <= e <= n,
            n == b@.len(),
            digits_end(b@, p as int) == digits_end(b@, e as int),
            acc == (if decimal_value(b@.subrange(p as int, e as int)) < 256 {
                decimal_value(b@.subrange(p as int, e as int))
            } else {
                256
            }),
        decreases n - e,
    {
        let ghost old_value = decimal_value(b@.subrange(p as int, e as int));
        let d = (b[e] - 0x30) as u32;
        acc = if acc >= 256 {
            256
        } else if acc * 10 + d >= 256 {
            256
        } else {
            acc * 10 + d
        };
        proof {
            let next = b@.subrange(p as int, e + 1);
            assert(next.drop_last() == b@.subrange(p as int, e as int));
            assert(decimal_value(next) == old_value * 10 + d);
            if old_value >= 256 {
                assert(old_value * 10 >= 2560) by (nonlinear_arith)
                    requires
                        old_value >= 256,
                ;
            }
        }
        e += 1;
    }
    if e > p && acc < 256 && e < n && b[e] == 0x2c {
        Some((acc as u8, e + 1))
    } else {
        None
    }
}

fn read_message_id(b: &[u8], p: usize) -> (r: Option<(u8, usize)>)
    requires
        p <= b@.len(),
    ensures
        same_field(r, message_id_field(b@, p as int)),
{
    if p < b.len() && b[p] == 0x2c {
        Some((NO_MESSAGE_ID, p + 1))
    } else {
        match read_number(b, p) {
            Some((v, q)) => if v != NO_MESSAGE_ID {
                Some((v, q))
            } else {
                None
            },
            None => None,
        }
    }
}

fn read_channel(b: &[u8], p: usize) -> (r: Option<(ChannelCode, usize)>)
    requires
        p <= b@.len(),
    ensures
        same_field(r, channel_field(b@, p as int)),
{
    if p < b.len() && b[p] == 0x2c {
        Some((ChannelCode::Missing, p + 1))
    } else if b.len() - p > 1 && b[p + 1] == 0x2c {
        match channel_at(b[p]) {
            Some(c) => Some((c, p + 2)),
            None => None,
        }
    } else {
        None
    }
}

/// The text of the ASCII bytes `b[p..e]`.
fn text_of(b: &[u8], p: usize, e: usize) -> (r: String)
    requires
        p <= e <= b@.len(),
    ensures
        r@ == chars_of(b@.subrange(p as int, e as int)),
{
    let mut out = String::new();
    let mut i = p;
    while i < e
        invariant
            p <= i <= e <= b@.len(),
            out@ == chars_of(b@.subrange(p as int, i as int)),
        decreases e - i,
    {
        push_char(&mut out, b[i] as char);
        assert(chars_of(b@.subrange(p as int, i + 1)) =~= chars_of(
            b@.subrange(p as int, i as int),
        ).push(b@[i as int] as char));
        i += 1;
    }
    out
}

fn read_body(b: &[u8], p: usize) -> (r: Option<(String, usize)>)
    requires
        p <= b@.len(),
    ensures
        r is Some <==> body_field(b@, p as int) is Some,
        r is Some ==> r->Some_0.0@ == body_field(b@, p as int)->Some_0.0 && r->Some_0.1 as int
            == body_field(b@, p as int)->Some_0.1,
{
    let n = b.len();
    let mut e = p;
    while e < n && ((0x30 <= b[e] && b[e] <= 0x57) || (0x60 <= b[e] && b[e] <= 0x77))
        invariant
            p <= e <= n,
            n == b@.len(),
            armor_end(b@, p as int) == armor_end(b@, e as int),
        decreases n - e,
    {
        e += 1;
    }
    if e > p && e < n && b[e] == 0x2c {
        Some((text_of(b, p, e), e + 1))
    } else {
        None
    }
}

fn read_fill_bits(b: &[u8], p: usize) -> (r: Option<(u8, usize)>)
    requires
        p <= b@.len(),
    ensures
        same_field(r, fill_bits_field(b@, p as int)),
{
    if b.len() - p > 1 && 0x30 <= b[p] && b[p] <= 0x35 && b[p + 1] == 0x2a {
        Some((b[p] - 0x30, p + 2))
    } else {
        None
    }
}

fn read_checksum(b: &[u8], p: usize) -> (r: Option<u8>)
    requires
        p <= b@.len(),
    ensures
        r == checksum_field(b@, p as int),
{
    if b.len() - p == 2 {
        match (hex_value(b[p]), hex_value(b[p + 1])) {
            (Some(hi), Some(lo)) => Some(hi * 16 + lo),
            _ => None,
        }
    } else {
        None
    }
}

impl Nmea {
    /// Parses a sentence. The checksum is read, not checked.
    pub fn parse(s: &str) -> (r: Result<Nmea, ParseError>)
        ensures
            r is Ok <==> parse_spec(s.spec_bytes()) is Ok,
            r is Ok ==> r->Ok_0.metadata == parse_spec(s.spec_bytes())->Ok_0.0,
            r is Ok ==> r->Ok_0.body@ == parse_spec(s.spec_bytes())->Ok_0.1,
            r is Err ==> r->Err_0 == parse_spec(s.spec_bytes())->Err_0,
    {
        let b = s.as_bytes();
        let n = b.len();
        if !(n > 0 && b[0] == 0x21) {
            return Err(ParseError { field: Field::Start, position: 0 });
        }
        let talker = if n >= 3 {
            talker_at(b[1], b[2])
        } else {
            None
        };
        let talker = match talker {
            Some(t) => t,
            None => {
                return Err(ParseError { field: Field::TalkerId, position: 1 });
            },
        };
        if !(n >= 7 && b[3] == 0x56 && b[4] == 0x44 && b[5] == 0x4d && b[6] == 0x2c) {
            assert(n >= 7 ==> b@.subrange(3, 7) != seq![0x56u8, 0x44, 0x4d, 0x2c] || (b[3]
                == 0x56 && b[4] == 0x44 && b[5] == 0x4d && b[6] == 0x2c)) by {
                if n >= 7 && b@.subrange(3, 7) == seq![0x56u8, 0x44, 0x4d, 0x2c] {
                    assert(b@.subrange(3, 7)[0] == b@[3]);
                    assert(b@.subrange(3, 7)[1] == b@[4]);
                    assert(b@.subrange(3, 7)[2] == b@[5]);
                    assert(b@.subrange(3, 7)[3] == b@[6]);
                }
            }
            return Err(ParseError { field: Field::SentenceType, position: 3 });
        }
        assert(b@.subrange(3, 7) =~= seq![0x56u8, 0x44, 0x4d, 0x2c]);
        let (length, at1) = match read_number(b, 7) {
            Some(x) => x,
            None => {
                return Err(ParseError { field: Field::Length, position: 7 });
            },
        };
        let (index, at2) = match read_number(b, at1) {
            Some(x) => x,
            None => {
                return Err(ParseError { field: Field::Index, position: at1 });
            },
        };
        let (message_id, at3) = match read_message_id(b, at2) {
            Some(x) => x,
            None => {
                return Err(ParseError { field: Field::MessageId, position: at2 });
            },
        };
        let (channel, at4) = match read_channel(b, at3) {
            Some(x) => x,
            None => {
                return Err(ParseError { field: Field::Channel, position: at3 });
            },
        };
        let (body, at5) = match read_body(b, at4) {
            Some(x) => x,
            None => {
                return Err(ParseError { field: Field::Body, position: at4 });
            },
        };
        let (fill_bits, at6) = match read_fill_bits(b, at5) {
            Some(x) => x,
            None => {
                return Err(ParseError { field: Field::FillBits, position: at5 });
            },
        };
        let checksum = match read_checksum(b, at6) {
            Some(x) => x,
            None => {
                return Err(ParseError { field: Field::Checksum, position: at6 });
            },
        };
        let metadata = Metadata { talker, length, index, message_id, channel, fill_bits, checksum };
        Ok(Nmea { metadata, body })
    }
}

// ---------------------------------------------------------------------------
// Printer
// ---------------------------------------------------------------------------

proof fn lemma_decimal_digits_u8(x: u8)
    ensures
        x < 10 ==> decimal_digits(x as nat) == seq![(0x30 + x) as u8],
        10 <= x < 100 ==> decimal_digits(x as nat) == seq![
            (0x30 + x / 10) as u8,
            (0x30 + x % 10) as u8,
        ],
        100 <= x ==> decimal_digits(x as nat) == seq![
            (0x30 + x / 100) as u8,
            (0x30 + (x / 10) % 10) as u8,
            (0x30 + x % 10) as u8,
        ],
{
    let n = x as nat;
    if x >= 10 {
        assert(decimal_digits(n) == decimal_digits(n / 10).push((0x30 + n % 10) as u8));
        if x >= 100 {
            assert(n / 10 / 10 == n / 100 && n / 100 < 10 && n / 10 >= 10) by (nonlinear_arith)
                requires
                    100 <= n < 256,
            ;
            assert(decimal_digits(n / 10) == decimal_digits(n / 10 / 10).push(
                (0x30 + (n / 10) % 10) as u8,
            ));
            assert(decimal_digits(n) =~= seq![
                (0x30 + x / 100) as u8,
                (0x30 + (x / 10) % 10) as u8,
                (0x30 + x % 10) as u8,
            ]);
        } else {
            assert(n / 10 < 10);
            assert(decimal_digits(n) =~= seq![(0x30 + x / 10) as u8, (0x30 + x % 10) as u8]);
        }
    }
}

fn push_decimal(v: &mut Vec<u8>, x: u8)
    ensures
        final(v)@ == old(v)@ + decimal_digits(x as nat),
{
    proof {
        lemma_decimal_digits_u8(x);
    }
    if x >= 100 {
        v.push(0x30 + x / 100);
    }
    if x >= 10 {
        v.push(0x30 + (x / 10) % 10);
    }
    v.push(0x30 + x % 10);
    assert(final(v)@ =~= old(v)@ + decimal_digits(x as nat));
}

fn hex_digit_upper(x: u8) -> (r: u8)
    requires
        x < 16,
    ensures
        r == hex_upper(x),
{
    if x < 10 {
        0x30 + x
    } else {
        0x41 + x - 10
    }
}

/// Appends the characters of ASCII bytes.
fn push_bytes(out: &mut String, b: &Vec<u8>)
    ensures
        final(out)@ == old(out)@ + chars_of(b@),
{
    let mut i: usize = 0;
    while i < b.len()
        invariant
            i <= b@.len(),
            out@ == old(out)@ + chars_of(b@.subrange(0, i as int)),
        decreases b@.len() - i,
    {
        push_char(out, b[i] as char);
        assert(chars_of(b@.subrange(0, i + 1)) =~= chars_of(b@.subrange(0, i as int)).push(
            b@[i as int] as char,
        ));
        i += 1;
    }
    assert(b@.subrange(0, i as int) == b@);
}

fn prefix_bytes(m: Metadata) -> (r: Vec<u8>)
    ensures
        r@ == print_prefix(m),
{
    let mut v: Vec<u8> = Vec::new();
    v.push(0x21);
    let (x, y): (u8, u8) = match m.talker {
        TalkerID::AB => (0x41, 0x42),
        TalkerID::AD => (0x41, 0x44),
        TalkerID::AI => (0x41, 0x49),
        TalkerID::AN => (0x41, 0x4e),
        TalkerID::AR => (0x41, 0x52),
        TalkerID::AS => (0x41, 0x53),
        TalkerID::AT => (0x41, 0x54),
        TalkerID::AX => (0x41, 0x58),
        TalkerID::BS => (0x42, 0x53),
        TalkerID::SA => (0x53, 0x41),
    };
    v.push(x);
    v.push(y);
    let ghost s1 = seq![0x21u8] + talker_code(m.talker);
    assert(v@ =~= s1);
    v.push(0x56);
    v.push(0x44);
    v.push(0x4d);
    v.push(0x2c);
    let ghost s2 = s1 + seq![0x56u8, 0x44, 0x4d, 0x2c];
    assert(v@ =~= s2);
    push_decimal(&mut v, m.length);
    v.push(0x2c);
    let ghost s3 = s2 + decimal_digits(m.length as nat) + seq![0x2cu8];
    assert(v@ =~= s3);
    push_decimal(&mut v, m.index);
    v.push(0x2c);
    let ghost s4 = s3 + decimal_digits(m.index as nat) + seq![0x2cu8];
    assert(v@ =~= s4);
    if m.message_id != NO_MESSAGE_ID {
        push_decimal(&mut v, m.message_id);
    }
    v.push(0x2c);
    let ghost s5 = s4 + (if m.message_id == NO_MESSAGE_ID {
        Seq::<u8>::empty()
    } else {
        decimal_digits(m.message_id as nat)
    }) + seq![0x2cu8];
    assert(v@ =~= s5);
    match m.channel {
        ChannelCode::Missing => {},
        ChannelCode::A => v.push(0x41),
        ChannelCode::B => v.push(0x42),
        ChannelCode::C1 => v.push(0x31),
        ChannelCode::C2 => v.push(0x32),
    }
    v.push(0x2c);
    assert(v@ =~= s5 + channel_code(m.channel) + seq![0x2cu8]);
    v
}

fn suffix_bytes(m: Metadata) -> (r: Vec<u8>)
    ensures
        r@ == print_suffix(m),
{
    let mut v: Vec<u8> = Vec::new();
    v.push(0x2c);
    push_decimal(&mut v, m.fill_bits);
    v.push(0x2a);
    v.push(hex_digit_upper(m.checksum / 16));
    v.push(hex_digit_upper(m.checksum % 16));
    assert(v@ =~= print_suffix(m));
    v
}

impl Nmea {
    /// The sentence as text:
    /// `!{talker}VDM,{length},{index},{message_id},{channel},{body},{fill_bits}*{checksum:02X}`,
    /// with an empty `message_id` field for `NO_MESSAGE_ID`.
    pub fn to_string(&self) -> (r: String)
        ensures
            r@ == print_spec(self.metadata, self.body@),
    {
        let mut out = String::new();
        push_bytes(&mut out, &prefix_bytes(self.metadata));
        push_str(&mut out, self.body.as_str());
        push_bytes(&mut out, &suffix_bytes(self.metadata));
        out
    }
}

// ---------------------------------------------------------------------------
// Round trip
// ---------------------------------------------------------------------------

/// A sentence that the printer writes in a form that the parser reads back:
/// a non-empty body of payload characters and fewer than six fill bits.
pub open spec fn is_printable(m: Metadata, body: Seq<char>) -> bool {
    is_armor_text(body) && body.len() >= 1 && m.fill_bits < 6
}

proof fn lemma_decimal_digits(x: nat)
    ensures
        decimal_value(decimal_digits(x)) == x,
        decimal_digits(x).len() >= 1,
        forall|i: int| 0 <= i < decimal_digits(x).len() ==> is_digit(#[trigger] decimal_digits(x)[i]),
    decreases x,
{
    let d = decimal_digits(x);
    if x >= 10 {
        lemma_decimal_digits(x / 10);
        let e = decimal_digits(x / 10);
        assert(d.drop_last() == e);
        assert(d.last() - 0x30 == x % 10);
        assert((x / 10) * 10 + x % 10 == x) by (nonlinear_arith);
        assert forall|i: int| 0 <= i < d.len() implies is_digit(#[trigger] d[i]) by {
            if i < d.len() - 1 {
                assert(d[i] == e[i]);
            }
        }
    } else {
        assert(d.drop_last().len() == 0);
        assert(decimal_value(d.drop_last()) == 0);
    }
}

proof fn lemma_digits_run(s: Seq<u8>, p: int, e: int)
    requires
        0 <= p <= e < s.len(),
        forall|i: int| p <= i < e ==> is_digit(#[trigger] s[i]),
        !is_digit(s[e]),
    ensures
        digits_end(s, p) == e,
    decreases e - p,
{
    if p < e {
        lemma_digits_run(s, p + 1, e);
    }
}

proof fn lemma_armor_run(s: Seq<u8>, p: int, e: int)
    requires
        0 <= p <= e < s.len(),
        forall|i: int| p <= i < e ==> is_armor_byte(#[trigger] s[i]),
        !is_armor_byte(s[e]),
    ensures
        armor_end(s, p) == e,
    decreases e - p,
{
    if p < e {
        lemma_armor_run(s, p + 1, e);
    }
}

proof fn lemma_number_at(pre: Seq<u8>, x: u8, rest: Seq<u8>)
    ensures
        ({
            let d = decimal_digits(x as nat);
            let s = pre + d + seq![0x2cu8] + rest;
            number_field(s, pre.len() as int) == Some((x, (pre.len() + d.len() + 1) as int))
        }),
{
    let d = decimal_digits(x as nat);
    let s = pre + d + seq![0x2cu8] + rest;
    let p = pre.len() as int;
    let e = p + d.len();
    lemma_decimal_digits(x as nat);
    assert forall|i: int| p <= i < e implies is_digit(#[trigger] s[i]) by {
        assert(s[i] == d[i - p]);
    }
    assert(s[e] == 0x2c);
    lemma_digits_run(s, p, e);
    assert(s.subrange(p, e) =~= d);
}

proof fn lemma_body_at(pre: Seq<u8>, body: Seq<char>, rest: Seq<u8>)
    requires
        is_armor_text(body),
        body.len() >= 1,
    ensures
        ({
            let b = body.map_values(|c: char| c as u8);
            let s = pre + b + seq![0x2cu8] + rest;
            body_field(s, pre.len() as int) == Some((body, (pre.len() + b.len() + 1) as int))
        }),
{
    let b = body.map_values(|c: char| c as u8);
    let s = pre + b + seq![0x2cu8] + rest;
    let p = pre.len() as int;
    let e = p + b.len();
    assert forall|i: int| p <= i < e implies is_armor_byte(#[trigger] s[i]) by {
        assert(s[i] == b[i - p]);
        assert(is_armor_char(body[i - p]));
    }
    assert(s[e] == 0x2c);
    lemma_armor_run(s, p, e);
    assert forall|i: int| 0 <= i < body.len() implies (b[i] as char) == #[trigger] body[i] by {
        assert(is_armor_char(body[i]));
    }
    assert(chars_of(s.subrange(p, e)) =~= body);
}

proof fn lemma_talker_code(t: TalkerID)
    ensures
        talker_code(t).len() == 2,
        talker_of(talker_code(t)[0], talker_code(t)[1]) == Some(t),
{
}

proof fn lemma_hex_upper(x: u8)
    requires
        x < 16,
    ensures
        is_hex_digit(hex_upper(x)),
        hex_digit_value(hex_upper(x)) == x,
{
}

/// Parsing a printed sentence gives back the sentence; so, for a line in the
/// form that the printer writes, parsing and then printing gives the line.
#[verifier::rlimit(100)]
#[verifier::spinoff_prover]
pub proof fn lemma_sentence_round_trip(m: Metadata, body: Seq<char>)
    requires
        is_printable(m, body),
    ensures
        parse_spec(print_bytes(m, body)) == Ok::<(Metadata, Seq<char>), ParseError>((m, body)),
        print_bytes(parse_spec(print_bytes(m, body))->Ok_0.0, parse_spec(
            print_bytes(m, body),
        )->Ok_0.1) == print_bytes(m, body),
{
    let s = print_bytes(m, body);
    let b = body.map_values(|c: char| c as u8);
    let suffix = print_suffix(m);
    let at0 = seq![0x21u8] + talker_code(m.talker);
    let at1 = at0 + seq![0x56u8, 0x44, 0x4d, 0x2c];
    let dl = decimal_digits(m.length as nat);
    let at2 = at1 + dl + seq![0x2cu8];
    let di = decimal_digits(m.index as nat);
    let at3 = at2 + di + seq![0x2cu8];
    let dm = if m.message_id == NO_MESSAGE_ID {
        Seq::<u8>::empty()
    } else {
        decimal_digits(m.message_id as nat)
    };
    let at4 = at3 + dm + seq![0x2cu8];
    let at5 = at4 + channel_code(m.channel) + seq![0x2cu8];
    assert(at5 == print_prefix(m));
    assert(s == at5 + b + suffix);
    lemma_talker_code(m.talker);
    lemma_decimal_digits(m.length as nat);
    lemma_decimal_digits(m.index as nat);
    lemma_decimal_digits(m.message_id as nat);
    // start, talker, sentence type
    assert(s[0] == 0x21);
    assert(s[1] == talker_code(m.talker)[0]);
    assert(s[2] == talker_code(m.talker)[1]);
    assert(s.subrange(3, 7) =~= seq![0x56u8, 0x44, 0x4d, 0x2c]);
    // length
    assert(s =~= at1 + dl + seq![0x2cu8] + (di + seq![0x2cu8] + dm + seq![0x2cu8] + channel_code(
        m.channel,
    ) + seq![0x2cu8] + b + suffix));
    lemma_number_at(
        at1,
        m.length,
        di + seq![0x2cu8] + dm + seq![0x2cu8] + channel_code(m.channel) + seq![0x2cu8] + b
            + suffix,
    );
    // index
    let r2 = dm + seq![0x2cu8] + channel_code(m.channel) + seq![0x2cu8] + b + suffix;
    assert(s =~= at2 + di + seq![0x2cu8] + r2);
    lemma_number_at(at2, m.index, r2);
    // message id
    let r3 = channel_code(m.channel) + seq![0x2cu8] + b + suffix;
    assert(s =~= at3 + dm + seq![0x2cu8] + r3);
    if m.message_id == NO_MESSAGE_ID {
        assert(s[at3.len() as int] == 0x2c);
    } else {
        lemma_number_at(at3, m.message_id, r3);
        assert(s[at3.len() as int] == dm[0]);
    }
    // channel
    let r4 = b + suffix;
    assert(s =~= at4 + channel_code(m.channel) + seq![0x2cu8] + r4);
    assert(s[at4.len() as int] == (seq![0x2cu8] + r4)[0] || s[at4.len() as int] == channel_code(
        m.channel,
    )[0]);
    // body
    assert(s =~= at5 + b + seq![0x2cu8] + (suffix.subrange(1, suffix.len() as int)));
    lemma_body_at(at5, body, suffix.subrange(1, suffix.len() as int));
    // fill bits and checksum
    let at6 = (at5.len() + b.len() + 1) as int;
    assert(decimal_digits(m.fill_bits as nat) == seq![(0x30 + m.fill_bits) as u8]);
    assert(s[at6] == 0x30 + m.fill_bits);
    assert(s[at6 + 1] == 0x2a);
    lemma_hex_upper(m.checksum / 16);
    lemma_hex_upper(m.checksum % 16);
    assert(s[at6 + 2] == hex_upper(m.checksum / 16));
    assert(s[at6 + 3] == hex_upper(m.checksum % 16));
    assert(s.len() == at6 + 4);
    assert((m.checksum / 16) * 16 + m.checksum % 16 == m.checksum);
}

proof fn lemma_digits_ascii(x: nat)
    ensures
        forall|i: int| 0 <= i < decimal_digits(x).len() ==> #[trigger] decimal_digits(x)[i] < 128,
{
    lemma_decimal_digits(x);
    assert forall|i: int| 0 <= i < decimal_digits(x).len() implies #[trigger] decimal_digits(x)[i]
        < 128 by {
        assert(is_digit(decimal_digits(x)[i]));
    }
}

proof fn lemma_chars_of_ascii(b: Seq<u8>)
    requires
        forall|i: int| 0 <= i < b.len() ==> #[trigger] b[i] < 128,
    ensures
        vstd::utf8::is_ascii_chars(chars_of(b)),
        chars_of(b).map_values(|c: char| c as u8) == b,
{
    assert(chars_of(b).map_values(|c: char| c as u8) =~= b);
}

/// The printed text of a sentence whose body is in the payload alphabet is
/// ASCII; its bytes are `print_bytes`.
pub proof fn lemma_print_bytes(m: Metadata, body: Seq<char>)
    requires
        is_armor_text(body),
    ensures
        vstd::utf8::is_ascii_chars(print_spec(m, body)),
        vstd::utf8::encode_utf8(print_spec(m, body)) == print_bytes(m, body),
{
    let pre = print_prefix(m);
    let suf = print_suffix(m);
    lemma_digits_ascii(m.length as nat);
    lemma_digits_ascii(m.index as nat);
    lemma_digits_ascii(m.message_id as nat);
    lemma_digits_ascii(m.fill_bits as nat);
    lemma_hex_upper_ascii(m.checksum / 16);
    lemma_hex_upper_ascii(m.checksum % 16);
    assert forall|i: int| 0 <= i < pre.len() implies #[trigger] pre[i] < 128 by {
        lemma_prefix_ascii(m, i);
    }
    assert forall|i: int| 0 <= i < suf.len() implies #[trigger] suf[i] < 128 by {
        lemma_suffix_ascii(m, i);
    }
    lemma_chars_of_ascii(pre);
    lemma_chars_of_ascii(suf);
    let s = print_spec(m, body);
    assert forall|i: int| 0 <= i < body.len() implies '\0' <= #[trigger] body[i] <= '\u{7f}' by {
        assert(is_armor_char(body[i]));
    }
    assert(vstd::utf8::is_ascii_chars(s)) by {
        assert forall|i: int| 0 <= i < s.len() implies '\0' <= #[trigger] s[i] <= '\u{7f}' by {
            if i < pre.len() {
                assert(s[i] == chars_of(pre)[i]);
            } else if i < pre.len() + body.len() {
                assert(s[i] == body[i - pre.len()]);
            } else {
                assert(s[i] == chars_of(suf)[i - pre.len() - body.len()]);
            }
        }
    }
    vstd::utf8::is_ascii_chars_encode_utf8(s);
    let e = vstd::utf8::encode_utf8(s);
    let p = print_bytes(m, body);
    assert forall|i: int| 0 <= i < e.len() implies #[trigger] e[i] == p[i] by {
        assert(e[i] == s[i] as u8);
        if i < pre.len() {
            assert(s[i] == chars_of(pre)[i]);
            assert(chars_of(pre).map_values(|c: char| c as u8)[i] == pre[i]);
        } else if i < pre.len() + body.len() {
            assert(s[i] == body[i - pre.len()]);
        } else {
            let j = i - pre.len() - body.len();
            assert(s[i] == chars_of(suf)[j]);
            assert(chars_of(suf).map_values(|c: char| c as u8)[j] == suf[j]);
        }
    }
    assert(e =~= p);
}

proof fn lemma_hex_upper_ascii(x: u8)
    requires
        x < 16,
    ensures
        hex_upper(x) < 128,
{
}

proof fn lemma_prefix_ascii(m: Metadata, i: int)
    requires
        0 <= i < print_prefix(m).len(),
        forall|j: int|
            0 <= j < decimal_digits(m.length as nat).len() ==> #[trigger] decimal_digits(
                m.length as nat,
            )[j] < 128,
        forall|j: int|
            0 <= j < decimal_digits(m.index as nat).len() ==> #[trigger] decimal_digits(
                m.index as nat,
            )[j] < 128,
        forall|j: int|
            0 <= j < decimal_digits(m.message_id as nat).len() ==> #[trigger] decimal_digits(
                m.message_id as nat,
            )[j] < 128,
    ensures
        print_prefix(m)[i] < 128,
{
    let dm = if m.message_id == NO_MESSAGE_ID {
        Seq::<u8>::empty()
    } else {
        decimal_digits(m.message_id as nat)
    };
    assert forall|j: int| 0 <= j < dm.len() implies #[trigger] dm[j] < 128 by {}
    let c = channel_code(m.channel);
    assert forall|j: int| 0 <= j < c.len() implies #[trigger] c[j] < 128 by {}
    let t = talker_code(m.talker);
    assert forall|j: int| 0 <= j < t.len() implies #[trigger] t[j] < 128 by {}
}

proof fn lemma_suffix_ascii(m: Metadata, i: int)
    requires
        0 <= i < print_suffix(m).len(),
        forall|j: int|
            0 <= j < decimal_digits(m.fill_bits as nat).len() ==> #[trigger] decimal_digits(
                m.fill_bits as nat,
            )[j] < 128,
        hex_upper(m.checksum / 16) < 128,
        hex_upper(m.checksum % 16) < 128,
    ensures
        print_suffix(m)[i] < 128,
{
}

} // verus!
