//! Records of the compressed stream, and the transcoder between sentences
//! and records.
use vstd::prelude::*;
use vstd::string::StringSliceAdditionalSpecFns;

use crate::armor::{
    armor_chars, armor_values, lemma_armor_round_trip, lemma_unpack_sizes, pack, pack_spec,
    pack_succeeds, unpack, unpack_spec,
};
use crate::checksum::{checksum_valid, verify_checksum};
use crate::metadata::{lemma_metadata_round_trip, EncodedMetadata};
use crate::sentence::{
    is_printable, lemma_print_bytes, lemma_sentence_round_trip, parse_spec, print_bytes, print_spec,
    Metadata, Nmea,
};
use crate::text::push_str;

verus! {

/// A sentence as its metadata word and its unpacked body.
#[derive(Clone, Debug)]
pub struct Encoded {
    pub metadata: u64,
    pub body: Vec<u8>,
}

/// A line that repeats one seen `index` lines earlier.
#[derive(Clone, Copy, Debug, PartialEq, Eq, Structural)]
pub struct Repeat {
    pub index: u32,
    pub checksum: u32,
}

/// One record of the stream.
#[derive(Clone, Debug)]
pub enum Message {
    Raw(String),
    Encoded(Encoded),
    Repeat(Repeat),
}

/// Why a record cannot be turned back into text.
#[derive(Clone, Copy, Debug, PartialEq, Eq, Structural)]
pub enum DecodeError {
    /// The metadata word holds an unknown talker or channel.
    Metadata,
    /// The body cannot be packed into a payload.
    Packing,
    /// A repeat needs the window of earlier lines.
    Repeat,
    /// The line that was rebuilt does not carry a valid checksum.
    Checksum,
}

// ---------------------------------------------------------------------------
// Model
// ---------------------------------------------------------------------------

/// The sentence that an encoded record stands for.
pub open spec fn encoded_sentence(metadata: u64, body: Seq<u8>) -> Result<
    (Metadata, Seq<char>),
    DecodeError,
> {
    match EncodedMetadata::from_word(metadata) {
        None => Err(DecodeError::Metadata),
        Some(md) => if pack_succeeds(body, md.drop_bits, md.garbage_bits) {
            let (values, fill_bits) = pack_spec(body, md.drop_bits, md.garbage_bits);
            Ok(
                (
                    Metadata {
                        talker: md.talker,
                        length: md.length,
                        index: md.index,
                        message_id: md.message_id,
                        channel: md.channel,
                        fill_bits,
                        checksum: md.checksum,
                    },
                    armor_chars(values),
                ),
            )
        } else {
            Err(DecodeError::Packing)
        },
    }
}

/// The text of a record, without a check of its checksum.
pub open spec fn message_text(m: Message) -> Result<Seq<char>, DecodeError> {
    match m {
        Message::Raw(s) => Ok(s@),
        Message::Encoded(e) => match encoded_sentence(e.metadata, e.body@) {
            Ok((md, body)) => Ok(print_spec(md, body)),
            Err(err) => Err(err),
        },
        Message::Repeat(_) => Err(DecodeError::Repeat),
    }
}

/// What the decompressor makes of a record that is not a repeat: its text,
/// where an encoded record's text carries a valid checksum.
pub open spec fn decompressed(m: Message) -> Result<Seq<char>, DecodeError> {
    match message_text(m) {
        Ok(t) => if m is Encoded && !checksum_valid(vstd::utf8::encode_utf8(t)) {
            Err(DecodeError::Checksum)
        } else {
            Ok(t)
        },
        Err(err) => Err(err),
    }
}

/// The record of a sentence, before any check: `Encoded` where the body
/// unpacks, else the printed sentence as `Raw`.
pub open spec fn sentence_record_is(m: Message, md: Metadata, body: Seq<char>) -> bool {
    match crate::armor::unpack_result(body, md.fill_bits) {
        Some((bytes, drop_bits, garbage_bits)) => m is Encoded && m->Encoded_0.body@ == bytes
            && m->Encoded_0.metadata == (EncodedMetadata {
            talker: md.talker,
            length: md.length,
            index: md.index,
            message_id: md.message_id,
            channel: md.channel,
            drop_bits,
            garbage_bits,
            checksum: md.checksum,
        }).word(),
        None => m is Raw && m->Raw_0@ == print_spec(md, body),
    }
}

/// A sentence whose printed form the encoded path carries: printable, and
/// with a body that unpacks into three bytes at least.
pub open spec fn is_encodable(m: Metadata, body: Seq<char>) -> bool {
    is_printable(m, body) && unpack_spec(armor_values(body), m.fill_bits).0.len() >= 3
}

/// The record of an encodable sentence is `Encoded`, and its text is the
/// printed sentence.
pub proof fn lemma_encodable_record(m: Metadata, body: Seq<char>, r: Message)
    requires
        is_encodable(m, body),
        sentence_record_is(r, m, body),
    ensures
        r is Encoded,
        message_text(r) == Ok::<Seq<char>, DecodeError>(print_spec(m, body)),
{
    let (bytes, drop_bits, garbage_bits) = unpack_spec(armor_values(body), m.fill_bits);
    lemma_unpack_sizes(armor_values(body), m.fill_bits);
    let md = EncodedMetadata {
        talker: m.talker,
        length: m.length,
        index: m.index,
        message_id: m.message_id,
        channel: m.channel,
        drop_bits,
        garbage_bits,
        checksum: m.checksum,
    };
    lemma_metadata_round_trip(md);
    lemma_armor_round_trip(body, m.fill_bits);
    assert(armor_values(body).len() == body.len());
}

// ---------------------------------------------------------------------------
// Transcoder
// ---------------------------------------------------------------------------

impl Nmea {
    /// The sentence that an encoded record stands for.
    pub fn try_from_encoded(e: &Encoded) -> (r: Result<Nmea, DecodeError>)
        ensures
            r is Ok <==> encoded_sentence(e.metadata, e.body@) is Ok,
            r is Ok ==> r->Ok_0.metadata == encoded_sentence(e.metadata, e.body@)->Ok_0.0,
            r is Ok ==> r->Ok_0.body@ == encoded_sentence(e.metadata, e.body@)->Ok_0.1,
            r is Err ==> r->Err_0 == encoded_sentence(e.metadata, e.body@)->Err_0,
    {
        let md = match EncodedMetadata::try_from_raw(e.metadata) {
            Some(md) => md,
            None => {
                return Err(DecodeError::Metadata);
            },
        };
        let (body, fill_bits) = match pack(e.body.as_slice(), md.drop_bits, md.garbage_bits) {
            Ok(x) => x,
            Err(_) => {
                return Err(DecodeError::Packing);
            },
        };
        let metadata = Metadata {
            talker: md.talker,
            length: md.length,
            index: md.index,
            message_id: md.message_id,
            channel: md.channel,
            fill_bits,
            checksum: md.checksum,
        };
        Ok(Nmea { metadata, body })
    }
}

impl Message {
    pub fn has_raw(&self) -> (r: bool)
        ensures
            r == self is Raw,
    {
        match self {
            Message::Raw(_) => true,
            _ => false,
        }
    }

    pub fn has_encoded(&self) -> (r: bool)
        ensures
            r == self is Encoded,
    {
        match self {
            Message::Encoded(_) => true,
            _ => false,
        }
    }

    pub fn has_repeat(&self) -> (r: bool)
        ensures
            r == self is Repeat,
    {
        match self {
            Message::Repeat(_) => true,
            _ => false,
        }
    }

    /// The text of a raw record; empty for the other kinds.
    pub fn raw(&self) -> (r: &str)
        ensures
            self is Raw ==> r@ == self->Raw_0@,
            !(self is Raw) ==> r@ == Seq::<char>::empty(),
    {
        match self {
            Message::Raw(s) => s.as_str(),
            _ => {
                proof {
                    reveal_strlit("");
                }
                ""
            },
        }
    }

    /// Appends the text of the record to `out`.
    pub fn try_write(&self, out: &mut String) -> (r: Result<(), DecodeError>)
        ensures
            r is Ok <==> message_text(*self) is Ok,
            r is Ok ==> final(out)@ == old(out)@ + message_text(*self)->Ok_0,
            r is Err ==> r->Err_0 == message_text(*self)->Err_0 && final(out)@ == old(out)@,
    {
        match self {
            Message::Encoded(e) => {
                let nmea = match Nmea::try_from_encoded(e) {
                    Ok(n) => n,
                    Err(err) => {
                        return Err(err);
                    },
                };
                let text = nmea.to_string();
                push_str(out, text.as_str());
                Ok(())
            },
            Message::Raw(s) => {
                push_str(out, s.as_str());
                Ok(())
            },
            Message::Repeat(_) => Err(DecodeError::Repeat),
        }
    }

    /// The text of the record.
    pub fn try_to_string(&self) -> (r: Result<String, DecodeError>)
        ensures
            r is Ok <==> message_text(*self) is Ok,
            r is Ok ==> r->Ok_0@ == message_text(*self)->Ok_0,
            r is Err ==> r->Err_0 == message_text(*self)->Err_0,
    {
        let mut s = String::new();
        match self.try_write(&mut s) {
            Ok(()) => {
                assert(s@ =~= message_text(*self)->Ok_0);
                Ok(s)
            },
            Err(e) => Err(e),
        }
    }

    /// The record of a parsed sentence: `Encoded` where its body unpacks,
    /// else the printed sentence as `Raw`.
    pub fn from_sentence(n: &Nmea) -> (r: Message)
        ensures
            sentence_record_is(r, n.metadata, n.body@),
    {
        let md = n.metadata;
        if md.fill_bits >= 6 {
            return Message::Raw(n.to_string());
        }
        match unpack(n.body.as_str(), md.fill_bits) {
            Ok((body, drop_bits, garbage_bits)) => {
                let word = EncodedMetadata {
                    talker: md.talker,
                    length: md.length,
                    index: md.index,
                    message_id: md.message_id,
                    channel: md.channel,
                    drop_bits,
                    garbage_bits,
                    checksum: md.checksum,
                }.raw();
                Message::Encoded(Encoded { metadata: word, body })
            },
            Err(_) => Message::Raw(n.to_string()),
        }
    }

    /// The record of a line, before any check: the record of its sentence,
    /// or the line as `Raw` where it does not parse.
    pub fn from_line(s: &str) -> (r: Message)
        ensures
            crate::sentence::parse_spec(s.spec_bytes()) is Err ==> r is Raw && r->Raw_0@ == s@,
            crate::sentence::parse_spec(s.spec_bytes()) is Ok ==> sentence_record_is(
                r,
                crate::sentence::parse_spec(s.spec_bytes())->Ok_0.0,
                crate::sentence::parse_spec(s.spec_bytes())->Ok_0.1,
            ),
    {
        match Nmea::parse(s) {
            Ok(n) => Message::from_sentence(&n),
            Err(_) => Message::Raw(s.to_owned()),
        }
    }

    /// The text that a record decompresses to; a repeat needs the window
    /// (see `Decompressor`).
    pub fn decompress(&self) -> (r: Result<String, DecodeError>)
        ensures
            r is Ok <==> decompressed(*self) is Ok,
            r is Ok ==> r->Ok_0@ == decompressed(*self)->Ok_0,
            r is Err ==> r->Err_0 == decompressed(*self)->Err_0,
    {
        let text = match self.try_to_string() {
            Ok(t) => t,
            Err(e) => {
                return Err(e);
            },
        };
        if self.has_encoded() {
            match verify_checksum(text.as_str()) {
                Ok((true, _)) => {},
                _ => {
                    return Err(DecodeError::Checksum);
                },
            }
        }
        Ok(text)
    }
}

/// Compresses one line: `Raw` where its checksum is not valid, where it
/// does not parse or unpack, or where its record would not decompress to the
/// line itself; else `Encoded`. Whatever comes out decompresses to the line.
pub fn compress_line(line: &str) -> (r: Message)
    ensures
        decompressed(r) == Ok::<Seq<char>, DecodeError>(line@),
        !checksum_valid(line.spec_bytes()) ==> r is Raw && r->Raw_0@ == line@,
        r is Raw ==> r->Raw_0@ == line@,
        !(r is Repeat),
        checksum_valid(line.spec_bytes()) && (exists|m: Metadata, body: Seq<char>|
            is_encodable(m, body) && line@ == #[trigger] print_spec(m, body)) ==> r is Encoded,
{
    let valid = match verify_checksum(line) {
        Ok((valid, _)) => valid,
        Err(_) => false,
    };
    if !valid {
        return Message::Raw(line.to_owned());
    }
    let message = Message::from_line(line);
    proof {
        if exists|m: Metadata, body: Seq<char>|
            is_encodable(m, body) && line@ == #[trigger] print_spec(m, body) {
            let (m, body) = choose|m: Metadata, body: Seq<char>|
                is_encodable(m, body) && line@ == #[trigger] print_spec(m, body);
            lemma_print_bytes(m, body);
            lemma_sentence_round_trip(m, body);
            assert(line.spec_bytes() == print_bytes(m, body));
            lemma_encodable_record(m, body, message);
        }
    }
    if message.has_raw() {
        return Message::Raw(line.to_owned());
    }
    // The record stands only where it gives the line back.
    match message.decompress() {
        Ok(text) => {
            let owned = line.to_owned();
            if text == owned {
                message
            } else {
                Message::Raw(owned)
            }
        },
        Err(_) => Message::Raw(line.to_owned()),
    }
}

} // verus!
