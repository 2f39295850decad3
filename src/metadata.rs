//! The 64-bit metadata word of an encoded record.
//!
//! From the most significant bit: talker (4 bits), length (8), index (8),
//! message id (8), channel (3), drop bits (3), garbage bits (8), checksum (8);
//! the low 14 bits are zero.
use vstd::prelude::*;

use crate::sentence::{ChannelCode, TalkerID};

verus! {

/// The envelope fields of a sentence together with what the codec needs to
/// restore its body.
#[derive(Clone, Copy, Debug, PartialEq, Eq, Structural)]
pub struct EncodedMetadata {
    pub talker: TalkerID,
    pub length: u8,
    pub index: u8,
    pub message_id: u8,
    pub channel: ChannelCode,
    /// Fits three bits.
    pub drop_bits: u8,
    pub garbage_bits: u8,
    pub checksum: u8,
}

pub open spec fn talker_number(t: TalkerID) -> u64 {
    match t {
        TalkerID::AB => 0,
        TalkerID::AD => 1,
        TalkerID::AI => 2,
        TalkerID::AN => 3,
        TalkerID::AR => 4,
        TalkerID::AS => 5,
        TalkerID::AT => 6,
        TalkerID::AX => 7,
        TalkerID::BS => 8,
        TalkerID::SA => 9,
    }
}

pub open spec fn talker_from_number(x: u64) -> Option<TalkerID> {
    if x == 0 {
        Some(TalkerID::AB)
    } else if x == 1 {
        Some(TalkerID::AD)
    } else if x == 2 {
        Some(TalkerID::AI)
    } else if x == 3 {
        Some(TalkerID::AN)
    } else if x == 4 {
        Some(TalkerID::AR)
    } else if x == 5 {
        Some(TalkerID::AS)
    } else if x == 6 {
        Some(TalkerID::AT)
    } else if x == 7 {
        Some(TalkerID::AX)
    } else if x == 8 {
        Some(TalkerID::BS)
    } else if x == 9 {
        Some(TalkerID::SA)
    } else {
        None
    }
}

pub open spec fn channel_number(c: ChannelCode) -> u64 {
    match c {
        ChannelCode::Missing => 0,
        ChannelCode::A => 1,
        ChannelCode::B => 2,
        ChannelCode::C1 => 3,
        ChannelCode::C2 => 4,
    }
}

pub open spec fn channel_from_number(x: u64) -> Option<ChannelCode> {
    if x == 0 {
        Some(ChannelCode::Missing)
    } else if x == 1 {
        Some(ChannelCode::A)
    } else if x == 2 {
        Some(ChannelCode::B)
    } else if x == 3 {
        Some(ChannelCode::C1)
    } else if x == 4 {
        Some(ChannelCode::C2)
    } else {
        None
    }
}

/// The word of packed fields.
pub open spec fn pack_word(
    talker: u64,
    length: u64,
    index: u64,
    message_id: u64,
    channel: u64,
    drop_bits: u64,
    garbage_bits: u64,
    checksum: u64,
) -> u64 {
    (talker << 60u64) | (length << 52u64) | (index << 44u64) | (message_id << 36u64) | (channel
        << 33u64) | (drop_bits << 30u64) | (garbage_bits << 22u64) | (checksum << 14u64)
}

/// The field of `width` bits at `shift` in `w`.
pub open spec fn word_field(w: u64, shift: u64, width: u64) -> u64 {
    (w >> shift) & (((1u64 << width) - 1) as u64)
}

impl EncodedMetadata {
    pub open spec fn wf(self) -> bool {
        self.drop_bits < 8
    }

    /// The word that stands for these fields.
    pub open spec fn word(self) -> u64 {
        pack_word(
            talker_number(self.talker),
            self.length as u64,
            self.index as u64,
            self.message_id as u64,
            channel_number(self.channel),
            self.drop_bits as u64,
            self.garbage_bits as u64,
            self.checksum as u64,
        )
    }

    /// The fields that a word holds, where its talker and channel are known.
    pub open spec fn from_word(w: u64) -> Option<EncodedMetadata> {
        let t = talker_from_number(word_field(w, 60, 4));
        let c = channel_from_number(word_field(w, 33, 3));
        if t is Some && c is Some {
            Some(
                EncodedMetadata {
                    talker: t->Some_0,
                    length: word_field(w, 52, 8) as u8,
                    index: word_field(w, 44, 8) as u8,
                    message_id: word_field(w, 36, 8) as u8,
                    channel: c->Some_0,
                    drop_bits: word_field(w, 30, 3) as u8,
                    garbage_bits: word_field(w, 22, 8) as u8,
                    checksum: word_field(w, 14, 8) as u8,
                },
            )
        } else {
            None
        }
    }

    /// The packed word.
    pub fn raw(&self) -> (r: u64)
        requires
            self.wf(),
        ensures
            r == self.word(),
    {
        let t: u64 = match self.talker {
            TalkerID::AB => 0,
            TalkerID::AD => 1,
            TalkerID::AI => 2,
            TalkerID::AN => 3,
            TalkerID::AR => 4,
            TalkerID::AS => 5,
            TalkerID::AT => 6,
            TalkerID::AX => 7,
            TalkerID::BS => 8,
            TalkerID::SA => 9,
        };
        let c: u64 = match self.channel {
            ChannelCode::Missing => 0,
            ChannelCode::A => 1,
            ChannelCode::B => 2,
            ChannelCode::C1 => 3,
            ChannelCode::C2 => 4,
        };
        (t << 60u64) | ((self.length as u64) << 52u64) | ((self.index as u64) << 44u64) | ((
        self.message_id as u64) << 36u64) | (c << 33u64) | ((self.drop_bits as u64) << 30u64) | ((
        self.garbage_bits as u64) << 22u64) | ((self.checksum as u64) << 14u64)
    }

    /// Reads a word back; `None` where its talker or channel field holds no
    /// known value.
    pub fn try_from_raw(w: u64) -> (r: Option<EncodedMetadata>)
        ensures
            r == EncodedMetadata::from_word(w),
            r is Some ==> r->Some_0.wf(),
    {
        assert(((1u64 << 4u64) - 1) == 0xf && ((1u64 << 3u64) - 1) == 0x7 && ((1u64 << 8u64) - 1)
            == 0xff) by (bit_vector);
        let t = match (w >> 60u64) & 0xf {
            0 => TalkerID::AB,
            1 => TalkerID::AD,
            2 => TalkerID::AI,
            3 => TalkerID::AN,
            4 => TalkerID::AR,
            5 => TalkerID::AS,
            6 => TalkerID::AT,
            7 => TalkerID::AX,
            8 => TalkerID::BS,
            9 => TalkerID::SA,
            _ => {
                return None;
            },
        };
        let c = match (w >> 33u64) & 0x7 {
            0 => ChannelCode::Missing,
            1 => ChannelCode::A,
            2 => ChannelCode::B,
            3 => ChannelCode::C1,
            4 => ChannelCode::C2,
            _ => {
                return None;
            },
        };
        assert(((w >> 30u64) & 0x7) < 8) by (bit_vector);
        Some(
            EncodedMetadata {
                talker: t,
                length: ((w >> 52u64) & 0xff) as u8,
                index: ((w >> 44u64) & 0xff) as u8,
                message_id: ((w >> 36u64) & 0xff) as u8,
                channel: c,
                drop_bits: ((w >> 30u64) & 0x7) as u8,
                garbage_bits: ((w >> 22u64) & 0xff) as u8,
                checksum: ((w >> 14u64) & 0xff) as u8,
            },
        )
    }
}

proof fn lemma_word_fields(
    t: u64,
    l: u64,
    i: u64,
    m: u64,
    c: u64,
    d: u64,
    g: u64,
    k: u64,
)
    by (bit_vector)
    requires
        t < 16,
        l < 256,
        i < 256,
        m < 256,
        c < 8,
        d < 8,
        g < 256,
        k < 256,
    ensures
        word_field(pack_word(t, l, i, m, c, d, g, k), 60, 4) == t,
        word_field(pack_word(t, l, i, m, c, d, g, k), 52, 8) == l,
        word_field(pack_word(t, l, i, m, c, d, g, k), 44, 8) == i,
        word_field(pack_word(t, l, i, m, c, d, g, k), 36, 8) == m,
        word_field(pack_word(t, l, i, m, c, d, g, k), 33, 3) == c,
        word_field(pack_word(t, l, i, m, c, d, g, k), 30, 3) == d,
        word_field(pack_word(t, l, i, m, c, d, g, k), 22, 8) == g,
        word_field(pack_word(t, l, i, m, c, d, g, k), 14, 8) == k,
{
}

/// Reading back the word of well-formed fields gives the same fields.
pub proof fn lemma_metadata_round_trip(e: EncodedMetadata)
    requires
        e.wf(),
    ensures
        EncodedMetadata::from_word(e.word()) == Some(e),
{
    lemma_word_fields(
        talker_number(e.talker),
        e.length as u64,
        e.index as u64,
        e.message_id as u64,
        channel_number(e.channel),
        e.drop_bits as u64,
        e.garbage_bits as u64,
        e.checksum as u64,
    );
}

} // verus!
