use ais_compact::metadata::EncodedMetadata;
use ais_compact::record::{compress_line, DecodeError, Encoded, Message, Repeat};
use ais_compact::sentence::{ChannelCode, TalkerID};
use ais_compact::stream::{Compressor, Decompressor};

#[test]
fn test_parse_valid() {
    let s = "!AIVDM,1,1,,A,13HOI:0P0000VOHLCnHQKwvL05Ip,0*23";
    let m = Message::from_line(s);
    assert!(m.has_encoded());
    assert!(!m.has_raw());
}

#[test]
fn proto_test_invalid_fill_bits() {
    let s = "!AIVDM,1,1,,2,601uEP19bi7P04810,6*5D";
    let m = Message::from_line(s);
    assert!(!m.has_encoded());
    assert!(m.has_raw());
    assert!(m.raw() == s);
    assert!(m.try_to_string().unwrap() == s);
}

#[test]
fn test_full_round_trip_valid() {
    let s = "!AIVDM,2,1,3,A,55Upuv00?I98cQW?OC<th4P0000000000000000U40?,0*3B";
    let m = Message::from_line(s);
    let out = m.clone();
    assert!(out.has_encoded());
    assert!(!out.has_raw());
    assert_eq!(out.try_to_string().unwrap(), s);
}

const LINES: [&str; 5] = [
    "!AIVDM,1,1,,A,13HOI:0P0000VOHLCnHQKwvL05Ip,0*23",
    "!AIVDM,2,1,1,B,53cjbg00?ImDTs;;;J0l4Tr22222222222222209000,0*51",
    "!AIVDM,1,1,,A,802R5Ph0BkDhjPF?qRGbOwwwwwwwwwww2wwwwwwwwwwwwwwwwwwwwwwwwww,2*3B",
    "!AIVDM,2,2,0,A,@20,4*50",
    "!AIVDM,1,1,,2,601uEP19bi7P04810,6*5D",
];

#[test]
fn compress_encodes_aligned_body() {
    let m = compress_line(LINES[0]);
    assert!(m.has_encoded());
    assert_eq!(m.decompress().unwrap(), LINES[0]);
}

#[test]
fn compress_encodes_drop_six_body() {
    let m = compress_line(LINES[1]);
    assert!(m.has_encoded());
    assert_eq!(m.decompress().unwrap(), LINES[1]);
}

#[test]
fn compress_encodes_garbage_bits() {
    let m = compress_line(LINES[2]);
    assert!(m.has_encoded());
    assert_eq!(m.decompress().unwrap(), LINES[2]);
}

#[test]
fn compress_short_body_falls_back_to_raw() {
    let m = compress_line(LINES[3]);
    assert!(m.has_raw());
    assert_eq!(m.raw(), LINES[3]);
}

#[test]
fn compress_invalid_fill_bits_falls_back_to_raw() {
    let m = compress_line(LINES[4]);
    assert!(m.has_raw());
    assert_eq!(m.decompress().unwrap(), LINES[4]);
}

#[test]
fn compress_bad_checksum_falls_back_to_raw() {
    let line = "!AIVDM,1,1,,A,13HOI:0P0000VOHLCnHQKwvL05Ip,0*24";
    let m = compress_line(line);
    assert!(m.has_raw());
    assert_eq!(m.decompress().unwrap(), line);
    let junk = "not a sentence";
    assert_eq!(compress_line(junk).raw(), junk);
}

#[test]
fn encoded_metadata_word_layout() {
    let md = EncodedMetadata {
        talker: TalkerID::AI,
        length: 1,
        index: 2,
        message_id: 0xff,
        channel: ChannelCode::A,
        drop_bits: 6,
        garbage_bits: 3,
        checksum: 0x23,
    };
    let w = md.raw();
    assert_eq!(w >> 60, 2);
    assert_eq!((w >> 52) & 0xff, 1);
    assert_eq!((w >> 44) & 0xff, 2);
    assert_eq!((w >> 36) & 0xff, 0xff);
    assert_eq!((w >> 33) & 0x7, 1);
    assert_eq!((w >> 30) & 0x7, 6);
    assert_eq!((w >> 22) & 0xff, 3);
    assert_eq!((w >> 14) & 0xff, 0x23);
    assert_eq!(w & 0x3fff, 0);
    assert_eq!(EncodedMetadata::try_from_raw(w), Some(md));
}

#[test]
fn unknown_talker_or_channel_is_refused() {
    assert_eq!(EncodedMetadata::try_from_raw(10u64 << 60), None);
    assert_eq!(EncodedMetadata::try_from_raw(5u64 << 33), None);
}

#[test]
fn decode_errors() {
    let bad_metadata = Message::Encoded(Encoded { metadata: 15u64 << 60, body: vec![0, 0, 0] });
    assert_eq!(bad_metadata.try_to_string(), Err(DecodeError::Metadata));
    let short = Message::Encoded(Encoded { metadata: 0, body: vec![0] });
    assert_eq!(short.try_to_string(), Err(DecodeError::Packing));
    let repeat = Message::Repeat(Repeat { index: 1, checksum: 0 });
    assert_eq!(repeat.try_to_string(), Err(DecodeError::Repeat));
    // A well-formed record whose checksum does not match its text.
    let good = compress_line(LINES[0]);
    let Message::Encoded(mut e) = good else { panic!("expected an encoded record") };
    e.body[0] ^= 0x04;
    let tampered = Message::Encoded(e);
    assert!(tampered.try_to_string().is_ok());
    assert_eq!(tampered.decompress(), Err(DecodeError::Checksum));
}

#[test]
fn try_write_appends() {
    let mut out = String::from("> ");
    Message::Raw("abc".to_string()).try_write(&mut out).unwrap();
    assert_eq!(out, "> abc");
}

#[test]
fn repeated_line_is_sent_as_repeat() {
    let mut c = Compressor::new(4);
    let mut d = Decompressor::new(4);
    let first = c.compress(LINES[0]);
    assert!(first.has_encoded());
    let second = c.compress(LINES[0]);
    assert_eq!(second.has_repeat(), true);
    let Message::Repeat(r) = &second else { panic!("expected a repeat") };
    assert_eq!(r.index, 1);
    assert_eq!(r.checksum, 0x23);
    assert_eq!(d.decompress(&first).unwrap(), LINES[0]);
    assert_eq!(d.decompress(&second).unwrap(), LINES[0]);
}

#[test]
fn repeat_reaches_back_the_whole_window() {
    let mut c = Compressor::new(3);
    let mut d = Decompressor::new(3);
    let lines = [LINES[0], LINES[1], LINES[2], LINES[0], LINES[3], LINES[4], LINES[3], LINES[1]];
    let mut kinds = Vec::new();
    for line in lines {
        let m = c.compress(line);
        kinds.push(match &m {
            Message::Repeat(r) => r.index,
            _ => 0,
        });
        assert_eq!(d.decompress(&m).unwrap(), line);
    }
    // LINES[0] again three lines later; LINES[3] two lines later; LINES[1]
    // six lines later is out of the window.
    assert_eq!(kinds, vec![0, 0, 0, 3, 0, 0, 2, 0]);
}

#[test]
fn zero_window_never_repeats() {
    let mut c = Compressor::new(0);
    let mut d = Decompressor::new(0);
    for _ in 0..3 {
        let m = c.compress(LINES[0]);
        assert!(!m.has_repeat());
        assert_eq!(d.decompress(&m).unwrap(), LINES[0]);
    }
}

#[test]
fn repeat_outside_window_is_an_error() {
    let mut d = Decompressor::new(2);
    assert_eq!(d.decompress(&Message::Repeat(Repeat { index: 1, checksum: 0 })), Err(DecodeError::Repeat));
    d.decompress(&Message::Raw("x".to_string())).unwrap();
    assert_eq!(d.decompress(&Message::Repeat(Repeat { index: 1, checksum: 0 })), Ok("x".to_string()));
    assert_eq!(d.decompress(&Message::Repeat(Repeat { index: 3, checksum: 0 })), Err(DecodeError::Repeat));
    assert_eq!(d.decompress(&Message::Repeat(Repeat { index: 1, checksum: 7 })), Err(DecodeError::Checksum));
}

#[test]
fn guard_sends_non_canonical_lines_raw() {
    // Valid checksum, but the printer writes upper-case hex.
    let lower = "!AIVDM,2,1,3,A,55Upuv00?I98cQW?OC<th4P0000000000000000U40?,0*3b";
    assert!(Message::from_line(lower).has_encoded());
    let m = compress_line(lower);
    assert!(m.has_raw());
    assert_eq!(m.decompress().unwrap(), lower);
}
