use ais_compact::armor::{decode, encode, extract_garbage, pack, truncate, unpack};
use ais_compact::sentence::{Field, Nmea};

fn field_name(f: Field) -> &'static str {
    match f {
        Field::Start => "start",
        Field::TalkerId => "talker_id",
        Field::SentenceType => "sentence_type",
        Field::Length => "length",
        Field::Index => "index",
        Field::MessageId => "message_id",
        Field::Channel => "channel",
        Field::Body => "body",
        Field::FillBits => "fill_bits",
        Field::Checksum => "checksum",
    }
}

fn run_roundtrip(input: &str) {
    let sentence = Nmea::parse(input)
        .unwrap_or_else(|e| panic!("invalid {} at {}", field_name(e.field), e.position));
    let (data, drop_bits, garbage) =
        unpack(sentence.body.as_str(), sentence.metadata.fill_bits).unwrap();
    let (packed, fill_bits) = pack(&data, drop_bits, garbage)
        .unwrap_or_else(|e| panic!("{} => {e}", sentence.to_string()));
    if packed != sentence.body || fill_bits != sentence.metadata.fill_bits {
        panic!(
            "{input} - {fill_bits}\n{data:02X?}({}) - {drop_bits}\n{packed}",
            data.len()
        );
    }
}

#[test]
fn test_aligned() {
    run_roundtrip("!AIVDM,1,1,,A,13HOI:0P0000VOHLCnHQKwvL05Ip,0*23");
}

#[test]
fn test_unpacked_has_6_fillbits() {
    run_roundtrip("!AIVDM,2,1,1,B,53cjbg00?ImDTs;;;J0l4Tr22222222222222209000,0*51");
}

#[test]
fn test_nonzero_garbage_bits() {
    run_roundtrip("!AIVDM,1,1,,A,802R5Ph0BkDhjPF?qRGbOwwwwwwwwwww2wwwwwwwwwwwwwwwwwwwwwwwwww,2*3B");
}

#[test]
#[should_panic(expected = "data.len() < 3")]
fn test_short_string() {
    run_roundtrip("!AIVDM,2,2,0,A,@20,4*50");
}

#[test]
#[should_panic(expected = "invalid fill_bits")]
fn armor_test_invalid_fill_bits() {
    run_roundtrip("!AIVDM,1,1,,2,601uEP19bi7P04810,6*5D");
}

#[test]
fn decode_both_ranges() {
    assert_eq!(decode('0'), Ok(0));
    assert_eq!(decode('W'), Ok(39));
    assert_eq!(decode('`'), Ok(40));
    assert_eq!(decode('w'), Ok(63));
    assert!(decode('X').is_err());
    assert!(decode('x').is_err());
    assert!(decode(',').is_err());
}

#[test]
fn encode_both_ranges() {
    assert_eq!(encode(0), Ok('0'));
    assert_eq!(encode(39), Ok('W'));
    assert_eq!(encode(40), Ok('`'));
    assert_eq!(encode(63), Ok('w'));
    assert!(encode(64).is_err());
    assert!(encode(0xC0).is_err());
}

#[test]
fn garbage_and_truncate_split_a_byte() {
    assert_eq!(extract_garbage(0b1011_0111, 3), 0b111);
    assert_eq!(truncate(0b1011_0111, 3), 0b1011_0000);
    assert_eq!(extract_garbage(0xff, 0), 0);
    assert_eq!(truncate(0xff, 0), 0xff);
}

#[test]
fn unpack_full_quad() {
    // "w" is 63: four of them are 24 set bits.
    assert_eq!(unpack("wwww", 0), Ok((vec![0xff, 0xff, 0xff], 0, 0)));
    assert_eq!(unpack("0000", 0), Ok((vec![0, 0, 0], 0, 0)));
}

#[test]
fn unpack_keeps_garbage_bits() {
    // Last character 'w' = 0b111111 with two fill bits: garbage 0b11.
    assert_eq!(unpack("wwww", 2), Ok((vec![0xff, 0xff, 0xfc], 2, 3)));
    // One character, fill 0: six bits in one byte, two of them dropped.
    assert_eq!(unpack("w", 0), Ok((vec![0xfc], 2, 0)));
}

#[test]
fn unpack_rejects_characters_outside_the_alphabet() {
    assert!(unpack("00x0", 0).is_err());
    assert!(unpack("é", 0).is_err());
}

#[test]
fn unpack_sizes_and_parity() {
    for body in ["1", "12", "123", "1234", "12345", "123456", "1234567"] {
        for fill in 0u8..6 {
            let (bytes, drop_bits, _) = unpack(body, fill).unwrap();
            assert!(drop_bits < 8);
            assert_eq!(8 * bytes.len() as i64, 6 * body.len() as i64 - fill as i64 + drop_bits as i64);
            assert_eq!((drop_bits as i64 - fill as i64).rem_euclid(2), 0);
        }
    }
}

#[test]
fn pack_rejects_short_data() {
    assert_eq!(pack(&[1, 2], 0, 0), Err("data.len() < 3"));
    assert_eq!(pack(&[], 0, 0), Err("data.len() < 3"));
}

#[test]
fn pack_rejects_garbage_that_does_not_fit() {
    assert!(pack(&[0, 0, 0], 0, 64).is_err());
}

#[test]
fn pack_places_garbage_in_last_character() {
    assert_eq!(pack(&[0xff, 0xff, 0xfc], 2, 3), Ok(("wwww".to_string(), 2)));
    assert_eq!(pack(&[0xff, 0xff, 0xff], 0, 0), Ok(("wwww".to_string(), 0)));
}

#[test]
fn pack_drop_six_emits_three_characters() {
    // Three bytes of which six bits are padding: three characters, no fill.
    assert_eq!(pack(&[0xff, 0xff, 0xc0], 6, 0), Ok(("www".to_string(), 0)));
}

#[test]
fn armor_round_trip_all_tail_shapes() {
    let bodies = [
        "13HOI:0P0000VOHLCnHQKwvL05Ip",
        "53cjbg00?ImDTs;;;J0l4Tr22222222222222209000",
        "802R5Ph0BkDhjPF?qRGbOwwwwwwwwwww2wwwwwwwwwwwwwwwwwwwwwwwwww",
        "wwwww",
        "wwwwww",
        "wwwwwww",
        "wwwwwwww",
        "w0w0w",
    ];
    for body in bodies {
        for fill in 0u8..6 {
            let (bytes, drop_bits, garbage) = unpack(body, fill).unwrap();
            if bytes.len() < 3 {
                continue;
            }
            assert_eq!(pack(&bytes, drop_bits, garbage), Ok((body.to_string(), fill)), "{body} {fill}");
        }
    }
}
