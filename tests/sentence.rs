use ais_compact::sentence::{ChannelCode, Field, Metadata, Nmea, ParseError, TalkerID};
use ais_compact::verify_checksum;

#[test]
fn parse_1() {
    Nmea::parse("!AIVDM,1,1,,A,13HOI:0P0000VOHLCnHQKwvL05Ip,0*23").unwrap();
}

#[test]
fn parse_reads_every_field() {
    let n = Nmea::parse("!AIVDM,2,1,3,B,55Upuv00,2*3B").unwrap();
    assert_eq!(
        n.metadata,
        Metadata {
            talker: TalkerID::AI,
            length: 2,
            index: 1,
            message_id: 3,
            channel: ChannelCode::B,
            fill_bits: 2,
            checksum: 0x3b,
        }
    );
    assert_eq!(n.body, "55Upuv00");
}

#[test]
fn parse_absent_fields() {
    let n = Nmea::parse("!BSVDM,1,1,,,13HO,0*23").unwrap();
    assert_eq!(n.metadata.talker, TalkerID::BS);
    assert_eq!(n.metadata.message_id, 0xff);
    assert_eq!(n.metadata.channel, ChannelCode::Missing);
}

#[test]
fn parse_errors_name_the_field() {
    let cases = [
        ("AIVDM,1,1,,A,13HO,0*23", Field::Start, 0),
        ("!XXVDM,1,1,,A,13HO,0*23", Field::TalkerId, 1),
        ("!AIVDO,1,1,,A,13HO,0*23", Field::SentenceType, 3),
        ("!AIVDM,256,1,,A,13HO,0*23", Field::Length, 7),
        ("!AIVDM,1,,,A,13HO,0*23", Field::Index, 9),
        ("!AIVDM,1,1,255,A,13HO,0*23", Field::MessageId, 11),
        ("!AIVDM,1,1,,C,13HO,0*23", Field::Channel, 12),
        ("!AIVDM,1,1,,A,,0*23", Field::Body, 14),
        ("!AIVDM,1,1,,A,13HO,6*23", Field::FillBits, 19),
        ("!AIVDM,1,1,,A,13HO,0*2", Field::Checksum, 21),
        ("!AIVDM,1,1,,A,13HO,0*23\n", Field::Checksum, 21),
    ];
    for (line, field, position) in cases {
        assert_eq!(Nmea::parse(line).err(), Some(ParseError { field, position }), "{line}");
    }
}

#[test]
fn print_is_parse_inverse() {
    for line in [
        "!AIVDM,1,1,,A,13HOI:0P0000VOHLCnHQKwvL05Ip,0*23",
        "!AIVDM,2,1,1,B,53cjbg00?ImDTs;;;J0l4Tr22222222222222209000,0*51",
        "!SAVDM,255,10,0,2,w,5*0F",
        "!ABVDM,1,1,,,13HO,0*23",
    ] {
        assert_eq!(Nmea::parse(line).unwrap().to_string(), line);
    }
}

#[test]
fn print_normalises_hex_case_and_leading_zeros() {
    let n = Nmea::parse("!AIVDM,01,1,,A,13HO,0*3b").unwrap();
    assert_eq!(n.to_string(), "!AIVDM,1,1,,A,13HO,0*3B");
}

#[test]
fn checksum_valid_and_invalid() {
    assert_eq!(
        verify_checksum("!AIVDM,1,1,,A,13HOI:0P0000VOHLCnHQKwvL05Ip,0*23"),
        Ok((true, 0x23))
    );
    assert_eq!(
        verify_checksum("!AIVDM,1,1,,A,13HOI:0P0000VOHLCnHQKwvL05Ip,0*24"),
        Ok((false, 0x24))
    );
    // Lower-case hex is read too.
    assert_eq!(verify_checksum("!AIVDM,2,1,3,A,55Upuv00?I98cQW?OC<th4P0000000000000000U40?,0*3b"), Ok((true, 0x3b)));
}

#[test]
fn checksum_of_a_small_frame() {
    // 'A' ^ 'B' == 0x03.
    assert_eq!(verify_checksum("!AB*03"), Ok((true, 3)));
    assert_eq!(verify_checksum("!AB*00"), Ok((false, 0)));
}

#[test]
fn checksum_refuses_malformed_lines() {
    assert!(verify_checksum("").is_err());
    assert!(verify_checksum("!*00").is_err());
    assert!(verify_checksum("AB*03").is_err());
    assert!(verify_checksum("!AB*0G").is_err());
    assert!(verify_checksum("!A*B*03").is_err());
    assert!(verify_checksum("!AB*033").is_err());
}
