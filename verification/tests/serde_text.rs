use atat::de::{parse_hex_u128, parse_hex_u16, parse_hex_u32, parse_hex_u64, parse_hex_u8};
use atat::de::{Deserializer, Error};
use atat::ser::{serialize_unit_command, Bytes, SerializeOptions, Serializer};
use atat::ser::{write_bytes, write_u64};

fn after_at(input: &[u8]) -> Vec<u8> {
    let mut d = Deserializer::new(input.to_vec());
    assert_eq!(d.parse_at(), Ok(Some(())));
    d.take_rest()
}

#[test]
fn test_parsing_a_hex_string() {
    let val = parse_hex_u8(&after_at(b"+CCID: 0x8d"));
    assert_eq!(val.val, 0x8d);
    let val = parse_hex_u8(&after_at(b"+CCID: 8:d"));
    assert_eq!(val.val, 0x8d);
    let val = parse_hex_u16(&after_at(b"+CCID: 0x0B00"));
    assert_eq!(val.val, 0x0B00);
    let val = parse_hex_u32(&after_at(b"+CCID: D3AdB3ef"));
    assert_eq!(val.val, 0xd3adb3ef);
    let val = parse_hex_u64(&after_at(b"+CCID: 0xFeedfACECAfeBE3F"));
    assert_eq!(val.val, 0xFeedfACECAfeBE3F);
    let val = parse_hex_u64(&after_at(b"+CCID: 0xFee-dfA-CE-C-Afe-BE-3F"));
    assert_eq!(val.val, 0xFeedfACECAfeBE3F);
    let val = parse_hex_u128(&after_at(b"+CCID: 0x1234567890abcdef1234567890abcdef"));
    assert_eq!(val.val, 0x1234567890abcdef1234567890abcdef);
    let val = parse_hex_u128(&after_at(
        b"+CCID: 0x12:34:56:78:90:ab:cd:ef:12:34:56:78:90:ab:cd:ef",
    ));
    assert_eq!(val.val, 0x1234567890abcdef1234567890abcdef);
}

#[test]
fn simple_struct() {
    // +CFG: 2,56,false  ->  p1: u8 = 2, p2: i16 = 56, p3: bool = false
    let mut d = Deserializer::new(b"+CFG: 2,56,false".to_vec());
    assert_eq!(d.parse_at(), Ok(Some(())));
    assert_eq!(d.parse_unsigned(u8::MAX as u64), Ok(2));
    assert_eq!(d.next_char(), Some(b','));
    assert_eq!(d.parse_unsigned(i16::MAX as u64), Ok(56));
    assert_eq!(d.next_char(), Some(b','));
    assert_eq!(d.parse_bool(), Ok(false));
    assert_eq!(d.end(), Ok(()));
}

#[test]
fn simple_struct_optionals() {
    // +CFG: 2,56  ->  p3: Option<bool> = None
    let mut d = Deserializer::new(b"+CFG: 2,56".to_vec());
    assert_eq!(d.parse_at(), Ok(Some(())));
    assert_eq!(d.parse_unsigned(u8::MAX as u64), Ok(2));
    assert_eq!(d.next_char(), Some(b','));
    assert_eq!(d.parse_unsigned(i16::MAX as u64), Ok(56));
    assert_eq!(d.parse_whitespace(), None);

    // +CFG: 2,56, true  ->  p3 = Some(true)
    let mut d = Deserializer::new(b"+CFG: 2,56, true".to_vec());
    assert_eq!(d.parse_at(), Ok(Some(())));
    assert_eq!(d.parse_unsigned(u8::MAX as u64), Ok(2));
    assert_eq!(d.next_char(), Some(b','));
    assert_eq!(d.parse_unsigned(i16::MAX as u64), Ok(56));
    assert_eq!(d.next_char(), Some(b','));
    assert_eq!(d.parse_bool(), Ok(true));

    // +CFG: 2,56,false  ->  p3 = Some(false)
    let mut d = Deserializer::new(b"+CFG: 2,56,false".to_vec());
    assert_eq!(d.parse_at(), Ok(Some(())));
    assert_eq!(d.parse_unsigned(u8::MAX as u64), Ok(2));
    assert_eq!(d.next_char(), Some(b','));
    assert_eq!(d.parse_unsigned(i16::MAX as u64), Ok(56));
    assert_eq!(d.next_char(), Some(b','));
    assert_eq!(d.parse_bool(), Ok(false));
}

#[test]
fn simple_string() {
    let mut d = Deserializer::new(b"+CCID: \"89883030000005421166\"".to_vec());
    assert_eq!(d.parse_at(), Ok(Some(())));
    assert_eq!(d.next_char(), Some(b'"'));
    assert_eq!(d.parse_str(), Ok(b"89883030000005421166".to_vec()));
}

#[test]
fn cgmi_string() {
    let mut d = Deserializer::new(b"u-blox".to_vec());
    assert_eq!(d.parse_at(), Ok(None));
    assert_eq!(d.take_rest(), b"u-blox".to_vec());
}

#[test]
fn char_test() {
    let mut d = Deserializer::new(b"+CCID: B".to_vec());
    assert_eq!(d.parse_at(), Ok(Some(())));
    assert_eq!(d.next_char(), Some(b'B'));
}

#[test]
fn mod_newtype_struct() {
    let mut d = Deserializer::new(b"+CCID: 15".to_vec());
    assert_eq!(d.parse_at(), Ok(Some(())));
    assert_eq!(d.parse_unsigned(u64::MAX), Ok(15));
}

#[test]
fn parse_bytes_span() {
    let mut d = Deserializer::new(b"u blox 42".to_vec());
    assert_eq!(d.parse_bytes(), Ok(b"u blox 42".to_vec()));
    let mut d = Deserializer::new(b"abc,def".to_vec());
    assert_eq!(d.parse_bytes(), Err(Error::EofWhileParsingString));
}

#[test]
fn parse_ident_and_errors() {
    let mut d = Deserializer::new(b"rue".to_vec());
    assert_eq!(d.parse_ident(b"rue"), Ok(()));
    let mut d = Deserializer::new(b"rum".to_vec());
    assert_eq!(d.parse_ident(b"rue"), Err(Error::ExpectedSomeIdent));
    let mut d = Deserializer::new(b"129x".to_vec());
    assert_eq!(d.parse_unsigned(u8::MAX as u64), Ok(129));
    let mut d = Deserializer::new(b"300".to_vec());
    assert_eq!(d.parse_unsigned(u8::MAX as u64), Err(Error::InvalidNumber));
    let mut d = Deserializer::new(b"-4".to_vec());
    assert_eq!(d.parse_unsigned(u8::MAX as u64), Err(Error::InvalidNumber));
    let mut d = Deserializer::new(b"x".to_vec());
    assert_eq!(d.parse_unsigned(u8::MAX as u64), Err(Error::InvalidType));
    let mut d = Deserializer::new(b"".to_vec());
    assert_eq!(
        d.parse_unsigned(u8::MAX as u64),
        Err(Error::EofWhileParsingValue)
    );
    let mut d = Deserializer::new(b"12 ".to_vec());
    assert_eq!(d.parse_unsigned(u8::MAX as u64), Ok(12));
    assert_eq!(d.end(), Ok(()));
    let mut d = Deserializer::new(b"12 x".to_vec());
    assert_eq!(d.parse_unsigned(u8::MAX as u64), Ok(12));
    assert_eq!(d.end(), Err(Error::TrailingCharacters));
}

#[test]
fn tuple_struct() {
    // A variant with index 4 carrying 15 serializes as "4,15".
    let mut out: Vec<u8> = Vec::new();
    write_u64(&mut out, 4);
    out.push(b',');
    write_u64(&mut out, 15);
    assert_eq!(out, b"4,15".to_vec());
}

#[test]
fn newtype_struct() {
    let mut out: Vec<u8> = Vec::new();
    write_u64(&mut out, 15);
    assert_eq!(out, b"15".to_vec());
}

#[test]
fn byte_serialize() {
    let slice = b"Some bytes";
    let b = Bytes(slice.to_vec());
    let mut s = Serializer::new(b"+CMD", SerializeOptions::default());
    s.field_bytes(&b.0);
    assert_eq!(s.finish(), b"AT+CMD=Some bytes\r\n".to_vec());
}

#[test]
fn char_vec_serialize() {
    let mut out: Vec<u8> = Vec::new();
    write_bytes(&mut out, b"IMP_MSG");
    assert_eq!(out, b"IMP_MSG".to_vec());

    let mut s = Serializer::new(b"+CMD", SerializeOptions::default());
    s.field_bytes(b"IMP_MSG");
    s.field_u64(12);
    assert_eq!(s.finish(), b"AT+CMD=IMP_MSG,12\r\n".to_vec());
}

#[test]
fn unit_command() {
    assert_eq!(
        serialize_unit_command(b"+CSGT?", &SerializeOptions::default()),
        b"AT+CSGT?\r\n".to_vec()
    );
}

#[test]
fn signed_serialize() {
    let mut out: Vec<u8> = Vec::new();
    atat::ser::write_i64(&mut out, -12);
    out.push(b',');
    atat::ser::write_i64(&mut out, 7);
    assert_eq!(out, b"-12,7".to_vec());
}

#[test]
fn bool_serialize() {
    let mut out: Vec<u8> = Vec::new();
    atat::ser::write_bool(&mut out, true);
    out.push(b',');
    atat::ser::write_bool(&mut out, false);
    assert_eq!(out, b"true,false".to_vec());
}

#[test]
fn split_unsolicited() {
    let (cmd, params) = atat::utils::split_parameterized_unsolicited(b"+UUSORD: 3,16");
    assert_eq!(cmd, b"+UUSORD".to_vec());
    assert_eq!(params, vec![b" 3".to_vec(), b"16".to_vec()]);

    let (cmd, params) = atat::utils::split_parameterized_unsolicited(b"+READY");
    assert_eq!(cmd, b"+READY".to_vec());
    assert!(params.is_empty());
}

#[test]
fn split_resp_lines() {
    let lines = vec![b"+CIND: 1,2".to_vec(), b"+XYZ: 5".to_vec()];
    let split = atat::utils::split_parameterized_resp(&lines);
    assert_eq!(split.len(), 2);
    assert_eq!(split[0], vec![b" 5".to_vec()]);
    assert_eq!(split[1], vec![b" 1".to_vec(), b"2".to_vec()]);

    let single = vec![b"justtext".to_vec()];
    let split = atat::utils::split_parameterized_resp(&single);
    assert_eq!(split[0], vec![b"justtext".to_vec()]);
}

#[test]
fn u128_test() {
    let mut d = Deserializer::new(b"+CCID: 89883030000005421166".to_vec());
    assert_eq!(d.parse_at(), Ok(Some(())));
    assert_eq!(d.parse_unsigned_wide(u128::MAX), Ok(89883030000005421166));
}

#[test]
fn parse_bytes_one_byte_characters() {
    // Bytes beyond ASCII are judged as their one-byte characters: the
    // micro sign (0xB5) and a no-break space (0xA0) are accepted in a
    // bare span, the multiplication sign (0xD7) is not.
    let mut d = Deserializer::new(vec![b'a', 0xB5, 0xA0, b'b']);
    assert_eq!(d.parse_bytes(), Ok(vec![b'a', 0xB5, 0xA0, b'b']));
    let mut d = Deserializer::new(vec![b'a', 0xD7, b'b']);
    assert_eq!(d.parse_bytes(), Err(Error::EofWhileParsingString));
}
