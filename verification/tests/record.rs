use shamir_combine::error::ShareError;
use shamir_combine::hexcodec::decode_hex;
use shamir_combine::record::{
    parse_decimal, parse_line, parse_u16, split_fields, word_offset, ShareRecord,
};

#[test]
fn decode_hex_pairs_digits() {
    assert_eq!(decode_hex(b"41"), Ok(vec![0x41]));
    assert_eq!(decode_hex(b"00ff10"), Ok(vec![0x00, 0xff, 0x10]));
    assert_eq!(decode_hex(b"48656c6c6f"), Ok(b"Hello".to_vec()));
    assert_eq!(decode_hex(b""), Ok(vec![]));
}

#[test]
fn decode_hex_takes_both_cases() {
    assert_eq!(decode_hex(b"aBcDeF"), Ok(vec![0xab, 0xcd, 0xef]));
    assert_eq!(decode_hex(b"F9b4Ca"), Ok(vec![0xf9, 0xb4, 0xca]));
}

#[test]
fn decode_hex_refuses_odd_length_and_other_bytes() {
    assert_eq!(decode_hex(b"123"), Err(ShareError::InvalidHex));
    assert_eq!(decode_hex(b"4g"), Err(ShareError::InvalidHex));
    assert_eq!(decode_hex(b"4 "), Err(ShareError::InvalidHex));
    assert_eq!(decode_hex(b"/0"), Err(ShareError::InvalidHex));
    assert_eq!(decode_hex(b":0"), Err(ShareError::InvalidHex));
    assert_eq!(decode_hex(b"@0"), Err(ShareError::InvalidHex));
    assert_eq!(decode_hex(b"G0"), Err(ShareError::InvalidHex));
    assert_eq!(decode_hex(b"`0"), Err(ShareError::InvalidHex));
    assert_eq!(decode_hex("é".as_bytes()), Err(ShareError::InvalidHex));
}

#[test]
fn split_fields_splits_at_every_separator() {
    assert_eq!(split_fields(b""), vec![Vec::<u8>::new()]);
    assert_eq!(split_fields(b"abc"), vec![b"abc".to_vec()]);
    assert_eq!(
        split_fields(b"2=8=1=41="),
        vec![b"2".to_vec(), b"8".to_vec(), b"1".to_vec(), b"41".to_vec(), vec![]]
    );
    assert_eq!(split_fields(b"=="), vec![Vec::<u8>::new(), vec![], vec![]]);
    assert_eq!(split_fields(b"=a"), vec![vec![], b"a".to_vec()]);
}

#[test]
fn parse_decimal_reads_digits() {
    assert_eq!(parse_decimal(b"0"), Some(0));
    assert_eq!(parse_decimal(b"7"), Some(7));
    assert_eq!(parse_decimal(b"128"), Some(128));
    assert_eq!(parse_decimal(b"007"), Some(7));
    assert_eq!(parse_decimal(b"+5"), Some(5));
    assert_eq!(parse_decimal(b"18446744073709551615"), Some(u64::MAX));
    assert_eq!(parse_decimal(b"000000000000000000000000042"), Some(42));
}

#[test]
fn parse_decimal_refuses_what_is_no_number() {
    assert_eq!(parse_decimal(b""), None);
    assert_eq!(parse_decimal(b"+"), None);
    assert_eq!(parse_decimal(b"-1"), None);
    assert_eq!(parse_decimal(b"++1"), None);
    assert_eq!(parse_decimal(b"1+"), None);
    assert_eq!(parse_decimal(b" 1"), None);
    assert_eq!(parse_decimal(b"1 "), None);
    assert_eq!(parse_decimal(b"1_0"), None);
    assert_eq!(parse_decimal(b"0x10"), None);
    assert_eq!(parse_decimal(b"12a"), None);
    assert_eq!(parse_decimal(b"18446744073709551616"), None);
    assert_eq!(parse_decimal(b"99999999999999999999999"), None);
}

#[test]
fn parse_u16_keeps_to_sixteen_bits() {
    assert_eq!(parse_u16(b"65535"), Some(65535));
    assert_eq!(parse_u16(b"65536"), None);
    assert_eq!(parse_u16(b"8"), Some(8));
    assert_eq!(parse_u16(b""), None);
    assert_eq!(parse_u16(b"x"), None);
}

#[test]
fn parse_line_reads_a_share() {
    assert_eq!(
        parse_line(b"2=8=1=44="),
        Ok(ShareRecord { quorum: 2, width: 8, index: 1, value_bytes: vec![0x44] })
    );
    assert_eq!(
        parse_line(b"3=8=128=ceb4c9="),
        Ok(ShareRecord { quorum: 3, width: 8, index: 128, value_bytes: vec![0xce, 0xb4, 0xc9] })
    );
    assert_eq!(
        parse_line(b"3=8=2=="),
        Ok(ShareRecord { quorum: 3, width: 8, index: 2, value_bytes: vec![] })
    );
}

#[test]
fn parse_line_reads_the_other_widths() {
    assert_eq!(
        parse_line(b"2=4=1=a1="),
        Ok(ShareRecord { quorum: 2, width: 4, index: 1, value_bytes: vec![0xa1] })
    );
    assert_eq!(
        parse_line(b"2=16=300=0102a0b0="),
        Ok(ShareRecord { quorum: 2, width: 16, index: 300, value_bytes: vec![1, 2, 0xa0, 0xb0] })
    );
    assert_eq!(
        parse_line(b"2=32=70000=01020304="),
        Ok(ShareRecord { quorum: 2, width: 32, index: 70000, value_bytes: vec![1, 2, 3, 4] })
    );
}

#[test]
fn parse_line_leaves_ranges_to_the_session() {
    assert_eq!(
        parse_line(b"0=8=0=41="),
        Ok(ShareRecord { quorum: 0, width: 8, index: 0, value_bytes: vec![0x41] })
    );
    assert_eq!(
        parse_line(b"65535=8=18446744073709551615=41="),
        Ok(ShareRecord { quorum: 65535, width: 8, index: u64::MAX, value_bytes: vec![0x41] })
    );
}

#[test]
fn parse_line_refuses_a_wrong_number_of_fields() {
    assert_eq!(parse_line(b""), Err(ShareError::MalformedLine));
    assert_eq!(parse_line(b"2=8=1=41"), Err(ShareError::MalformedLine));
    assert_eq!(parse_line(b"2=8=1"), Err(ShareError::MalformedLine));
    assert_eq!(parse_line(b"2=8=1=41=="), Err(ShareError::MalformedLine));
    assert_eq!(parse_line(b"hello"), Err(ShareError::MalformedLine));
}

#[test]
fn parse_line_refuses_what_is_no_number() {
    assert_eq!(parse_line(b"k=8=1=41="), Err(ShareError::MalformedLine));
    assert_eq!(parse_line(b"2=w=1=41="), Err(ShareError::MalformedLine));
    assert_eq!(parse_line(b"2=8=s=41="), Err(ShareError::MalformedLine));
    assert_eq!(parse_line(b"=8=1=41="), Err(ShareError::MalformedLine));
    assert_eq!(parse_line(b"2==1=41="), Err(ShareError::MalformedLine));
    assert_eq!(parse_line(b"2=8==41="), Err(ShareError::MalformedLine));
    assert_eq!(parse_line(b"65536=8=1=41="), Err(ShareError::MalformedLine));
    assert_eq!(parse_line(b"2=65536=1=41="), Err(ShareError::MalformedLine));
    assert_eq!(parse_line(b"2=8=18446744073709551616=41="), Err(ShareError::MalformedLine));
    assert_eq!(parse_line(b"-2=8=1=41="), Err(ShareError::MalformedLine));
    assert_eq!(parse_line(b" 2=8=1=41="), Err(ShareError::MalformedLine));
}

#[test]
fn parse_line_refuses_text_after_the_last_separator() {
    assert_eq!(parse_line(b"2=8=1=41=x"), Err(ShareError::MalformedLine));
    assert_eq!(parse_line(b"2=8=1=41= "), Err(ShareError::MalformedLine));
}

#[test]
fn parse_line_leaves_the_width_to_the_session() {
    assert_eq!(
        parse_line(b"2=64=1=4141414141414141="),
        Ok(ShareRecord { quorum: 2, width: 64, index: 1, value_bytes: vec![0x41; 8] })
    );
    assert_eq!(
        parse_line(b"2=2=1=41="),
        Ok(ShareRecord { quorum: 2, width: 2, index: 1, value_bytes: vec![0x41] })
    );
    assert_eq!(
        parse_line(b"2=12=2=404040="),
        Ok(ShareRecord { quorum: 2, width: 12, index: 2, value_bytes: vec![0x40, 0x40, 0x40] })
    );
    assert_eq!(
        parse_line(b"2=0=1=="),
        Ok(ShareRecord { quorum: 2, width: 0, index: 1, value_bytes: vec![] })
    );
    assert_eq!(
        parse_line(b"2=65535=1=="),
        Ok(ShareRecord { quorum: 2, width: 65535, index: 1, value_bytes: vec![] })
    );
}

#[test]
fn parse_line_refuses_values_that_are_no_whole_words_of_an_unknown_width() {
    assert_eq!(parse_line(b"2=0=1=41="), Err(ShareError::MalformedLine));
    assert_eq!(parse_line(b"2=5=1=41="), Err(ShareError::MalformedLine));
    assert_eq!(parse_line(b"2=12=1=4040="), Err(ShareError::MalformedLine));
    assert_eq!(parse_line(b"2=64=1=41="), Err(ShareError::MalformedLine));
    assert_eq!(parse_line(b"2=65535=1=41="), Err(ShareError::MalformedLine));
}

#[test]
fn parse_line_decodes_the_values_of_an_unknown_width() {
    assert_eq!(parse_line(b"2=12=1=414="), Err(ShareError::InvalidHex));
    assert_eq!(parse_line(b"2=12=1=4g4g4g="), Err(ShareError::InvalidHex));
    assert_eq!(parse_line(b"2=2=1=zz="), Err(ShareError::InvalidHex));
    assert_eq!(parse_line(b"2=1=1=4="), Err(ShareError::InvalidHex));
}

#[test]
fn parse_line_refuses_values_that_are_no_whole_words() {
    assert_eq!(parse_line(b"2=8=1=414="), Err(ShareError::MalformedLine));
    assert_eq!(parse_line(b"2=16=1=41="), Err(ShareError::MalformedLine));
    assert_eq!(parse_line(b"2=16=1=414141="), Err(ShareError::MalformedLine));
    assert_eq!(parse_line(b"2=32=1=4141="), Err(ShareError::MalformedLine));
    assert_eq!(parse_line(b"2=8=1=zzz="), Err(ShareError::MalformedLine));
}

#[test]
fn parse_line_refuses_half_a_byte_without_padding() {
    assert_eq!(parse_line(b"2=4=1=a="), Err(ShareError::MalformedLine));
    assert_eq!(parse_line(b"2=4=1=a1b="), Err(ShareError::MalformedLine));
}

#[test]
fn parse_line_refuses_values_that_are_not_hexadecimal() {
    assert_eq!(parse_line(b"2=8=1=4g="), Err(ShareError::InvalidHex));
    assert_eq!(parse_line(b"2=8=1=zz="), Err(ShareError::InvalidHex));
    assert_eq!(parse_line(b"2=16=1=41 1="), Err(ShareError::InvalidHex));
    assert_eq!(parse_line(b"2=4=1=x1="), Err(ShareError::InvalidHex));
}

#[test]
fn parse_line_takes_a_plus_sign_and_capital_digits() {
    assert_eq!(
        parse_line(b"+2=+8=+1=4B="),
        Ok(ShareRecord { quorum: 2, width: 8, index: 1, value_bytes: vec![0x4b] })
    );
}

#[test]
fn word_offset_follows_the_width() {
    assert_eq!(word_offset(8, 0), (0, 1));
    assert_eq!(word_offset(8, 5), (5, 6));
    assert_eq!(word_offset(16, 3), (6, 8));
    assert_eq!(word_offset(32, 2), (8, 12));
    assert_eq!(word_offset(4, 0), (0, 1));
    assert_eq!(word_offset(4, 1), (0, 1));
    assert_eq!(word_offset(4, 5), (2, 3));
}
