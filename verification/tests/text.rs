use shamir_combine::combine::{Failure, Recovered};
use shamir_combine::error::ShareError;
use shamir_combine::text::{combine_text, trimmed_lines};

fn text(lines: &[&str]) -> Vec<String> {
    lines.iter().map(|l| l.to_string()).collect()
}

#[test]
fn trimmed_lines_drop_the_white_space_at_both_ends() {
    assert_eq!(
        trimmed_lines(&text(&["  2=8=1=44= ", "\t2=8=2=4b=\r", "", " \n", "a b"])),
        vec![
            b"2=8=1=44=".to_vec(),
            b"2=8=2=4b=".to_vec(),
            Vec::<u8>::new(),
            Vec::<u8>::new(),
            b"a b".to_vec()
        ]
    );
}

#[test]
fn trimmed_lines_keep_other_text_as_its_bytes() {
    assert_eq!(trimmed_lines(&text(&["\u{a0}é=\u{3000}"])), vec!["é=".as_bytes().to_vec()]);
}

#[test]
fn text_with_white_space_around_the_lines_is_read() {
    assert_eq!(
        combine_text(&text(&["2=8=1=44= ", "   2=8=2=4b=\t"])),
        Ok(Recovered { secret: vec![0x41], ignored: vec![] })
    );
}

#[test]
fn text_with_white_space_inside_a_line_is_refused() {
    assert_eq!(
        combine_text(&text(&["2=8=1=44=", "2=8= 2=4b="])),
        Err(Failure { kind: ShareError::MalformedLine, line: Some(2) })
    );
    assert_eq!(
        combine_text(&text(&["2=8=1=44=", " "])),
        Err(Failure { kind: ShareError::MalformedLine, line: Some(2) })
    );
}

#[test]
fn text_of_three_shares_and_two_more() {
    assert_eq!(
        combine_text(&text(&[
            "3=8=1=ffd09a=",
            "3=8=2=d0ebad=",
            "3=8=3=675216=",
            "3=8=4=faf78b=",
            "3=8=128=ceb4c9=",
        ])),
        Ok(Recovered { secret: b"Hi!".to_vec(), ignored: vec![4, 128] })
    );
}

#[test]
fn text_without_a_quorum_is_insufficient() {
    assert_eq!(
        combine_text(&text(&["3=8=1=ffd09a=", "3=8=2=d0ebad="])),
        Err(Failure { kind: ShareError::QuorumInsufficient, line: None })
    );
}
