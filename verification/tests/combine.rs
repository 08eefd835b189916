use shamir_combine::combine::{combine, parse_shares, Failure, Recovered};
use shamir_combine::error::ShareError;
use shamir_combine::gf256::Field;

fn lines(text: &[&str]) -> Vec<Vec<u8>> {
    text.iter().map(|l| l.as_bytes().to_vec()).collect()
}

fn fail(kind: ShareError, line: Option<usize>) -> Failure {
    Failure { kind, line }
}

fn hex_of(bytes: &[u8]) -> String {
    let mut s = String::new();
    for b in bytes {
        s.push_str(&format!("{:02x}", b));
    }
    s
}

/// The value at `x` of the polynomial with the coefficients `p`, the constant term first.
fn eval(f: &Field, p: &[u8], x: u8) -> u8 {
    let mut r = 0u8;
    for c in p.iter().rev() {
        r = f.add(f.mul(r, x), *c);
    }
    r
}

/// The line of the share with the index `x` for a secret and a quorum, with coefficients that
/// a small generator makes up.
fn split_line(f: &Field, secret: &[u8], quorum: u16, x: u8, seed: u32) -> String {
    let mut state = seed;
    let mut values = Vec::new();
    for word in secret {
        let mut p = vec![*word];
        for _ in 1..quorum {
            state = state.wrapping_mul(1664525).wrapping_add(1013904223);
            p.push((state >> 24) as u8);
        }
        values.push(eval(f, &p, x));
    }
    format!("{}=8={}={}=", quorum, x, hex_of(&values))
}

#[test]
fn one_byte_from_two_shares() {
    let r = combine(&lines(&["2=8=1=44=", "2=8=2=4b="]));
    assert_eq!(r, Ok(Recovered { secret: vec![0x41], ignored: vec![] }));
}

#[test]
fn one_byte_from_one_of_two_shares_is_insufficient() {
    assert_eq!(
        combine(&lines(&["2=8=1=44="])),
        Err(fail(ShareError::QuorumInsufficient, None))
    );
    assert_eq!(
        combine(&lines(&["2=8=2=4b="])),
        Err(fail(ShareError::QuorumInsufficient, None))
    );
}

#[test]
fn no_line_is_insufficient() {
    assert_eq!(combine(&lines(&[])), Err(fail(ShareError::QuorumInsufficient, None)));
}

#[test]
fn one_share_less_than_the_quorum_is_insufficient() {
    let f = Field::new(8).unwrap();
    for k in 2..=6u16 {
        let mut input = Vec::new();
        for x in 1..k {
            input.push(split_line(&f, b"secret", k, x as u8, 7).into_bytes());
        }
        assert_eq!(combine(&input), Err(fail(ShareError::QuorumInsufficient, None)));
    }
}

#[test]
fn order_of_the_shares_does_not_matter() {
    let a = combine(&lines(&["3=8=1=ffd09a=", "3=8=2=d0ebad=", "3=8=128=ceb4c9="])).unwrap();
    let b = combine(&lines(&["3=8=128=ceb4c9=", "3=8=1=ffd09a=", "3=8=2=d0ebad="])).unwrap();
    let c = combine(&lines(&["3=8=2=d0ebad=", "3=8=128=ceb4c9=", "3=8=1=ffd09a="])).unwrap();
    assert_eq!(a.secret, b"Hi!".to_vec());
    assert_eq!(b.secret, b"Hi!".to_vec());
    assert_eq!(c.secret, b"Hi!".to_vec());
}

#[test]
fn shares_beyond_the_quorum_are_reported() {
    let r = combine(&lines(&[
        "3=8=4=faf78b=",
        "3=8=3=675216=",
        "3=8=1=ffd09a=",
        "3=8=2=d0ebad=",
        "3=8=128=ceb4c9=",
    ]));
    assert_eq!(r, Ok(Recovered { secret: b"Hi!".to_vec(), ignored: vec![2, 128] }));
}

#[test]
fn shares_beyond_the_quorum_are_checked() {
    let base = ["2=8=1=44=", "2=8=2=4b="];
    let with = |extra: &str| {
        let mut l = lines(&base);
        l.push(extra.as_bytes().to_vec());
        combine(&l)
    };
    assert_eq!(with("2=8=3=4e="), Ok(Recovered { secret: vec![0x41], ignored: vec![3] }));
    assert_eq!(with("2=8=3=4e"), Err(fail(ShareError::MalformedLine, Some(3))));
    assert_eq!(with("2=8=3=4x="), Err(fail(ShareError::InvalidHex, Some(3))));
    assert_eq!(with("2=8=300=4e="), Err(fail(ShareError::BadShareIndex, Some(3))));
    assert_eq!(with("3=8=3=4e="), Err(fail(ShareError::InconsistentShare, Some(3))));
    assert_eq!(with("2=8=3=4e4e="), Err(fail(ShareError::InconsistentShare, Some(3))));
    assert_eq!(with("2=8=2=4e="), Err(fail(ShareError::DuplicateShareIndex, Some(3))));
}

#[test]
fn same_index_twice_is_refused() {
    assert_eq!(
        combine(&lines(&["2=8=1=44=", "2=8=1=44="])),
        Err(fail(ShareError::DuplicateShareIndex, Some(2)))
    );
    assert_eq!(
        combine(&lines(&["2=8=1=44=", "2=8=1=4b="])),
        Err(fail(ShareError::DuplicateShareIndex, Some(2)))
    );
    assert_eq!(
        combine(&lines(&["3=8=5=44=", "3=8=6=44=", "3=8=5=00="])),
        Err(fail(ShareError::DuplicateShareIndex, Some(3)))
    );
}

#[test]
fn same_index_twice_is_refused_among_the_shares_left_out() {
    assert_eq!(
        combine(&lines(&["2=8=1=44=", "2=8=2=4b=", "2=8=3=4e=", "2=8=3=4e="])),
        Err(fail(ShareError::DuplicateShareIndex, Some(4)))
    );
    assert_eq!(
        combine(&lines(&["1=8=1=44=", "1=8=2=4b=", "1=8=3=4e=", "1=8=2=00="])),
        Err(fail(ShareError::DuplicateShareIndex, Some(4)))
    );
}

#[test]
fn failure_of_a_line_names_the_line() {
    assert_eq!(
        combine(&lines(&["2=8=1=44"])),
        Err(fail(ShareError::MalformedLine, Some(1)))
    );
    assert_eq!(
        combine(&lines(&["2=8=1=44=", "nonsense"])),
        Err(fail(ShareError::MalformedLine, Some(2)))
    );
    assert_eq!(
        combine(&lines(&["2=8=1=44=", "2=8=2=4q="])),
        Err(fail(ShareError::InvalidHex, Some(2)))
    );
    assert_eq!(
        combine(&lines(&["2=2=1=44="])),
        Err(fail(ShareError::UnsupportedFieldWidth, Some(1)))
    );
    assert_eq!(
        combine(&lines(&["2=12=1=404040="])),
        Err(fail(ShareError::UnsupportedFieldWidth, Some(1)))
    );
    assert_eq!(
        combine(&lines(&["2=7=1=44="])),
        Err(fail(ShareError::MalformedLine, Some(1)))
    );
    assert_eq!(
        combine(&lines(&["2=12=1=4040="])),
        Err(fail(ShareError::MalformedLine, Some(1)))
    );
    assert_eq!(
        combine(&lines(&["2=12=1=4g4g4g="])),
        Err(fail(ShareError::InvalidHex, Some(1)))
    );
    assert_eq!(combine(&lines(&["0=8=1=44="])), Err(fail(ShareError::BadQuorum, Some(1))));
    assert_eq!(combine(&lines(&["200=8=1=44="])), Err(fail(ShareError::BadQuorum, Some(1))));
    assert_eq!(combine(&lines(&["2=8=0=44="])), Err(fail(ShareError::BadShareIndex, Some(1))));
    assert_eq!(
        combine(&lines(&["2=8=1=44=", "2=8=129=4b="])),
        Err(fail(ShareError::BadShareIndex, Some(2)))
    );
    assert_eq!(
        combine(&lines(&["2=8=1=44=", "2=16=2=4b4b="])),
        Err(fail(ShareError::InconsistentShare, Some(2)))
    );
    assert_eq!(
        combine(&lines(&["2=8=1=44=", "2=8=2=4b=", "", "2=8=3=4e="])),
        Err(fail(ShareError::MalformedLine, Some(3)))
    );
}

#[test]
fn later_line_that_disagrees_with_the_first_is_inconsistent() {
    assert_eq!(
        combine(&lines(&["2=8=1=40=", "3=8=2=43="])),
        Err(fail(ShareError::InconsistentShare, Some(2)))
    );
    assert_eq!(
        combine(&lines(&["2=8=1=40=", "2=8=2=4343="])),
        Err(fail(ShareError::InconsistentShare, Some(2)))
    );
    assert_eq!(
        combine(&lines(&["2=8=1=40=", "2=16=2=4343="])),
        Err(fail(ShareError::InconsistentShare, Some(2)))
    );
    assert_eq!(
        combine(&lines(&["2=8=1=40=", "2=12=2=404040="])),
        Err(fail(ShareError::InconsistentShare, Some(2)))
    );
    assert_eq!(
        combine(&lines(&["2=8=1=40=", "2=0=2=="])),
        Err(fail(ShareError::InconsistentShare, Some(2)))
    );
    assert_eq!(
        combine(&lines(&["2=8=1=40=", "2=12=2=4040="])),
        Err(fail(ShareError::MalformedLine, Some(2)))
    );
}

#[test]
fn first_failure_wins() {
    assert_eq!(
        combine(&lines(&["2=8=1=44=", "2=8=1=4b=", "garbage"])),
        Err(fail(ShareError::DuplicateShareIndex, Some(2)))
    );
}

#[test]
fn other_widths_have_no_field() {
    assert_eq!(
        combine(&lines(&["1=4=1=a1="])),
        Err(fail(ShareError::UnsupportedFieldWidth, None))
    );
    assert_eq!(
        combine(&lines(&["2=16=1=0102=", "2=16=2=0304="])),
        Err(fail(ShareError::UnsupportedFieldWidth, None))
    );
    assert_eq!(
        combine(&lines(&["1=32=1=01020304="])),
        Err(fail(ShareError::UnsupportedFieldWidth, None))
    );
    assert_eq!(
        combine(&lines(&["2=16=1=0102="])),
        Err(fail(ShareError::QuorumInsufficient, None))
    );
}

#[test]
fn empty_secret_comes_back_empty() {
    assert_eq!(
        combine(&lines(&["2=8=1==", "2=8=2=="])),
        Ok(Recovered { secret: vec![], ignored: vec![] })
    );
}

#[test]
fn parse_shares_returns_the_session() {
    let d = parse_shares(&lines(&["2=8=1=44=", "2=8=2=4b=", "2=8=9=00="])).unwrap();
    assert_eq!(d.quorum(), 2);
    assert_eq!(d.width(), 8);
    assert_eq!(d.share_len(), 1);
    assert_eq!(d.x_values(), &vec![1u64, 2]);
    assert_eq!(d.shares(), &vec![0x44u8, 0x4b]);
    assert!(d.is_complete());
    assert_eq!(d.left_out(), &vec![9u64]);
}

#[test]
fn parse_shares_of_no_line_is_an_empty_session() {
    let d = parse_shares(&lines(&[])).unwrap();
    assert!(!d.is_complete());
    assert_eq!(d.quorum(), 0);
    assert!(d.left_out().is_empty());
}

#[test]
fn parse_shares_stops_at_the_first_bad_line() {
    let r = parse_shares(&lines(&["2=8=1=44=", "2=8=2=4b=x", "2=8=3=4e="]));
    assert_eq!(r.unwrap_err(), fail(ShareError::MalformedLine, Some(2)));
}

#[test]
fn secret_comes_back_from_every_quorum_of_the_shares() {
    let f = Field::new(8).unwrap();
    let secret = b"The quick brown fox \x00\xff\x80";
    let points: [u8; 5] = [1, 2, 77, 127, 128];
    for k in 1..=4u16 {
        let shares: Vec<String> =
            points.iter().map(|x| split_line(&f, secret, k, *x, 42 + k as u32)).collect();
        for mask in 0u32..32 {
            if mask.count_ones() != k as u32 {
                continue;
            }
            let mut input = Vec::new();
            for i in 0..5 {
                if mask & (1 << i) != 0 {
                    input.push(shares[i].clone().into_bytes());
                }
            }
            let r = combine(&input).unwrap();
            assert_eq!(r.secret, secret.to_vec());
            assert!(r.ignored.is_empty());
            input.reverse();
            assert_eq!(combine(&input).unwrap().secret, secret.to_vec());
        }
    }
}

#[test]
fn secret_comes_back_from_the_largest_quorum() {
    let f = Field::new(8).unwrap();
    let secret = b"128 shares";
    let mut input = Vec::new();
    for x in 1..=128u8 {
        input.push(split_line(&f, secret, 128, x, 99).into_bytes());
    }
    assert_eq!(combine(&input).unwrap().secret, secret.to_vec());
    input.rotate_left(50);
    assert_eq!(combine(&input).unwrap().secret, secret.to_vec());
    input.pop();
    assert_eq!(combine(&input), Err(fail(ShareError::QuorumInsufficient, None)));
}

#[test]
fn more_shares_than_the_quorum_use_the_first() {
    let f = Field::new(8).unwrap();
    let secret = b"over-supply";
    let mut input = Vec::new();
    for x in [9u8, 3, 100, 4, 55, 128] {
        input.push(split_line(&f, secret, 3, x, 5).into_bytes());
    }
    let r = combine(&input).unwrap();
    assert_eq!(r.secret, secret.to_vec());
    assert_eq!(r.ignored, vec![4, 55, 128]);
}
