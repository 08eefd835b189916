//! One share as a line of text, `K=W=S=VALUES=`, and the record that it stands for.

use crate::error::ShareError;
use crate::hexcodec::{decode_hex, hex_bytes, is_hex};
use vstd::prelude::*;

verus! {

/// One parsed share.
#[derive(Debug, PartialEq, Eq)]
pub struct ShareRecord {
    /// The number of shares needed to reconstruct the secret.
    pub quorum: u16,
    /// The width of the field in bits.
    pub width: u16,
    /// The point at which the secret polynomials were evaluated for this share.
    pub index: u64,
    /// The values of the polynomials at that point, one word after the other.
    pub value_bytes: Vec<u8>,
}

/// What a share record holds, as mathematical values.
pub struct ShareData {
    pub quorum: u16,
    pub width: u16,
    pub index: u64,
    pub value_bytes: Seq<u8>,
}

impl View for ShareRecord {
    type V = ShareData;

    open spec fn view(&self) -> ShareData {
        ShareData {
            quorum: self.quorum,
            width: self.width,
            index: self.index,
            value_bytes: self.value_bytes@,
        }
    }
}

/// The byte `=`, which separates the fields of a line.
pub const SEPARATOR: u8 = 0x3d;

/// The fields of a line: the stretches between its separators, so that a line with `n`
/// separators has `n + 1` fields, some of them possibly empty.
pub open spec fn fields(s: Seq<u8>) -> Seq<Seq<u8>>
    decreases s.len(),
{
    if s.len() == 0 {
        seq![Seq::<u8>::empty()]
    } else {
        let before = fields(s.drop_last());
        if s.last() == SEPARATOR {
            before.push(Seq::<u8>::empty())
        } else {
            before.drop_last().push(before.last().push(s.last()))
        }
    }
}

/// Whether every byte of `s` is a decimal digit.
pub open spec fn is_digits(s: Seq<u8>) -> bool {
    forall|i: int| 0 <= i < s.len() ==> 0x30 <= #[trigger] s[i] <= 0x39
}

/// The number that the decimal digits `s` write.
pub open spec fn digits_value(s: Seq<u8>) -> nat
    decreases s.len(),
{
    if s.len() == 0 {
        0
    } else {
        10 * digits_value(s.drop_last()) + (s.last() - 0x30) as nat
    }
}

/// The digits of a number: the text without a leading `+`.
pub open spec fn unsigned_digits(s: Seq<u8>) -> Seq<u8> {
    if s.len() > 0 && s[0] == 0x2b {
        s.drop_first()
    } else {
        s
    }
}

/// The number that `s` writes, where it is one or more decimal digits after an optional `+`
/// and the number is at most `max`.
pub open spec fn decimal(s: Seq<u8>, max: nat) -> Option<nat> {
    let d = unsigned_digits(s);
    if d.len() > 0 && is_digits(d) && digits_value(d) <= max {
        Some(digits_value(d))
    } else {
        None
    }
}

/// The field widths that a share may name.
pub open spec fn valid_width(width: u16) -> bool {
    width == 4 || width == 8 || width == 16 || width == 32
}

/// The bytes of a share's values that hold word `i`, as the place of the first and the place
/// after the last: `W/8` bytes a word for widths of 8 bits and more, and for a width of 4 bits
/// the one byte that holds the word as one of its two halves.
pub open spec fn word_range(width: u16, i: nat) -> (nat, nat) {
    if width == 4 {
        (i / 2, i / 2 + 1)
    } else {
        (i * (width as nat / 8), (i + 1) * (width as nat / 8))
    }
}

/// Whether `digits` hexadecimal digits, of four bits each, are whole words of `width` bits:
/// whether four times their number is a multiple of the width. Of zero only zero is a multiple.
pub open spec fn whole_words(digits: nat, width: u16) -> bool {
    if width == 0 {
        digits == 0
    } else {
        (4 * digits) % (width as nat) == 0
    }
}

/// What a line parses to: the record, or the reason for which the line is refused. The width
/// of a record that is returned may be any number: the session judges it.
pub open spec fn parse_spec(line: Seq<u8>) -> Result<ShareData, ShareError> {
    let f = fields(line);
    if f.len() != 5 {
        Err(ShareError::MalformedLine)
    } else if decimal(f[0], 0xffff) is None || decimal(f[1], 0xffff) is None || decimal(
        f[2],
        0xffff_ffff_ffff_ffff,
    ) is None || f[4].len() != 0 {
        Err(ShareError::MalformedLine)
    } else {
        let width = decimal(f[1], 0xffff)->0 as u16;
        if !whole_words(f[3].len(), width) || (width == 4 && f[3].len() % 2 != 0) {
            Err(ShareError::MalformedLine)
        } else if !is_hex(f[3]) {
            Err(ShareError::InvalidHex)
        } else {
            Ok(
                ShareData {
                    quorum: decimal(f[0], 0xffff)->0 as u16,
                    width,
                    index: decimal(f[2], 0xffff_ffff_ffff_ffff)->0 as u64,
                    value_bytes: hex_bytes(f[3]),
                },
            )
        }
    }
}

/// A number does not shrink when digits are added to it.
proof fn lemma_digits_grow(s: Seq<u8>, k: int)
    requires
        0 <= k <= s.len(),
        is_digits(s),
    ensures
        digits_value(s.take(k)) <= digits_value(s),
    decreases s.len(),
{
    if k == s.len() {
        assert(s.take(k) =~= s);
    } else {
        lemma_digits_grow(s.drop_last(), k);
        assert(s.drop_last().take(k) =~= s.take(k));
    }
}

/// Finds the bytes that hold word `word_index` in the values of a share.
pub fn word_offset(width: u16, word_index: usize) -> (r: (usize, usize))
    requires
        valid_width(width),
        word_range(width, word_index as nat).1 <= usize::MAX,
    ensures
        r.0 == word_range(width, word_index as nat).0,
        r.1 == word_range(width, word_index as nat).1,
{
    if width == 4 {
        (word_index / 2, word_index / 2 + 1)
    } else {
        let bytes: usize = (width / 8) as usize;
        assert(word_index * bytes <= (word_index + 1) * bytes && word_index + 1 <= (word_index
            + 1) * bytes) by (nonlinear_arith)
            requires
                bytes >= 1,
        ;
        (word_index * bytes, (word_index + 1) * bytes)
    }
}

/// Splits a line at its separators.
pub fn split_fields(line: &[u8]) -> (r: Vec<Vec<u8>>)
    ensures
        r@.len() == fields(line@).len(),
        forall|k: int| 0 <= k < r@.len() ==> (#[trigger] r@[k])@ == fields(line@)[k],
{
    let mut done: Vec<Vec<u8>> = Vec::new();
    let mut cur: Vec<u8> = Vec::new();
    let mut i: usize = 0;
    assert(line@.take(0) =~= Seq::<u8>::empty());
    while i < line.len()
        invariant
            i <= line.len(),
            fields(line@.take(i as int)).len() == done@.len() + 1,
            forall|k: int|
                0 <= k < done@.len() ==> (#[trigger] done@[k])@ == fields(line@.take(i as int))[k],
            cur@ == fields(line@.take(i as int)).last(),
        decreases line.len() - i,
    {
        let c = line[i];
        proof {
            assert(line@.take(i + 1).drop_last() =~= line@.take(i as int));
            assert(line@.take(i + 1).last() == c);
        }
        if c == SEPARATOR {
            done.push(cur);
            cur = Vec::new();
        } else {
            cur.push(c);
        }
        i = i + 1;
    }
    assert(line@.take(i as int) =~= line@);
    done.push(cur);
    done
}

/// Reads a decimal number: one or more digits after an optional `+`, no other byte, and a
/// value that fits in 64 bits.
pub fn parse_decimal(s: &[u8]) -> (r: Option<u64>)
    ensures
        match decimal(s@, 0xffff_ffff_ffff_ffff) {
            Some(n) => r == Some(n as u64),
            None => r is None,
        },
{
    let n = s.len();
    let start: usize = if n > 0 && s[0] == 0x2b {
        1
    } else {
        0
    };
    if start == n {
        return None;
    }
    let ghost d = unsigned_digits(s@);
    assert(d =~= s@.subrange(start as int, n as int));
    let mut acc: u64 = 0;
    let mut i: usize = start;
    assert(d.take(0) =~= Seq::<u8>::empty());
    while i < n
        invariant
            start <= i <= n,
            n == s@.len(),
            d == s@.subrange(start as int, n as int),
            d == unsigned_digits(s@),
            is_digits(d.take(i - start)),
            acc == digits_value(d.take(i - start)),
        decreases n - i,
    {
        let c = s[i];
        assert(d[i - start] == c);
        if c < 0x30 || c > 0x39 {
            return None;
        }
        let v: u64 = (c - 0x30) as u64;
        proof {
            assert(d.take(i + 1 - start).drop_last() =~= d.take(i - start));
            assert(d.take(i + 1 - start).last() == c);
            assert(is_digits(d.take(i + 1 - start))) by {
                assert forall|k: int| 0 <= k < i + 1 - start implies 0x30 <= #[trigger] d.take(
                    i + 1 - start,
                )[k] <= 0x39 by {
                    if k < i - start {
                        assert(d.take(i - start)[k] == d[k]);
                    }
                }
            }
        }
        if acc > (u64::MAX - v) / 10 {
            proof {
                if is_digits(d) {
                    lemma_digits_grow(d, i + 1 - start);
                }
            }
            return None;
        }
        acc = acc * 10 + v;
        i = i + 1;
    }
    assert(d.take(n - start) =~= d);
    Some(acc)
}

/// Reads a decimal number that fits in 16 bits.
pub fn parse_u16(s: &[u8]) -> (r: Option<u16>)
    ensures
        match decimal(s@, 0xffff) {
            Some(n) => r == Some(n as u16),
            None => r is None,
        },
{
    match parse_decimal(s) {
        Some(n) => if n <= 0xffff {
            Some(n as u16)
        } else {
            None
        },
        None => None,
    }
}

/// Parses one line of the form `K=W=S=VALUES=`: the quorum, the field width and the share
/// index in decimal, the values in hexadecimal, and nothing after the last separator. The
/// values must be whole words of the width, and for a width of 4 bits whole bytes; whether
/// the width, the quorum and the index can be used is left to the session.
pub fn parse_line(line: &[u8]) -> (r: Result<ShareRecord, ShareError>)
    ensures
        match parse_spec(line@) {
            Ok(d) => r is Ok && r->Ok_0@ == d,
            Err(e) => r == Err::<ShareRecord, ShareError>(e),
        },
{
    let f = split_fields(line);
    if f.len() != 5 {
        return Err(ShareError::MalformedLine);
    }
    let quorum = match parse_u16(f[0].as_slice()) {
        Some(k) => k,
        None => { return Err(ShareError::MalformedLine); },
    };
    let width = match parse_u16(f[1].as_slice()) {
        Some(w) => w,
        None => { return Err(ShareError::MalformedLine); },
    };
    let index = match parse_decimal(f[2].as_slice()) {
        Some(s) => s,
        None => { return Err(ShareError::MalformedLine); },
    };
    if f[4].len() != 0 {
        return Err(ShareError::MalformedLine);
    }
    let digits: usize = f[3].len();
    let whole: bool = if width == 0 {
        digits == 0
    } else {
        (4 * (digits as u128)) % (width as u128) == 0
    };
    if !whole || (width == 4 && digits % 2 != 0) {
        return Err(ShareError::MalformedLine);
    }
    match decode_hex(f[3].as_slice()) {
        Ok(value_bytes) => Ok(ShareRecord { quorum, width, index, value_bytes }),
        Err(e) => Err(e),
    }
}

} // verus!
