//! Lines of text as a reader hands them over: each is freed of the white space at its two ends
//! and then taken as bytes.

use crate::combine::{combine, combine_spec, texts, Failure, Recovered};
use vstd::prelude::*;
use vstd::slice::slice_to_vec;
use vstd::utf8::encode_utf8;

verus! {

/// What `str::trim` returns for a line: the line without the white space at its two ends.
pub uninterp spec fn trimmed(line: Seq<char>) -> Seq<char>;

/// Calls `str::trim`, which returns the part of the line that is left when the white space at
/// its start and at its end is taken away. The contract only names that part.
#[verifier::external_body]
fn trim_line(line: &str) -> (r: &str)
    ensures
        r@ == trimmed(line@),
{
    line.trim()
}

/// The bytes of a line without the white space at its two ends.
pub open spec fn line_bytes(line: Seq<char>) -> Seq<u8> {
    encode_utf8(trimmed(line))
}

/// The bytes of every line.
pub open spec fn all_line_bytes(lines: Seq<String>) -> Seq<Seq<u8>> {
    Seq::new(lines.len(), |i: int| line_bytes(lines[i]@))
}

/// Frees every line of the white space at its two ends and returns its bytes.
pub fn trimmed_lines(lines: &Vec<String>) -> (r: Vec<Vec<u8>>)
    ensures
        texts(r@) == all_line_bytes(lines@),
{
    let mut bytes: Vec<Vec<u8>> = Vec::new();
    let mut i: usize = 0;
    while i < lines.len()
        invariant
            i <= lines@.len(),
            bytes@.len() == i,
            forall|k: int| 0 <= k < i ==> (#[trigger] bytes@[k])@ == line_bytes(lines@[k]@),
        decreases lines@.len() - i,
    {
        let line = trim_line(lines[i].as_str());
        bytes.push(slice_to_vec(line.as_bytes()));
        i = i + 1;
    }
    assert(texts(bytes@) =~= all_line_bytes(lines@));
    bytes
}

/// Reconstructs the secret from the lines of a text, one share a line, each line taken without
/// the white space around it.
pub fn combine_text(lines: &Vec<String>) -> (r: Result<Recovered, Failure>)
    ensures
        match combine_spec(all_line_bytes(lines@)) {
            Ok((secret, ignored)) => r is Ok && r->Ok_0.secret@ == secret && r->Ok_0.ignored@
                == ignored,
            Err((e, None)) => r == Err::<Recovered, Failure>(Failure { kind: e, line: None }),
            Err((e, Some(n))) => r == Err::<Recovered, Failure>(
                Failure { kind: e, line: Some(n as usize) },
            ),
        },
{
    let bytes = trimmed_lines(lines);
    combine(&bytes)
}

} // verus!
