//! The reconstruction session: the shares that it holds, up to a quorum of them, and the two
//! passes that turn them into the secret.

use crate::error::ShareError;
use crate::gf256::Field;
use crate::lagrange::{
    coefficients, column, dot, first_fault, lagrange_coefficients, lemma_coefficients_exist,
    recover_words,
};
use crate::record::{valid_width, ShareData, ShareRecord};
use vstd::arithmetic::power2::{lemma2_to64, pow2};
use vstd::prelude::*;
use vstd::slice::slice_to_vec;

verus! {

/// The largest quorum and the largest share index for a field width: `2^(W-1)`.
pub open spec fn index_limit(width: u16) -> nat {
    pow2((width - 1) as nat)
}

/// The share indexes as elements of GF(2^8).
pub open spec fn points(x_values: Seq<u64>) -> Seq<u8> {
    Seq::new(x_values.len(), |i: int| x_values[i] as u8)
}

/// What became of a share that was offered to a session and not refused.
#[derive(Clone, Copy, Debug, PartialEq, Eq, Structural)]
pub enum Admission {
    /// The share is held and will take part in the reconstruction.
    Accepted,
    /// A quorum was held already: the share was checked and left out.
    Ignored,
}

/// A reconstruction session.
#[derive(Debug)]
pub struct Decoder {
    started: bool,
    quorum: u16,
    width: u16,
    share_len: usize,
    x_values: Vec<u64>,
    shares: Vec<u8>,
    left_out: Vec<u64>,
    coefficients: Vec<u8>,
    solution: Vec<u8>,
}

/// What a session holds, as mathematical values.
pub struct DecoderState {
    /// Whether a first share has fixed quorum, width and share length.
    pub started: bool,
    pub quorum: u16,
    pub width: u16,
    /// The number of value bytes of every share.
    pub share_len: nat,
    /// The indexes of the shares held, in the order of their arrival.
    pub x_values: Seq<u64>,
    /// The value bytes of the shares held, one share after the other.
    pub shares: Seq<u8>,
    /// The indexes of the shares that arrived when a quorum was held and were left out, in the
    /// order of their arrival.
    pub left_out: Seq<u64>,
    /// The Lagrange coefficients, once the first pass has run; empty before.
    pub coefficients: Seq<u8>,
    /// The secret, once the second pass has run; empty before.
    pub solution: Seq<u8>,
}

impl DecoderState {
    /// The state of a session that has seen no share.
    pub open spec fn empty() -> DecoderState {
        DecoderState {
            started: false,
            quorum: 0,
            width: 0,
            share_len: 0,
            x_values: Seq::empty(),
            shares: Seq::empty(),
            left_out: Seq::empty(),
            coefficients: Seq::empty(),
            solution: Seq::empty(),
        }
    }

    /// Whether a quorum of shares is held.
    pub open spec fn complete(self) -> bool {
        self.started && self.x_values.len() == self.quorum
    }

    /// The indexes of all the shares that the session has taken, held or left out.
    pub open spec fn seen(self) -> Seq<u64> {
        self.x_values + self.left_out
    }

    /// The secret that the shares held give with the coefficients held: word `i` is the sum
    /// over the shares of word `i` of the share times the coefficient of the share.
    pub open spec fn secret(self) -> Seq<u8> {
        Seq::new(
            self.share_len,
            |i: int|
                dot(
                    column(self.shares, self.share_len as int, i, self.coefficients.len() as int),
                    self.coefficients,
                    self.coefficients.len() as int,
                ),
        )
    }

    /// The invariant of a session.
    pub open spec fn valid(self) -> bool {
        if !self.started {
            self == DecoderState::empty()
        } else {
            &&& valid_width(self.width)
            &&& 1 <= self.quorum <= index_limit(self.width)
            &&& self.x_values.len() <= self.quorum
            &&& self.shares.len() == self.x_values.len() * self.share_len
            &&& self.left_out.len() > 0 ==> self.x_values.len() == self.quorum
            &&& forall|i: int|
                0 <= i < self.seen().len() ==> 1 <= #[trigger] self.seen()[i] <= index_limit(
                    self.width,
                )
            &&& forall|i: int, j: int|
                0 <= i < j < self.seen().len() ==> self.seen()[i] != self.seen()[j]
            &&& self.coefficients.len() > 0 ==> self.complete() && self.width == 8
                && self.coefficients == coefficients(points(self.x_values))
            &&& self.solution.len() > 0 ==> self.coefficients.len() > 0 && self.solution
                == self.secret()
        }
    }
}

/// What offering the share `rec` to a session in the state `st` leads to: the next state and
/// whether the share was left out, or the reason for which the share is refused.
pub open spec fn offer_spec(st: DecoderState, rec: ShareData) -> Result<
    (DecoderState, bool),
    ShareError,
> {
    if !st.started && !valid_width(rec.width) {
        Err(ShareError::UnsupportedFieldWidth)
    } else if !st.started && !(1 <= rec.quorum <= index_limit(rec.width)) {
        Err(ShareError::BadQuorum)
    } else if st.started && (rec.width != st.width || rec.quorum != st.quorum
        || rec.value_bytes.len() != st.share_len) {
        Err(ShareError::InconsistentShare)
    } else if !(1 <= rec.index <= index_limit(rec.width)) {
        Err(ShareError::BadShareIndex)
    } else if st.seen().contains(rec.index) {
        Err(ShareError::DuplicateShareIndex)
    } else if st.started && st.x_values.len() >= st.quorum {
        Ok((DecoderState { left_out: st.left_out.push(rec.index), ..st }, true))
    } else {
        Ok(
            (
                DecoderState {
                    started: true,
                    quorum: rec.quorum,
                    width: rec.width,
                    share_len: rec.value_bytes.len(),
                    x_values: st.x_values.push(rec.index),
                    shares: st.shares + rec.value_bytes,
                    left_out: st.left_out,
                    coefficients: st.coefficients,
                    solution: st.solution,
                },
                false,
            ),
        )
    }
}

/// Offering a share to a session keeps the invariant of the session, and the session has
/// then taken the index of the share.
pub proof fn lemma_offer_valid(st: DecoderState, rec: ShareData)
    requires
        st.valid(),
    ensures
        offer_spec(st, rec) matches Ok((next, _)) ==> next.valid() && next.seen().contains(
            rec.index,
        ) && forall|x: u64| st.seen().contains(x) ==> next.seen().contains(x),
{
    if let Ok((next, left_out)) = offer_spec(st, rec) {
        let old_seen = st.seen();
        let new_seen = next.seen();
        let k = st.x_values.len() as int;
        if left_out {
            assert(new_seen =~= old_seen.push(rec.index));
            assert(new_seen[old_seen.len() as int] == rec.index);
            assert forall|i: int, j: int| 0 <= i < j < new_seen.len() implies new_seen[i]
                != new_seen[j] by {
                if j == old_seen.len() {
                    assert(old_seen.contains(old_seen[i]));
                }
            }
            assert forall|x: u64| old_seen.contains(x) implies new_seen.contains(x) by {
                let i = choose|i: int| 0 <= i < old_seen.len() && old_seen[i] == x;
                assert(new_seen[i] == x);
            }
        } else {
            assert(st.left_out.len() == 0);
            assert(old_seen =~= st.x_values);
            assert(new_seen =~= st.x_values.push(rec.index));
            assert(new_seen[k] == rec.index);
            assert((k + 1) * rec.value_bytes.len() == k * rec.value_bytes.len()
                + rec.value_bytes.len()) by (nonlinear_arith);
            assert forall|i: int, j: int| 0 <= i < j < new_seen.len() implies new_seen[i]
                != new_seen[j] by {
                if j == k {
                    assert(old_seen.contains(old_seen[i]));
                }
            }
            assert forall|x: u64| old_seen.contains(x) implies new_seen.contains(x) by {
                let i = choose|i: int| 0 <= i < old_seen.len() && old_seen[i] == x;
                assert(new_seen[i] == x);
            }
        }
    }
}

/// The largest quorum and share index for a valid field width.
fn limit_of(width: u16) -> (r: u64)
    requires
        valid_width(width),
    ensures
        r == index_limit(width),
{
    proof {
        lemma2_to64();
    }
    if width == 4 {
        8
    } else if width == 8 {
        128
    } else if width == 16 {
        32768
    } else {
        2147483648
    }
}

impl View for Decoder {
    type V = DecoderState;

    closed spec fn view(&self) -> DecoderState {
        DecoderState {
            started: self.started,
            quorum: self.quorum,
            width: self.width,
            share_len: self.share_len as nat,
            x_values: self.x_values@,
            shares: self.shares@,
            left_out: self.left_out@,
            coefficients: self.coefficients@,
            solution: self.solution@,
        }
    }
}

impl Decoder {
    /// A session that has seen no share.
    pub fn new() -> (r: Decoder)
        ensures
            r@ == DecoderState::empty(),
            r@.valid(),
    {
        Decoder {
            started: false,
            quorum: 0,
            width: 0,
            share_len: 0,
            x_values: Vec::new(),
            shares: Vec::new(),
            left_out: Vec::new(),
            coefficients: Vec::new(),
            solution: Vec::new(),
        }
    }

    /// Offers a share to the session. The first share fixes the width, the quorum and the
    /// share length, and every later one must agree with it. A share whose index the session
    /// has taken already, held or left out, is refused; one that arrives when a quorum is held
    /// is checked, left out, and its index kept.
    #[verifier::loop_isolation(false)]
    pub fn offer(&mut self, record: ShareRecord) -> (r: Result<Admission, ShareError>)
        requires
            old(self)@.valid(),
        ensures
            final(self)@.valid(),
            match offer_spec(old(self)@, record@) {
                Ok((st, ignored)) => final(self)@ == st && r == Ok::<Admission, ShareError>(
                    if ignored {
                        Admission::Ignored
                    } else {
                        Admission::Accepted
                    },
                ),
                Err(e) => final(self)@ == old(self)@ && r == Err::<Admission, ShareError>(e),
            },
    {
        let ghost st = self@;
        let ghost rec = record@;
        if !self.started {
            if !(record.width == 4 || record.width == 8 || record.width == 16 || record.width
                == 32) {
                return Err(ShareError::UnsupportedFieldWidth);
            }
            let limit = limit_of(record.width);
            if record.quorum < 1 || record.quorum as u64 > limit {
                return Err(ShareError::BadQuorum);
            }
        } else if record.width != self.width || record.quorum != self.quorum
            || record.value_bytes.len() != self.share_len {
            return Err(ShareError::InconsistentShare);
        }
        let limit = limit_of(record.width);
        if record.index < 1 || record.index > limit {
            return Err(ShareError::BadShareIndex);
        }
        proof {
            lemma_offer_valid(st, rec);
        }
        let mut i: usize = 0;
        while i < self.x_values.len()
            invariant
                i <= self.x_values@.len(),
                self@ == st,
                forall|m: int| 0 <= m < i ==> #[trigger] self.x_values@[m] != record.index,
            decreases self.x_values@.len() - i,
        {
            if self.x_values[i] == record.index {
                assert(st.seen()[i as int] == rec.index);
                return Err(ShareError::DuplicateShareIndex);
            }
            i = i + 1;
        }
        let mut j: usize = 0;
        while j < self.left_out.len()
            invariant
                j <= self.left_out@.len(),
                self@ == st,
                forall|m: int| 0 <= m < j ==> #[trigger] self.left_out@[m] != record.index,
            decreases self.left_out@.len() - j,
        {
            if self.left_out[j] == record.index {
                assert(st.seen()[st.x_values.len() + j] == rec.index);
                return Err(ShareError::DuplicateShareIndex);
            }
            j = j + 1;
        }
        assert(!st.seen().contains(rec.index)) by {
            if st.seen().contains(rec.index) {
                let m = choose|m: int| 0 <= m < st.seen().len() && st.seen()[m] == rec.index;
                if m < st.x_values.len() {
                    assert(st.x_values[m] == rec.index);
                } else {
                    assert(st.left_out[m - st.x_values.len()] == rec.index);
                }
            }
        }
        if self.started && self.x_values.len() >= self.quorum as usize {
            self.left_out.push(record.index);
            return Ok(Admission::Ignored);
        }
        let mut bytes = record.value_bytes;
        self.started = true;
        self.quorum = record.quorum;
        self.width = record.width;
        self.share_len = bytes.len();
        self.x_values.push(record.index);
        self.shares.append(&mut bytes);
        Ok(Admission::Accepted)
    }

    /// Whether a quorum of shares is held.
    pub fn is_complete(&self) -> (r: bool)
        ensures
            r == self@.complete(),
    {
        self.started && self.x_values.len() == self.quorum as usize
    }

    /// The quorum that the first share fixed, or zero before it.
    pub fn quorum(&self) -> (r: u16)
        ensures
            r == self@.quorum,
    {
        self.quorum
    }

    /// The field width that the first share fixed, or zero before it.
    pub fn width(&self) -> (r: u16)
        ensures
            r == self@.width,
    {
        self.width
    }

    /// The number of value bytes of every share.
    pub fn share_len(&self) -> (r: usize)
        ensures
            r == self@.share_len,
    {
        self.share_len
    }

    /// The indexes of the shares held.
    pub fn x_values(&self) -> (r: &Vec<u64>)
        ensures
            r@ == self@.x_values,
    {
        &self.x_values
    }

    /// The value bytes of the shares held.
    pub fn shares(&self) -> (r: &Vec<u8>)
        ensures
            r@ == self@.shares,
    {
        &self.shares
    }

    /// The indexes of the shares left out.
    pub fn left_out(&self) -> (r: &Vec<u64>)
        ensures
            r@ == self@.left_out,
    {
        &self.left_out
    }

    /// The Lagrange coefficients, empty before the first pass.
    pub fn coefficients(&self) -> (r: &Vec<u8>)
        ensures
            r@ == self@.coefficients,
    {
        &self.coefficients
    }

    /// The secret, empty before the second pass.
    pub fn solution(&self) -> (r: &Vec<u8>)
        ensures
            r@ == self@.solution,
    {
        &self.solution
    }
}

/// The first pass: computes the Lagrange coefficients of the shares held, which every word of
/// the secret shares. It needs a quorum of shares and a width of 8 bits, the width of the field.
pub fn pass_1(field: &Field, decoder: &mut Decoder) -> (r: Result<(), ShareError>)
    requires
        old(decoder)@.valid(),
    ensures
        final(decoder)@.valid(),
        !old(decoder)@.complete() ==> r == Err::<(), ShareError>(ShareError::QuorumInsufficient)
            && final(decoder)@ == old(decoder)@,
        old(decoder)@.complete() && old(decoder)@.width != 8 ==> r == Err::<(), ShareError>(
            ShareError::UnsupportedFieldWidth,
        ) && final(decoder)@ == old(decoder)@,
        old(decoder)@.complete() && old(decoder)@.width == 8 ==> r is Ok && final(decoder)@ == (
        DecoderState {
            coefficients: coefficients(points(old(decoder)@.x_values)),
            solution: Seq::empty(),
            ..old(decoder)@
        }),
{
    if !decoder.is_complete() {
        return Err(ShareError::QuorumInsufficient);
    }
    if decoder.width != 8 {
        return Err(ShareError::UnsupportedFieldWidth);
    }
    proof {
        lemma2_to64();
    }
    let ghost st = decoder@;
    let mut xs: Vec<u8> = Vec::new();
    let mut i: usize = 0;
    while i < decoder.x_values.len()
        invariant
            i <= decoder.x_values@.len(),
            decoder@ == st,
            st.valid(),
            st.started,
            st.width == 8,
            index_limit(8) == 128,
            xs@.len() == i,
            forall|m: int| 0 <= m < i ==> #[trigger] xs@[m] == decoder.x_values@[m] as u8,
        decreases decoder.x_values@.len() - i,
    {
        let x = decoder.x_values[i];
        assert(1 <= st.seen()[i as int] <= 128);
        xs.push(x as u8);
        i = i + 1;
    }
    assert(xs@ =~= points(st.x_values));
    proof {
        assert forall|a: int, b: int| 0 <= a < b < xs@.len() implies xs@[a] != xs@[b] by {
            assert(st.seen()[a] != st.seen()[b]);
            assert(1 <= st.seen()[a] <= 128 && 1 <= st.seen()[b] <= 128);
        }
        assert forall|a: int| 0 <= a < xs@.len() implies #[trigger] xs@[a] != 0 by {
            assert(1 <= st.seen()[a] <= 128);
        }
        lemma_coefficients_exist(xs@);
    }
    match lagrange_coefficients(field, xs.as_slice()) {
        Ok(cs) => {
            decoder.coefficients = cs;
            decoder.solution = Vec::new();
            Ok(())
        },
        Err(e) => Err(e),
    }
}

/// The second pass: recovers every word of the secret from the shares and the coefficients of
/// the first pass, keeps it in the session and returns it.
pub fn pass_2(field: &Field, decoder: &mut Decoder) -> (r: Vec<u8>)
    requires
        old(decoder)@.valid(),
        old(decoder)@.coefficients.len() > 0,
    ensures
        final(decoder)@.valid(),
        final(decoder)@ == (DecoderState { solution: old(decoder)@.secret(), ..old(decoder)@ }),
        r@ == old(decoder)@.secret(),
{
    let ans = recover_words(
        field,
        decoder.shares.as_slice(),
        decoder.share_len,
        decoder.coefficients.as_slice(),
    );
    let ghost st = decoder@;
    assert(ans@ =~= st.secret());
    decoder.solution = slice_to_vec(ans.as_slice());
    assert(decoder@.seen() == st.seen());
    assert(decoder@.secret() == st.secret());
    ans
}

} // verus!
