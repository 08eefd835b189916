//! From the lines of the input to the secret: every line is parsed and offered to a session,
//! and when the input has ended with a quorum held, the two passes recover the secret.

use crate::decoder::{
    index_limit, lemma_offer_valid, offer_spec, pass_1, pass_2, points, Decoder, DecoderState,
};
use crate::error::ShareError;
use crate::gf256::Field;
use crate::interpolation::{
    distinct, eval, holds_point, lemma_order_independent, lemma_round_trip, share_values,
};
use crate::lagrange::{coefficients, column, interpolate};
use crate::record::{parse_line, parse_spec};
use vstd::arithmetic::power2::lemma2_to64;
use vstd::prelude::*;
use vstd::slice::slice_to_vec;

verus! {

/// A failure and the line that caused it.
#[derive(Clone, Copy, Debug, PartialEq, Eq)]
pub struct Failure {
    /// What went wrong.
    pub kind: ShareError,
    /// The number of the offending line, counted from one; `None` for a failure that is found
    /// when the input has ended.
    pub line: Option<usize>,
}

/// The outcome of a reconstruction.
#[derive(Debug, PartialEq, Eq)]
pub struct Recovered {
    /// The bytes of the secret.
    pub secret: Vec<u8>,
    /// The indexes of the shares that arrived after a quorum was held and were left out, in
    /// the order of their arrival.
    pub ignored: Vec<u64>,
}

/// The lines as sequences of bytes.
pub open spec fn texts(lines: Seq<Vec<u8>>) -> Seq<Seq<u8>> {
    Seq::new(lines.len(), |i: int| lines[i]@)
}

/// What the first `n` lines lead to: the state of the session, or the first failure with the
/// number of its line.
pub open spec fn ingest(lines: Seq<Seq<u8>>, n: int) -> Result<DecoderState, (ShareError, nat)>
    decreases n,
{
    if n <= 0 {
        Ok(DecoderState::empty())
    } else {
        match ingest(lines, n - 1) {
            Err(f) => Err(f),
            Ok(st) => match parse_spec(lines[n - 1]) {
                Err(e) => Err((e, n as nat)),
                Ok(rec) => match offer_spec(st, rec) {
                    Err(e) => Err((e, n as nat)),
                    Ok((next, _)) => Ok(next),
                },
            },
        }
    }
}

/// The secret that a complete session of width 8 gives.
pub open spec fn secret_of(st: DecoderState) -> Seq<u8> {
    (DecoderState { coefficients: coefficients(points(st.x_values)), ..st }).secret()
}

/// What the whole input leads to: the secret and the indexes of the shares left out, or the
/// failure. A failure of a line comes with the number of the line. Where every line is
/// accepted, the input fails without a quorum of shares, and with a field width other than 8.
pub open spec fn combine_spec(lines: Seq<Seq<u8>>) -> Result<
    (Seq<u8>, Seq<u64>),
    (ShareError, Option<nat>),
> {
    match ingest(lines, lines.len() as int) {
        Err((e, n)) => Err((e, Some(n))),
        Ok(st) => if !st.complete() {
            Err((ShareError::QuorumInsufficient, None))
        } else if st.width != 8 {
            Err((ShareError::UnsupportedFieldWidth, None))
        } else {
            Ok((secret_of(st), st.left_out))
        },
    }
}

/// Every state that the lines lead to meets the invariant of a session.
pub proof fn lemma_ingest_valid(lines: Seq<Seq<u8>>, n: int)
    ensures
        ingest(lines, n) matches Ok(st) ==> st.valid(),
    decreases n,
{
    if n > 0 {
        lemma_ingest_valid(lines, n - 1);
        if let Ok(st) = ingest(lines, n - 1) {
            if let Ok(rec) = parse_spec(lines[n - 1]) {
                lemma_offer_valid(st, rec);
            }
        }
    }
}

/// A failure stays: the lines after the one that failed change nothing.
pub proof fn lemma_ingest_fails(lines: Seq<Seq<u8>>, m: int, n: int)
    requires
        m <= n,
        ingest(lines, m) is Err,
    ensures
        ingest(lines, n) == ingest(lines, m),
    decreases n,
{
    if m < n {
        lemma_ingest_fails(lines, m, n - 1);
    }
}

/// What the first lines lead to does not depend on the lines after them.
pub proof fn lemma_ingest_prefix(lines: Seq<Seq<u8>>, more: Seq<Seq<u8>>, n: int)
    requires
        n <= lines.len() <= more.len(),
        forall|i: int| 0 <= i < lines.len() ==> more[i] == lines[i],
    ensures
        ingest(more, n) == ingest(lines, n),
    decreases n,
{
    if n > 0 {
        lemma_ingest_prefix(lines, more, n - 1);
    }
}

/// Where the first lines are accepted, so are fewer of them.
pub proof fn lemma_ingest_accepts(lines: Seq<Seq<u8>>, m: int, n: int)
    requires
        m <= n,
        ingest(lines, n) is Ok,
    ensures
        ingest(lines, m) is Ok,
{
    if ingest(lines, m) is Err {
        lemma_ingest_fails(lines, m, n);
    }
}

/// A session never forgets an index: what it has taken after some lines it has taken after
/// more of them.
pub proof fn lemma_seen_grows(lines: Seq<Seq<u8>>, m: int, n: int, x: u64)
    requires
        m <= n,
        ingest(lines, n) is Ok,
        ingest(lines, m) is Ok,
        ingest(lines, m)->Ok_0.seen().contains(x),
    ensures
        ingest(lines, n)->Ok_0.seen().contains(x),
    decreases n,
{
    if m < n {
        lemma_ingest_accepts(lines, n - 1, n);
        lemma_seen_grows(lines, m, n - 1, x);
        lemma_ingest_valid(lines, n - 1);
        lemma_offer_valid(ingest(lines, n - 1)->Ok_0, parse_spec(lines[n - 1])->Ok_0);
    }
}

/// More shares than the quorum change nothing: where the input gives a secret, the same input
/// with one more line that holds a share which the session does not refuse gives the same
/// secret, and reports the share of that line as left out.
pub proof fn lemma_over_supply(lines: Seq<Seq<u8>>, extra: Seq<u8>)
    requires
        combine_spec(lines) is Ok,
        parse_spec(extra) is Ok,
        offer_spec(ingest(lines, lines.len() as int)->Ok_0, parse_spec(extra)->Ok_0) is Ok,
    ensures
        combine_spec(lines.push(extra)) == Ok::<(Seq<u8>, Seq<u64>), (ShareError, Option<nat>)>(
            (
                combine_spec(lines)->Ok_0.0,
                combine_spec(lines)->Ok_0.1.push(parse_spec(extra)->Ok_0.index),
            ),
        ),
{
    let more = lines.push(extra);
    lemma_ingest_prefix(lines, more, lines.len() as int);
    assert(more[lines.len() as int] == extra);
}

/// A share index that the session has taken is refused: where the lines so far are accepted
/// and one more line holds a share that agrees with the session in width, quorum and length
/// and carries the index of a share held or left out, whatever its values, the input fails at
/// that line with `DuplicateShareIndex`.
pub proof fn lemma_duplicate_rejected(lines: Seq<Seq<u8>>, extra: Seq<u8>)
    requires
        ingest(lines, lines.len() as int) is Ok,
        parse_spec(extra) is Ok,
        ({
            let st = ingest(lines, lines.len() as int)->Ok_0;
            let rec = parse_spec(extra)->Ok_0;
            &&& st.seen().contains(rec.index)
            &&& rec.width == st.width
            &&& rec.quorum == st.quorum
            &&& rec.value_bytes.len() == st.share_len
        }),
    ensures
        combine_spec(lines.push(extra)) == Err::<(Seq<u8>, Seq<u64>), (ShareError, Option<nat>)>(
            (ShareError::DuplicateShareIndex, Some((lines.len() + 1) as nat)),
        ),
{
    let more = lines.push(extra);
    let st = ingest(lines, lines.len() as int)->Ok_0;
    let rec = parse_spec(extra)->Ok_0;
    lemma_ingest_prefix(lines, more, lines.len() as int);
    lemma_ingest_valid(lines, lines.len() as int);
    assert(more[lines.len() as int] == extra);
    let i = choose|i: int| 0 <= i < st.seen().len() && st.seen()[i] == rec.index;
    assert(1 <= st.seen()[i] <= index_limit(st.width));
}

/// A share that disagrees with the session is refused: where the lines so far are accepted
/// and have fixed a session, and one more line parses to a share whose width, quorum or
/// number of value bytes is not that of the session, whatever the width is, the input fails at
/// that line with `InconsistentShare`.
pub proof fn lemma_inconsistent_rejected(lines: Seq<Seq<u8>>, extra: Seq<u8>)
    requires
        ingest(lines, lines.len() as int) is Ok,
        ingest(lines, lines.len() as int)->Ok_0.started,
        parse_spec(extra) is Ok,
        ({
            let st = ingest(lines, lines.len() as int)->Ok_0;
            let rec = parse_spec(extra)->Ok_0;
            rec.width != st.width || rec.quorum != st.quorum || rec.value_bytes.len()
                != st.share_len
        }),
    ensures
        combine_spec(lines.push(extra)) == Err::<(Seq<u8>, Seq<u64>), (ShareError, Option<nat>)>(
            (ShareError::InconsistentShare, Some((lines.len() + 1) as nat)),
        ),
{
    let more = lines.push(extra);
    lemma_ingest_prefix(lines, more, lines.len() as int);
    assert(more[lines.len() as int] == extra);
}

/// Two shares with the same index give no secret: an input in which two lines hold shares with
/// the same index fails, whatever the values of the shares.
pub proof fn lemma_same_index_fails(lines: Seq<Seq<u8>>, i: int, j: int)
    requires
        0 <= i < j < lines.len(),
        parse_spec(lines[i]) is Ok,
        parse_spec(lines[j]) is Ok,
        parse_spec(lines[i])->Ok_0.index == parse_spec(lines[j])->Ok_0.index,
    ensures
        combine_spec(lines) is Err,
{
    let n = lines.len() as int;
    if ingest(lines, n) is Ok {
        lemma_ingest_accepts(lines, j + 1, n);
        lemma_ingest_accepts(lines, j, n);
        lemma_ingest_accepts(lines, i + 1, n);
        lemma_ingest_accepts(lines, i, n);
        let x = parse_spec(lines[i])->Ok_0.index;
        lemma_ingest_valid(lines, i);
        lemma_offer_valid(ingest(lines, i)->Ok_0, parse_spec(lines[i])->Ok_0);
        lemma_seen_grows(lines, i + 1, j, x);
        assert(ingest(lines, j)->Ok_0.seen().contains(x));
        assert(offer_spec(ingest(lines, j)->Ok_0, parse_spec(lines[j])->Ok_0) is Err);
    }
}

/// Fewer shares than the quorum give no secret: where every line is accepted and the input
/// ends before a quorum of shares is held, the input fails with `QuorumInsufficient`.
pub proof fn lemma_insufficient(lines: Seq<Seq<u8>>)
    requires
        ingest(lines, lines.len() as int) is Ok,
        ({
            let st = ingest(lines, lines.len() as int)->Ok_0;
            !st.started || st.x_values.len() < st.quorum
        }),
    ensures
        combine_spec(lines) == Err::<(Seq<u8>, Seq<u64>), (ShareError, Option<nat>)>(
            (ShareError::QuorumInsufficient, None),
        ),
{
}

/// The value bytes of the share at place `j` of a session.
pub open spec fn share_at(st: DecoderState, j: int) -> Seq<u8> {
    st.shares.subrange(j * st.share_len, (j + 1) * st.share_len)
}

/// Whether a session holds the share with the index `x` and the value bytes `bytes`.
pub open spec fn holds_share(st: DecoderState, x: u64, bytes: Seq<u8>) -> bool {
    exists|j: int| 0 <= j < st.x_values.len() && #[trigger] st.x_values[j] == x && share_at(st, j) == bytes
}

/// The indexes of a valid session of width 8 are distinct elements of the field.
proof fn lemma_points_distinct(st: DecoderState)
    requires
        st.valid(),
        st.started,
        st.width == 8,
    ensures
        distinct(points(st.x_values)),
{
    let xs = points(st.x_values);
    lemma2_to64();
    assert forall|a: int, b: int| 0 <= a < b < xs.len() implies xs[a] != xs[b] by {
        assert(st.seen()[a] != st.seen()[b]);
        assert(1 <= st.seen()[a] <= 128);
        assert(1 <= st.seen()[b] <= 128);
    }
}

/// Byte `i` of the share at place `j` lies at `j * share_len + i`.
proof fn lemma_share_byte(st: DecoderState, j: int, i: int)
    requires
        st.valid(),
        st.started,
        0 <= j < st.x_values.len(),
        0 <= i < st.share_len,
    ensures
        0 <= j * st.share_len + i < st.shares.len(),
        share_at(st, j).len() == st.share_len,
        share_at(st, j)[i] == st.shares[j * st.share_len + i],
{
    let n = st.share_len as int;
    let k = st.x_values.len() as int;
    assert(0 <= j * n && (j + 1) * n == j * n + n && (j + 1) * n <= k * n) by (nonlinear_arith)
        requires
            0 <= j < k,
            0 <= n,
    ;
}

/// The order of the shares does not matter: two complete sessions of width 8 with the same
/// quorum and share length, of which the second holds every share of the first, give the same
/// secret.
pub proof fn lemma_secret_order_independent(a: DecoderState, b: DecoderState)
    requires
        a.valid(),
        b.valid(),
        a.complete(),
        b.complete(),
        a.width == 8,
        b.width == 8,
        a.quorum == b.quorum,
        a.share_len == b.share_len,
        forall|j: int|
            0 <= j < a.x_values.len() ==> holds_share(b, #[trigger] a.x_values[j], share_at(a, j)),
    ensures
        secret_of(a) =~= secret_of(b),
{
    let xs = points(a.x_values);
    let xs2 = points(b.x_values);
    let k = a.x_values.len() as int;
    let n = a.share_len as int;
    lemma_points_distinct(a);
    lemma_points_distinct(b);
    lemma2_to64();
    assert forall|i: int| 0 <= i < a.share_len implies secret_of(a)[i] == secret_of(b)[i] by {
        lemma_secret_word(a, i);
        lemma_secret_word(b, i);
        let ys = column(a.shares, n, i, k);
        let ys2 = column(b.shares, n, i, k);
        assert forall|j: int| 0 <= j < xs.len() implies #[trigger] holds_point(
            xs2,
            ys2,
            xs[j],
            ys[j],
        ) by {
            assert(holds_share(b, a.x_values[j], share_at(a, j)));
            let j2 = choose|j2: int|
                0 <= j2 < b.x_values.len() && #[trigger] b.x_values[j2] == a.x_values[j]
                    && share_at(b, j2) == share_at(a, j);
            lemma_share_byte(a, j, i);
            lemma_share_byte(b, j2, i);
            assert(xs2[j2] == xs[j]);
            assert(ys2[j2] == ys[j]);
        }
        lemma_order_independent(xs, ys, xs2, ys2);
    }
}

/// Word `i` of the secret of a session is the interpolation at zero of word `i` of the shares
/// held over their indexes.
pub proof fn lemma_secret_word(st: DecoderState, i: int)
    requires
        0 <= i < st.share_len,
    ensures
        secret_of(st).len() == st.share_len,
        secret_of(st)[i] == interpolate(
            points(st.x_values),
            column(st.shares, st.share_len as int, i, st.x_values.len() as int),
        ),
{
}

/// The secret comes back: where a complete session of width 8 holds, for every word of a
/// secret, the values of a polynomial with as many coefficients as the quorum counts and with
/// that word as its constant term, taken at the indexes of the shares, the session gives the
/// secret.
pub proof fn lemma_secret_round_trip(st: DecoderState, polys: Seq<Seq<u8>>)
    requires
        st.valid(),
        st.complete(),
        st.width == 8,
        polys.len() == st.share_len,
        forall|i: int| 0 <= i < polys.len() ==> (#[trigger] polys[i]).len() == st.quorum,
        forall|i: int, j: int|
            0 <= i < st.share_len && 0 <= j < st.quorum ==> #[trigger] st.shares[j * st.share_len
                + i] == eval(polys[i], points(st.x_values)[j]),
    ensures
        secret_of(st) =~= Seq::new(st.share_len, |i: int| polys[i][0]),
{
    let xs = points(st.x_values);
    lemma_points_distinct(st);
    assert forall|i: int| 0 <= i < st.share_len implies secret_of(st)[i] == polys[i][0] by {
        lemma_secret_word(st, i);
        let ys = column(st.shares, st.share_len as int, i, st.x_values.len() as int);
        assert(ys =~= share_values(polys[i], xs)) by {
            assert forall|j: int| 0 <= j < xs.len() implies ys[j] == share_values(polys[i], xs)[j] by {
                assert(st.shares[j * st.share_len + i] == eval(polys[i], xs[j]));
            }
        }
        lemma_round_trip(polys[i], xs);
    }
}

/// Parses every line and offers it to a new session, in the order of the lines, and stops
/// at the first line that is refused.
pub fn parse_shares(lines: &Vec<Vec<u8>>) -> (r: Result<Decoder, Failure>)
    ensures
        match ingest(texts(lines@), lines@.len() as int) {
            Ok(st) => r is Ok && r->Ok_0@ == st && st.valid(),
            Err((e, n)) => r == Err::<Decoder, Failure>(
                Failure { kind: e, line: Some(n as usize) },
            ),
        },
{
    let mut decoder = Decoder::new();
    let ghost all = texts(lines@);
    let mut i: usize = 0;
    while i < lines.len()
        invariant
            i <= lines@.len(),
            all == texts(lines@),
            decoder@.valid(),
            ingest(all, i as int) == Ok::<DecoderState, (ShareError, nat)>(decoder@),
        decreases lines@.len() - i,
    {
        assert(all[i as int] == lines@[i as int]@);
        let record = match parse_line(lines[i].as_slice()) {
            Ok(record) => record,
            Err(e) => {
                proof {
                    lemma_ingest_fails(all, i + 1, lines@.len() as int);
                }
                return Err(Failure { kind: e, line: Some(i + 1) });
            },
        };
        match decoder.offer(record) {
            Ok(_) => {},
            Err(e) => {
                proof {
                    lemma_ingest_fails(all, i + 1, lines@.len() as int);
                }
                return Err(Failure { kind: e, line: Some(i + 1) });
            },
        }
        i = i + 1;
    }
    Ok(decoder)
}

/// Reconstructs the secret from the lines of the input, one share a line.
pub fn combine(lines: &Vec<Vec<u8>>) -> (r: Result<Recovered, Failure>)
    ensures
        match combine_spec(texts(lines@)) {
            Ok((secret, ignored)) => r is Ok && r->Ok_0.secret@ == secret && r->Ok_0.ignored@
                == ignored,
            Err((e, None)) => r == Err::<Recovered, Failure>(Failure { kind: e, line: None }),
            Err((e, Some(n))) => r == Err::<Recovered, Failure>(
                Failure { kind: e, line: Some(n as usize) },
            ),
        },
{
    let mut decoder = match parse_shares(lines) {
        Ok(decoder) => decoder,
        Err(f) => {
            return Err(f);
        },
    };
    if !decoder.is_complete() {
        return Err(Failure { kind: ShareError::QuorumInsufficient, line: None });
    }
    let field = match Field::new(decoder.width()) {
        Ok(field) => field,
        Err(e) => {
            return Err(Failure { kind: e, line: None });
        },
    };
    match pass_1(&field, &mut decoder) {
        Ok(()) => {},
        Err(e) => {
            return Err(Failure { kind: e, line: None });
        },
    }
    let secret = pass_2(&field, &mut decoder);
    let ignored = slice_to_vec(decoder.left_out().as_slice());
    Ok(Recovered { secret, ignored })
}

} // verus!
