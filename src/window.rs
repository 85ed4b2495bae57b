//! The records a window of bytes holds, and what trimming them yields, as
//! functions of the bytes alone; with the facts that let a stream be cut
//! into windows anywhere.
use crate::record::{
    lemma_bounds_in_range, lemma_name_len_bound, name_len, FQRec, TrimError, TrimParams, MARKER,
    NEWLINE, SEPARATOR,
};
use vstd::prelude::*;

verus! {

/// One past the first newline of `b[from..to]`, or `-1` when it holds none.
pub open spec fn line_end(b: Seq<u8>, from: int, to: int) -> int
    decreases to - from,
{
    if from < 0 || from >= to || from >= b.len() {
        -1
    } else if b[from] == NEWLINE {
        from + 1
    } else {
        line_end(b, from + 1, to)
    }
}

/// The whole record of four lines that starts at `from`, if `b[from..to]`
/// holds all of it.
pub open spec fn record_at(b: Seq<u8>, from: int, to: int) -> Option<FQRec> {
    let r = line_end(b, from, to);
    let o = line_end(b, r, to);
    let q = line_end(b, o, to);
    let e = line_end(b, q, to);
    if e < 0 {
        None
    } else {
        Some(FQRec { n: from as usize, r: r as usize, o: o as usize, q: q as usize, e: e as usize })
    }
}

/// The first structural fault among the whole records of `b[from..to]`, or
/// the offset where the last of them ends.
#[verifier::opaque]
pub open spec fn window_check(b: Seq<u8>, from: int, to: int) -> Result<int, TrimError>
    decreases to - from,
{
    match record_at(b, from, to) {
        None => Ok(from),
        Some(rec) => if !(from < rec.e <= to) {
            Ok(from)
        } else if b[rec.n as int] != MARKER {
            Err(TrimError::MissingMarker)
        } else if b[rec.o as int] != SEPARATOR {
            Err(TrimError::MissingSeparator)
        } else if rec.e - rec.q != rec.o - rec.r {
            Err(TrimError::LengthMismatch)
        } else {
            window_check(b, rec.e as int, to)
        },
    }
}

/// The trimmed bytes of the whole records of `b[from..to]`, in order.
#[verifier::opaque]
pub open spec fn window_output(
    b: Seq<u8>,
    from: int,
    to: int,
    adaptor: Seq<u8>,
    p: TrimParams,
) -> Seq<u8>
    decreases to - from,
{
    match record_at(b, from, to) {
        None => Seq::empty(),
        Some(rec) => if from < rec.e <= to && rec.valid(b) {
            rec.trimmed(b, adaptor, p) + window_output(b, rec.e as int, to, adaptor, p)
        } else {
            Seq::empty()
        },
    }
}

pub(crate) proof fn lemma_line_end(b: Seq<u8>, from: int, to: int)
    ensures
        line_end(b, from, to) == -1 || (from < line_end(b, from, to) <= to && line_end(b, from, to)
            <= b.len() && b[line_end(b, from, to) - 1] == NEWLINE && forall|i: int|
            from <= i < line_end(b, from, to) - 1 ==> b[i] != NEWLINE),
    decreases to - from,
{
    if !(from < 0 || from >= to || from >= b.len()) && b[from] != NEWLINE {
        lemma_line_end(b, from + 1, to);
    }
}

pub(crate) proof fn lemma_record_at(b: Seq<u8>, from: int, to: int)
    requires
        0 <= from,
        to <= b.len(),
        to <= usize::MAX,
    ensures
        record_at(b, from, to) matches Some(rec) ==> rec.framed(b) && rec.n == from && rec.e <= to,
{
    let r = line_end(b, from, to);
    let o = line_end(b, r, to);
    let q = line_end(b, o, to);
    lemma_line_end(b, from, to);
    lemma_line_end(b, r, to);
    lemma_line_end(b, o, to);
    lemma_line_end(b, q, to);
}

pub(crate) proof fn lemma_line_end_agree(b1: Seq<u8>, b2: Seq<u8>, from: int, to: int)
    requires
        to <= b1.len(),
        to <= b2.len(),
        forall|i: int| from <= i < to ==> b1[i] == b2[i],
    ensures
        line_end(b1, from, to) == line_end(b2, from, to),
    decreases to - from,
{
    if !(from < 0 || from >= to) {
        lemma_line_end_agree(b1, b2, from + 1, to);
    }
}

pub(crate) proof fn lemma_record_at_agree(b1: Seq<u8>, b2: Seq<u8>, from: int, to: int)
    requires
        to <= b1.len(),
        to <= b2.len(),
        forall|i: int| from <= i < to ==> b1[i] == b2[i],
    ensures
        record_at(b1, from, to) == record_at(b2, from, to),
{
    let r = line_end(b1, from, to);
    let o = line_end(b1, r, to);
    let q = line_end(b1, o, to);
    lemma_line_end(b1, from, to);
    lemma_line_end(b1, r, to);
    lemma_line_end(b1, o, to);
    lemma_line_end_agree(b1, b2, from, to);
    if r >= 0 {
        lemma_line_end_agree(b1, b2, r, to);
        if o >= 0 {
            lemma_line_end_agree(b1, b2, o, to);
            if q >= 0 {
                lemma_line_end_agree(b1, b2, q, to);
            }
        }
    }
}

#[verifier::spinoff_prover]
pub(crate) proof fn lemma_trimmed_agree(
    b1: Seq<u8>,
    b2: Seq<u8>,
    rec: FQRec,
    adaptor: Seq<u8>,
    p: TrimParams,
)
    requires
        rec.framed(b1),
        rec.e <= b2.len(),
        forall|i: int| rec.n <= i < rec.e ==> b1[i] == b2[i],
    ensures
        rec.valid(b1) == rec.valid(b2),
        rec.valid(b1) ==> rec.trimmed(b1, adaptor, p) == rec.trimmed(b2, adaptor, p),
{
    assert(rec.seq_of(b1) =~= rec.seq_of(b2));
    assert(rec.name_of(b1) =~= rec.name_of(b2));
    if rec.valid(b1) {
        assert(rec.qual_of(b1) =~= rec.qual_of(b2));
        let (start, stop) = rec.bounds(b1, adaptor, p);
        assert(rec.bounds(b1, adaptor, p) == rec.bounds(b2, adaptor, p));
        assert(rec.compacted(b1, start, stop) =~= rec.compacted(b2, start, stop)) by {
            assert(b1.subrange(rec.n as int, rec.n + name_len(rec.name_of(b1)))
                =~= b2.subrange(rec.n as int, rec.n + name_len(rec.name_of(b2))))
                by {
                lemma_name_len_bound(rec.name_of(b1));
            }
            lemma_bounds_in_range(b1, rec, adaptor, p);
            assert(b1.subrange(rec.r + start, rec.r + stop) =~= b2.subrange(
                rec.r + start,
                rec.r + stop,
            ));
            assert(b1.subrange(rec.q + start, rec.q + stop) =~= b2.subrange(
                rec.q + start,
                rec.q + stop,
            ));
        }
    }
}

/// Two buffers that agree on `[from, to)` hold the same records there,
/// with the same faults and the same trimmed bytes.
#[verifier::spinoff_prover]
pub(crate) proof fn lemma_window_agree(
    b1: Seq<u8>,
    b2: Seq<u8>,
    from: int,
    to: int,
    adaptor: Seq<u8>,
    p: TrimParams,
)
    requires
        0 <= from,
        to <= b1.len(),
        to <= b2.len(),
        to <= usize::MAX,
        forall|i: int| from <= i < to ==> b1[i] == b2[i],
    ensures
        window_check(b1, from, to) == window_check(b2, from, to),
        window_output(b1, from, to, adaptor, p) == window_output(b2, from, to, adaptor, p),
    decreases to - from,
{
    reveal(window_check);
    reveal(window_output);
    lemma_record_at_agree(b1, b2, from, to);
    lemma_record_at(b1, from, to);
    if let Some(rec) = record_at(b1, from, to) {
        if from < rec.e <= to {
            lemma_trimmed_agree(b1, b2, rec, adaptor, p);
            lemma_window_agree(b1, b2, rec.e as int, to, adaptor, p);
        }
    }
}

/// A record copied out of the window, with its offsets moved to the start
/// of the copy, is rewritten to the same bytes.
pub(crate) proof fn lemma_job_of(b0: Seq<u8>, rec: FQRec, rel: FQRec, bytes: Seq<u8>, a: Seq<u8>, p: TrimParams)
    requires
        rec.valid(b0),
        b0.len() <= usize::MAX,
        bytes == b0.subrange(rec.n as int, rec.e as int),
        rel == (FQRec {
            n: 0,
            r: (rec.r - rec.n) as usize,
            o: (rec.o - rec.n) as usize,
            q: (rec.q - rec.n) as usize,
            e: (rec.e - rec.n) as usize,
        }),
    ensures
        rel.valid(bytes),
        rel.trimmed(bytes, a, p) == rec.trimmed(b0, a, p),
{
    let s = b0.subrange(0, rec.e as int);
    assert(s.subrange(rec.n as int, s.len() as int) =~= bytes);
    assert(rel.framed(bytes)) by {
        assert(bytes[rel.r - 1] == b0[rec.r - 1]);
        assert(bytes[rel.o - 1] == b0[rec.o - 1]);
        assert(bytes[rel.q - 1] == b0[rec.q - 1]);
        assert(bytes[rel.e - 1] == b0[rec.e - 1]);
    }
    lemma_trimmed_shift(s, rec.n as int, rel, a, p);
    assert(shifted(rel, rec.n as int) == rec);
    lemma_trimmed_agree(s, b0, rec, a, p);
}

/// A window check fails only for a structural fault of a record.
pub(crate) proof fn lemma_check_faults(b: Seq<u8>, from: int, to: int)
    ensures
        window_check(b, from, to) matches Err(e) ==> e == TrimError::MissingMarker || e
            == TrimError::MissingSeparator || e == TrimError::LengthMismatch,
    decreases to - from,
{
    reveal(window_check);
    if let Some(rec) = record_at(b, from, to) {
        if from < rec.e <= to {
            lemma_check_faults(b, rec.e as int, to);
        }
    }
}

/// What trimming the window `s[base..pos]` tells of the whole input `s`
/// read from `base`.
#[verifier::spinoff_prover]
#[verifier::rlimit(60)]
pub(crate) proof fn lemma_advance(s: Seq<u8>, base: int, pos: int, a: Seq<u8>, p: TrimParams)
    requires
        0 <= base <= pos <= s.len(),
        s.len() <= usize::MAX,
    ensures
        match window_check(s.subrange(base, pos), 0, pos - base) {
            Ok(end) => 0 <= end && base + end <= pos && window_check(s, base, s.len() as int) == window_check(
                s,
                base + end,
                s.len() as int,
            ) && window_output(s, base, s.len() as int, a, p) == window_output(
                s.subrange(base, pos),
                0,
                pos - base,
                a,
                p,
            ) + window_output(s, base + end, s.len() as int, a, p) && window_check(
                s.subrange(base + end, pos),
                0,
                pos - (base + end),
            ) == Ok::<int, TrimError>(0),
            Err(e) => window_check(s, base, s.len() as int) == Err::<int, TrimError>(e),
        },
{
    let len = s.len() as int;
    let win = s.subrange(base, pos);
    let rest = s.subrange(pos, len);
    assert(s.subrange(base, len) =~= win + rest);
    lemma_window_shift(s, base, 0, len - base, a, p);
    lemma_window_extend(win, rest, 0, a, p);
    lemma_check_end(win, 0, win.len() as int, a, p);
    if let Ok(end) = window_check(win, 0, win.len() as int) {
        lemma_window_shift(s, base, end, len - base, a, p);
        lemma_window_shift(win, end, 0, win.len() - end, a, p);
        assert(win.subrange(end, win.len() as int) =~= s.subrange(base + end, pos));
    }
}

pub(crate) proof fn lemma_line_end_extend(b1: Seq<u8>, b2: Seq<u8>, from: int, to1: int, to2: int)
    requires
        to1 <= to2 <= b2.len(),
        to1 <= b1.len(),
        forall|i: int| from <= i < to1 ==> b1[i] == b2[i],
        line_end(b1, from, to1) >= 0,
    ensures
        line_end(b2, from, to2) == line_end(b1, from, to1),
    decreases to1 - from,
{
    if b1[from] != NEWLINE {
        lemma_line_end_extend(b1, b2, from + 1, to1, to2);
    }
}

pub(crate) proof fn lemma_record_at_extend(b1: Seq<u8>, b2: Seq<u8>, from: int, to1: int, to2: int)
    requires
        to1 <= to2 <= b2.len(),
        to1 <= b1.len(),
        forall|i: int| from <= i < to1 ==> b1[i] == b2[i],
        record_at(b1, from, to1) is Some,
    ensures
        record_at(b2, from, to2) == record_at(b1, from, to1),
{
    let r = line_end(b1, from, to1);
    let o = line_end(b1, r, to1);
    let q = line_end(b1, o, to1);
    lemma_line_end(b1, from, to1);
    lemma_line_end(b1, r, to1);
    lemma_line_end(b1, o, to1);
    lemma_line_end(b1, q, to1);
    lemma_line_end_extend(b1, b2, from, to1, to2);
    lemma_line_end_extend(b1, b2, r, to1, to2);
    lemma_line_end_extend(b1, b2, o, to1, to2);
    lemma_line_end_extend(b1, b2, q, to1, to2);
}

/// Shifts the result of a window check by `k` bytes.
pub open spec fn offset_check(r: Result<int, TrimError>, k: int) -> Result<int, TrimError> {
    match r {
        Ok(v) => Ok(v + k),
        Err(e) => Err(e),
    }
}

/// Appending bytes to a window keeps its whole records, their faults and
/// their output; what follows is read from where they end.
#[verifier::spinoff_prover]
#[verifier::rlimit(60)]
pub(crate) proof fn lemma_window_extend(b: Seq<u8>, c: Seq<u8>, from: int, adaptor: Seq<u8>, p: TrimParams)
    requires
        0 <= from,
        (b.len() + c.len()) as int <= usize::MAX,
    ensures
        match window_check(b, from, b.len() as int) {
            Ok(end) => window_check(b + c, from, (b.len() + c.len()) as int) == window_check(
                b + c,
                end,
                (b.len() + c.len()) as int,
            ) && window_output(b + c, from, (b.len() + c.len()) as int, adaptor, p) == window_output(
                b,
                from,
                b.len() as int,
                adaptor,
                p,
            ) + window_output(b + c, end, (b.len() + c.len()) as int, adaptor, p),
            Err(e) => window_check(b + c, from, (b.len() + c.len()) as int) == Err::<int, TrimError>(e),
        },
    decreases b.len() - from,
{
    reveal(window_check);
    reveal(window_output);
    let bc = b + c;
    let total = (b.len() + c.len()) as int;
    lemma_record_at(b, from, b.len() as int);
    match record_at(b, from, b.len() as int) {
        None => {
            assert(window_output(b, from, b.len() as int, adaptor, p) + window_output(
                bc,
                from,
                total,
                adaptor,
                p,
            ) =~= window_output(bc, from, total, adaptor, p));
        },
        Some(rec) => {
            assert forall|i: int| from <= i < b.len() implies b[i] == bc[i] by {}
            lemma_record_at_extend(b, bc, from, b.len() as int, total);
            lemma_trimmed_agree(b, bc, rec, adaptor, p);
            if rec.valid(b) {
                lemma_window_extend(b, c, rec.e as int, adaptor, p);
                let t1 = rec.trimmed(b, adaptor, p);
                let w1 = window_output(b, rec.e as int, b.len() as int, adaptor, p);
                if let Ok(end) = window_check(b, from, b.len() as int) {
                    let w2 = window_output(bc, end, total, adaptor, p);
                    assert(t1 + (w1 + w2) =~= (t1 + w1) + w2);
                }
            }
        },
    }
}

pub open spec fn shifted(rec: FQRec, k: int) -> FQRec {
    FQRec {
        n: (rec.n + k) as usize,
        r: (rec.r + k) as usize,
        o: (rec.o + k) as usize,
        q: (rec.q + k) as usize,
        e: (rec.e + k) as usize,
    }
}

pub(crate) proof fn lemma_line_end_shift(s: Seq<u8>, k: int, x: int, y: int)
    requires
        0 <= k,
        0 <= x,
        k + y <= s.len(),
    ensures
        line_end(s, k + x, k + y) == (if line_end(s.subrange(k, s.len() as int), x, y) >= 0 {
            line_end(s.subrange(k, s.len() as int), x, y) + k
        } else {
            -1
        }),
    decreases y - x,
{
    let t = s.subrange(k, s.len() as int);
    if x < y {
        assert(t[x] == s[k + x]);
        if s[k + x] != NEWLINE {
            lemma_line_end_shift(s, k, x + 1, y);
        }
    }
}

#[verifier::spinoff_prover]
pub(crate) proof fn lemma_record_at_shift(s: Seq<u8>, k: int, x: int, y: int)
    requires
        0 <= k,
        0 <= x,
        k + y <= s.len(),
        s.len() <= usize::MAX,
    ensures
        record_at(s, k + x, k + y) == match record_at(s.subrange(k, s.len() as int), x, y) {
            None => None,
            Some(rec) => Some(shifted(rec, k)),
        },
{
    let t = s.subrange(k, s.len() as int);
    let r = line_end(t, x, y);
    let o = line_end(t, r, y);
    let q = line_end(t, o, y);
    lemma_line_end(t, x, y);
    lemma_line_end(t, r, y);
    lemma_line_end(t, o, y);
    lemma_line_end(t, q, y);
    lemma_line_end_shift(s, k, x, y);
    if r >= 0 {
        lemma_line_end_shift(s, k, r, y);
        if o >= 0 {
            lemma_line_end_shift(s, k, o, y);
            if q >= 0 {
                lemma_line_end_shift(s, k, q, y);
            }
        }
    }
}

#[verifier::spinoff_prover]
#[verifier::rlimit(60)]
pub(crate) proof fn lemma_trimmed_shift(s: Seq<u8>, k: int, rec: FQRec, adaptor: Seq<u8>, p: TrimParams)
    requires
        0 <= k <= s.len(),
        s.len() <= usize::MAX,
        rec.framed(s.subrange(k, s.len() as int)),
    ensures
        shifted(rec, k).framed(s),
        shifted(rec, k).valid(s) == rec.valid(s.subrange(k, s.len() as int)),
        rec.valid(s.subrange(k, s.len() as int)) ==> shifted(rec, k).trimmed(s, adaptor, p)
            == rec.trimmed(s.subrange(k, s.len() as int), adaptor, p),
{
    let t = s.subrange(k, s.len() as int);
    let rs = shifted(rec, k);
    assert(t[rec.r - 1] == s[rs.r - 1]);
    assert(t[rec.o - 1] == s[rs.o - 1]);
    assert(t[rec.q - 1] == s[rs.q - 1]);
    assert(t[rec.e - 1] == s[rs.e - 1]);
    assert(t[rec.n as int] == s[rs.n as int]);
    assert(t[rec.o as int] == s[rs.o as int]);
    assert(rs.seq_of(s) =~= rec.seq_of(t));
    assert(rs.name_of(s) =~= rec.name_of(t));
    if rec.valid(t) {
        assert(rs.qual_of(s) =~= rec.qual_of(t));
        let (start, stop) = rec.bounds(t, adaptor, p);
        assert(rs.bounds(s, adaptor, p) == rec.bounds(t, adaptor, p));
        lemma_name_len_bound(rec.name_of(t));
        lemma_bounds_in_range(t, rec, adaptor, p);
        assert(rs.compacted(s, start, stop) =~= rec.compacted(t, start, stop));
    }
}

/// A window read from offset `k` of `s` holds the records of `s` from
/// there, moved by `k`.
#[verifier::spinoff_prover]
pub(crate) proof fn lemma_window_shift(
    s: Seq<u8>,
    k: int,
    x: int,
    y: int,
    adaptor: Seq<u8>,
    p: TrimParams,
)
    requires
        0 <= k,
        0 <= x,
        k + y <= s.len(),
        s.len() <= usize::MAX,
    ensures
        window_check(s, k + x, k + y) == offset_check(
            window_check(s.subrange(k, s.len() as int), x, y),
            k,
        ),
        window_output(s, k + x, k + y, adaptor, p) == window_output(
            s.subrange(k, s.len() as int),
            x,
            y,
            adaptor,
            p,
        ),
    decreases y - x,
{
    reveal(window_check);
    reveal(window_output);
    let t = s.subrange(k, s.len() as int);
    lemma_record_at_shift(s, k, x, y);
    if y >= 0 {
        lemma_record_at(t, x, y);
    }
    if let Some(rec) = record_at(t, x, y) {
        if y >= 0 {
            lemma_trimmed_shift(s, k, rec, adaptor, p);
            if x < rec.e <= y {
                lemma_window_shift(s, k, rec.e as int, y, adaptor, p);
            }
        } else {
            lemma_line_end(t, x, y);
        }
    }
}

pub(crate) proof fn lemma_check_end(b: Seq<u8>, from: int, to: int, adaptor: Seq<u8>, p: TrimParams)
    requires
        0 <= from <= to,
        to <= b.len(),
        to <= usize::MAX,
    ensures
        window_check(b, from, to) matches Ok(end) ==> from <= end <= to && window_check(b, end, to)
            == Ok::<int, TrimError>(end) && window_output(b, end, to, adaptor, p) == Seq::<
            u8,
        >::empty(),
    decreases to - from,
{
    reveal(window_check);
    reveal(window_output);
    lemma_record_at(b, from, to);
    if let Some(rec) = record_at(b, from, to) {
        if from < rec.e <= to && rec.valid(b) {
            lemma_check_end(b, rec.e as int, to, adaptor, p);
        }
    }
}

/// Trimming a window, and then the bytes it leaves pending together with
/// the next input, yields the same bytes and the same faults as trimming
/// all of it in one window: a record split across refills is emitted once,
/// whole, after the refill that completes it.
#[verifier::spinoff_prover]
#[verifier::rlimit(60)]
pub proof fn lemma_carry_over(b: Seq<u8>, c: Seq<u8>, adaptor: Seq<u8>, p: TrimParams)
    requires
        b.len() + c.len() <= usize::MAX,
    ensures
        match window_check(b, 0, b.len() as int) {
            Ok(end) => window_output(b + c, 0, (b.len() + c.len()) as int, adaptor, p)
                == window_output(b, 0, b.len() as int, adaptor, p) + window_output(
                b.subrange(end, b.len() as int) + c,
                0,
                b.len() + c.len() - end,
                adaptor,
                p,
            ) && window_check(b + c, 0, (b.len() + c.len()) as int) == offset_check(
                window_check(b.subrange(end, b.len() as int) + c, 0, b.len() + c.len() - end),
                end,
            ),
            Err(e) => window_check(b + c, 0, (b.len() + c.len()) as int) == Err::<
                int,
                TrimError,
            >(e),
        },
{
    lemma_window_extend(b, c, 0, adaptor, p);
    lemma_check_end(b, 0, b.len() as int, adaptor, p);
    if let Ok(end) = window_check(b, 0, b.len() as int) {
        let bc = b + c;
        let total = (b.len() + c.len()) as int;
        let rest = b.subrange(end, b.len() as int) + c;
        assert(bc.subrange(end, bc.len() as int) =~= rest);
        lemma_window_shift(bc, end, 0, total - end, adaptor, p);
        assert(window_check(bc, end, total) == offset_check(
            window_check(rest, 0, total - end),
            end,
        ));
        assert(window_output(bc, end, total, adaptor, p) == window_output(
            rest,
            0,
            total - end,
            adaptor,
            p,
        ));
    }
}

} // verus!
