//! The streaming record engine: a byte window that is refilled from the
//! input, scanned for whole records, and trimmed record by record.
use crate::dispatch::{jobs_output, run_all, Job};
use crate::record::{check_record, copy_down, FQRec, TrimError, TrimParams, MARKER, NEWLINE};
use crate::window::{
    lemma_advance, lemma_check_faults, lemma_job_of, lemma_record_at,
    lemma_record_at_agree, lemma_trimmed_agree, lemma_window_agree, lemma_window_shift, line_end,
    record_at, window_check, window_output,
};
use vstd::prelude::*;
use vstd::slice::slice_subrange;

verus! {

/// One past the first newline of `buf[offset..filled]`.
fn next_line(buf: &Vec<u8>, filled: usize, offset: usize) -> (r: Option<usize>)
    requires
        filled <= buf@.len(),
    ensures
        r matches Some(x) ==> x == line_end(buf@, offset as int, filled as int),
        r is None ==> line_end(buf@, offset as int, filled as int) == -1,
{
    let mut i = offset;
    while i < filled
        invariant
            filled <= buf@.len(),
            offset <= i,
            line_end(buf@, offset as int, filled as int) == line_end(buf@, i as int, filled as int),
        decreases filled - i,
    {
        if buf[i] == NEWLINE {
            return Some(i + 1);
        }
        i += 1;
    }
    None
}

/// Locates the whole record that starts at `*cursor`, and moves the cursor
/// past it; leaves the cursor where it was when the window does not hold
/// all of it. A whole record whose name line does not open with the record
/// marker is reported as malformed, and the cursor stays.
pub fn get_next_record(buf: &Vec<u8>, cursor: &mut usize, filled: usize) -> (r: Result<
    Option<FQRec>,
    TrimError,
>)
    requires
        *old(cursor) <= filled <= buf@.len(),
    ensures
        record_at(buf@, *old(cursor) as int, filled as int) is None ==> r == Ok::<
            Option<FQRec>,
            TrimError,
        >(None) && *final(cursor) == *old(cursor),
        record_at(buf@, *old(cursor) as int, filled as int) matches Some(rec) ==> rec.framed(buf@)
            && rec.n == *old(cursor) && rec.e <= filled && (if buf@[rec.n as int] == MARKER {
            r == Ok::<Option<FQRec>, TrimError>(Some(rec)) && *final(cursor) == rec.e
        } else {
            r == Err::<Option<FQRec>, TrimError>(TrimError::MissingMarker) && *final(cursor)
                == *old(cursor)
        }),
{
    proof {
        lemma_record_at(buf@, *cursor as int, filled as int);
    }
    let n = *cursor;
    let r = match next_line(buf, filled, n) {
        Some(x) => x,
        None => return Ok(None),
    };
    let o = match next_line(buf, filled, r) {
        Some(x) => x,
        None => return Ok(None),
    };
    let q = match next_line(buf, filled, o) {
        Some(x) => x,
        None => return Ok(None),
    };
    let e = match next_line(buf, filled, q) {
        Some(x) => x,
        None => return Ok(None),
    };
    if buf[n] != MARKER {
        return Err(TrimError::MissingMarker);
    }
    *cursor = e;
    Ok(Some(FQRec { n, r, o, q, e }))
}

/// Moves the unconsumed bytes `buf[cursor..filled]` to the front of the
/// buffer.
pub fn shift(buf: &mut Vec<u8>, cursor: &mut usize, filled: &mut usize)
    requires
        *old(cursor) <= *old(filled) <= old(buf)@.len(),
    ensures
        final(buf)@.len() == old(buf)@.len(),
        *final(cursor) == 0,
        *final(filled) == *old(filled) - *old(cursor),
        final(buf)@.subrange(0, *final(filled) as int) == old(buf)@.subrange(
            *old(cursor) as int,
            *old(filled) as int,
        ),
        forall|p: int|
            *final(filled) <= p < final(buf)@.len() ==> final(buf)@[p] == old(buf)@[p],
{
    let len = *filled - *cursor;
    copy_down(buf, *cursor, 0, len);
    *filled = len;
    *cursor = 0;
}

/// Appends `buf[from..to]` to `out`.
fn append_span(out: &mut Vec<u8>, buf: &Vec<u8>, from: usize, to: usize)
    requires
        from <= to <= buf@.len(),
    ensures
        final(out)@ == old(out)@ + buf@.subrange(from as int, to as int),
{
    let ghost o0 = out@;
    let mut k = from;
    while k < to
        invariant
            from <= k <= to <= buf@.len(),
            out@ == o0 + buf@.subrange(from as int, k as int),
        decreases to - k,
    {
        out.push(buf[k]);
        k += 1;
        assert(out@ =~= o0 + buf@.subrange(from as int, k as int));
    }
}

/// The streaming engine: a fixed window of the input holding the bytes
/// `buf[cursor..filled]` that are not consumed yet, with the adaptor and
/// the settings of the run.
pub struct Trimmer {
    buf: Vec<u8>,
    cursor: usize,
    filled: usize,
    adaptor: Vec<u8>,
    params: TrimParams,
}

impl Trimmer {
    pub closed spec fn wf(&self) -> bool {
        &&& self.cursor <= self.filled <= self.buf@.len()
        &&& self.buf@.len() > 0
        &&& self.params.min_frac.wf()
    }

    /// The bytes read and not consumed yet.
    pub closed spec fn pending(&self) -> Seq<u8> {
        self.buf@.subrange(self.cursor as int, self.filled as int)
    }

    pub closed spec fn capacity(&self) -> nat {
        self.buf@.len()
    }

    pub closed spec fn adaptor(&self) -> Seq<u8> {
        self.adaptor@
    }

    pub closed spec fn params(&self) -> TrimParams {
        self.params
    }

    /// An engine with an empty window of `buffer_size` bytes.
    pub fn new(buffer_size: usize, adaptor: Vec<u8>, params: TrimParams) -> (t: Trimmer)
        requires
            buffer_size > 0,
            params.min_frac.wf(),
        ensures
            t.wf(),
            t.pending() == Seq::<u8>::empty(),
            t.capacity() == buffer_size,
            t.adaptor() == adaptor@,
            t.params() == params,
    {
        let buf: Vec<u8> = vec![0u8; buffer_size];
        let t = Trimmer { buf, cursor: 0, filled: 0, adaptor, params };
        assert(t.pending() =~= Seq::<u8>::empty());
        t
    }

    /// Room for new bytes once the pending ones are moved to the front.
    pub fn free_space(&self) -> (r: usize)
        requires
            self.wf(),
        ensures
            r == self.capacity() - self.pending().len(),
    {
        self.buf.len() - (self.filled - self.cursor)
    }

    /// Doubles the window when the pending bytes fill it, so that a record
    /// longer than the window can still be completed.
    pub fn make_room(&mut self) -> (res: Result<(), TrimError>)
        requires
            old(self).wf(),
        ensures
            final(self).wf(),
            final(self).pending() == old(self).pending(),
            final(self).adaptor() == old(self).adaptor(),
            final(self).params() == old(self).params(),
            old(self).pending().len() < old(self).capacity() ==> res is Ok && final(self).capacity()
                == old(self).capacity(),
            old(self).pending().len() == old(self).capacity() ==> (res is Ok <==> 2
                * old(self).capacity() <= usize::MAX),
            old(self).pending().len() == old(self).capacity() && res is Ok ==> final(self).capacity() == 2 * old(self).capacity(),
            res is Err ==> res == Err::<(), TrimError>(TrimError::RecordTooLong),
    {
        let len = self.buf.len();
        if self.filled - self.cursor < len {
            return Ok(());
        }
        if len > usize::MAX / 2 {
            return Err(TrimError::RecordTooLong);
        }
        let ghost b0 = self.buf@;
        let ghost s0 = *self;
        let target = len * 2;
        while self.buf.len() < target
            invariant
                self.cursor == s0.cursor,
                self.filled == s0.filled,
                self.params == s0.params,
                self.adaptor@ == s0.adaptor@,
                s0.wf(),
                len == s0.buf@.len(),
                len <= self.buf@.len() <= target,
                self.buf@.subrange(0, len as int) == b0,
                b0.len() == len,
            decreases target - self.buf@.len(),
        {
            self.buf.push(0);
            assert(self.buf@.subrange(0, len as int) =~= b0);
        }
        assert(self.pending() =~= s0.pending());
        Ok(())
    }

    /// Moves the pending bytes to the front of the window and appends
    /// `chunk` after them.
    pub fn refill(&mut self, chunk: &[u8])
        requires
            old(self).wf(),
            chunk@.len() <= old(self).capacity() - old(self).pending().len(),
        ensures
            final(self).wf(),
            final(self).pending() == old(self).pending() + chunk@,
            final(self).capacity() == old(self).capacity(),
            final(self).adaptor() == old(self).adaptor(),
            final(self).params() == old(self).params(),
    {
        let ghost p0 = self.pending();
        shift(&mut self.buf, &mut self.cursor, &mut self.filled);
        let ghost b1 = self.buf@;
        let ghost s1 = *self;
        let start = self.filled;
        let mut k: usize = 0;
        while k < chunk.len()
            invariant
                self.params == s1.params,
                self.adaptor@ == s1.adaptor@,
                s1.params.min_frac.wf(),
                chunk@.len() + start <= b1.len(),
                b1.len() > 0,
                self.cursor == 0,
                self.filled == start,
                start + chunk@.len() <= self.buf.len(),
                self.buf@.len() == b1.len(),
                k <= chunk@.len(),
                self.buf@.subrange(0, start as int) == p0,
                forall|i: int| 0 <= i < k ==> self.buf@[start + i] == chunk@[i],
            decreases chunk@.len() - k,
        {
            self.buf[start + k] = chunk[k];
            k += 1;
            assert(self.buf@.subrange(0, start as int) =~= p0);
        }
        self.filled = start + chunk.len();
        assert(self.pending() =~= p0 + chunk@);
    }

    /// Locates, checks and trims every whole record of the window, and
    /// returns their rewritten bytes in order; the bytes of a record not
    /// yet complete stay pending.
    #[verifier::spinoff_prover]
    #[verifier::rlimit(100)]
    pub fn trim_window(&mut self) -> (res: Result<Vec<u8>, TrimError>)
        requires
            old(self).wf(),
        ensures
            final(self).wf(),
            final(self).capacity() == old(self).capacity(),
            final(self).adaptor() == old(self).adaptor(),
            final(self).params() == old(self).params(),
            match window_check(old(self).pending(), 0, old(self).pending().len() as int) {
                Ok(end) => res matches Ok(out) && out@ == window_output(
                    old(self).pending(),
                    0,
                    old(self).pending().len() as int,
                    old(self).adaptor(),
                    old(self).params(),
                ) && final(self).pending() == old(self).pending().subrange(
                    end,
                    old(self).pending().len() as int,
                ),
                Err(e) => res == Err::<Vec<u8>, TrimError>(e),
            },
    {
        reveal(window_check);
        reveal(window_output);
        let ghost p0 = self.pending();
        shift(&mut self.buf, &mut self.cursor, &mut self.filled);
        let ghost b0 = self.buf@;
        let ghost to = self.filled as int;
        proof {
            lemma_window_agree(p0, b0, 0, to, self.adaptor@, self.params);
        }
        let mut out: Vec<u8> = Vec::new();
        let ghost a0 = self.adaptor@;
        let ghost prm = self.params;
        loop
            invariant
                self.adaptor@ == a0,
                self.params == prm,
                a0 == old(self).adaptor@,
                prm == old(self).params,
                b0.len() == old(self).buf@.len(),
                p0 == old(self).pending(),
                p0.len() == to,
                window_check(p0, 0, to) == window_check(b0, 0, to),
                window_output(p0, 0, to, a0, prm) == window_output(b0, 0, to, a0, prm),
                self.wf(),
                self.filled == to,
                self.buf@.len() == b0.len(),
                to <= b0.len(),
                forall|i: int| self.cursor <= i < to ==> self.buf@[i] == b0[i],
                window_check(b0, self.cursor as int, to) == window_check(b0, 0, to),
                window_check(b0, 0, to) is Ok ==> out@ + window_output(
                    b0,
                    self.cursor as int,
                    to,
                    self.adaptor@,
                    self.params,
                ) == window_output(b0, 0, to, self.adaptor@, self.params),
            ensures
                self.wf(),
                self.filled == to,
                self.buf@.len() == b0.len(),
                window_check(b0, 0, to) == Ok::<int, TrimError>(self.cursor as int),
                out@ == window_output(b0, 0, to, self.adaptor@, self.params),
                forall|i: int| self.cursor <= i < to ==> self.buf@[i] == b0[i],
            decreases to - self.cursor,
        {
            let ghost c = self.cursor as int;
            let ghost bc = self.buf@;
            proof {
                reveal(window_check);
                reveal(window_output);
                lemma_window_agree(bc, b0, c, to, self.adaptor@, self.params);
                lemma_record_at_agree(bc, b0, c, to);
            }
            let mut rec = match get_next_record(&self.buf, &mut self.cursor, self.filled) {
                Ok(Some(rec)) => rec,
                Err(e) => {
                    assert(window_check(b0, c, to) == Err::<int, TrimError>(e));
                    return Err(e);
                },
                Ok(None) => {
                    proof {
                        reveal(window_check);
                        reveal(window_output);
                    }
                    assert(out@ + Seq::<u8>::empty() =~= out@);
                    break;
                },
            };
            match check_record(&self.buf, &rec) {
                Ok(()) => {},
                Err(e) => {
                    assert(bc[rec.n as int] == b0[rec.n as int]);
                    assert(bc[rec.o as int] == b0[rec.o as int]);
                    assert(window_check(b0, c, to) == Err::<int, TrimError>(e));
                    return Err(e);
                },
            }
            proof {
                lemma_trimmed_agree(bc, b0, rec, self.adaptor@, self.params);
            }
            let n = rec.n;
            rec.process(self.adaptor.as_slice(), self.params, &mut self.buf);
            append_span(&mut out, &self.buf, n, rec.e);
        }
        proof {
            assert forall|i: int| 0 <= i < to implies p0[i] == b0[i] by {
                assert(b0.subrange(0, to)[i] == b0[i]);
            }
            assert(self.pending() =~= p0.subrange(self.cursor as int, to));
        }
        Ok(out)
    }

    /// Does what `trim_window` does, with the records trimmed on the worker
    /// pool: each record is copied out as a job, and the rewritten jobs are
    /// joined in their order in the window.
    #[verifier::spinoff_prover]
    #[verifier::rlimit(100)]
    pub fn trim_window_par(&mut self) -> (res: Result<Vec<u8>, TrimError>)
        requires
            old(self).wf(),
        ensures
            final(self).wf(),
            final(self).capacity() == old(self).capacity(),
            final(self).adaptor() == old(self).adaptor(),
            final(self).params() == old(self).params(),
            match window_check(old(self).pending(), 0, old(self).pending().len() as int) {
                Ok(end) => res matches Ok(out) && out@ == window_output(
                    old(self).pending(),
                    0,
                    old(self).pending().len() as int,
                    old(self).adaptor(),
                    old(self).params(),
                ) && final(self).pending() == old(self).pending().subrange(
                    end,
                    old(self).pending().len() as int,
                ),
                Err(e) => res == Err::<Vec<u8>, TrimError>(e),
            },
    {
        let ghost p0 = self.pending();
        shift(&mut self.buf, &mut self.cursor, &mut self.filled);
        let ghost b0 = self.buf@;
        let ghost to = self.filled as int;
        let ghost a0 = self.adaptor@;
        let ghost prm = self.params;
        proof {
            lemma_window_agree(p0, b0, 0, to, a0, prm);
            reveal(window_check);
        }
        let mut jobs: Vec<Job> = Vec::new();
        assert(b0.len() == self.buf.len());
        loop
            invariant
                self.adaptor@ == a0,
                self.params == prm,
                a0 == old(self).adaptor@,
                prm == old(self).params,
                b0.len() == old(self).buf@.len(),
                p0 == old(self).pending(),
                p0.len() == to,
                window_check(p0, 0, to) == window_check(b0, 0, to),
                window_output(p0, 0, to, a0, prm) == window_output(b0, 0, to, a0, prm),
                self.wf(),
                self.filled == to,
                self.buf@ == b0,
                to <= b0.len(),
                b0.len() <= usize::MAX,
                window_check(b0, self.cursor as int, to) == window_check(b0, 0, to),
                window_output(b0, 0, to, a0, prm) == jobs_output(jobs@, a0, prm) + window_output(
                    b0,
                    self.cursor as int,
                    to,
                    a0,
                    prm,
                ),
                forall|i: int| 0 <= i < jobs@.len() ==> jobs@[i].ready(),
            ensures
                self.wf(),
                self.filled == to,
                self.buf@ == b0,
                window_check(b0, 0, to) == Ok::<int, TrimError>(self.cursor as int),
                window_output(b0, 0, to, a0, prm) == jobs_output(jobs@, a0, prm),
                forall|i: int| 0 <= i < jobs@.len() ==> jobs@[i].ready(),
            decreases to - self.cursor,
        {
            let ghost c = self.cursor as int;
            proof {
                reveal(window_check);
                reveal(window_output);
            }
            let rec = match get_next_record(&self.buf, &mut self.cursor, self.filled) {
                Ok(Some(rec)) => rec,
                Err(e) => {
                    return Err(e);
                },
                Ok(None) => {
                    assert(jobs_output(jobs@, a0, prm) + Seq::<u8>::empty() =~= jobs_output(
                        jobs@,
                        a0,
                        prm,
                    ));
                    break;
                },
            };
            match check_record(&self.buf, &rec) {
                Ok(()) => {},
                Err(e) => {
                    return Err(e);
                },
            }
            let mut bytes: Vec<u8> = Vec::new();
            append_span(&mut bytes, &self.buf, rec.n, rec.e);
            let rel = FQRec {
                n: 0,
                r: rec.r - rec.n,
                o: rec.o - rec.n,
                q: rec.q - rec.n,
                e: rec.e - rec.n,
            };
            let job = Job { rec: rel, bytes };
            proof {
                lemma_job_of(b0, rec, rel, job.bytes@, a0, prm);
                let w = window_output(b0, rec.e as int, to, a0, prm);
                assert(jobs_output(jobs@.push(job), a0, prm) == jobs_output(jobs@, a0, prm)
                    + job.output(a0, prm)) by {
                    assert(jobs@.push(job).drop_last() =~= jobs@);
                }
                assert(jobs_output(jobs@, a0, prm) + (job.output(a0, prm) + w) =~= (jobs_output(
                    jobs@,
                    a0,
                    prm,
                ) + job.output(a0, prm)) + w);
            }
            jobs.push(job);
        }
        let ghost before = jobs@;
        run_all(&mut jobs, self.adaptor.as_slice(), self.params);
        let mut out: Vec<u8> = Vec::new();
        let mut k: usize = 0;
        while k < jobs.len()
            invariant
                jobs@.len() == before.len(),
                k <= before.len(),
                forall|i: int|
                    0 <= i < before.len() ==> jobs@[i].bytes@ == before[i].output(a0, prm),
                out@ == jobs_output(before.take(k as int), a0, prm),
            decreases before.len() - k,
        {
            append_span(&mut out, &jobs[k].bytes, 0, jobs[k].bytes.len());
            proof {
                let bk = jobs@[k as int].bytes@;
                assert(bk.subrange(0, bk.len() as int) =~= bk);
                assert(before.take(k + 1).drop_last() =~= before.take(k as int));
            }
            k += 1;
        }
        proof {
            assert(before.take(before.len() as int) =~= before);
            assert forall|i: int| 0 <= i < to implies p0[i] == b0[i] by {
                assert(b0.subrange(0, to)[i] == b0[i]);
            }
            assert(self.pending() =~= p0.subrange(self.cursor as int, to));
        }
        Ok(out)
    }

    /// At the end of the input: fails when bytes of an unfinished record
    /// are left.
    pub fn finish(&self) -> (res: Result<(), TrimError>)
        requires
            self.wf(),
        ensures
            res is Ok <==> self.pending().len() == 0,
            res is Err ==> res == Err::<(), TrimError>(TrimError::Truncated),
    {
        if self.cursor < self.filled {
            Err(TrimError::Truncated)
        } else {
            Ok(())
        }
    }
}

/// Trims every record of `input`, read through a window of `buffer_size`
/// bytes that is refilled as it is consumed. The result does not depend on
/// the window's size: it is the trimmed bytes of all records of the input,
/// or the first fault among them, or `Truncated` when the input ends inside
/// a record; `RecordTooLong` only for an input longer than half the address
/// space, whose window cannot always be doubled.
#[verifier::spinoff_prover]
#[verifier::rlimit(60)]
pub fn trim_all(input: &[u8], buffer_size: usize, adaptor: Vec<u8>, params: TrimParams) -> (res:
    Result<Vec<u8>, TrimError>)
    requires
        buffer_size > 0,
        params.min_frac.wf(),
    ensures
        res matches Ok(out) ==> window_check(input@, 0, input@.len() as int) == Ok::<
            int,
            TrimError,
        >(input@.len() as int) && out@ == window_output(
            input@,
            0,
            input@.len() as int,
            adaptor@,
            params,
        ),
        res matches Err(e) ==> e == TrimError::RecordTooLong || window_check(
            input@,
            0,
            input@.len() as int,
        ) == Err::<int, TrimError>(e) || (e == TrimError::Truncated && (window_check(
            input@,
            0,
            input@.len() as int,
        ) matches Ok(end) && end < input@.len())),
        res == Err::<Vec<u8>, TrimError>(TrimError::RecordTooLong) ==> input@.len() > usize::MAX
            / 2,
{
    let n_in = input.len();
    let ghost s = input@;
    let ghost len = n_in as int;
    let ghost a = adaptor@;
    let mut t = Trimmer::new(buffer_size, adaptor, params);
    let mut out: Vec<u8> = Vec::new();
    let mut pos: usize = 0;
    let ghost mut base: int = 0;
    let mut done = false;
    proof {
        assert(t.pending() =~= s.subrange(0, 0));
        reveal(window_check);
    }
    while !done
        invariant
            s == input@,
            len == s.len(),
            len <= usize::MAX,
            t.wf(),
            t.params() == params,
            t.adaptor() == a,
            0 <= base <= pos <= len,
            t.pending() == s.subrange(base, pos as int),
            window_check(t.pending(), 0, t.pending().len() as int) == Ok::<int, TrimError>(0),
            window_check(s, 0, len) == window_check(s, base, len),
            window_output(s, 0, len, a, params) == out@ + window_output(s, base, len, a, params),
            done ==> pos == len,
        decreases len - pos + (if done { 0int } else { 1int }),
    {
        match t.make_room() {
            Ok(()) => {},
            Err(e) => {
                return Err(e);
            },
        }
        let free = t.free_space();
        let take = if input.len() - pos < free {
            input.len() - pos
        } else {
            free
        };
        let chunk = slice_subrange(input, pos, pos + take);
        t.refill(chunk);
        pos = pos + take;
        let ghost win = t.pending();
        proof {
            assert(win =~= s.subrange(base, pos as int));
            lemma_advance(s, base, pos as int, a, params);
        }
        match t.trim_window() {
            Ok(bytes) => {
                proof {
                    let end = window_check(win, 0, win.len() as int)->Ok_0;
                    assert(win.len() == pos - base);
                    assert(out@ + (bytes@ + window_output(s, base + end, len, a, params)) =~= (out@
                        + bytes@) + window_output(s, base + end, len, a, params));
                    base = base + end;
                    assert(t.pending() =~= s.subrange(base, pos as int));
                }
                append_span(&mut out, &bytes, 0, bytes.len());
                proof {
                    assert(bytes@.subrange(0, bytes@.len() as int) =~= bytes@);
                }
            },
            Err(e) => {
                proof {
                    lemma_check_faults(win, 0, win.len() as int);
                }
                return Err(e);
            },
        }
        if take < free {
            done = true;
        }
    }
    proof {
        reveal(window_check);
        reveal(window_output);
        assert(s.subrange(base, len) =~= t.pending());
        lemma_window_shift(s, base, 0, len - base, a, params);
    }
    match t.finish() {
        Ok(()) => Ok(out),
        Err(e) => Err(e),
    }
}

} // verus!
