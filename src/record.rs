//! Read records as offsets into a shared buffer, and their trimming and
//! in-place compaction.
use crate::matcher::{adaptor_start, lemma_adaptor_start_exists, naive_matching, MatchFraction};
use crate::trim::{
    lemma_back_cut_exists, lemma_trail_n_bound, n_interval, qual_interval, qual_trim, trim_n_ends,
};
use vstd::math::{max, min};
use vstd::prelude::*;
use vstd::slice::slice_subrange;

verus! {

pub const NEWLINE: u8 = 10;

/// The character that opens a record's name line.
pub const MARKER: u8 = 64;

/// The character that opens a record's separator line.
pub const SEPARATOR: u8 = 43;

pub open spec fn is_blank(c: u8) -> bool {
    c == 32 || c == 9
}

/// Length of the name proper: the part of the name line before its first
/// space or tab.
pub open spec fn name_len(s: Seq<u8>) -> nat
    decreases s.len(),
{
    if s.len() == 0 || is_blank(s[0]) {
        0
    } else {
        1 + name_len(s.drop_first())
    }
}

proof fn lemma_name_len(s: Seq<u8>, k: int)
    requires
        0 <= k <= s.len(),
        forall|j: int| 0 <= j < k ==> !is_blank(s[j]),
        k == s.len() || is_blank(s[k]),
    ensures
        name_len(s) == k,
    decreases k,
{
    if k > 0 {
        let t = s.drop_first();
        assert forall|j: int| 0 <= j < k - 1 implies !is_blank(t[j]) by {
            assert(t[j] == s[j + 1]);
        }
        lemma_name_len(t, k - 1);
    }
}

pub proof fn lemma_name_len_bound(s: Seq<u8>)
    ensures
        name_len(s) <= s.len(),
    decreases s.len(),
{
    if s.len() > 0 {
        lemma_name_len_bound(s.drop_first());
    }
}

/// Why a record cannot be trimmed, or the stream cannot go on.
#[derive(Clone, Copy, Debug, PartialEq, Eq, Structural)]
pub enum TrimError {
    /// The name line does not open with the record marker.
    MissingMarker,
    /// The third line does not open with the separator character.
    MissingSeparator,
    /// The quality line is not as long as the sequence line.
    LengthMismatch,
    /// The input ended inside a record.
    Truncated,
    /// A single record outgrew the largest buffer that can be had.
    RecordTooLong,
}

/// A read record: the offsets in the buffer of the start of its name line
/// (`n`), sequence line (`r`), separator line (`o`), quality line (`q`),
/// and of its end (`e`).
#[derive(Clone, Copy, Debug, PartialEq, Eq, Structural)]
pub struct FQRec {
    pub n: usize,
    pub r: usize,
    pub o: usize,
    pub q: usize,
    pub e: usize,
}

/// The settings of a trimming run.
#[derive(Clone, Copy, Debug)]
pub struct TrimParams {
    pub cutoff: u8,
    pub min_frac: MatchFraction,
    pub min_ltrs: usize,
}

impl FQRec {
    /// The four lines lie in `b` in order, each ending with a newline.
    pub open spec fn framed(&self, b: Seq<u8>) -> bool {
        &&& self.n < self.r < self.o < self.q < self.e <= b.len()
        &&& b[self.r - 1] == NEWLINE
        &&& b[self.o - 1] == NEWLINE
        &&& b[self.q - 1] == NEWLINE
        &&& b[self.e - 1] == NEWLINE
    }

    /// A framed record with its marker, its separator, and a quality line
    /// as long as the sequence line.
    pub open spec fn valid(&self, b: Seq<u8>) -> bool {
        &&& self.framed(b)
        &&& b[self.n as int] == MARKER
        &&& b[self.o as int] == SEPARATOR
        &&& self.e - self.q == self.o - self.r
    }

    pub open spec fn seq_len(&self) -> int {
        self.o - self.r - 1
    }

    pub open spec fn seq_of(&self, b: Seq<u8>) -> Seq<u8> {
        b.subrange(self.r as int, self.o - 1)
    }

    pub open spec fn qual_of(&self, b: Seq<u8>) -> Seq<u8> {
        b.subrange(self.q as int, self.q + self.seq_len())
    }

    pub open spec fn name_of(&self, b: Seq<u8>) -> Seq<u8> {
        b.subrange(self.n as int, self.r - 1)
    }

    /// The kept interval `[start, stop)` of the sequence and quality lines.
    pub open spec fn bounds(&self, b: Seq<u8>, adaptor: Seq<u8>, p: TrimParams) -> (int, int) {
        trim_bounds(self.seq_of(b), self.qual_of(b), adaptor, p)
    }

    /// The bytes the record is rewritten to: the name up to its first
    /// blank, the kept bases, a bare separator line and the kept
    /// qualities.
    pub open spec fn compacted(&self, b: Seq<u8>, start: int, stop: int) -> Seq<u8> {
        b.subrange(self.n as int, self.n + name_len(self.name_of(b))) + seq![NEWLINE] + b.subrange(
            self.r + start,
            self.r + stop,
        ) + seq![NEWLINE, SEPARATOR, NEWLINE] + b.subrange(self.q + start, self.q + stop) + seq![
            NEWLINE,
        ]
    }

    pub open spec fn trimmed(&self, b: Seq<u8>, adaptor: Seq<u8>, p: TrimParams) -> Seq<u8> {
        self.compacted(b, self.bounds(b, adaptor, p).0, self.bounds(b, adaptor, p).1)
    }
}

/// The interval kept of a read: quality and ambiguity trimming first, then
/// removal of the adaptor and of the ambiguous bases it uncovers.
pub open spec fn trim_bounds(seq: Seq<u8>, qual: Seq<u8>, adaptor: Seq<u8>, p: TrimParams) -> (
    int,
    int,
) {
    let qi = qual_interval(qual, 0, p.cutoff as int);
    let ni = n_interval(seq);
    let stop1 = min(qi.1, ni.1);
    let ad = adaptor_start(adaptor, seq.subrange(0, stop1), p.min_frac, p.min_ltrs as int);
    let stop2 = min(stop1, ad);
    let stop = min(stop2, n_interval(seq.subrange(0, stop2)).1);
    let start = min(max(qi.0, ni.0), stop);
    (start, stop)
}

pub proof fn lemma_bounds_in_range(b: Seq<u8>, rec: FQRec, adaptor: Seq<u8>, p: TrimParams)
    requires
        rec.valid(b),
    ensures
        0 <= rec.bounds(b, adaptor, p).0 <= rec.bounds(b, adaptor, p).1 <= rec.seq_len(),
{
    let seq = rec.seq_of(b);
    let qual = rec.qual_of(b);
    let qi = qual_interval(qual, 0, p.cutoff as int);
    lemma_back_cut_exists(qual, p.cutoff as int);
    lemma_trail_n_bound(seq);
    let stop1 = min(qi.1, n_interval(seq).1);
    lemma_adaptor_start_exists(adaptor, seq.subrange(0, stop1), p.min_frac, p.min_ltrs as int, 0);
    let stop2 = min(stop1, adaptor_start(adaptor, seq.subrange(0, stop1), p.min_frac, p.min_ltrs as int));
    lemma_trail_n_bound(seq.subrange(0, stop2));
}

/// Rewriting never lengthens a record: the rewritten bytes hold as many
/// kept qualities as kept bases and fit in the span of the old record.
pub proof fn lemma_compaction_fits(b: Seq<u8>, rec: FQRec, start: int, stop: int)
    requires
        rec.valid(b),
        0 <= start <= stop <= rec.seq_len(),
    ensures
        rec.compacted(b, start, stop).len() == name_len(rec.name_of(b)) + 2 * (stop - start) + 5,
        rec.compacted(b, start, stop).len() <= rec.e - rec.n,
{
    lemma_name_len_bound(rec.name_of(b));
}

/// Checks the structure of a located record.
pub fn check_record(buf: &Vec<u8>, rec: &FQRec) -> (res: Result<(), TrimError>)
    requires
        rec.framed(buf@),
    ensures
        res is Ok <==> rec.valid(buf@),
        res == Err::<(), TrimError>(TrimError::MissingMarker) <==> buf@[rec.n as int] != MARKER,
        res == Err::<(), TrimError>(TrimError::MissingSeparator) <==> buf@[rec.n as int] == MARKER
            && buf@[rec.o as int] != SEPARATOR,
        res == Err::<(), TrimError>(TrimError::LengthMismatch) <==> buf@[rec.n as int] == MARKER
            && buf@[rec.o as int] == SEPARATOR && rec.e - rec.q != rec.o - rec.r,
{
    if buf[rec.n] != MARKER {
        Err(TrimError::MissingMarker)
    } else if buf[rec.o] != SEPARATOR {
        Err(TrimError::MissingSeparator)
    } else if rec.e - rec.q != rec.o - rec.r {
        Err(TrimError::LengthMismatch)
    } else {
        Ok(())
    }
}

/// Moves `buf[src..src + len]` down to `buf[dst..dst + len]`, leaving
/// every other byte as it was.
pub(crate) fn copy_down(buf: &mut Vec<u8>, src: usize, dst: usize, len: usize)
    requires
        dst <= src,
        src + len <= old(buf).len(),
    ensures
        final(buf)@.len() == old(buf)@.len(),
        final(buf)@.subrange(dst as int, dst + len) == old(buf)@.subrange(
            src as int,
            src + len,
        ),
        forall|p: int|
            0 <= p < old(buf)@.len() && (p < dst || p >= dst + len) ==> final(buf)@[p] == old(buf)@[p],
{
    let ghost b0 = buf@;
    let mut k: usize = 0;
    while k < len
        invariant
            dst <= src,
            src + len <= buf.len(),
            buf@.len() == b0.len(),
            k <= len,
            forall|p: int| dst <= p < dst + k ==> buf@[p] == b0[p - dst + src],
            forall|p: int| 0 <= p < b0.len() && (p < dst || p >= dst + k) ==> buf@[p] == b0[p],
        decreases len - k,
    {
        let v = buf[src + k];
        buf[dst + k] = v;
        k += 1;
    }
    assert(buf@.subrange(dst as int, dst + len) =~= b0.subrange(src as int, src + len));
}

impl FQRec {
    /// Computes the kept interval of the record's sequence and quality
    /// lines.
    #[verifier::spinoff_prover]
    pub fn trim_bounds(&self, adaptor: &[u8], params: TrimParams, buf: &Vec<u8>) -> (r: (
        usize,
        usize,
    ))
        requires
            self.valid(buf@),
            params.min_frac.wf(),
        ensures
            r.0 == self.bounds(buf@, adaptor@, params).0,
            r.1 == self.bounds(buf@, adaptor@, params).1,
            r.0 <= r.1 <= self.seq_len(),
    {
        let seqlen = self.o - self.r - 1;
        let (qstart, qstop) = qual_trim(
            slice_subrange(buf.as_slice(), self.q, self.q + seqlen),
            0,
            params.cutoff as i32,
        );
        let seq = slice_subrange(buf.as_slice(), self.r, self.r + seqlen);
        let (nstart, nstop) = trim_n_ends(seq);
        let mut stop = if qstop < nstop {
            qstop
        } else {
            nstop
        };
        let head = slice_subrange(seq, 0, stop);
        let adaptor_pos = naive_matching(adaptor, head, params.min_frac, params.min_ltrs);
        if adaptor_pos < stop {
            stop = adaptor_pos;
        }
        let (_, nstop2) = trim_n_ends(slice_subrange(seq, 0, stop));
        if nstop2 < stop {
            stop = nstop2;
        }
        let first = if qstart > nstart {
            qstart
        } else {
            nstart
        };
        let start = if first < stop {
            first
        } else {
            stop
        };
        (start, stop)
    }

    /// Offset just past the name proper: the first space or tab of the
    /// name line, or its end.
    fn name_end(&self, buf: &Vec<u8>) -> (c: usize)
        requires
            self.framed(buf@),
        ensures
            c == self.n + name_len(self.name_of(buf@)),
            c < self.r,
    {
        let mut cursor: usize = self.n;
        while cursor < self.r - 1 && buf[cursor] != 32 && buf[cursor] != 9
            invariant
                self.framed(buf@),
                self.n <= cursor <= self.r - 1,
                forall|j: int| self.n <= j < cursor ==> !is_blank(buf@[j]),
            decreases self.r - cursor,
        {
            cursor += 1;
        }
        proof {
            let nm = self.name_of(buf@);
            assert forall|j: int| 0 <= j < cursor - self.n implies !is_blank(nm[j]) by {
                assert(nm[j] == buf@[j + self.n]);
            }
            lemma_name_len(nm, cursor - self.n);
        }
        cursor
    }

    /// Rewrites the record in place to keep `[start, stop)` of its
    /// sequence and quality lines.
    #[verifier::spinoff_prover]
    #[verifier::rlimit(50)]
    fn compact(&mut self, buf: &mut Vec<u8>, start: usize, stop: usize)
        requires
            old(self).valid(old(buf)@),
            start <= stop <= old(self).seq_len(),
        ensures
            final(buf)@.len() == old(buf)@.len(),
            final(self).n == old(self).n,
            final(self).e <= old(self).e,
            final(self).valid(final(buf)@),
            final(self).seq_len() == final(self).e - final(self).q - 1 == stop - start,
            final(self).r == old(self).n + name_len(old(self).name_of(old(buf)@)) + 1,
            final(self).o == final(self).r + (stop - start) + 1,
            final(self).q == final(self).o + 2,
            final(buf)@.subrange(final(self).n as int, final(self).e as int) == old(self).compacted(old(buf)@, start as int, stop as int),
            forall|p: int|
                0 <= p < old(buf)@.len() && (p < old(self).n || p >= final(self).e) ==> #[trigger] final(buf)@[p] == old(buf)@[p],
    {
        let ghost b0 = buf@;
        let ghost rec0 = *self;
        let n = self.n;
        let len = stop - start;
        let cursor = self.name_end(buf);
        buf[cursor] = NEWLINE;
        let r_new = cursor + 1;
        copy_down(buf, self.r + start, r_new, len);
        let ghost b2 = buf@;
        let o_new = r_new + len + 1;
        buf[o_new - 1] = NEWLINE;
        buf[o_new] = SEPARATOR;
        buf[o_new + 1] = NEWLINE;
        let q_new = o_new + 2;
        copy_down(buf, self.q + start, q_new, len);
        let ghost b4 = buf@;
        let e_new = q_new + len + 1;
        buf[e_new - 1] = NEWLINE;
        self.r = r_new;
        self.o = o_new;
        self.q = q_new;
        self.e = e_new;
        proof {
            let c = rec0.compacted(b0, start as int, stop as int);
            let fin = buf@;
            assert(c.len() == e_new - n);
            assert forall|p: int| n <= p < e_new implies fin[p] == c[p - n] by {
                if p < cursor {
                    assert(fin[p] == b0[p]);
                } else if p == cursor {
                } else if p < r_new + len {
                    assert(b2.subrange(r_new as int, r_new + len)[p - r_new] == b2[p]);
                    assert(fin[p] == b2[p]);
                } else if p < q_new {
                } else if p < q_new + len {
                    assert(b4.subrange(q_new as int, q_new + len)[p - q_new] == b4[p]);
                    assert(fin[p] == b4[p]);
                }
            }
            assert(fin.subrange(n as int, e_new as int) =~= c);
        }
    }

    /// Trims the record and rewrites it in place, within its own span of
    /// the buffer; afterwards the offsets describe the rewritten record.
    pub fn process(&mut self, adaptor: &[u8], params: TrimParams, buf: &mut Vec<u8>)
        requires
            old(self).valid(old(buf)@),
            params.min_frac.wf(),
        ensures
            final(buf)@.len() == old(buf)@.len(),
            final(self).n == old(self).n,
            final(self).e <= old(self).e,
            final(self).valid(final(buf)@),
            final(self).seq_len() == final(self).e - final(self).q - 1 == old(self).bounds(
                old(buf)@,
                adaptor@,
                params,
            ).1 - old(self).bounds(old(buf)@, adaptor@, params).0,
            final(self).r == old(self).n + name_len(old(self).name_of(old(buf)@)) + 1,
            final(self).o == final(self).r + old(self).bounds(old(buf)@, adaptor@, params).1
                - old(self).bounds(old(buf)@, adaptor@, params).0 + 1,
            final(self).q == final(self).o + 2,
            final(buf)@.subrange(final(self).n as int, final(self).e as int) == old(self).trimmed(
                old(buf)@,
                adaptor@,
                params,
            ),
            forall|p: int|
                0 <= p < old(buf)@.len() && (p < old(self).n || p >= final(self).e) ==> #[trigger] final(buf)@[p] == old(buf)@[p],
    {
        let (start, stop) = self.trim_bounds(adaptor, params, buf);
        self.compact(buf, start, stop);
    }
}

} // verus!
