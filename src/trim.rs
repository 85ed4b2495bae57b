//! Quality and ambiguity trimming of a single read.
use vstd::prelude::*;

verus! {

/// The symbol of a base that could not be called.
pub const AMBIGUOUS: u8 = 78;

/// Offset of the phred-style quality encoding.
pub const QUAL_BASE: i32 = 33;

/// Number of leading ambiguous bases of `s`.
pub open spec fn lead_n(s: Seq<u8>) -> nat
    decreases s.len(),
{
    if s.len() == 0 || s[0] != AMBIGUOUS {
        0
    } else {
        1 + lead_n(s.drop_first())
    }
}

/// Number of trailing ambiguous bases of `s`.
pub open spec fn trail_n(s: Seq<u8>) -> nat
    decreases s.len(),
{
    if s.len() == 0 || s.last() != AMBIGUOUS {
        0
    } else {
        1 + trail_n(s.drop_last())
    }
}

/// The interval of `s` between its first and its last called base, or
/// `[0, 0)` when `s` holds no called base.
pub open spec fn n_interval(s: Seq<u8>) -> (int, int) {
    if lead_n(s) == s.len() {
        (0, 0)
    } else {
        (lead_n(s) as int, s.len() - trail_n(s))
    }
}

pub proof fn lemma_lead_n(s: Seq<u8>, k: int)
    requires
        0 <= k <= s.len(),
        forall|j: int| 0 <= j < k ==> s[j] == AMBIGUOUS,
        k == s.len() || s[k] != AMBIGUOUS,
    ensures
        lead_n(s) == k,
    decreases k,
{
    if k > 0 {
        let t = s.drop_first();
        assert forall|j: int| 0 <= j < k - 1 implies t[j] == AMBIGUOUS by {
            assert(t[j] == s[j + 1]);
        }
        lemma_lead_n(t, k - 1);
    }
}

pub proof fn lemma_trail_n(s: Seq<u8>, k: int)
    requires
        0 <= k <= s.len(),
        forall|j: int| s.len() - k <= j < s.len() ==> s[j] == AMBIGUOUS,
        k == s.len() || s[s.len() - k - 1] != AMBIGUOUS,
    ensures
        trail_n(s) == k,
    decreases k,
{
    if k > 0 {
        let t = s.drop_last();
        assert forall|j: int| t.len() - (k - 1) <= j < t.len() implies t[j] == AMBIGUOUS by {
            assert(t[j] == s[j]);
        }
        lemma_trail_n(t, k - 1);
    }
}

pub proof fn lemma_trail_n_bound(s: Seq<u8>)
    ensures
        trail_n(s) <= s.len(),
    decreases s.len(),
{
    if s.len() > 0 {
        lemma_trail_n_bound(s.drop_last());
    }
}

/// A sequence without ambiguous bases is kept whole.
pub proof fn lemma_no_ambiguous_kept_whole(s: Seq<u8>)
    requires
        forall|i: int| 0 <= i < s.len() ==> s[i] != AMBIGUOUS,
    ensures
        n_interval(s) == (0int, s.len() as int),
{
    if s.len() > 0 {
        lemma_lead_n(s, 0);
        lemma_trail_n(s, 0);
    } else {
        lemma_lead_n(s, 0);
    }
}

/// Finds the positions of the first and the last base of `read` that is
/// not ambiguous; the second is one past the last such base.
pub fn trim_n_ends(read: &[u8]) -> (r: (usize, usize))
    ensures
        r.0 == n_interval(read@).0,
        r.1 == n_interval(read@).1,
        r.0 <= r.1 <= read@.len(),
{
    let len = read.len();
    let mut i: usize = 0;
    while i < len && read[i] == AMBIGUOUS
        invariant
            len == read@.len(),
            0 <= i <= len,
            forall|j: int| 0 <= j < i ==> read@[j] == AMBIGUOUS,
        decreases len - i,
    {
        i += 1;
    }
    proof {
        lemma_lead_n(read@, i as int);
    }
    if i == len {
        return (0, 0);
    }
    let mut k: usize = 0;
    while k < len && read[len - 1 - k] == AMBIGUOUS
        invariant
            len == read@.len(),
            0 <= k <= len,
            forall|j: int| len - k <= j < len ==> read@[j] == AMBIGUOUS,
        decreases len - k,
    {
        k += 1;
    }
    proof {
        lemma_trail_n(read@, k as int);
        assert(read@[i as int] != AMBIGUOUS);
    }
    (i, len - k)
}

/// What one base adds to the running trim score against `cut`.
pub open spec fn penalty(q: u8, cut: int) -> int {
    cut + QUAL_BASE - q as int
}

/// Trim score of the suffix of `q` that starts at `k`.
pub open spec fn back_score(q: Seq<u8>, cut: int, k: int) -> int
    decreases q.len() - k,
{
    if k < 0 || k >= q.len() {
        0
    } else {
        penalty(q[k], cut) + back_score(q, cut, k + 1)
    }
}

/// Trim score of the prefix of `q` of length `k`.
pub open spec fn front_score(q: Seq<u8>, cut: int, k: int) -> int
    decreases k,
{
    if k <= 0 || k > q.len() {
        0
    } else {
        front_score(q, cut, k - 1) + penalty(q[k - 1], cut)
    }
}

/// `k` is reached by the scan from the 3' end: no suffix from `k` on
/// has a negative score.
pub open spec fn back_reached(q: Seq<u8>, cut: int, k: int) -> bool {
    &&& 0 <= k < q.len()
    &&& forall|j: int| k <= j < q.len() ==> back_score(q, cut, j) >= 0
}

/// `k` is reached by the scan from the 5' end: no prefix up to length
/// `k` has a negative score.
pub open spec fn front_reached(q: Seq<u8>, cut: int, k: int) -> bool {
    &&& 1 <= k <= q.len()
    &&& forall|j: int| 1 <= j <= k ==> front_score(q, cut, j) >= 0
}

/// `k` is the 3' trim point: the reached position of highest positive
/// score, the one nearest the end among equals; the full length when no
/// reached position scores above zero.
pub open spec fn is_back_cut(q: Seq<u8>, cut: int, k: int) -> bool {
    ||| (k == q.len() && forall|j: int| back_reached(q, cut, j) ==> back_score(q, cut, j) <= 0)
    ||| (back_reached(q, cut, k) && back_score(q, cut, k) > 0 && (forall|j: int|
        k < j < q.len() ==> back_score(q, cut, j) < back_score(q, cut, k)) && (forall|j: int|
        0 <= j < k && back_reached(q, cut, j) ==> back_score(q, cut, j) <= back_score(q, cut, k)))
}

/// `k` is the 5' trim point: the reached prefix length of highest
/// positive score, the shortest among equals; zero when none scores
/// above zero.
pub open spec fn is_front_cut(q: Seq<u8>, cut: int, k: int) -> bool {
    ||| (k == 0 && forall|j: int| front_reached(q, cut, j) ==> front_score(q, cut, j) <= 0)
    ||| (front_reached(q, cut, k) && front_score(q, cut, k) > 0 && (forall|j: int|
        1 <= j < k ==> front_score(q, cut, j) < front_score(q, cut, k)) && (forall|j: int|
        k < j <= q.len() && front_reached(q, cut, j) ==> front_score(q, cut, j) <= front_score(
            q,
            cut,
            k,
        )))
}

pub open spec fn back_cut(q: Seq<u8>, cut: int) -> int {
    choose|k: int| is_back_cut(q, cut, k)
}

pub open spec fn front_cut(q: Seq<u8>, cut: int) -> int {
    choose|k: int| is_front_cut(q, cut, k)
}

/// The interval kept by quality trimming with the given 5' and 3'
/// cutoffs; a 5' cutoff that is not positive trims nothing at the 5' end.
pub open spec fn qual_interval(q: Seq<u8>, cut_front: int, cut_back: int) -> (int, int) {
    let start = if cut_front > 0 {
        front_cut(q, cut_front)
    } else {
        0
    };
    let stop = back_cut(q, cut_back);
    if start >= stop {
        (0, 0)
    } else {
        (start, stop)
    }
}

pub proof fn lemma_back_cut_unique(q: Seq<u8>, cut: int, a: int, b: int)
    requires
        is_back_cut(q, cut, a),
        is_back_cut(q, cut, b),
    ensures
        a == b,
{
    if a < b {
        if b == q.len() {
            assert(back_reached(q, cut, a));
        } else {
            assert(back_score(q, cut, b) < back_score(q, cut, a));
            assert(back_reached(q, cut, a));
        }
    } else if b < a {
        if a == q.len() {
            assert(back_reached(q, cut, b));
        } else {
            assert(back_score(q, cut, a) < back_score(q, cut, b));
            assert(back_reached(q, cut, b));
        }
    }
}

pub proof fn lemma_front_cut_unique(q: Seq<u8>, cut: int, a: int, b: int)
    requires
        is_front_cut(q, cut, a),
        is_front_cut(q, cut, b),
    ensures
        a == b,
{
    if a < b {
        if a == 0 {
            assert(front_reached(q, cut, b));
        } else {
            assert(front_score(q, cut, a) < front_score(q, cut, b));
        }
    } else if b < a {
        if b == 0 {
            assert(front_reached(q, cut, a));
        } else {
            assert(front_score(q, cut, b) < front_score(q, cut, a));
        }
    }
}

proof fn lemma_back_score_bound(q: Seq<u8>, cut: int, k: int)
    requires
        0 <= k <= q.len(),
        -0x8000_0000 <= cut < 0x8000_0000,
    ensures
        -(q.len() - k) * 0x1_0000_0000 <= back_score(q, cut, k) <= (q.len() - k) * 0x1_0000_0000,
    decreases q.len() - k,
{
    if k < q.len() {
        lemma_back_score_bound(q, cut, k + 1);
    }
}

proof fn lemma_front_score_bound(q: Seq<u8>, cut: int, k: int)
    requires
        0 <= k <= q.len(),
        -0x8000_0000 <= cut < 0x8000_0000,
    ensures
        -k * 0x1_0000_0000 <= front_score(q, cut, k) <= k * 0x1_0000_0000,
    decreases k,
{
    if k > 0 {
        lemma_front_score_bound(q, cut, k - 1);
    }
}

proof fn lemma_scaled_fits(a: int)
    requires
        0 <= a <= usize::MAX,
    ensures
        a * 0x1_0000_0000 < 0x1_0000_0000_0000_0000_0000_0000,
{
    assert(a * 0x1_0000_0000 <= 0xffff_ffff_ffff_ffff * 0x1_0000_0000) by (nonlinear_arith)
        requires
            0 <= a <= 0xffff_ffff_ffff_ffff,
    ;
}


proof fn lemma_back_scan(q: Seq<u8>, cut: int, i: int, stop: int)
    requires
        0 <= i <= q.len(),
        forall|j: int| i <= j < q.len() ==> back_score(q, cut, j) >= 0,
        i <= stop <= q.len(),
        stop < q.len() ==> back_score(q, cut, stop) > 0,
        forall|j: int|
            stop < j < q.len() ==> back_score(q, cut, j) < (if stop == q.len() {
                0
            } else {
                back_score(q, cut, stop)
            }) || (stop == q.len() && back_score(q, cut, j) <= 0),
        forall|j: int|
            i <= j < q.len() ==> back_score(q, cut, j) <= (if stop == q.len() {
                0
            } else {
                back_score(q, cut, stop)
            }),
    ensures
        exists|k: int| is_back_cut(q, cut, k),
    decreases i,
{
    let best = if stop == q.len() {
        0
    } else {
        back_score(q, cut, stop)
    };
    if i == 0 || back_score(q, cut, i - 1) < 0 {
        assert forall|j: int| back_reached(q, cut, j) implies back_score(q, cut, j) <= best by {
            if j < i {
                assert(back_score(q, cut, i - 1) >= 0);
            }
        }
        if stop < q.len() {
            assert(back_reached(q, cut, stop));
        }
        assert(is_back_cut(q, cut, stop));
    } else if back_score(q, cut, i - 1) > best {
        lemma_back_scan(q, cut, i - 1, i - 1);
    } else {
        lemma_back_scan(q, cut, i - 1, stop);
    }
}

pub proof fn lemma_back_cut_exists(q: Seq<u8>, cut: int)
    ensures
        is_back_cut(q, cut, back_cut(q, cut)),
{
    lemma_back_scan(q, cut, q.len() as int, q.len() as int);
}

proof fn lemma_back_score_shift(q: Seq<u8>, c1: int, c2: int, k: int)
    requires
        0 <= k <= q.len(),
    ensures
        back_score(q, c2, k) == back_score(q, c1, k) + (c2 - c1) * (q.len() - k),
    decreases q.len() - k,
{
    if k < q.len() {
        lemma_back_score_shift(q, c1, c2, k + 1);
        assert((c2 - c1) * (q.len() - k) == (c2 - c1) * (q.len() - (k + 1)) + (c2 - c1))
            by (nonlinear_arith);
    } else {
        assert((c2 - c1) * (q.len() - k) == 0) by (nonlinear_arith)
            requires
                k == q.len(),
        ;
    }
}

/// The 3' trim point never moves toward the end when the cutoff rises.
pub proof fn lemma_back_cut_monotone(q: Seq<u8>, c1: int, c2: int)
    requires
        c1 <= c2,
    ensures
        back_cut(q, c2) <= back_cut(q, c1),
{
    lemma_back_cut_exists(q, c1);
    lemma_back_cut_exists(q, c2);
    let s1 = back_cut(q, c1);
    let s2 = back_cut(q, c2);
    if s2 > s1 {
        lemma_back_score_shift(q, c1, c2, s1);
        lemma_back_score_shift(q, c1, c2, s2);
        assert forall|j: int| s1 <= j < q.len() implies back_score(q, c2, j) >= 0 by {
            lemma_back_score_shift(q, c1, c2, j);
            assert((c2 - c1) * (q.len() - j) >= 0) by (nonlinear_arith)
                requires
                    c1 <= c2,
                    j < q.len(),
            ;
        }
        assert(back_reached(q, c2, s1));
        assert((c2 - c1) * (q.len() - s2) <= (c2 - c1) * (q.len() - s1)) by (nonlinear_arith)
            requires
                c1 <= c2,
                s1 < s2,
        ;
    }
}

/// Raising the 3' cutoff never lengthens the interval that quality
/// trimming keeps.
pub proof fn lemma_qual_trim_monotone(q: Seq<u8>, cut_front: i32, c1: i32, c2: i32)
    requires
        c1 <= c2,
    ensures
        qual_interval(q, cut_front as int, c2 as int).1 - qual_interval(
            q,
            cut_front as int,
            c2 as int,
        ).0 <= qual_interval(q, cut_front as int, c1 as int).1 - qual_interval(
            q,
            cut_front as int,
            c1 as int,
        ).0,
{
    lemma_back_cut_exists(q, c1 as int);
    lemma_back_cut_exists(q, c2 as int);
    lemma_back_cut_monotone(q, c1 as int, c2 as int);
}

#[verifier::spinoff_prover]
fn find_back_cut(qual: &[u8], cut: i32) -> (stop: usize)
    ensures
        is_back_cut(qual@, cut as int, stop as int),
{
    let n = qual.len();
    let c: i128 = cut as i128 + QUAL_BASE as i128;
    let ghost q = qual@;
    let ghost ct = cut as int;
    let mut stop: usize = n;
    let mut best: i128 = 0;
    let mut s: i128 = 0;
    let mut i: usize = n;
    let mut go = true;
    while go && i > 0
        invariant
            n == q.len(),
            q == qual@,
            c == ct + QUAL_BASE,
            -0x8000_0000 <= ct < 0x8000_0000,
            0 <= i <= n,
            s == back_score(q, ct, i as int),
            go ==> forall|j: int| i <= j < n ==> back_score(q, ct, j) >= 0,
            !go ==> i < n && back_score(q, ct, i as int) < 0 && forall|j: int|
                i < j < n ==> back_score(q, ct, j) >= 0,
            best >= 0,
            stop <= n,
            stop == n ==> best == 0,
            stop < n ==> i <= stop && best == back_score(q, ct, stop as int) && best > 0,
            forall|j: int| stop < j < n ==> back_score(q, ct, j) < best,
            forall|j: int| i <= j < n && (go || j > i) ==> back_score(q, ct, j) <= best,
        decreases i + (if go { 1int } else { 0int }),
    {
        i -= 1;
        proof {
            lemma_back_score_bound(q, ct, i as int);
            lemma_back_score_bound(q, ct, i + 1);
            lemma_scaled_fits(n - i);
        }
        s = s + (c - qual[i] as i128);
        if s < 0 {
            go = false;
        } else if s > best {
            best = s;
            stop = i;
        }
    }
    proof {
        if stop == n {
            assert forall|j: int| back_reached(q, ct, j) implies back_score(q, ct, j) <= 0 by {
                if !go && j <= i {
                    assert(back_score(q, ct, i as int) >= 0);
                }
            }
        } else {
            assert(back_reached(q, ct, stop as int));
            assert forall|j: int| 0 <= j < stop && back_reached(q, ct, j) implies back_score(
                q,
                ct,
                j,
            ) <= back_score(q, ct, stop as int) by {
                if !go && j <= i {
                    assert(back_score(q, ct, i as int) >= 0);
                }
            }
        }
    }
    stop
}

#[verifier::spinoff_prover]
fn find_front_cut(qual: &[u8], cut: i32) -> (start: usize)
    ensures
        is_front_cut(qual@, cut as int, start as int),
{
    let n = qual.len();
    let c: i128 = cut as i128 + QUAL_BASE as i128;
    let ghost q = qual@;
    let ghost ct = cut as int;
    let mut start: usize = 0;
    let mut best: i128 = 0;
    let mut s: i128 = 0;
    let mut i: usize = 0;
    let mut go = true;
    while go && i < n
        invariant
            n == q.len(),
            q == qual@,
            c == ct + QUAL_BASE,
            -0x8000_0000 <= ct < 0x8000_0000,
            0 <= i <= n,
            s == front_score(q, ct, i as int),
            go ==> forall|j: int| 1 <= j <= i ==> front_score(q, ct, j) >= 0,
            !go ==> i >= 1 && front_score(q, ct, i as int) < 0 && forall|j: int|
                1 <= j < i ==> front_score(q, ct, j) >= 0,
            best >= 0,
            start <= i,
            start == 0 ==> best == 0,
            start > 0 ==> best == front_score(q, ct, start as int) && best > 0,
            forall|j: int| 1 <= j < start ==> front_score(q, ct, j) < best,
            forall|j: int| 1 <= j <= i && (go || j < i) ==> front_score(q, ct, j) <= best,
        decreases n - i + (if go { 1int } else { 0int }),
    {
        proof {
            lemma_front_score_bound(q, ct, i as int);
            lemma_front_score_bound(q, ct, i + 1);
            lemma_scaled_fits(i + 1);
        }
        s = s + (c - qual[i] as i128);
        i += 1;
        if s < 0 {
            go = false;
        } else if s > best {
            best = s;
            start = i;
        }
    }
    proof {
        if start == 0 {
            assert forall|j: int| front_reached(q, ct, j) implies front_score(q, ct, j) <= 0 by {
                if !go && j >= i {
                    assert(front_score(q, ct, i as int) >= 0);
                }
            }
        } else {
            assert(front_reached(q, ct, start as int));
            assert forall|j: int| start < j <= n && front_reached(q, ct, j) implies front_score(
                q,
                ct,
                j,
            ) <= front_score(q, ct, start as int) by {
                if !go && j >= i {
                    assert(front_score(q, ct, i as int) >= 0);
                }
            }
        }
    }
    start
}

/// Finds the interval of `qual` to keep by the running-score rule on each
/// end; a degenerate interval collapses to `[0, 0)`.
pub fn qual_trim(qual: &[u8], cut_front: i32, cut_back: i32) -> (r: (usize, usize))
    ensures
        r.0 == qual_interval(qual@, cut_front as int, cut_back as int).0,
        r.1 == qual_interval(qual@, cut_front as int, cut_back as int).1,
        r.0 <= r.1 <= qual@.len(),
{
    let mut start: usize = 0;
    if cut_front > 0 {
        start = find_front_cut(qual, cut_front);
        proof {
            lemma_front_cut_unique(
                qual@,
                cut_front as int,
                start as int,
                front_cut(qual@, cut_front as int),
            );
        }
    }
    let stop = find_back_cut(qual, cut_back);
    proof {
        lemma_back_cut_unique(qual@, cut_back as int, stop as int, back_cut(qual@, cut_back as int));
    }
    if start >= stop {
        (0, 0)
    } else {
        (start, stop)
    }
}

} // verus!
