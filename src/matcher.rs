//! Search for adaptor contamination at the 3' end of a read, tolerating a
//! number of mismatches that scales with the compared length.
use vstd::arithmetic::div_mod::{lemma_div_by_multiple, lemma_div_is_ordered};
use vstd::arithmetic::mul::lemma_mul_inequality;
use vstd::prelude::*;

verus! {

/// The least fraction of compared bases that must match, as the ratio
/// `num / den`; well formed when `0 < num <= den`.
#[derive(Clone, Copy, Debug, PartialEq, Eq, Structural)]
pub struct MatchFraction {
    pub num: u32,
    pub den: u32,
}

impl MatchFraction {
    pub open spec fn wf(&self) -> bool {
        0 < self.num <= self.den
    }

    /// The fraction `num / den`, or `None` unless it lies in `(0, 1]`.
    pub fn new(num: u32, den: u32) -> (r: Option<MatchFraction>)
        ensures
            r.is_some() <==> 0 < num <= den,
            r.is_some() ==> r.unwrap().num == num && r.unwrap().den == den,
    {
        if 0 < num && num <= den {
            Some(MatchFraction { num, den })
        } else {
            None
        }
    }
}

/// Number of positions `j < len` at which `read[i + j]` differs from
/// `adaptor[j]`.
pub open spec fn mismatches(adaptor: Seq<u8>, read: Seq<u8>, i: int, len: int) -> nat
    decreases len,
{
    if len <= 0 {
        0
    } else {
        mismatches(adaptor, read, i, len - 1) + (if read[i + len - 1] != adaptor[len - 1] {
            1nat
        } else {
            0nat
        })
    }
}

/// Mismatches allowed over `len` compared bases.
pub open spec fn budget(len: int, f: MatchFraction) -> int {
    len * (f.den - f.num) / (f.den as int)
}

/// Offsets below this one leave room for the whole adaptor.
pub open spec fn full_limit(adaptor: Seq<u8>, read: Seq<u8>) -> int {
    if adaptor.len() > read.len() {
        0
    } else {
        read.len() + 1 - adaptor.len()
    }
}

/// Offset `i` is tried: the whole adaptor fits from it, or at least
/// `min_ltrs` bases of the read remain from it.
pub open spec fn is_candidate(adaptor: Seq<u8>, read: Seq<u8>, min_ltrs: int, i: int) -> bool {
    0 <= i && (i < full_limit(adaptor, read) || i + min_ltrs <= read.len())
}

/// The adaptor, or the prefix of it that overlaps the read's tail, is
/// found at `i` within the mismatch budget of the compared length.
pub open spec fn matches_at(adaptor: Seq<u8>, read: Seq<u8>, f: MatchFraction, i: int) -> bool {
    if i < full_limit(adaptor, read) {
        mismatches(adaptor, read, i, adaptor.len() as int) <= budget(adaptor.len() as int, f)
    } else {
        mismatches(adaptor, read, i, read.len() - i) <= budget(read.len() - i, f)
    }
}

/// `p` is the earliest tried offset at which the adaptor matches, or the
/// read's length when there is none.
pub open spec fn is_adaptor_start(
    adaptor: Seq<u8>,
    read: Seq<u8>,
    f: MatchFraction,
    min_ltrs: int,
    p: int,
) -> bool {
    &&& 0 <= p <= read.len()
    &&& forall|j: int|
        0 <= j < p && is_candidate(adaptor, read, min_ltrs, j) ==> !matches_at(adaptor, read, f, j)
    &&& p < read.len() ==> is_candidate(adaptor, read, min_ltrs, p) && matches_at(
        adaptor,
        read,
        f,
        p,
    )
}

pub open spec fn adaptor_start(
    adaptor: Seq<u8>,
    read: Seq<u8>,
    f: MatchFraction,
    min_ltrs: int,
) -> int {
    choose|p: int| is_adaptor_start(adaptor, read, f, min_ltrs, p)
}

pub proof fn lemma_adaptor_start_unique(
    adaptor: Seq<u8>,
    read: Seq<u8>,
    f: MatchFraction,
    min_ltrs: int,
    a: int,
    b: int,
)
    requires
        is_adaptor_start(adaptor, read, f, min_ltrs, a),
        is_adaptor_start(adaptor, read, f, min_ltrs, b),
    ensures
        a == b,
{
}

pub proof fn lemma_adaptor_start_exists(
    adaptor: Seq<u8>,
    read: Seq<u8>,
    f: MatchFraction,
    min_ltrs: int,
    k: int,
)
    requires
        0 <= k,
        forall|j: int|
            0 <= j < k && is_candidate(adaptor, read, min_ltrs, j) ==> !matches_at(
                adaptor,
                read,
                f,
                j,
            ),
    ensures
        is_adaptor_start(adaptor, read, f, min_ltrs, adaptor_start(adaptor, read, f, min_ltrs)),
    decreases read.len() - k,
{
    if k >= read.len() {
        assert(is_adaptor_start(adaptor, read, f, min_ltrs, read.len() as int));
    } else if is_candidate(adaptor, read, min_ltrs, k) && matches_at(adaptor, read, f, k) {
        assert(is_adaptor_start(adaptor, read, f, min_ltrs, k));
    } else {
        lemma_adaptor_start_exists(adaptor, read, f, min_ltrs, k + 1);
    }
}

proof fn lemma_mismatches_grow(adaptor: Seq<u8>, read: Seq<u8>, i: int, j: int, k: int)
    requires
        0 <= j <= k,
    ensures
        mismatches(adaptor, read, i, j) <= mismatches(adaptor, read, i, k),
        mismatches(adaptor, read, i, j) <= j,
    decreases k,
{
    if k > j {
        lemma_mismatches_grow(adaptor, read, i, j, k - 1);
    } else if j > 0 {
        lemma_mismatches_grow(adaptor, read, i, j - 1, j - 1);
    }
}

proof fn lemma_no_mismatches(adaptor: Seq<u8>, read: Seq<u8>, i: int, len: int)
    requires
        forall|j: int| 0 <= j < len ==> read[i + j] == adaptor[j],
    ensures
        mismatches(adaptor, read, i, len) == 0,
    decreases len,
{
    if len > 0 {
        lemma_no_mismatches(adaptor, read, i, len - 1);
    }
}

proof fn lemma_budget_bounds(len: int, f: MatchFraction)
    requires
        f.wf(),
        len >= 0,
    ensures
        0 <= budget(len, f) <= len,
{
    let d = f.den as int;
    lemma_mul_inequality(f.den - f.num, d, len);
    assert(len * (f.den - f.num) <= len * d) by {
        assert(len * (f.den - f.num) == (f.den - f.num) * len);
        assert(len * d == d * len);
    }
    assert(len * (f.den - f.num) >= 0) by (nonlinear_arith)
        requires
            len >= 0,
            f.den - f.num >= 0,
    ;
    lemma_div_is_ordered(len * (f.den - f.num), len * d, d);
    lemma_div_by_multiple(len, d);
    lemma_div_is_ordered(0, len * (f.den - f.num), d);
}

fn mismatch_budget(len: usize, f: MatchFraction) -> (b: usize)
    requires
        f.wf(),
    ensures
        b == budget(len as int, f),
{
    proof {
        lemma_budget_bounds(len as int, f);
        assert((len as int) * ((f.den - f.num) as int) <= 0xffff_ffff_ffff_ffff * 0xffff_ffff)
            by (nonlinear_arith)
            requires
                0 <= len <= 0xffff_ffff_ffff_ffff,
                0 <= f.den - f.num <= 0xffff_ffff,
        ;
    }
    let prod: u128 = (len as u128) * ((f.den - f.num) as u128);
    (prod / (f.den as u128)) as usize
}

/// Whether `read[i..i + len]` differs from `adaptor[..len]` in at most
/// `limit` positions; the comparison stops once the limit is passed.
fn within_budget(adaptor: &[u8], read: &[u8], i: usize, len: usize, limit: usize) -> (ok: bool)
    requires
        len <= adaptor@.len(),
        i + len <= read.len(),
    ensures
        ok == (mismatches(adaptor@, read@, i as int, len as int) <= limit),
{
    let mut d: usize = 0;
    let mut j: usize = 0;
    while d <= limit && j < len
        invariant
            len <= adaptor@.len(),
            i + len <= read.len(),
            j <= len,
            d == mismatches(adaptor@, read@, i as int, j as int),
        decreases len - j,
    {
        proof {
            lemma_mismatches_grow(adaptor@, read@, i as int, j as int, j as int);
        }
        if read[i + j] != adaptor[j] {
            d += 1;
        }
        j += 1;
    }
    proof {
        lemma_mismatches_grow(adaptor@, read@, i as int, j as int, len as int);
    }
    d <= limit
}

/// Finds the earliest offset in `read` at which the adaptor, or a prefix
/// of it reaching the read's end, matches with at most the allowed
/// mismatches; the read's length when there is none.
#[verifier::spinoff_prover]
pub fn naive_matching(adaptor: &[u8], read: &[u8], min_frac: MatchFraction, min_ltrs: usize) -> (r:
    usize)
    requires
        min_frac.wf(),
    ensures
        r == adaptor_start(adaptor@, read@, min_frac, min_ltrs as int),
        is_adaptor_start(adaptor@, read@, min_frac, min_ltrs as int, r as int),
{
    let n = adaptor.len();
    let m = read.len();
    let ghost a = adaptor@;
    let ghost rd = read@;
    if n == 0 {
        proof {
            assert(is_adaptor_start(a, rd, min_frac, min_ltrs as int, 0));
            lemma_adaptor_start_unique(
                a,
                rd,
                min_frac,
                min_ltrs as int,
                0,
                adaptor_start(a, rd, min_frac, min_ltrs as int),
            );
        }
        return 0;
    }
    let i_lim1: usize = if n > m {
        0
    } else {
        m - n + 1
    };
    let full = mismatch_budget(n, min_frac);
    let mut i: usize = 0;
    while i < i_lim1
        invariant
            n == a.len(),
            m == rd.len(),
            a == adaptor@,
            rd == read@,
            min_frac.wf(),
            i_lim1 == full_limit(a, rd),
            full == budget(n as int, min_frac),
            i <= i_lim1,
            forall|j: int|
                0 <= j < i && is_candidate(a, rd, min_ltrs as int, j) ==> !matches_at(
                    a,
                    rd,
                    min_frac,
                    j,
                ),
        decreases i_lim1 - i,
    {
        if within_budget(adaptor, read, i, n, full) {
            proof {
                assert(is_adaptor_start(a, rd, min_frac, min_ltrs as int, i as int));
                lemma_adaptor_start_unique(
                    a,
                    rd,
                    min_frac,
                    min_ltrs as int,
                    i as int,
                    adaptor_start(a, rd, min_frac, min_ltrs as int),
                );
            }
            return i;
        }
        i += 1;
    }
    i = i_lim1;
    while i < m && min_ltrs <= m - i
        invariant
            n == a.len(),
            m == rd.len(),
            a == adaptor@,
            rd == read@,
            min_frac.wf(),
            i_lim1 == full_limit(a, rd),
            i_lim1 <= i <= m + 1,
            forall|j: int|
                0 <= j < i && is_candidate(a, rd, min_ltrs as int, j) ==> !matches_at(
                    a,
                    rd,
                    min_frac,
                    j,
                ),
        decreases m + 1 - i,
    {
        let lim = mismatch_budget(m - i, min_frac);
        if within_budget(adaptor, read, i, m - i, lim) {
            proof {
                assert(is_adaptor_start(a, rd, min_frac, min_ltrs as int, i as int));
                lemma_adaptor_start_unique(
                    a,
                    rd,
                    min_frac,
                    min_ltrs as int,
                    i as int,
                    adaptor_start(a, rd, min_frac, min_ltrs as int),
                );
            }
            return i;
        }
        i += 1;
    }
    proof {
        assert(is_adaptor_start(a, rd, min_frac, min_ltrs as int, m as int));
        lemma_adaptor_start_unique(
            a,
            rd,
            min_frac,
            min_ltrs as int,
            m as int,
            adaptor_start(a, rd, min_frac, min_ltrs as int),
        );
    }
    m
}

/// An exact occurrence of the adaptor at offset `i`, whole or as a prefix
/// of at least `min_ltrs` bases reaching the read's end, is found at `i`
/// or earlier.
pub proof fn lemma_exact_occurrence_found(
    adaptor: Seq<u8>,
    read: Seq<u8>,
    f: MatchFraction,
    min_ltrs: int,
    i: int,
)
    requires
        f.wf(),
        0 <= i <= read.len(),
        i + adaptor.len() <= read.len() || i + min_ltrs <= read.len(),
        forall|j: int|
            0 <= j < adaptor.len() && i + j < read.len() ==> read[i + j] == adaptor[j],
    ensures
        adaptor_start(adaptor, read, f, min_ltrs) <= i,
{
    lemma_adaptor_start_exists(adaptor, read, f, min_ltrs, 0);
    let p = adaptor_start(adaptor, read, f, min_ltrs);
    if i < full_limit(adaptor, read) {
        lemma_no_mismatches(adaptor, read, i, adaptor.len() as int);
        lemma_budget_bounds(adaptor.len() as int, f);
    } else {
        lemma_no_mismatches(adaptor, read, i, read.len() - i);
        lemma_budget_bounds(read.len() - i, f);
    }
    assert(is_candidate(adaptor, read, min_ltrs, i));
    assert(matches_at(adaptor, read, f, i));
}

} // verus!
