//! Binomial coefficients and the ranking of committees.
//!
//! A committee of `k` candidates is a strictly ascending sequence of candidate
//! indices.  Committees are numbered in colexicographic order: the committee
//! `c[0] < c[1] < ..` has the number `C(c[0], 1) + C(c[1], 2) + ..`.

use vstd::prelude::*;

verus! {

/// The binomial coefficient `C(n, k)`, by Pascal's rule.
pub open spec fn binom(n: nat, k: nat) -> nat
    decreases n,
{
    if k == 0 {
        1
    } else if n == 0 {
        0
    } else {
        binom((n - 1) as nat, (k - 1) as nat) + binom((n - 1) as nat, k)
    }
}

/// Every coefficient `C(n, k)` with `n <= max_n` and `k <= max_k` fits in a `usize`,
/// and so do the two sizes of the table that holds them.
pub open spec fn table_fits(max_n: nat, max_k: nat) -> bool {
    &&& max_n < usize::MAX
    &&& max_k < usize::MAX
    &&& forall|n: nat, k: nat| n <= max_n && k <= max_k ==> #[trigger] binom(n, k) <= usize::MAX
}

/// `table[n][k]` is `C(n, k)` in a rectangular table with at least one row and
/// one column.
pub open spec fn is_binomial_table(table: Seq<Vec<usize>>) -> bool {
    &&& table.len() >= 1
    &&& table[0]@.len() >= 1
    &&& forall|n: int| 0 <= n < table.len() ==> (#[trigger] table[n])@.len() == table[0]@.len()
    &&& forall|n: int, k: int|
        0 <= n < table.len() && 0 <= k < table[0]@.len() ==> (#[trigger] table[n]@[k]) == binom(
            n as nat,
            k as nat,
        )
}

/// The entries are strictly ascending.
pub open spec fn strictly_ascending(c: Seq<usize>) -> bool {
    forall|i: int, j: int| 0 <= i < j < c.len() ==> c[i] < c[j]
}

/// A committee of candidates below `n`: strictly ascending indices, all below `n`.
pub open spec fn is_committee(c: Seq<usize>, n: nat) -> bool {
    &&& strictly_ascending(c)
    &&& forall|i: int| 0 <= i < c.len() ==> c[i] < n
}

/// The number of a committee: the sum of `C(c[i], i + 1)`.
pub open spec fn rank(c: Seq<usize>) -> nat
    decreases c.len(),
{
    if c.len() == 0 {
        0
    } else {
        rank(c.drop_last()) + binom(c.last() as nat, c.len())
    }
}

/// The part of the rank that the entries from position `from` on contribute.
pub open spec fn rank_from(c: Seq<usize>, from: nat) -> nat
    decreases c.len() - from,
{
    if from >= c.len() {
        0
    } else {
        binom(c[from as int] as nat, from + 1) + rank_from(c, from + 1)
    }
}

/// `C(n, k)` is zero when `k` exceeds `n`.
pub proof fn lemma_binom_zero(n: nat, k: nat)
    requires
        k > n,
    ensures
        binom(n, k) == 0,
    decreases n,
{
    if n > 0 {
        lemma_binom_zero((n - 1) as nat, (k - 1) as nat);
        lemma_binom_zero((n - 1) as nat, k);
    }
}

/// `C(n, k)` does not decrease when `n` grows.
pub proof fn lemma_binom_monotone(a: nat, b: nat, k: nat)
    requires
        a <= b,
    ensures
        binom(a, k) <= binom(b, k),
    decreases b,
{
    if a < b {
        lemma_binom_monotone(a, (b - 1) as nat, k);
    }
}

proof fn lemma_rank_split(c: Seq<usize>, j: nat)
    requires
        j <= c.len(),
    ensures
        rank(c.take(j as int)) + rank_from(c, j) == rank(c),
    decreases c.len() - j,
{
    if j == c.len() {
        assert(c.take(j as int) =~= c);
    } else {
        lemma_rank_split(c, j + 1);
        assert(c.take(j as int + 1).drop_last() =~= c.take(j as int));
    }
}

proof fn lemma_rank_from_suffix(a: Seq<usize>, b: Seq<usize>, j: nat)
    requires
        a.len() == b.len(),
        forall|t: int| j <= t < a.len() ==> a[t] == b[t],
    ensures
        rank_from(a, j) == rank_from(b, j),
    decreases a.len() - j,
{
    if j < a.len() {
        lemma_rank_from_suffix(a, b, j + 1);
    }
}

/// The rank of a committee of `k` candidates below `n` is below `C(n, k)`.
pub proof fn lemma_rank_bound(c: Seq<usize>, n: nat)
    requires
        is_committee(c, n),
    ensures
        rank(c) < binom(n, c.len()),
    decreases c.len(),
{
    if c.len() > 0 {
        let top = c.last() as nat;
        let rest = c.drop_last();
        assert(is_committee(rest, top)) by {
            assert forall|i: int| 0 <= i < rest.len() implies rest[i] < top by {
                assert(c[i] < c[c.len() - 1]);
            }
        }
        lemma_rank_bound(rest, top);
        // rank(c) < C(top, k - 1) + C(top, k) == C(top + 1, k) <= C(n, k)
        lemma_binom_monotone(top + 1, n, c.len());
    }
}

/// Two committees with the same number of members and the same rank are equal.
pub proof fn lemma_rank_injective(a: Seq<usize>, b: Seq<usize>)
    requires
        strictly_ascending(a),
        strictly_ascending(b),
        a.len() == b.len(),
        rank(a) == rank(b),
    ensures
        a == b,
    decreases a.len(),
{
    if a.len() > 0 {
        let k = a.len();
        let (ra, rb) = (a.drop_last(), b.drop_last());
        let (ta, tb) = (a.last() as nat, b.last() as nat);
        assert(is_committee(ra, ta)) by {
            assert forall|i: int| 0 <= i < ra.len() implies ra[i] < ta by {
                assert(a[i] < a[k - 1]);
            }
        }
        assert(is_committee(rb, tb)) by {
            assert forall|i: int| 0 <= i < rb.len() implies rb[i] < tb by {
                assert(b[i] < b[k - 1]);
            }
        }
        lemma_rank_bound(ra, ta);
        lemma_rank_bound(rb, tb);
        if ta < tb {
            // rank(a) < C(ta + 1, k) <= C(tb, k) <= rank(b)
            lemma_binom_monotone(ta + 1, tb, k);
        } else if tb < ta {
            lemma_binom_monotone(tb + 1, ta, k);
        } else {
            lemma_rank_injective(ra, rb);
            assert(a =~= ra.push(a.last()));
            assert(b =~= rb.push(b.last()));
        }
    }
}

proof fn lemma_largest_row(n: nat, k: nat, m: nat) -> (r: nat)
    requires
        k >= 1,
        m < binom(n, k),
    ensures
        r < n,
        binom(r, k) <= m < binom(r + 1, k),
    decreases n,
{
    if binom((n - 1) as nat, k) <= m {
        (n - 1) as nat
    } else {
        lemma_largest_row((n - 1) as nat, k, m)
    }
}

/// Every number below `C(n, k)` is the rank of a committee of `k` candidates
/// below `n`.
pub proof fn lemma_rank_surjective(n: nat, k: nat, m: nat) -> (c: Seq<usize>)
    requires
        n <= usize::MAX,
        m < binom(n, k),
    ensures
        c.len() == k,
        is_committee(c, n),
        rank(c) == m,
    decreases k,
{
    if k == 0 {
        Seq::<usize>::empty()
    } else {
        let r = lemma_largest_row(n, k, m);
        let rest = lemma_rank_surjective(r, (k - 1) as nat, (m - binom(r, k)) as nat);
        let c = rest.push(r as usize);
        assert(c.drop_last() =~= rest);
        c
    }
}

/// The table of binomial coefficients `C(n, k)` for `n <= max_n` and `k <= max_k`.
pub fn make_binomial(max_n: usize, max_k: usize) -> (table: Vec<Vec<usize>>)
    requires
        table_fits(max_n as nat, max_k as nat),
    ensures
        is_binomial_table(table@),
        table@.len() == max_n + 1,
        table@[0]@.len() == max_k + 1,
{
    let mut table: Vec<Vec<usize>> = Vec::new();
    let mut first: Vec<usize> = Vec::new();
    first.push(1);
    let mut k: usize = 0;
    while k < max_k
        invariant
            k <= max_k,
            first@.len() == k + 1,
            forall|j: int| 0 <= j <= k ==> first@[j] == binom(0, j as nat),
        decreases max_k - k,
    {
        first.push(0);
        k += 1;
    }
    table.push(first);
    let mut n: usize = 0;
    while n < max_n
        invariant
            n <= max_n,
            table_fits(max_n as nat, max_k as nat),
            table@.len() == n + 1,
            forall|r: int| 0 <= r <= n ==> (#[trigger] table@[r])@.len() == max_k + 1,
            forall|r: int, j: int|
                0 <= r <= n && 0 <= j <= max_k ==> (#[trigger] table@[r]@[j]) == binom(
                    r as nat,
                    j as nat,
                ),
        decreases max_n - n,
    {
        let mut row: Vec<usize> = Vec::new();
        row.push(1);
        let mut k: usize = 0;
        while k < max_k
            invariant
                k <= max_k,
                n < max_n,
                table_fits(max_n as nat, max_k as nat),
                table@.len() == n + 1,
                table@[n as int]@.len() == max_k + 1,
                forall|j: int|
                    0 <= j <= max_k ==> (#[trigger] table@[n as int]@[j]) == binom(
                        n as nat,
                        j as nat,
                    ),
                row@.len() == k + 1,
                forall|j: int| 0 <= j <= k ==> row@[j] == binom((n + 1) as nat, j as nat),
            decreases max_k - k,
        {
            let prev = &table[n];
            assert(binom((n + 1) as nat, (k + 1) as nat) == binom(n as nat, k as nat) + binom(
                n as nat,
                (k + 1) as nat,
            ));
            assert(binom((n + 1) as nat, (k + 1) as nat) <= usize::MAX);
            assert(prev@[k as int] == table@[n as int]@[k as int]);
            assert(prev@[k + 1] == table@[n as int]@[k + 1]);
            let entry = prev[k] + prev[k + 1];
            row.push(entry);
            k += 1;
        }
        table.push(row);
        n += 1;
    }
    table
}

/// Whether every coefficient `C(n, k)` with `n <= max_n` and `k <= max_k` fits
/// in a `usize`, and the two sizes of their table too.
pub fn binomial_fits(max_n: usize, max_k: usize) -> (b: bool)
    ensures
        b == table_fits(max_n as nat, max_k as nat),
{
    if max_n == usize::MAX || max_k == usize::MAX {
        return false;
    }
    // No committee has more members than there are candidates.
    let width = if max_k < max_n {
        max_k
    } else {
        max_n
    };
    let mut row: Vec<usize> = Vec::new();
    row.push(1);
    let mut k: usize = 0;
    while k < width
        invariant
            k <= width,
            row@.len() == k + 1,
            forall|j: int| 0 <= j <= k ==> row@[j] == binom(0, j as nat),
        decreases width - k,
    {
        row.push(0);
        k += 1;
    }
    let mut n: usize = 0;
    while n < max_n
        invariant
            n <= max_n < usize::MAX,
            width <= max_k < usize::MAX,
            width <= max_n,
            row@.len() == width + 1,
            forall|j: int| 0 <= j <= width ==> (#[trigger] row@[j]) == binom(n as nat, j as nat),
            forall|r: nat, j: nat| r <= n && j <= width ==> #[trigger] binom(r, j) <= usize::MAX,
        decreases max_n - n,
    {
        let mut next: Vec<usize> = Vec::new();
        next.push(1);
        let mut k: usize = 0;
        while k < width
            invariant
                k <= width,
                n < max_n,
                width <= max_k,
                row@.len() == width + 1,
                forall|j: int| 0 <= j <= width ==> (#[trigger] row@[j]) == binom(n as nat, j as nat),
                next@.len() == k + 1,
                forall|j: int| 0 <= j <= k ==> (#[trigger] next@[j]) == binom((n + 1) as nat, j as nat),
            decreases width - k,
        {
            assert(binom((n + 1) as nat, (k + 1) as nat) == binom(n as nat, k as nat) + binom(
                n as nat,
                (k + 1) as nat,
            ));
            if row[k] > usize::MAX - row[k + 1] {
                assert(binom((n + 1) as nat, (k + 1) as nat) > usize::MAX);
                return false;
            }
            next.push(row[k] + row[k + 1]);
            k += 1;
        }
        proof {
            assert forall|r: nat, j: nat| r <= n + 1 && j <= width implies #[trigger] binom(r, j)
                <= usize::MAX by {
                if r == n + 1 {
                    assert(next@[j as int] == binom((n + 1) as nat, j));
                }
            }
        }
        row = next;
        n += 1;
    }
    proof {
        assert forall|r: nat, j: nat| r <= max_n && j <= max_k implies #[trigger] binom(r, j)
            <= usize::MAX by {
            if j > width {
                lemma_binom_zero(r, j);
            }
        }
    }
    true
}

/// The number of the committee `c`.
pub fn encode_combination(binomial: &[Vec<usize>], c: &[usize]) -> (m: usize)
    requires
        is_binomial_table(binomial@),
        c@.len() < binomial@[0]@.len(),
        forall|i: int| 0 <= i < c@.len() ==> c@[i] < binomial@.len(),
        rank(c@) <= usize::MAX,
    ensures
        m == rank(c@),
{
    let mut m: usize = 0;
    let mut i: usize = 0;
    while i < c.len()
        invariant
            i <= c@.len(),
            is_binomial_table(binomial@),
            c@.len() < binomial@[0]@.len(),
            forall|t: int| 0 <= t < c@.len() ==> c@[t] < binomial@.len(),
            rank(c@) <= usize::MAX,
            m == rank(c@.take(i as int)),
        decreases c@.len() - i,
    {
        proof {
            lemma_rank_split(c@, (i + 1) as nat);
            assert(c@.take(i as int + 1).drop_last() =~= c@.take(i as int));
        }
        let row = &binomial[c[i]];
        assert(row@[i + 1] == binomial@[c@[i as int] as int]@[i + 1]);
        m = m + row[i + 1];
        i += 1;
    }
    proof {
        assert(c@.take(c@.len() as int) =~= c@);
    }
    m
}

/// The committee of `k` candidates that has the number `m`.
pub fn decode_combination(binomial: &[Vec<usize>], k: usize, m: usize) -> (c: Vec<usize>)
    requires
        is_binomial_table(binomial@),
        k < binomial@[0]@.len(),
        m < binom(binomial@.len(), k as nat),
    ensures
        c@.len() == k,
        is_committee(c@, binomial@.len()),
        rank(c@) == m,
{
    let mut c: Vec<usize> = Vec::new();
    let mut t: usize = 0;
    while t < k
        invariant
            t <= k,
            c@.len() == t,
        decreases k - t,
    {
        c.push(0);
        t += 1;
    }
    let mut mm: usize = m;
    let mut n: usize = binomial.len();
    let mut i: usize = k;
    while i > 0
        invariant
            i <= k,
            is_binomial_table(binomial@),
            k < binomial@[0]@.len(),
            c@.len() == k,
            n <= binomial@.len(),
            mm < binom(n as nat, i as nat),
            rank_from(c@, i as nat) + mm == m,
            forall|a: int, b: int| i <= a < b < k ==> c@[a] < c@[b],
            forall|a: int| i <= a < k ==> c@[a] < binomial@.len(),
            i < k ==> c@[i as int] == n,
        decreases i,
    {
        let col = i;
        i -= 1;
        proof {
            if n < col {
                lemma_binom_zero(n as nat, col as nat);
            }
            lemma_binom_zero(i as nat, col as nat);
        }
        // The largest row `lo` in `[i, n)` with `C(lo, i + 1) <= mm`.
        let mut lo: usize = i;
        let mut hi: usize = n;
        while hi - lo > 1
            invariant
                i + 1 == col,
                i <= lo < hi <= n,
                n <= binomial@.len(),
                is_binomial_table(binomial@),
                col < binomial@[0]@.len(),
                binom(lo as nat, col as nat) <= mm,
                mm < binom(hi as nat, col as nat),
            decreases hi - lo,
        {
            let mid = lo + (hi - lo) / 2;
            let row = &binomial[mid];
            assert(row@[col as int] == binomial@[mid as int]@[col as int]);
            if row[col] > mm {
                hi = mid;
            } else {
                lo = mid;
            }
        }
        let row = &binomial[lo];
        assert(row@[col as int] == binomial@[lo as int]@[col as int]);
        let ghost before = c@;
        c.set(i, lo);
        proof {
            // mm - C(lo, i + 1) < C(lo + 1, i + 1) - C(lo, i + 1) == C(lo, i)
            assert(binom((lo + 1) as nat, col as nat) == binom(lo as nat, i as nat) + binom(
                lo as nat,
                col as nat,
            ));
            lemma_rank_from_suffix(before, c@, col as nat);
        }
        mm = mm - row[col];
        n = lo;
    }
    proof {
        lemma_rank_split(c@, 0);
        assert(c@.take(0) =~= Seq::<usize>::empty());
        assert(is_committee(c@, binomial@.len() as nat));
    }
    c
}

} // verus!
