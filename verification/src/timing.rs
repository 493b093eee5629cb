//! Division of batch timings among pages.
use vstd::prelude::*;

verus! {

/// The sum of `shares`.
pub open spec fn total_of(shares: Seq<u64>) -> int
    decreases shares.len(),
{
    if shares.len() == 0 {
        0
    } else {
        total_of(shares.drop_last()) + shares.last()
    }
}

/// The share of page `index` when `total` is split among `count` pages:
/// the quotient, plus one for the first `total % count` pages.
pub open spec fn time_share(total: u64, count: nat, index: int) -> int {
    total as int / count as int + if index < total as int % count as int {
        1int
    } else {
        0int
    }
}

/// Splits `total` milliseconds among `count` pages as evenly as integers
/// allow: every page gets the quotient, and the first `total % count` pages
/// one millisecond more. No pages, no shares.
pub fn equal_time_shares(total: u64, count: usize) -> (shares: Vec<u64>)
    ensures
        shares@.len() == count,
        forall|i: int| 0 <= i < count ==> #[trigger] shares@[i] == time_share(total, count as nat, i),
{
    let mut shares: Vec<u64> = Vec::new();
    if count == 0 {
        return shares;
    }
    let n = count as u64;
    let base = total / n;
    let remainder = total % n;
    proof {
        assert(base * n + remainder == total) by (nonlinear_arith)
            requires
                base == total / n,
                remainder == total % n,
                n > 0,
        ;
        assert(remainder > 0 ==> base < total) by (nonlinear_arith)
            requires
                base * n + remainder == total,
                n >= 1,
        ;
    }
    let mut index: u64 = 0;
    while index < n
        invariant
            n == count,
            n > 0,
            base == total / n,
            remainder == total % n,
            remainder > 0 ==> base < total,
            0 <= index <= n,
            shares@.len() == index,
            forall|i: int| 0 <= i < index ==> #[trigger] shares@[i] == time_share(total, count as nat, i),
        decreases n - index,
    {
        let share = if index < remainder {
            base + 1
        } else {
            base
        };
        shares.push(share);
        index = index + 1;
    }
    shares
}

proof fn lemma_prefix_total(total: u64, count: nat, shares: Seq<u64>, k: int)
    requires
        count > 0,
        shares.len() == count,
        0 <= k <= count,
        forall|i: int| 0 <= i < count ==> #[trigger] shares[i] == time_share(total, count, i),
    ensures
        total_of(shares.take(k)) == k * (total as int / count as int) + if k < total as int
            % count as int {
            k
        } else {
            total as int % count as int
        },
    decreases k,
{
    let q = total as int / count as int;
    let r = total as int % count as int;
    if k > 0 {
        lemma_prefix_total(total, count, shares, k - 1);
        assert(shares.take(k).drop_last() =~= shares.take(k - 1));
        assert(shares.take(k).last() == shares[k - 1]);
        assert(k * q == (k - 1) * q + q) by (nonlinear_arith);
        assert(shares[k - 1] == q + if k - 1 < r { 1int } else { 0int });
        assert(total_of(shares.take(k)) == total_of(shares.take(k - 1)) + shares[k - 1]);
    } else {
        assert(shares.take(k) =~= Seq::<u64>::empty());
    }
}

/// The shares of a split add up to the whole, whenever there is at least one
/// page to carry it.
pub proof fn lemma_time_shares_preserve_total(total: u64, count: nat, shares: Seq<u64>)
    requires
        count > 0,
        shares.len() == count,
        forall|i: int| 0 <= i < count ==> #[trigger] shares[i] == time_share(total, count, i),
    ensures
        total_of(shares) == total,
{
    lemma_prefix_total(total, count, shares, count as int);
    assert(shares.take(count as int) =~= shares);
    let q = total as int / count as int;
    let r = total as int % count as int;
    assert(count * q + r == total) by (nonlinear_arith)
        requires
            q == total as int / count as int,
            r == total as int % count as int,
            count > 0,
    ;
}

/// Shares differ by at most one millisecond, and never grow along the pages.
pub proof fn lemma_time_shares_balanced(total: u64, count: nat, i: int, j: int)
    requires
        count > 0,
        0 <= i <= j < count,
    ensures
        time_share(total, count, j) <= time_share(total, count, i) <= time_share(total, count, j)
            + 1,
{
}

/// A timing in milliseconds narrowed to `u32`, saturating at `u32::MAX`.
pub fn timing_ms(value: u64) -> (ms: u32)
    ensures
        ms == if value <= u32::MAX {
            value
        } else {
            u32::MAX as u64
        },
{
    if value <= u32::MAX as u64 {
        value as u32
    } else {
        u32::MAX
    }
}

} // verus!
