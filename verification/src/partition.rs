//! Division of the image rows among workers.

use vstd::prelude::*;

verus! {

/// Rows given to stripe `k` when `height` rows are shared among `workers`
/// stripes: the integer quotient, and one more for each of the first
/// `height % workers` stripes.
pub open spec fn stripe_rows(height: nat, workers: nat, k: nat) -> nat
    recommends
        workers > 0,
{
    height / workers + if k < height % workers { 1nat } else { 0nat }
}

/// Rows that lie above stripe `k`: the sum of the rows of the stripes before it.
pub open spec fn rows_before(height: nat, workers: nat, k: nat) -> nat
    decreases k,
{
    if k == 0 {
        0
    } else {
        rows_before(height, workers, (k - 1) as nat) + stripe_rows(height, workers, (k - 1) as nat)
    }
}

/// The sum of the row counts.
pub open spec fn total_rows(rows: Seq<u32>) -> nat
    decreases rows.len(),
{
    if rows.len() == 0 {
        0
    } else {
        total_rows(rows.drop_last()) + rows.last() as nat
    }
}

/// The quotient never exceeds the height, and stays below it when rows are left over.
proof fn lemma_share_bounds(height: nat, workers: nat)
    requires
        workers > 0,
    ensures
        height / workers <= height,
        height % workers < workers,
        height % workers > 0 ==> height / workers < height,
        height == workers * (height / workers) + height % workers,
{
    assert(height == workers * (height / workers) + height % workers && height % workers < workers
        && height / workers <= height) by (nonlinear_arith)
        requires
            workers > 0,
    ;
    assert(height % workers > 0 ==> height / workers < height) by (nonlinear_arith)
        requires
            workers > 0,
            height == workers * (height / workers) + height % workers,
    ;
}

/// Row counts of the stripes, top to bottom.
pub fn stripe_heights(height: u32, workers: usize) -> (rows: Vec<u32>)
    requires
        workers >= 1,
    ensures
        rows@.len() == workers,
        forall|k: int|
            0 <= k < workers ==> #[trigger] rows@[k] == stripe_rows(
                height as nat,
                workers as nat,
                k as nat,
            ),
        total_rows(rows@) == height,
        forall|j: int, k: int|
            0 <= j <= k < workers ==> #[trigger] rows@[k] <= #[trigger] rows@[j] <= rows@[k] + 1,
{
    let base: usize = height as usize / workers;
    let extra: usize = height as usize % workers;
    proof {
        lemma_share_bounds(height as nat, workers as nat);
    }
    let mut rows: Vec<u32> = vec![base as u32; workers];
    let mut k: usize = 0;
    while k < extra
        invariant
            k <= extra < workers,
            base == height as nat / workers as nat,
            extra == height as nat % workers as nat,
            extra > 0 ==> base < height,
            rows@.len() == workers,
            forall|j: int| 0 <= j < k ==> #[trigger] rows@[j] == base + 1,
            forall|j: int| k <= j < workers ==> #[trigger] rows@[j] == base,
        decreases extra - k,
    {
        rows[k] = rows[k] + 1;
        k += 1;
    }
    proof {
        lemma_total_rows(rows@, height as nat, workers as nat, workers as nat);
        lemma_partition_covers(height as nat, workers as nat);
        assert(rows@.take(workers as int) =~= rows@);
    }
    rows
}

/// The first `k` row counts of a partition add up to the rows above stripe `k`.
proof fn lemma_total_rows(rows: Seq<u32>, height: nat, workers: nat, k: nat)
    requires
        k <= rows.len(),
        forall|j: int| 0 <= j < k ==> #[trigger] rows[j] == stripe_rows(height, workers, j as nat),
    ensures
        total_rows(rows.take(k as int)) == rows_before(height, workers, k),
    decreases k,
{
    if k > 0 {
        lemma_total_rows(rows, height, workers, (k - 1) as nat);
        assert(rows.take(k as int).drop_last() =~= rows.take(k - 1));
    }
}

/// The rows above stripe `k` in closed form: `k` base shares, and one extra
/// row for each earlier stripe that received one.
pub proof fn lemma_rows_before_closed_form(height: nat, workers: nat, k: nat)
    requires
        workers > 0,
    ensures
        rows_before(height, workers, k) == k * (height / workers) + if k < height % workers {
            k
        } else {
            height % workers
        },
    decreases k,
{
    let share = height / workers;
    if k > 0 {
        let j = (k - 1) as nat;
        lemma_rows_before_closed_form(height, workers, j);
        assert(k * share == j * share + share) by (nonlinear_arith)
            requires
                k == j + 1,
        ;
    } else {
        assert(k * share == 0) by (nonlinear_arith)
            requires
                k == 0,
        ;
    }
}

/// The rows above a stripe never decrease from one stripe to a later one.
pub proof fn lemma_rows_before_monotonic(height: nat, workers: nat, j: nat, k: nat)
    requires
        j <= k,
    ensures
        rows_before(height, workers, j) <= rows_before(height, workers, k),
    decreases k - j,
{
    if j < k {
        lemma_rows_before_monotonic(height, workers, j, (k - 1) as nat);
    }
}

/// Coverage of the partition: the row counts of the `workers` stripes add up
/// to `height` exactly, and every stripe ends inside the image.
pub proof fn lemma_partition_covers(height: nat, workers: nat)
    requires
        workers > 0,
    ensures
        rows_before(height, workers, workers) == height,
        forall|k: nat| k <= workers ==> #[trigger] rows_before(height, workers, k) <= height,
{
    lemma_rows_before_closed_form(height, workers, workers);
    lemma_share_bounds(height, workers);
    assert forall|k: nat| k <= workers implies #[trigger] rows_before(height, workers, k)
        <= height by {
        lemma_rows_before_monotonic(height, workers, k, workers);
    }
}

/// Every row of the image lies in one stripe; the result is the index of
/// that stripe among the first `upto` stripes.
pub proof fn lemma_row_owner(height: nat, workers: nat, upto: nat, y: nat) -> (k: nat)
    requires
        y < rows_before(height, workers, upto),
    ensures
        k < upto,
        rows_before(height, workers, k) <= y < rows_before(height, workers, k + 1),
    decreases upto,
{
    let k = (upto - 1) as nat;
    if y >= rows_before(height, workers, k) {
        k
    } else {
        lemma_row_owner(height, workers, k, y)
    }
}

/// Balance of the partition: every stripe has the base share or one row
/// more, the larger stripes come first, and so no two stripes differ by more
/// than one row.
pub proof fn lemma_partition_balanced(height: nat, workers: nat, j: nat, k: nat)
    requires
        workers > 0,
        j <= k < workers,
    ensures
        stripe_rows(height, workers, k) <= stripe_rows(height, workers, j) <= stripe_rows(
            height,
            workers,
            k,
        ) + 1,
        stripe_rows(height, workers, k) == height / workers || stripe_rows(height, workers, k)
            == height / workers + 1,
        stripe_rows(height, workers, k) == height / workers + 1 <==> k < height % workers,
{
}

} // verus!
