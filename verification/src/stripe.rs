//! Stripes: the horizontal bands of an image, each with its rows and its bytes.

use vstd::prelude::*;
use crate::partition::{lemma_partition_covers, rows_before, stripe_heights, stripe_rows};
use crate::pixel::{lemma_zone_len_additive, lemma_zone_len_monotonic, zone_len};

verus! {

/// One horizontal band of an image: the rows `y_start..y_end` and the bytes
/// `byte_start..byte_end` that hold them in the pixel buffer.
#[derive(Clone, Copy, PartialEq, Eq, Debug, Structural)]
pub struct Stripe {
    pub y_start: u32,
    pub y_end: u32,
    pub byte_start: usize,
    pub byte_end: usize,
}

impl Stripe {
    /// Both ranges run forward.
    pub open spec fn wf(&self) -> bool {
        self.y_start <= self.y_end && self.byte_start <= self.byte_end
    }

    /// The stripe's bytes are those of its rows in an image `width` pixels wide.
    pub open spec fn matches_width(&self, width: nat) -> bool {
        &&& self.wf()
        &&& self.byte_start == zone_len(width, self.y_start as nat)
        &&& self.byte_end == zone_len(width, self.y_end as nat)
    }

    /// `byte` is one of the stripe's bytes.
    pub open spec fn holds_byte(&self, byte: int) -> bool {
        self.byte_start <= byte < self.byte_end
    }

    /// Number of rows in the stripe.
    pub open spec fn spec_rows(&self) -> u32 {
        (self.y_end - self.y_start) as u32
    }

    /// Number of rows in the stripe.
    #[verifier::when_used_as_spec(spec_rows)]
    pub fn rows(&self) -> (n: u32)
        requires
            self.wf(),
        ensures
            n == self.y_end - self.y_start,
            n == self.spec_rows(),
    {
        self.y_end - self.y_start
    }

    /// Number of bytes in the stripe.
    pub open spec fn spec_byte_len(&self) -> usize {
        (self.byte_end - self.byte_start) as usize
    }

    /// Number of bytes in the stripe.
    #[verifier::when_used_as_spec(spec_byte_len)]
    pub fn byte_len(&self) -> (n: usize)
        requires
            self.wf(),
        ensures
            n == self.byte_end - self.byte_start,
            n == self.spec_byte_len(),
    {
        self.byte_end - self.byte_start
    }
}

/// Stripe `k` of an image of `width` by `height` pixels cut into `workers`
/// stripes: it starts after the rows of the stripes before it.
pub open spec fn stripe_at(width: nat, height: nat, workers: nat, k: nat) -> Stripe {
    Stripe {
        y_start: rows_before(height, workers, k) as u32,
        y_end: rows_before(height, workers, k + 1) as u32,
        byte_start: zone_len(width, rows_before(height, workers, k)) as usize,
        byte_end: zone_len(width, rows_before(height, workers, k + 1)) as usize,
    }
}

/// The stripes of an image of `width` by `height` pixels cut into `workers`
/// stripes, top to bottom.
pub open spec fn planned_stripes(width: nat, height: nat, workers: nat) -> Seq<Stripe> {
    Seq::new(workers, |k: int| stripe_at(width, height, workers, k as nat))
}

/// The stripes lie end to end, the first at byte 0 and the last ending at byte `len`.
pub open spec fn tiles(stripes: Seq<Stripe>, len: nat) -> bool {
    &&& forall|k: int| 0 <= k < stripes.len() ==> (#[trigger] stripes[k]).wf()
    &&& forall|j: int, k: int|
        0 <= j && k == j + 1 && k < stripes.len() ==> (#[trigger] stripes[j]).byte_end == (
        #[trigger] stripes[k]).byte_start
    &&& if stripes.len() == 0 {
        len == 0
    } else {
        stripes[0].byte_start == 0 && stripes[stripes.len() - 1].byte_end == len
    }
}

/// Some stripe holds `byte`.
pub open spec fn covered(stripes: Seq<Stripe>, byte: int) -> bool {
    exists|k: int| 0 <= k < stripes.len() && (#[trigger] stripes[k]).holds_byte(byte)
}

/// The parts laid end to end, in order.
pub open spec fn concat(parts: Seq<Seq<u8>>) -> Seq<u8>
    decreases parts.len(),
{
    if parts.len() == 0 {
        Seq::empty()
    } else {
        concat(parts.drop_last()) + parts.last()
    }
}

/// Cuts an image of `width` by `height` pixels into `workers` stripes, top to bottom.
pub fn plan_stripes(width: u32, height: u32, workers: usize) -> (stripes: Vec<Stripe>)
    requires
        workers >= 1,
        zone_len(width as nat, height as nat) <= usize::MAX,
    ensures
        stripes@ == planned_stripes(width as nat, height as nat, workers as nat),
        tiles(stripes@, zone_len(width as nat, height as nat)),
        forall|k: int| 0 <= k < workers ==> (#[trigger] stripes@[k]).matches_width(width as nat),
{
    let rows = stripe_heights(height, workers);
    let mut stripes: Vec<Stripe> = Vec::new();
    let mut y_start: u32 = 0;
    let mut byte_start: usize = 0;
    let mut k: usize = 0;
    proof {
        lemma_partition_covers(height as nat, workers as nat);
    }
    while k < workers
        invariant
            k <= workers,
            rows@.len() == workers,
            zone_len(width as nat, height as nat) <= usize::MAX,
            forall|j: int|
                0 <= j < workers ==> #[trigger] rows@[j] == stripe_rows(
                    height as nat,
                    workers as nat,
                    j as nat,
                ),
            forall|j: nat|
                j <= workers ==> #[trigger] rows_before(height as nat, workers as nat, j) <= height,
            y_start == rows_before(height as nat, workers as nat, k as nat),
            byte_start == zone_len(width as nat, y_start as nat),
            stripes@.len() == k,
            forall|j: int|
                0 <= j < k ==> #[trigger] stripes@[j] == stripe_at(
                    width as nat,
                    height as nat,
                    workers as nat,
                    j as nat,
                ),
        decreases workers - k,
    {
        let stripe_height = rows[k];
        proof {
            assert(rows_before(height as nat, workers as nat, (k + 1) as nat) == y_start
                + stripe_height);
            assert(rows_before(height as nat, workers as nat, (k + 1) as nat) <= height);
            lemma_zone_len_additive(width as nat, y_start as nat, stripe_height as nat);
            lemma_zone_len_monotonic(
                width as nat,
                (y_start + stripe_height) as nat,
                height as nat,
            );
            lemma_zone_len_monotonic(width as nat, stripe_height as nat, height as nat);
            assert(stripe_height * width <= stripe_height * width * 3) by (nonlinear_arith);
            assert(stripe_height * width * 3 == width * stripe_height * 3) by (nonlinear_arith);
        }
        let y_end: u32 = y_start + stripe_height;
        let byte_end: usize = byte_start + stripe_height as usize * width as usize * 3;
        stripes.push(Stripe { y_start, y_end, byte_start, byte_end });
        y_start = y_end;
        byte_start = byte_end;
        k += 1;
    }
    proof {
        assert(stripes@ =~= planned_stripes(width as nat, height as nat, workers as nat));
        lemma_plan_tiles(width, height, workers);
        assert forall|k: int| 0 <= k < workers implies (#[trigger] stripes@[k]).matches_width(
            width as nat,
        ) by {
            lemma_plan_rows(width, height, workers, k);
        }
    }
    stripes
}

/// Hands out the buffer as one exclusive region per stripe. The regions are
/// the stripes' byte ranges, and whatever is later written through them is
/// what the buffer holds in the end, in stripe order.
pub fn split_regions<'a>(out: &'a mut [u8], stripes: &Vec<Stripe>) -> (regions: Vec<&'a mut [u8]>)
    requires
        tiles(stripes@, old(out)@.len()),
    ensures
        regions@.len() == stripes@.len(),
        forall|k: int|
            0 <= k < stripes@.len() ==> #[trigger] regions@[k]@ == old(out)@.subrange(
                stripes@[k].byte_start as int,
                stripes@[k].byte_end as int,
            ),
        final(out)@ == concat(Seq::new(regions@.len(), |k: int| final(regions@[k])@)),
{
    let ghost whole = final(out)@;
    let ghost start = out@;
    let count = stripes.len();
    let mut remaining: &'a mut [u8] = out;
    let mut regions: Vec<&'a mut [u8]> = Vec::new();
    let mut k: usize = 0;
    assert(Seq::new(regions@.len(), |j: int| final(regions@[j])@) =~= Seq::<Seq<u8>>::empty());
    while k < count
        invariant
            k <= count,
            count == stripes@.len(),
            tiles(stripes@, start.len()),
            regions@.len() == k,
            k < count ==> remaining@ == start.subrange(
                stripes@[k as int].byte_start as int,
                start.len() as int,
            ),
            k == count ==> remaining@.len() == 0,
            forall|j: int|
                0 <= j < k ==> #[trigger] regions@[j]@ == start.subrange(
                    stripes@[j].byte_start as int,
                    stripes@[j].byte_end as int,
                ),
            whole == concat(Seq::new(regions@.len(), |j: int| final(regions@[j])@))
                + final(remaining)@,
        decreases count - k,
    {
        let stripe = stripes[k];
        proof {
            lemma_tiles_ordered(stripes@, start.len(), k as int, count - 1);
            if k + 1 < count {
                assert(stripes@[k as int].byte_end == stripes@[k + 1].byte_start);
            }
        }
        let (region, rest) = remaining.split_at_mut(stripe.byte_len());
        let ghost before = Seq::new(regions@.len(), |j: int| final(regions@[j])@);
        let ghost written = final(region)@;
        remaining = rest;
        regions.push(region);
        proof {
            let after = Seq::new(regions@.len(), |j: int| final(regions@[j])@);
            assert(after.drop_last() =~= before);
            assert(after.last() == written);
        }
        k += 1;
    }
    regions
}

/// In a tiling, a stripe ends no later than any later stripe starts, and
/// every stripe lies inside the tiled bytes.
pub proof fn lemma_tiles_ordered(stripes: Seq<Stripe>, len: nat, j: int, k: int)
    requires
        tiles(stripes, len),
        0 <= j <= k < stripes.len(),
    ensures
        stripes[j].byte_start <= stripes[j].byte_end <= len,
        j < k ==> stripes[j].byte_end <= stripes[k].byte_start,
        stripes[j].byte_end <= stripes[k].byte_end,
    decreases stripes.len() - j,
{
    assert(stripes[j].wf());
    if j + 1 < stripes.len() {
        assert(stripes[j].byte_end == stripes[j + 1].byte_start);
        if j < k {
            lemma_tiles_ordered(stripes, len, j + 1, k);
        } else {
            lemma_tiles_ordered(stripes, len, j + 1, j + 1);
        }
    }
}

/// A tiling without its last stripe tiles the bytes up to where that stripe starts.
pub proof fn lemma_tiles_drop_last(stripes: Seq<Stripe>, len: nat)
    requires
        tiles(stripes, len),
        stripes.len() > 0,
    ensures
        tiles(stripes.drop_last(), stripes.last().byte_start as nat),
        stripes.last().byte_start <= len,
{
    let last = stripes.len() - 1;
    let rest = stripes.drop_last();
    assert(stripes[last].wf());
    assert forall|k: int| 0 <= k < rest.len() implies (#[trigger] rest[k]).wf() by {
        assert(stripes[k].wf());
    }
    assert forall|j: int, k: int| 0 <= j && k == j + 1 && k < rest.len() implies (
    #[trigger] rest[j]).byte_end == (#[trigger] rest[k]).byte_start by {
        assert(stripes[j].byte_end == stripes[k].byte_start);
    }
    if last > 0 {
        assert(stripes[last - 1].byte_end == stripes[last].byte_start);
    }
}

/// In a tiling, every byte below `len` belongs to a stripe; the result is
/// the index of that stripe.
pub proof fn lemma_tiles_cover(stripes: Seq<Stripe>, len: nat, byte: int) -> (k: int)
    requires
        tiles(stripes, len),
        0 <= byte < len,
    ensures
        0 <= k < stripes.len(),
        stripes[k].holds_byte(byte),
    decreases stripes.len(),
{
    if byte >= stripes.last().byte_start {
        stripes.len() - 1
    } else {
        lemma_tiles_drop_last(stripes, len);
        lemma_tiles_cover(stripes.drop_last(), stripes.last().byte_start as nat, byte)
    }
}

/// Parts that have the lengths of a tiling's stripes, laid end to end, are
/// as long as the tiled bytes, and each part lies at its stripe's bytes.
pub proof fn lemma_concat_tiles(parts: Seq<Seq<u8>>, stripes: Seq<Stripe>, len: nat)
    requires
        tiles(stripes, len),
        parts.len() == stripes.len(),
        forall|k: int|
            0 <= k < parts.len() ==> (#[trigger] parts[k]).len() == stripes[k].byte_end
                - stripes[k].byte_start,
    ensures
        concat(parts).len() == len,
        forall|k: int|
            0 <= k < parts.len() ==> concat(parts).subrange(
                stripes[k].byte_start as int,
                stripes[k].byte_end as int,
            ) == #[trigger] parts[k],
    decreases parts.len(),
{
    if parts.len() > 0 {
        let last = parts.len() - 1;
        let head = parts.drop_last();
        let head_stripes = stripes.drop_last();
        lemma_tiles_drop_last(stripes, len);
        assert forall|k: int| 0 <= k < head.len() implies (#[trigger] head[k]).len()
            == head_stripes[k].byte_end - head_stripes[k].byte_start by {
            assert(parts[k].len() == stripes[k].byte_end - stripes[k].byte_start);
        }
        lemma_concat_tiles(head, head_stripes, stripes[last].byte_start as nat);
        assert forall|k: int| 0 <= k < parts.len() implies concat(parts).subrange(
            stripes[k].byte_start as int,
            stripes[k].byte_end as int,
        ) == #[trigger] parts[k] by {
            let within = concat(parts).subrange(
                stripes[k].byte_start as int,
                stripes[k].byte_end as int,
            );
            if k < last {
                lemma_tiles_ordered(stripes, len, k, last);
                assert(head[k] == parts[k]);
                assert(within =~= concat(head).subrange(
                    head_stripes[k].byte_start as int,
                    head_stripes[k].byte_end as int,
                ));
            } else {
                assert(within =~= parts[k]);
            }
        }
    }
}

/// The planned stripes, row by row: stripe `k` holds the rows from
/// `rows_before(k)` up to `rows_before(k + 1)`, which are `stripe_rows(k)`
/// rows, and its bytes are those of its rows. The first stripe starts at row
/// 0 and the last one ends at row `height`.
pub proof fn lemma_plan_rows(width: u32, height: u32, workers: usize, k: int)
    requires
        workers >= 1,
        zone_len(width as nat, height as nat) <= usize::MAX,
        0 <= k < workers,
    ensures
        ({
            let plan = planned_stripes(width as nat, height as nat, workers as nat);
            &&& plan[k].matches_width(width as nat)
            &&& plan[k].y_start == rows_before(height as nat, workers as nat, k as nat)
            &&& plan[k].y_end - plan[k].y_start == stripe_rows(
                height as nat,
                workers as nat,
                k as nat,
            )
            &&& plan[k].y_end <= height
            &&& plan[k].byte_end - plan[k].byte_start == zone_len(
                width as nat,
                stripe_rows(height as nat, workers as nat, k as nat),
            )
            &&& plan[k].byte_end <= zone_len(width as nat, height as nat)
            &&& plan[0].y_start == 0
            &&& plan[workers - 1].y_end == height
            &&& k + 1 < workers ==> plan[k].y_end == plan[k + 1].y_start
        }),
{
    let h = height as nat;
    let n = workers as nat;
    lemma_partition_covers(h, n);
    assert(rows_before(h, n, k as nat) <= h);
    assert(rows_before(h, n, (k + 1) as nat) <= h);
    assert(rows_before(h, n, (k + 1) as nat) == rows_before(h, n, k as nat) + stripe_rows(
        h,
        n,
        k as nat,
    ));
    lemma_zone_len_monotonic(width as nat, rows_before(h, n, k as nat), h);
    lemma_zone_len_monotonic(width as nat, rows_before(h, n, (k + 1) as nat), h);
    lemma_zone_len_monotonic(
        width as nat,
        rows_before(h, n, k as nat),
        rows_before(h, n, (k + 1) as nat),
    );
    lemma_zone_len_additive(
        width as nat,
        rows_before(h, n, k as nat),
        stripe_rows(h, n, k as nat),
    );
    assert(rows_before(h, n, 0) == 0);
    assert(rows_before(h, n, ((workers - 1) + 1) as nat) == h);
}

/// The planned stripes tile the buffer: their byte ranges lie end to end
/// from byte 0 to the last byte of the image.
pub proof fn lemma_plan_tiles(width: u32, height: u32, workers: usize)
    requires
        workers >= 1,
        zone_len(width as nat, height as nat) <= usize::MAX,
    ensures
        tiles(
            planned_stripes(width as nat, height as nat, workers as nat),
            zone_len(width as nat, height as nat),
        ),
{
    let plan = planned_stripes(width as nat, height as nat, workers as nat);
    assert forall|k: int| 0 <= k < plan.len() implies (#[trigger] plan[k]).wf() by {
        lemma_plan_rows(width, height, workers, k);
    }
    assert forall|j: int, k: int| 0 <= j && k == j + 1 && k < plan.len() implies (
    #[trigger] plan[j]).byte_end == (#[trigger] plan[k]).byte_start by {
        lemma_plan_rows(width, height, workers, j);
        lemma_plan_rows(width, height, workers, k);
    }
    lemma_plan_rows(width, height, workers, 0);
    lemma_plan_rows(width, height, workers, workers - 1);
}

/// Disjointness and coverage of the planned stripes: no two of their byte
/// ranges overlap, none reaches beyond the buffer, and every byte of the
/// buffer lies in one of them.
pub proof fn lemma_byte_ranges_partition(width: u32, height: u32, workers: usize)
    requires
        workers >= 1,
        zone_len(width as nat, height as nat) <= usize::MAX,
    ensures
        ({
            let plan = planned_stripes(width as nat, height as nat, workers as nat);
            let len = zone_len(width as nat, height as nat);
            &&& forall|j: int, k: int|
                0 <= j < k < workers ==> (#[trigger] plan[j]).byte_end <= (
                #[trigger] plan[k]).byte_start
            &&& forall|k: int|
                0 <= k < workers ==> (#[trigger] plan[k]).byte_start <= plan[k].byte_end <= len
            &&& forall|byte: int| 0 <= byte < len ==> #[trigger] covered(plan, byte)
        }),
{
    let plan = planned_stripes(width as nat, height as nat, workers as nat);
    let len = zone_len(width as nat, height as nat);
    lemma_plan_tiles(width, height, workers);
    assert forall|j: int, k: int| 0 <= j < k < workers implies (#[trigger] plan[j]).byte_end <= (
    #[trigger] plan[k]).byte_start by {
        lemma_tiles_ordered(plan, len, j, k);
    }
    assert forall|k: int| 0 <= k < workers implies (#[trigger] plan[k]).byte_start
        <= plan[k].byte_end <= len by {
        lemma_tiles_ordered(plan, len, k, k);
    }
    assert forall|byte: int| 0 <= byte < len implies #[trigger] covered(plan, byte) by {
        let k = lemma_tiles_cover(plan, len, byte);
        assert(plan[k].holds_byte(byte));
    }
}

} // verus!
