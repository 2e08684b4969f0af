//! Rendering an image stripe by stripe.

use vstd::prelude::*;
use crate::partition::{lemma_partition_covers, lemma_row_owner};
use crate::pixel::{
    lemma_pixel_inside,
    lemma_zone_len_additive,
    pixel_at,
    pixel_offset,
    zone_len,
    Color,
};
use crate::stripe::{
    lemma_concat_tiles,
    lemma_plan_rows,
    lemma_tiles_ordered,
    plan_stripes,
    planned_stripes,
    split_regions,
    Stripe,
};
use crate::zone::{
    lemma_rendering_unique,
    lemma_renders_weaken,
    outcomes,
    render_zone,
    renders,
    shifted,
    single_valued,
};

verus! {

/// The number of workers to use: the caller's request where there is one,
/// else the parallelism that the platform reports, else one; never fewer
/// than one.
pub open spec fn workers_for(requested: Option<usize>, available: Option<usize>) -> usize {
    let wanted = match requested {
        Some(n) => n,
        None => match available {
            Some(n) => n,
            None => 1,
        },
    };
    if wanted == 0 {
        1
    } else {
        wanted
    }
}

/// Settles the number of workers for a render.
pub fn resolve_workers(requested: Option<usize>, available: Option<usize>) -> (workers: usize)
    ensures
        workers == workers_for(requested, available),
        workers >= 1,
{
    let wanted = match requested {
        Some(n) => n,
        None => match available {
            Some(n) => n,
            None => 1,
        },
    };
    if wanted == 0 {
        1
    } else {
        wanted
    }
}

/// The bytes of `buf` that belong to `stripe`.
pub open spec fn stripe_bytes(buf: Seq<u8>, stripe: Stripe) -> Seq<u8> {
    buf.subrange(stripe.byte_start as int, stripe.byte_end as int)
}

/// The bytes of `stripe` in `buf` are a zone of the stripe's rows, rendered
/// under `allowed` as seen from the stripe's first row.
pub open spec fn renders_stripe(
    buf: Seq<u8>,
    width: nat,
    stripe: Stripe,
    allowed: spec_fn(nat, nat, Color) -> bool,
) -> bool {
    renders(
        stripe_bytes(buf, stripe),
        width,
        stripe.rows() as nat,
        shifted(allowed, stripe.y_start as nat),
    )
}

/// Stripes compose: where every planned stripe of a buffer is rendered under
/// `allowed`, each as a zone of its own, the whole buffer is the image
/// rendered under `allowed`, whatever the number of stripes.
pub proof fn lemma_stripes_compose(
    buf: Seq<u8>,
    width: u32,
    height: u32,
    workers: usize,
    allowed: spec_fn(nat, nat, Color) -> bool,
)
    requires
        workers >= 1,
        zone_len(width as nat, height as nat) <= usize::MAX,
        buf.len() == zone_len(width as nat, height as nat),
        forall|k: int|
            0 <= k < workers ==> renders_stripe(
                buf,
                width as nat,
                #[trigger] planned_stripes(width as nat, height as nat, workers as nat)[k],
                allowed,
            ),
    ensures
        renders(buf, width as nat, height as nat, allowed),
{
    let w = width as nat;
    let h = height as nat;
    let n = workers as nat;
    let plan = planned_stripes(w, h, n);
    lemma_partition_covers(h, n);
    assert forall|x: nat, y: nat| x < w && y < h implies allowed(
        x,
        y,
        #[trigger] pixel_at(buf, w, x, y),
    ) by {
        let k = lemma_row_owner(h, n, n, y) as int;
        lemma_plan_rows(width, height, workers, k);
        let stripe = plan[k];
        let rows = stripe.rows() as nat;
        let local = (y - stripe.y_start) as nat;
        let part = stripe_bytes(buf, stripe);
        assert(renders_stripe(buf, w, stripe, allowed));
        lemma_pixel_inside(w, rows, x, local);
        lemma_zone_len_additive(w, stripe.y_start as nat, rows);
        assert(pixel_offset(w, x, y) == stripe.byte_start + pixel_offset(w, x, local))
            by (nonlinear_arith)
            requires
                y == stripe.y_start + local,
                stripe.byte_start == w * stripe.y_start * 3,
        ;
        assert(pixel_at(part, w, x, local) == pixel_at(buf, w, x, y));
        assert(shifted(allowed, stripe.y_start as nat)(x, local, pixel_at(part, w, x, local)));
    }
}

/// The colours that a call of `shade` may return at each pixel of `stripe`,
/// the pixel counted from the stripe's first row.
pub open spec fn stripe_outcomes<G: Fn(Stripe, u32, u32) -> Color>(
    shade: G,
    stripe: Stripe,
) -> spec_fn(nat, nat, Color) -> bool {
    |x: nat, y: nat, c: Color|
        x <= u32::MAX && y <= u32::MAX && call_ensures(shade, (stripe, x as u32, y as u32), c)
}

/// `shade` may be called at every pixel of every stripe of an image of
/// `width` by `height` pixels cut into `workers` stripes.
pub open spec fn accepts_stripes<G: Fn(Stripe, u32, u32) -> Color>(
    shade: G,
    width: nat,
    height: nat,
    workers: nat,
) -> bool {
    forall|k: int, x: u32, y: u32|
        0 <= k < workers && x < width && y < planned_stripes(width, height, workers)[k].rows()
            ==> #[trigger] call_requires(shade, (planned_stripes(width, height, workers)[k], x, y))
}

/// `buf` is an image of `width` by `height` pixels in which the bytes of
/// each of the `workers` planned stripes are a zone of their own, filled with
/// colours that `shade` returns for that stripe.
pub open spec fn renders_striped<G: Fn(Stripe, u32, u32) -> Color>(
    buf: Seq<u8>,
    width: nat,
    height: nat,
    workers: nat,
    shade: G,
) -> bool {
    &&& buf.len() == zone_len(width, height)
    &&& forall|k: int|
        0 <= k < workers ==> renders(
            stripe_bytes(buf, #[trigger] planned_stripes(width, height, workers)[k]),
            width,
            planned_stripes(width, height, workers)[k].rows() as nat,
            stripe_outcomes(shade, planned_stripes(width, height, workers)[k]),
        )
}

/// Renders the image stripe by stripe: the rows are shared among `workers`
/// stripes, the buffer is handed out as one region per stripe, and every
/// region is filled as a zone of its own, with the colours that `shade`
/// returns for the stripe and the pixel's place in it.
pub fn render_striped<G: Fn(Stripe, u32, u32) -> Color>(
    width: u32,
    height: u32,
    out: &mut [u8],
    workers: usize,
    shade: G,
)
    requires
        workers >= 1,
        old(out)@.len() == zone_len(width as nat, height as nat),
        accepts_stripes(shade, width as nat, height as nat, workers as nat),
    ensures
        renders_striped(final(out)@, width as nat, height as nat, workers as nat, shade),
{
    let shade = &shade;
    let ghost whole = final(out)@;
    let ghost len = out@.len();
    proof {
        assert(out.len() == len);
    }
    let stripes = plan_stripes(width, height, workers);
    let regions = split_regions(out, &stripes);
    let ghost parts = Seq::new(regions@.len(), |k: int| final(regions@[k])@);
    let ghost plan = planned_stripes(width as nat, height as nat, workers as nat);
    proof {
        assert forall|j: int| 0 <= j < workers implies #[trigger] regions@[j]@.len()
            == plan[j].byte_end - plan[j].byte_start by {
            lemma_tiles_ordered(plan, len, j, j);
        }
    }
    let mut k: usize = 0;
    for region in it: regions
        invariant
            k == it.index(),
            workers >= 1,
            zone_len(width as nat, height as nat) <= usize::MAX,
            it.seq().len() == workers,
            parts.len() == workers,
            stripes@ == plan,
            plan == planned_stripes(width as nat, height as nat, workers as nat),
            accepts_stripes(*shade, width as nat, height as nat, workers as nat),
            forall|j: int|
                0 <= j < workers ==> #[trigger] it.seq()[j]@.len() == plan[j].byte_end
                    - plan[j].byte_start,
            forall|j: int| 0 <= j < workers ==> final(it.seq()[j])@ == #[trigger] parts[j],
            forall|j: int|
                0 <= j < it.index() ==> renders(
                    #[trigger] parts[j],
                    width as nat,
                    plan[j].rows() as nat,
                    stripe_outcomes(*shade, plan[j]),
                ),
    {
        proof {
            lemma_plan_rows(width, height, workers, k as int);
        }
        let stripe = stripes[k];
        let rows = stripe.rows();
        let local = |x: u32, y: u32| -> (c: Color)
            requires
                x < width,
                y < rows,
            ensures
                call_ensures(*shade, (stripe, x, y), c),
            { shade(stripe, x, y) };
        render_zone(width, rows, region, local);
        proof {
            lemma_renders_weaken(
                parts[k as int],
                width as nat,
                rows as nat,
                outcomes(local),
                stripe_outcomes(*shade, stripe),
            );
        }
        k += 1;
    }
    proof {
        assert forall|j: int| 0 <= j < parts.len() implies (#[trigger] parts[j]).len()
            == plan[j].byte_end - plan[j].byte_start by {
            lemma_plan_rows(width, height, workers, j);
        }
        lemma_concat_tiles(parts, plan, len);
        assert forall|k: int| 0 <= k < workers implies renders(
            stripe_bytes(whole, #[trigger] plan[k]),
            width as nat,
            plan[k].rows() as nat,
            stripe_outcomes(*shade, plan[k]),
        ) by {
            assert(stripe_bytes(whole, plan[k]) == parts[k]);
        }
    }
}

/// `shade` gives a pixel the colour that `allowed` admits for it in the
/// image, whichever of the `workers` planned stripes it is asked about.
pub open spec fn shades_alike<G: Fn(Stripe, u32, u32) -> Color>(
    shade: G,
    allowed: spec_fn(nat, nat, Color) -> bool,
    width: nat,
    height: nat,
    workers: nat,
) -> bool {
    forall|k: int, x: u32, y: u32, c: Color|
        0 <= k < workers && x < width && y < planned_stripes(width, height, workers)[k].rows()
            && #[trigger] call_ensures(
            shade,
            (planned_stripes(width, height, workers)[k], x, y),
            c,
        ) ==> allowed(
            x as nat,
            (y + planned_stripes(width, height, workers)[k].y_start) as nat,
            c,
        )
}

/// A render in stripes equals the render of the whole image: where `whole`
/// is rendered under `allowed`, `striped` is rendered in any number of
/// stripes by a shade that gives every pixel a colour that `allowed` admits,
/// and `allowed` admits one colour at most per pixel, the two buffers hold
/// the same bytes.
pub proof fn lemma_striped_equals_whole<G: Fn(Stripe, u32, u32) -> Color>(
    whole: Seq<u8>,
    striped: Seq<u8>,
    width: u32,
    height: u32,
    workers: usize,
    allowed: spec_fn(nat, nat, Color) -> bool,
    shade: G,
)
    requires
        workers >= 1,
        zone_len(width as nat, height as nat) <= usize::MAX,
        renders(whole, width as nat, height as nat, allowed),
        renders_striped(striped, width as nat, height as nat, workers as nat, shade),
        shades_alike(shade, allowed, width as nat, height as nat, workers as nat),
        single_valued(allowed, width as nat, height as nat),
    ensures
        whole == striped,
{
    let plan = planned_stripes(width as nat, height as nat, workers as nat);
    assert forall|k: int| 0 <= k < workers implies renders_stripe(
        striped,
        width as nat,
        #[trigger] plan[k],
        allowed,
    ) by {
        lemma_plan_rows(width, height, workers, k);
        let rows = plan[k].rows() as nat;
        let narrow = stripe_outcomes(shade, plan[k]);
        let wide = shifted(allowed, plan[k].y_start as nat);
        assert forall|x: nat, y: nat, c: Color|
            x < width && y < rows && #[trigger] narrow(x, y, c) implies wide(x, y, c) by {
            assert(call_ensures(shade, (plan[k], x as u32, y as u32), c));
        }
        lemma_renders_weaken(stripe_bytes(striped, plan[k]), width as nat, rows, narrow, wide);
    }
    lemma_stripes_compose(striped, width, height, workers, allowed);
    lemma_rendering_unique(whole, striped, width as nat, height as nat, allowed);
}

} // verus!
