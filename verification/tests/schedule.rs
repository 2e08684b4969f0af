use mandelbrot::escape::colorize;
use mandelbrot::pixel::{buffer_len, Color};
use mandelbrot::schedule::{render_striped, resolve_workers};
use mandelbrot::stripe::{plan_stripes, split_regions, Stripe};
use mandelbrot::zone::render_zone;
use num_complex::Complex;

fn mix(x: u32, y: u32) -> Color {
    let v = x.wrapping_mul(2654435761).wrapping_add(y.wrapping_mul(40503));
    Color::new((v >> 24) as u8, (v >> 12) as u8, v as u8)
}

fn cosine_channel(hue: f64, phase: f64) -> u8 {
    ((0.5 + 0.5 * (std::f64::consts::TAU * (hue + phase)).cos()) * 255.0) as u8
}

fn smooth_palette(iteration: u32, z: Complex<f64>) -> Color {
    let smooth = iteration as f64 + 1.0 - z.norm_sqr().sqrt().ln().ln() / std::f64::consts::LN_2;
    let hue = smooth * 0.1;
    Color::new(cosine_channel(hue, 0.0), cosine_channel(hue, 0.33), cosine_channel(hue, 0.66))
}

fn point_color(c: Complex<f64>) -> Color {
    colorize(
        Complex::new(0.0, 0.0),
        |z: Complex<f64>| {
            let next = z * z + c;
            (next, next.norm_sqr() > 4.0)
        },
        smooth_palette,
    )
}

fn sample(
    from: Complex<f64>,
    to: Complex<f64>,
    width: u32,
    height: u32,
    x: u32,
    y: u32,
) -> Complex<f64> {
    let size = to - from;
    from + Complex::new(x as f64 * size.re / width as f64, y as f64 * size.im / height as f64)
}

#[test]
fn a_request_is_taken_as_it_is() {
    assert_eq!(resolve_workers(Some(8), Some(4)), 8);
    assert_eq!(resolve_workers(Some(1), None), 1);
    assert_eq!(resolve_workers(Some(usize::MAX), Some(2)), usize::MAX);
}

#[test]
fn without_a_request_the_platform_decides() {
    assert_eq!(resolve_workers(None, Some(4)), 4);
    assert_eq!(resolve_workers(None, Some(1)), 1);
}

#[test]
fn without_request_and_platform_one_worker_is_used() {
    assert_eq!(resolve_workers(None, None), 1);
}

#[test]
fn there_is_never_less_than_one_worker() {
    assert_eq!(resolve_workers(Some(0), Some(4)), 1);
    assert_eq!(resolve_workers(None, Some(0)), 1);
    assert_eq!(resolve_workers(Some(0), None), 1);
}

fn mix_in_stripe(stripe: Stripe, x: u32, y: u32) -> Color {
    mix(x, stripe.y_start + y)
}

fn stripe_corners(
    from: Complex<f64>,
    to: Complex<f64>,
    height: u32,
    stripe: &Stripe,
) -> (Complex<f64>, Complex<f64>) {
    let size = to - from;
    let delta_y = size.im / height as f64;
    (
        from + Complex::new(0.0, stripe.y_start as f64 * delta_y),
        from + Complex::new(size.re, stripe.y_end as f64 * delta_y),
    )
}

#[test]
fn striped_and_whole_renders_are_the_same_bytes() {
    for (width, height) in [(1u32, 1u32), (3, 7), (16, 10), (5, 33)] {
        let len = buffer_len(width, height).unwrap();
        let mut whole = vec![0u8; len];
        render_zone(width, height, &mut whole, mix);
        for workers in 1usize..=12 {
            let mut striped = vec![0u8; len];
            render_striped(width, height, &mut striped, workers, mix_in_stripe);
            assert_eq!(striped, whole);
        }
    }
}

#[test]
fn striped_render_with_more_workers_than_rows() {
    let mut whole = vec![0u8; 4 * 2 * 3];
    render_zone(4, 2, &mut whole, mix);
    let mut striped = vec![0u8; 4 * 2 * 3];
    render_striped(4, 2, &mut striped, 5, mix_in_stripe);
    assert_eq!(striped, whole);
}

#[test]
fn striped_render_hands_the_stripe_and_the_place_in_it_to_the_shade() {
    let mut buf = vec![0u8; 2 * 5 * 3];
    render_striped(2, 5, &mut buf, 3, |stripe: Stripe, x, y| {
        Color::new(x as u8, y as u8, stripe.y_start as u8 * 10 + stripe.y_end as u8)
    });
    assert_eq!(
        buf,
        vec![
            0, 0, 2, 1, 0, 2, 0, 1, 2, 1, 1, 2, 0, 0, 24, 1, 0, 24, 0, 1, 24, 1, 1, 24, 0, 0, 45,
            1, 0, 45
        ]
    );
}

#[test]
fn striped_render_is_one_zone_render_per_stripe() {
    let (width, height, workers) = (7u32, 11u32, 4usize);
    let shade = |stripe: Stripe, x: u32, y: u32| Color::new(x as u8, y as u8, stripe.rows() as u8);
    let mut striped = vec![0u8; buffer_len(width, height).unwrap()];
    render_striped(width, height, &mut striped, workers, shade);
    for stripe in plan_stripes(width, height, workers) {
        let mut zone = vec![0u8; stripe.byte_len()];
        render_zone(width, stripe.rows(), &mut zone, |x, y| shade(stripe, x, y));
        assert_eq!(&striped[stripe.byte_start..stripe.byte_end], &zone[..]);
    }
}

#[test]
fn end_to_end_one_worker_and_eight_workers_agree() {
    let (width, height) = (640u32, 480u32);
    let from = Complex::new(-2.5, -1.315);
    let to = Complex::new(1.0, 1.315);
    let shade = |stripe: Stripe, x: u32, y: u32| {
        let (stripe_from, stripe_to) = stripe_corners(from, to, height, &stripe);
        point_color(sample(stripe_from, stripe_to, width, stripe.rows(), x, y))
    };
    let mut one = vec![0u8; buffer_len(width, height).unwrap()];
    let mut eight = vec![0u8; buffer_len(width, height).unwrap()];
    render_striped(width, height, &mut one, 1, shade);
    render_striped(width, height, &mut eight, 8, shade);
    assert_eq!(one.len(), 921600);
    assert_eq!(eight.len(), 921600);
    assert!(one == eight);

    let mut whole = vec![0u8; buffer_len(width, height).unwrap()];
    render_zone(width, height, &mut whole, |x, y| {
        point_color(sample(from, to, width, height, x, y))
    });
    assert!(one == whole);
    assert!(whole.iter().any(|byte| *byte != 0));
    assert_eq!(&whole[(240 * 640 + 457) * 3..(240 * 640 + 457) * 3 + 3], &[0u8, 0, 0][..]);
}

#[test]
fn regions_filled_by_threads_without_a_lock_give_the_whole_render() {
    let (width, height) = (64u32, 48u32);
    let len = buffer_len(width, height).unwrap();
    let mut whole = vec![0u8; len];
    render_zone(width, height, &mut whole, mix);
    for workers in [1usize, 2, 7, 8, 50] {
        let mut image = vec![0u8; len];
        let stripes = plan_stripes(width, height, workers);
        let regions = split_regions(&mut image, &stripes);
        let joined = crossbeam::thread::scope(|scope| {
            for (stripe, region) in stripes.iter().zip(regions) {
                let first = stripe.y_start;
                let rows = stripe.rows();
                scope.spawn(move |_| render_zone(width, rows, region, |x, y| mix(x, first + y)));
            }
        });
        assert!(joined.is_ok());
        assert_eq!(image, whole);
    }
}

#[test]
fn end_to_end_eight_threads_on_stripe_windows() {
    let (width, height) = (640u32, 480u32);
    let from = Complex::new(-2.5, -1.315);
    let to = Complex::new(1.0, 1.315);
    let len = buffer_len(width, height).unwrap();
    let mut whole = vec![0u8; len];
    render_zone(width, height, &mut whole, |x, y| {
        point_color(sample(from, to, width, height, x, y))
    });

    let mut image = vec![0u8; len];
    let stripes = plan_stripes(width, height, resolve_workers(Some(8), None));
    let regions = split_regions(&mut image, &stripes);
    let joined = crossbeam::thread::scope(|scope| {
        for (stripe, region) in stripes.iter().zip(regions) {
            let rows = stripe.rows();
            let (stripe_from, stripe_to) = stripe_corners(from, to, height, stripe);
            scope.spawn(move |_| {
                render_zone(width, rows, region, |x, y| {
                    point_color(sample(stripe_from, stripe_to, width, rows, x, y))
                })
            });
        }
    });
    assert!(joined.is_ok());
    assert_eq!(image.len(), 921600);
    assert!(image == whole);
}

#[test]
fn a_failing_worker_is_reported_at_the_join() {
    let width = 4u32;
    let mut image = vec![0u8; 4 * 4 * 3];
    let stripes = plan_stripes(4, 4, 2);
    let regions = split_regions(&mut image, &stripes);
    let joined = crossbeam::thread::scope(|scope| {
        for (stripe, region) in stripes.iter().zip(regions) {
            let first = stripe.y_start;
            let rows = stripe.rows();
            scope.spawn(move |_| {
                render_zone(width, rows, region, |x, y| {
                    if first + y == 3 {
                        panic!("worker failed");
                    }
                    mix(x, first + y)
                })
            });
        }
    });
    assert!(joined.is_err());
}
