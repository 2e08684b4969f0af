use mandelbrot::escape::{colorize, escape_time, Verdict, MAX_ITER};
use mandelbrot::pixel::Color;
use num_complex::Complex;
use std::cell::RefCell;

fn orbit(c: Complex<f64>) -> Verdict<Complex<f64>> {
    escape_time(Complex::new(0.0, 0.0), |z: Complex<f64>| {
        let next = z * z + c;
        (next, next.norm_sqr() > 4.0)
    })
}

fn channel(hue: f64, phase: f64) -> u8 {
    ((0.5 + 0.5 * (std::f64::consts::TAU * (hue + phase)).cos()) * 255.0) as u8
}

fn palette(iteration: u32, z: Complex<f64>) -> Color {
    let smooth = iteration as f64 + 1.0 - z.norm_sqr().sqrt().ln().ln() / std::f64::consts::LN_2;
    let hue = smooth * 0.1;
    Color::new(channel(hue, 0.0), channel(hue, 0.33), channel(hue, 0.66))
}

fn color_of(c: Complex<f64>) -> Color {
    colorize(
        Complex::new(0.0, 0.0),
        |z: Complex<f64>| {
            let next = z * z + c;
            (next, next.norm_sqr() > 4.0)
        },
        palette,
    )
}

#[test]
fn the_budget_is_250_steps() {
    assert_eq!(MAX_ITER, 250);
}

#[test]
fn the_origin_is_inside_the_set() {
    assert_eq!(orbit(Complex::new(0.0, 0.0)), Verdict::Bounded);
    assert_eq!(color_of(Complex::new(0.0, 0.0)), Color { r: 0, g: 0, b: 0 });
}

#[test]
fn a_far_point_escapes_on_the_first_step() {
    let c = Complex::new(10.0, 10.0);
    assert_eq!(orbit(c), Verdict::Escaped { iteration: 0, state: c });
}

#[test]
fn a_far_point_is_not_black() {
    let color = color_of(Complex::new(10.0, 10.0));
    assert_ne!(color, Color::black());
    assert_eq!(color, Color { r: 250, g: 96, b: 34 });
}

#[test]
fn a_bounded_orbit_is_black_whatever_the_palette() {
    let color = colorize(0u32, |n: u32| (n + 1, false), |_, _| -> Color {
        panic!("a bounded orbit has no escape to paint")
    });
    assert_eq!(color, Color::black());
}

#[test]
fn an_escape_is_painted_by_the_palette_with_its_step_and_state() {
    let color = colorize(
        10u32,
        |n: u32| (n + 1, n + 1 == 13),
        |iteration, state| Color::new(iteration as u8, state as u8, 77),
    );
    assert_eq!(color, Color { r: 2, g: 13, b: 77 });
}

#[test]
fn the_colour_of_a_point_that_escapes_at_the_third_step() {
    assert_eq!(color_of(Complex::new(1.0, 0.0)), Color { r: 142, g: 9, b: 226 });
}

#[test]
fn a_point_that_only_reaches_the_bound_stays_inside() {
    assert_eq!(orbit(Complex::new(-2.0, 0.0)), Verdict::Bounded);
}

#[test]
fn escape_is_reported_with_the_step_and_the_state_reached() {
    assert_eq!(
        orbit(Complex::new(1.0, 0.0)),
        Verdict::Escaped { iteration: 2, state: Complex::new(5.0, 0.0) }
    );
}

#[test]
fn a_step_that_never_escapes_is_taken_250_times() {
    let calls = RefCell::new(0u32);
    let verdict = escape_time(0u32, |n: u32| {
        *calls.borrow_mut() += 1;
        (n + 1, false)
    });
    assert_eq!(verdict, Verdict::Bounded);
    assert_eq!(*calls.borrow(), 250);
}

#[test]
fn escape_on_the_last_step_of_the_budget_counts() {
    let verdict = escape_time(0u32, |n: u32| (n + 1, n + 1 == 250));
    assert_eq!(verdict, Verdict::Escaped { iteration: 249, state: 250 });
}

#[test]
fn escape_after_the_budget_is_not_seen() {
    let verdict = escape_time(0u32, |n: u32| (n + 1, n + 1 == 251));
    assert_eq!(verdict, Verdict::Bounded);
}

#[test]
fn the_first_escape_stops_the_iteration() {
    let calls = RefCell::new(0u32);
    let verdict = escape_time(0u32, |n: u32| {
        *calls.borrow_mut() += 1;
        (n + 1, n + 1 >= 4)
    });
    assert_eq!(verdict, Verdict::Escaped { iteration: 3, state: 4 });
    assert_eq!(*calls.borrow(), 4);
}

#[test]
fn the_same_point_gives_the_same_verdict_and_colour() {
    for c in [
        Complex::new(0.0, 0.0),
        Complex::new(10.0, 10.0),
        Complex::new(-0.75, 0.1),
        Complex::new(0.3, 0.5),
        Complex::new(-1.996875, 0.0),
    ] {
        assert_eq!(orbit(c), orbit(c));
        assert_eq!(color_of(c), color_of(c));
    }
}
