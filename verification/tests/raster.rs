use mandelbrot::{pixel_offset, plot_madelbrot, render, Dynamics, RenderError, ITERATION_LIMIT};
use num::Complex;
use std::cell::RefCell;

type Point = Complex<f64>;

fn exceeds(z: Point) -> bool {
    z.norm_sqr() > 4.0
}

fn step(z: Point, c: Point) -> Point {
    z * z + c
}

fn pixel_to_point(bounds: (usize, usize), pixel: (usize, usize), upper_left: Point, lower_right: Point) -> Point {
    let (width, height) = (lower_right.re - upper_left.re, upper_left.im - lower_right.im);
    Complex {
        re: upper_left.re + pixel.0 as f64 * width / bounds.0 as f64,
        im: upper_left.im - pixel.1 as f64 * height / bounds.1 as f64,
    }
}

fn mandelbrot(bounds: (usize, usize), upper_left: (f64, f64), lower_right: (f64, f64), limit: usize) -> Result<Vec<u8>, RenderError> {
    let dynamics = Dynamics { origin: Complex { re: 0.0, im: 0.0 }, exceeds, step };
    render(
        bounds,
        Complex { re: upper_left.0, im: upper_left.1 },
        Complex { re: lower_right.0, im: lower_right.1 },
        limit,
        &pixel_to_point,
        &dynamics,
    )
}

fn over_hundred(z: u64) -> bool {
    z > 100
}

fn advance(z: u64, c: u64) -> u64 {
    z + c
}

fn numbered(bounds: (usize, usize), pixel: (usize, usize), first: u64, row_gap: u64) -> u64 {
    assert!(pixel.0 < bounds.0 && pixel.1 < bounds.1);
    first + pixel.1 as u64 * row_gap + pixel.0 as u64
}

#[test]
fn offsets_are_row_major() {
    assert_eq!(pixel_offset((3, 2), (0, 0)), 0);
    assert_eq!(pixel_offset((3, 2), (1, 0)), 1);
    assert_eq!(pixel_offset((3, 2), (2, 0)), 2);
    assert_eq!(pixel_offset((3, 2), (0, 1)), 3);
    assert_eq!(pixel_offset((3, 2), (2, 1)), 5);
    assert_eq!(pixel_offset((3000, 3000), (2999, 2999)), 8_999_999);
    assert_eq!(pixel_offset((1, 7), (0, 6)), 6);
}

#[test]
fn two_by_two_scenario() {
    let pixels = mandelbrot((2, 2), (-1.0, 1.0), (1.0, -1.0), 255).unwrap();
    assert_eq!(pixels, vec![252, 255, 255, 255]);
    assert_eq!(pixels[pixel_offset((2, 2), (0, 0))], 255 - 3);
    assert_eq!(pixels[pixel_offset((2, 2), (1, 1))], 255);
}

#[test]
fn four_by_three_raster() {
    let pixels = mandelbrot((4, 3), (-2.0, 1.0), (1.0, -1.0), 255).unwrap();
    assert_eq!(pixels, vec![254, 252, 251, 251, 254, 237, 255, 255, 254, 237, 255, 255]);
}

#[test]
fn a_region_given_bottom_up_is_mirrored() {
    let pixels = mandelbrot((5, 4), (-1.0, -1.0), (1.0, 1.0), 255).unwrap();
    assert_eq!(
        pixels,
        vec![252, 251, 248, 251, 253, 250, 243, 255, 255, 252, 255, 255, 255, 255, 251, 250, 243, 255, 255, 252]
    );
}

#[test]
fn a_larger_limit_is_handed_to_the_evaluator() {
    let pixels = mandelbrot((1, 1), (0.2501, 0.0), (1.0, -1.0), 1000).unwrap();
    assert_eq!(pixels, vec![199]);
    let pixels = mandelbrot((1, 1), (0.2501, 0.0), (1.0, -1.0), 255).unwrap();
    assert_eq!(pixels, vec![255]);
}

#[test]
fn plot_overwrites_every_byte() {
    let dynamics = Dynamics { origin: Complex { re: 0.0, im: 0.0 }, exceeds, step };
    let upper_left = Complex { re: -1.0, im: 1.0 };
    let lower_right = Complex { re: 1.0, im: -1.0 };
    let mut pixels = vec![7u8; 4];
    plot_madelbrot(&mut pixels, (2, 2), upper_left, lower_right, 255, &pixel_to_point, &dynamics);
    assert_eq!(pixels, vec![252, 255, 255, 255]);
    let mut other = vec![0u8; 4];
    plot_madelbrot(&mut other, (2, 2), upper_left, lower_right, 255, &pixel_to_point, &dynamics);
    assert_eq!(other, pixels);
}

#[test]
fn plot_of_empty_bounds_touches_nothing() {
    let dynamics = Dynamics { origin: 0u64, exceeds: over_hundred, step: advance };
    let mut pixels: Vec<u8> = Vec::new();
    plot_madelbrot(&mut pixels, (0, 9), 1u64, 10u64, 255, &numbered, &dynamics);
    plot_madelbrot(&mut pixels, (9, 0), 1u64, 10u64, 255, &numbered, &dynamics);
    assert!(pixels.is_empty());
}

#[test]
fn each_pixel_gets_the_shade_of_its_own_point() {
    let dynamics = Dynamics { origin: 0u64, exceeds: over_hundred, step: advance };
    let pixels = render((3, 2), 1u64, 10u64, 255, &numbered, &dynamics).unwrap();
    // The points are 1, 2, 3 in the first row and 11, 12, 13 in the second;
    // a point c escapes at the first k with k * c > 100.
    assert_eq!(pixels, vec![255 - 101, 255 - 51, 255 - 34, 255 - 10, 255 - 9, 255 - 8]);
}

#[test]
fn pixels_are_visited_row_by_row() {
    let visited = RefCell::new(Vec::new());
    let dynamics = Dynamics { origin: 0u64, exceeds: over_hundred, step: advance };
    let pixels = render(
        (3, 2),
        1u64,
        10u64,
        255,
        &|bounds: (usize, usize), pixel: (usize, usize), first: u64, row_gap: u64| {
            visited.borrow_mut().push(pixel);
            numbered(bounds, pixel, first, row_gap)
        },
        &dynamics,
    );
    assert!(pixels.is_ok());
    assert_eq!(visited.into_inner(), vec![(0, 0), (1, 0), (2, 0), (0, 1), (1, 1), (2, 1)]);
}

#[test]
fn the_mapper_gets_the_bounds_and_the_corners() {
    let seen = RefCell::new(Vec::new());
    let dynamics = Dynamics { origin: 0u64, exceeds: over_hundred, step: advance };
    let pixels = render(
        (2, 3),
        40u64,
        7u64,
        255,
        &|bounds: (usize, usize), pixel: (usize, usize), upper_left: u64, lower_right: u64| {
            seen.borrow_mut().push((bounds, upper_left, lower_right));
            numbered(bounds, pixel, upper_left, lower_right)
        },
        &dynamics,
    )
    .unwrap();
    assert_eq!(seen.into_inner(), vec![((2, 3), 40, 7); 6]);
    // The points are 40, 41, 47, 48, 54, 55.
    assert_eq!(pixels, vec![252, 252, 252, 252, 253, 253]);
}

#[test]
fn buffer_length_is_width_times_height() {
    let dynamics = Dynamics { origin: 0u64, exceeds: over_hundred, step: advance };
    for bounds in [(1usize, 1usize), (1, 9), (9, 1), (7, 5), (64, 48)] {
        let pixels = render(bounds, 1u64, 10u64, 255, &numbered, &dynamics).unwrap();
        assert_eq!(pixels.len(), bounds.0 * bounds.1);
    }
    assert_eq!(mandelbrot((30, 20), (-1.0, -1.0), (1.0, 1.0), 255).unwrap().len(), 600);
}

#[test]
fn empty_bounds_are_refused() {
    assert_eq!(mandelbrot((0, 5), (-1.0, 1.0), (1.0, -1.0), 255), Err(RenderError::EmptyBounds));
    assert_eq!(mandelbrot((5, 0), (-1.0, 1.0), (1.0, -1.0), 255), Err(RenderError::EmptyBounds));
    assert_eq!(mandelbrot((0, 0), (-1.0, 1.0), (1.0, -1.0), 255), Err(RenderError::EmptyBounds));
    assert_eq!(mandelbrot((0, usize::MAX), (-1.0, 1.0), (1.0, -1.0), 255), Err(RenderError::EmptyBounds));
}

#[test]
fn bounds_past_the_address_space_are_refused() {
    assert_eq!(mandelbrot((usize::MAX, 2), (-1.0, 1.0), (1.0, -1.0), 255), Err(RenderError::TooLarge));
    assert_eq!(mandelbrot((2, usize::MAX), (-1.0, 1.0), (1.0, -1.0), 255), Err(RenderError::TooLarge));
    assert_eq!(
        mandelbrot((usize::MAX / 2 + 1, 2), (-1.0, 1.0), (1.0, -1.0), 255),
        Err(RenderError::TooLarge)
    );
}

#[test]
fn rendering_twice_gives_the_same_bytes() {
    let first = mandelbrot((16, 12), (-2.0, 1.0), (1.0, -1.0), 255).unwrap();
    let second = mandelbrot((16, 12), (-2.0, 1.0), (1.0, -1.0), 255).unwrap();
    assert_eq!(first, second);
}

#[test]
fn no_pixel_is_black_under_the_default_limit() {
    assert_eq!(ITERATION_LIMIT, 255);
    let pixels = mandelbrot((16, 12), (-2.0, 1.0), (1.0, -1.0), ITERATION_LIMIT).unwrap();
    assert!(pixels.iter().all(|shade| *shade >= 1));
}
