use mandelbrot::intensity;
use mandelbrot::shade::BRIGHTEST;

#[test]
fn a_point_that_stays_is_brightest() {
    assert_eq!(intensity(None), 255);
    assert_eq!(BRIGHTEST, 255);
}

#[test]
fn each_step_before_escape_darkens_by_one() {
    assert_eq!(intensity(Some(0)), 255);
    assert_eq!(intensity(Some(1)), 254);
    assert_eq!(intensity(Some(3)), 252);
    assert_eq!(intensity(Some(97)), 158);
    assert_eq!(intensity(Some(254)), 1);
    assert_eq!(intensity(Some(255)), 0);
}

#[test]
fn counts_past_a_byte_wrap() {
    assert_eq!(intensity(Some(256)), 255);
    assert_eq!(intensity(Some(257)), 254);
    assert_eq!(intensity(Some(312)), 199);
    assert_eq!(intensity(Some(511)), 0);
    assert_eq!(intensity(Some(usize::MAX)), 0);
}

#[test]
fn intensity_is_255_minus_count_up_to_255() {
    for count in 0..=255usize {
        assert_eq!(intensity(Some(count)) as usize, 255 - count);
    }
}
