//! The raster plotter: one grey level for each pixel, in row-major order.

use crate::escape::{
    computes, escape_count, escape_time, escapes_as, lemma_escape_time_follows_rule,
    lemma_first_exceeding_is_escape_time, orbit_at, Dynamics, Iteration,
};
use crate::shade::{intensity, intensity_of};
use vstd::prelude::*;

verus! {

/// Why a raster of some bounds cannot be rendered.
#[derive(Debug, Clone, Copy, PartialEq, Eq)]
pub enum RenderError {
    /// The width or the height is zero.
    EmptyBounds,
    /// The number of pixels, `width * height`, does not fit in `usize`.
    TooLarge,
}

/// `pixel`, as `(column, row)`, lies inside a raster of `bounds`, as
/// `(width, height)`.
pub open spec fn in_bounds(bounds: (usize, usize), pixel: (usize, usize)) -> bool {
    pixel.0 < bounds.0 && pixel.1 < bounds.1
}

/// The place of `pixel` in the flat buffer: rows follow each other, row 0
/// first, and within a row column 0 comes first.
pub open spec fn offset_of(bounds: (usize, usize), pixel: (usize, usize)) -> int {
    pixel.1 * bounds.0 + pixel.0
}

/// The pixel that is stored at `offset`: the inverse of [`offset_of`].
pub open spec fn pixel_at(bounds: (usize, usize), offset: int) -> (usize, usize) {
    ((offset % (bounds.0 as int)) as usize, (offset / (bounds.0 as int)) as usize)
}

/// The pixels inside the bounds have offsets below `width * height`.
pub proof fn lemma_offset_in_range(bounds: (usize, usize), pixel: (usize, usize))
    requires
        in_bounds(bounds, pixel),
    ensures
        0 <= offset_of(bounds, pixel) < bounds.0 * bounds.1,
{
    let (width, height) = (bounds.0 as int, bounds.1 as int);
    let row = pixel.1 as int;
    assert(row * width + width <= height * width) by (nonlinear_arith)
        requires
            0 <= row < height,
            0 <= width,
    ;
}

/// Two pixels inside the bounds with the same offset are the same pixel.
pub proof fn lemma_offset_injective(bounds: (usize, usize), first: (usize, usize), second: (usize, usize))
    requires
        in_bounds(bounds, first),
        in_bounds(bounds, second),
        offset_of(bounds, first) == offset_of(bounds, second),
    ensures
        first == second,
{
    let width = bounds.0 as int;
    let (r1, r2) = (first.1 as int, second.1 as int);
    if r1 < r2 {
        assert(r1 * width + width <= r2 * width) by (nonlinear_arith)
            requires
                r1 + 1 <= r2,
                0 <= width,
        ;
    } else if r2 < r1 {
        assert(r2 * width + width <= r1 * width) by (nonlinear_arith)
            requires
                r2 + 1 <= r1,
                0 <= width,
        ;
    }
}

/// Offsets and pixels correspond one to one: each offset below
/// `width * height` is that of the pixel [`pixel_at`] gives for it, which lies
/// inside the bounds.
pub proof fn lemma_pixel_at_offset(bounds: (usize, usize), offset: int)
    requires
        0 <= offset < bounds.0 * bounds.1,
    ensures
        in_bounds(bounds, pixel_at(bounds, offset)),
        offset_of(bounds, pixel_at(bounds, offset)) == offset,
{
    let (width, height) = (bounds.0 as int, bounds.1 as int);
    assert(width > 0) by (nonlinear_arith)
        requires
            0 <= offset < width * height,
            0 <= width,
            0 <= height,
    ;
    let (col, row) = (offset % width, offset / width);
    assert(offset == row * width + col && 0 <= col < width) by (nonlinear_arith)
        requires
            width > 0,
            col == offset % width,
            row == offset / width,
    ;
    assert(0 <= row < height) by (nonlinear_arith)
        requires
            offset == row * width + col,
            0 <= col < width,
            0 <= offset < width * height,
    ;
}

/// The offset of a pixel in the flat buffer.
pub fn pixel_offset(bounds: (usize, usize), pixel: (usize, usize)) -> (offset: usize)
    requires
        in_bounds(bounds, pixel),
        offset_of(bounds, pixel) <= usize::MAX,
    ensures
        offset == offset_of(bounds, pixel),
        offset < bounds.0 * bounds.1,
{
    proof {
        lemma_offset_in_range(bounds, pixel);
    }
    pixel.1 * bounds.0 + pixel.0
}

/// Every result of the executable `point_at` is the one that `placing` gives
/// for the same arguments.
pub open spec fn places<Z, M>(
    point_at: M,
    placing: spec_fn((usize, usize), (usize, usize), Z, Z) -> Z,
) -> bool where M: Fn((usize, usize), (usize, usize), Z, Z) -> Z {
    forall|bounds: (usize, usize), pixel: (usize, usize), upper_left: Z, lower_right: Z, c: Z| #[trigger]
        point_at.ensures((bounds, pixel, upper_left, lower_right), c) ==> c == placing(
            bounds,
            pixel,
            upper_left,
            lower_right,
        )
}

/// The grey level of `pixel`: that of the escape time, within `limit`, of the
/// point where `placing` puts the pixel.
pub open spec fn shade_at<Z>(
    placing: spec_fn((usize, usize), (usize, usize), Z, Z) -> Z,
    rule: Iteration<Z>,
    bounds: (usize, usize),
    pixel: (usize, usize),
    upper_left: Z,
    lower_right: Z,
    limit: usize,
) -> u8 {
    intensity_of(escape_count(rule, placing(bounds, pixel, upper_left, lower_right), limit))
}

/// The raster as a function of what is asked for: `width * height` bytes, the
/// byte at each offset being the grey level of the pixel stored there.
pub open spec fn raster_of<Z>(
    placing: spec_fn((usize, usize), (usize, usize), Z, Z) -> Z,
    rule: Iteration<Z>,
    bounds: (usize, usize),
    upper_left: Z,
    lower_right: Z,
    limit: usize,
) -> Seq<u8> {
    Seq::new(
        (bounds.0 * bounds.1) as nat,
        |offset: int|
            shade_at(placing, rule, bounds, pixel_at(bounds, offset), upper_left, lower_right, limit),
    )
}

/// What a render may store for `pixel`: the grey level of a count that the
/// evaluator may return, within `limit`, for a point that `point_at` returned
/// for that pixel, these bounds and these corners.
pub open spec fn shade_may_be<Z, M, E, S>(
    bounds: (usize, usize),
    pixel: (usize, usize),
    upper_left: Z,
    lower_right: Z,
    limit: usize,
    point_at: M,
    dynamics: Dynamics<Z, E, S>,
    shade: u8,
) -> bool where M: Fn((usize, usize), (usize, usize), Z, Z) -> Z, E: Fn(Z) -> bool, S: Fn(Z, Z) -> Z {
    exists|c: Z, count: Option<usize>|
        #![trigger escapes_as(c, limit, dynamics, count)]
        {
            &&& point_at.ensures((bounds, pixel, upper_left, lower_right), c)
            &&& escapes_as(c, limit, dynamics, count)
            &&& shade == intensity_of(count)
        }
}

/// `pixels` is a finished raster: `width * height` bytes, and each pixel
/// inside the bounds holds, at its offset, a grey level that a render may
/// store for it.
pub open spec fn plotted<Z, M, E, S>(
    pixels: Seq<u8>,
    bounds: (usize, usize),
    upper_left: Z,
    lower_right: Z,
    limit: usize,
    point_at: M,
    dynamics: Dynamics<Z, E, S>,
) -> bool where M: Fn((usize, usize), (usize, usize), Z, Z) -> Z, E: Fn(Z) -> bool, S: Fn(Z, Z) -> Z {
    &&& pixels.len() == bounds.0 * bounds.1
    &&& forall|pixel: (usize, usize)|
        in_bounds(bounds, pixel) ==> shade_may_be(
            bounds,
            pixel,
            upper_left,
            lower_right,
            limit,
            point_at,
            dynamics,
            #[trigger] pixels[offset_of(bounds, pixel)],
        )
}

/// The pixels with an offset below `done` hold a grey level that a render may
/// store for them.
spec fn plotted_below<Z, M, E, S>(
    pixels: Seq<u8>,
    done: int,
    bounds: (usize, usize),
    upper_left: Z,
    lower_right: Z,
    limit: usize,
    point_at: M,
    dynamics: Dynamics<Z, E, S>,
) -> bool where M: Fn((usize, usize), (usize, usize), Z, Z) -> Z, E: Fn(Z) -> bool, S: Fn(Z, Z) -> Z {
    forall|pixel: (usize, usize)|
        in_bounds(bounds, pixel) && #[trigger] offset_of(bounds, pixel) < done ==> shade_may_be(
            bounds,
            pixel,
            upper_left,
            lower_right,
            limit,
            point_at,
            dynamics,
            pixels[offset_of(bounds, pixel)],
        )
}

/// Where `point_at` and `dynamics` compute `placing` and `rule`, a finished
/// raster is [`raster_of`] what was asked for, byte for byte.
pub proof fn lemma_plot_follows_rule<Z, M, E, S>(
    pixels: Seq<u8>,
    bounds: (usize, usize),
    upper_left: Z,
    lower_right: Z,
    limit: usize,
    point_at: M,
    dynamics: Dynamics<Z, E, S>,
    placing: spec_fn((usize, usize), (usize, usize), Z, Z) -> Z,
    rule: Iteration<Z>,
) where M: Fn((usize, usize), (usize, usize), Z, Z) -> Z, E: Fn(Z) -> bool, S: Fn(Z, Z) -> Z
    requires
        plotted(pixels, bounds, upper_left, lower_right, limit, point_at, dynamics),
        places(point_at, placing),
        computes(dynamics, rule),
    ensures
        pixels == raster_of(placing, rule, bounds, upper_left, lower_right, limit),
{
    let model = raster_of(placing, rule, bounds, upper_left, lower_right, limit);
    assert forall|offset: int| 0 <= offset < pixels.len() implies pixels[offset] == model[offset] by {
        let pixel = pixel_at(bounds, offset);
        lemma_pixel_at_offset(bounds, offset);
        let shade = pixels[offset_of(bounds, pixel)];
        assert(shade_may_be(
            bounds,
            pixel,
            upper_left,
            lower_right,
            limit,
            point_at,
            dynamics,
            shade,
        ));
        let (c, count) = choose|c: Z, count: Option<usize>|
            #![trigger escapes_as(c, limit, dynamics, count)]
            {
                &&& point_at.ensures((bounds, pixel, upper_left, lower_right), c)
                &&& escapes_as(c, limit, dynamics, count)
                &&& shade == intensity_of(count)
            };
        lemma_escape_time_follows_rule(c, limit, dynamics, count, rule);
    }
}

/// Fills `pixels` with the escape-time raster of the region between
/// `upper_left` and `lower_right`. For each pixel, row by row, it asks
/// `point_at` for the pixel's point, evaluates that point's escape time within
/// `limit`, and stores the grey level of the count at the pixel's offset.
pub fn plot_madelbrot<Z: Copy, M, E, S>(
    pixels: &mut [u8],
    bounds: (usize, usize),
    upper_left: Z,
    lower_right: Z,
    limit: usize,
    point_at: &M,
    dynamics: &Dynamics<Z, E, S>,
) where M: Fn((usize, usize), (usize, usize), Z, Z) -> Z, E: Fn(Z) -> bool, S: Fn(Z, Z) -> Z
    requires
        old(pixels)@.len() == bounds.0 * bounds.1,
        forall|pixel: (usize, usize)|
            in_bounds(bounds, pixel) ==> #[trigger] point_at.requires(
                (bounds, pixel, upper_left, lower_right),
            ),
        forall|z: Z| #[trigger] dynamics.exceeds.requires((z,)),
        forall|z: Z, c: Z| #[trigger] dynamics.step.requires((z, c)),
    ensures
        final(pixels)@.len() == bounds.0 * bounds.1,
        plotted(final(pixels)@, bounds, upper_left, lower_right, limit, *point_at, *dynamics),
        forall|placing: spec_fn((usize, usize), (usize, usize), Z, Z) -> Z, rule: Iteration<Z>|
            #![trigger places(*point_at, placing), computes(*dynamics, rule)]
            places(*point_at, placing) && computes(*dynamics, rule) ==> final(pixels)@ == raster_of(
                placing,
                rule,
                bounds,
                upper_left,
                lower_right,
                limit,
            ),
{
    let (width, height) = bounds;
    proof {
        vstd::slice::axiom_spec_len(pixels);
    }
    let mut row: usize = 0;
    while row < height
        invariant
            bounds == (width, height),
            row <= height,
            pixels@.len() == width * height <= usize::MAX,
            forall|pixel: (usize, usize)|
                in_bounds(bounds, pixel) ==> #[trigger] point_at.requires(
                    (bounds, pixel, upper_left, lower_right),
                ),
            forall|z: Z| #[trigger] dynamics.exceeds.requires((z,)),
            forall|z: Z, c: Z| #[trigger] dynamics.step.requires((z, c)),
            plotted_below(
                pixels@,
                row * width,
                bounds,
                upper_left,
                lower_right,
                limit,
                *point_at,
                *dynamics,
            ),
        decreases height - row,
    {
        let mut col: usize = 0;
        while col < width
            invariant
                bounds == (width, height),
                row < height,
                col <= width,
                pixels@.len() == width * height <= usize::MAX,
                forall|pixel: (usize, usize)|
                    in_bounds(bounds, pixel) ==> #[trigger] point_at.requires(
                        (bounds, pixel, upper_left, lower_right),
                    ),
                forall|z: Z| #[trigger] dynamics.exceeds.requires((z,)),
                forall|z: Z, c: Z| #[trigger] dynamics.step.requires((z, c)),
                plotted_below(
                    pixels@,
                    row * width + col,
                    bounds,
                    upper_left,
                    lower_right,
                    limit,
                    *point_at,
                    *dynamics,
                ),
            decreases width - col,
        {
            let pixel = (col, row);
            let point = point_at(bounds, pixel, upper_left, lower_right);
            let count = escape_time(point, limit, dynamics);
            let shade = intensity(count);
            proof {
                lemma_offset_in_range(bounds, pixel);
            }
            let offset = pixel_offset(bounds, pixel);
            let ghost before = pixels@;
            pixels[offset] = shade;
            proof {
                assert(shade_may_be(
                    bounds,
                    pixel,
                    upper_left,
                    lower_right,
                    limit,
                    *point_at,
                    *dynamics,
                    shade,
                ));
                assert forall|other: (usize, usize)|
                    in_bounds(bounds, other) && #[trigger] offset_of(bounds, other) < offset
                        + 1 implies shade_may_be(
                    bounds,
                    other,
                    upper_left,
                    lower_right,
                    limit,
                    *point_at,
                    *dynamics,
                    pixels@[offset_of(bounds, other)],
                ) by {
                    if offset_of(bounds, other) == offset {
                        lemma_offset_injective(bounds, other, pixel);
                    } else {
                        lemma_offset_in_range(bounds, other);
                        assert(pixels@[offset_of(bounds, other)] == before[offset_of(bounds, other)]);
                    }
                }
            }
            col = col + 1;
        }
        proof {
            assert(row * width + width == (row + 1) * width) by (nonlinear_arith);
        }
        row = row + 1;
    }
    proof {
        assert forall|pixel: (usize, usize)| in_bounds(bounds, pixel) implies shade_may_be(
            bounds,
            pixel,
            upper_left,
            lower_right,
            limit,
            *point_at,
            *dynamics,
            #[trigger] pixels@[offset_of(bounds, pixel)],
        ) by {
            lemma_offset_in_range(bounds, pixel);
            assert(height * width == width * height) by (nonlinear_arith);
        }
        assert forall|placing: spec_fn((usize, usize), (usize, usize), Z, Z) -> Z, rule: Iteration<Z>|
            #![trigger places(*point_at, placing), computes(*dynamics, rule)]
            places(*point_at, placing) && computes(*dynamics, rule) implies pixels@ == raster_of(
            placing,
            rule,
            bounds,
            upper_left,
            lower_right,
            limit,
        ) by {
            lemma_plot_follows_rule(
                pixels@,
                bounds,
                upper_left,
                lower_right,
                limit,
                *point_at,
                *dynamics,
                placing,
                rule,
            );
        }
    }
}

/// What stands in the way of a raster of `bounds`, if anything: both
/// dimensions must be positive, and their product must fit in `usize`.
pub open spec fn bounds_fault(bounds: (usize, usize)) -> Option<RenderError> {
    if bounds.0 == 0 || bounds.1 == 0 {
        Some(RenderError::EmptyBounds)
    } else if bounds.0 * bounds.1 > usize::MAX {
        Some(RenderError::TooLarge)
    } else {
        None
    }
}

/// Renders the escape-time raster of the region between `upper_left` and
/// `lower_right` into a new buffer of `width * height` bytes, as
/// [`plot_madelbrot`] fills it.
///
/// Fails if a dimension is zero or the number of pixels does not fit in
/// `usize`.
pub fn render<Z: Copy, M, E, S>(
    bounds: (usize, usize),
    upper_left: Z,
    lower_right: Z,
    limit: usize,
    point_at: &M,
    dynamics: &Dynamics<Z, E, S>,
) -> (outcome: Result<Vec<u8>, RenderError>) where
    M: Fn((usize, usize), (usize, usize), Z, Z) -> Z,
    E: Fn(Z) -> bool,
    S: Fn(Z, Z) -> Z,

    requires
        forall|pixel: (usize, usize)|
            in_bounds(bounds, pixel) ==> #[trigger] point_at.requires(
                (bounds, pixel, upper_left, lower_right),
            ),
        forall|z: Z| #[trigger] dynamics.exceeds.requires((z,)),
        forall|z: Z, c: Z| #[trigger] dynamics.step.requires((z, c)),
    ensures
        match outcome {
            Ok(pixels) => {
                &&& bounds_fault(bounds) is None
                &&& pixels@.len() == bounds.0 * bounds.1
                &&& plotted(pixels@, bounds, upper_left, lower_right, limit, *point_at, *dynamics)
                &&& forall|
                    placing: spec_fn((usize, usize), (usize, usize), Z, Z) -> Z,
                    rule: Iteration<Z>,
                |
                    #![trigger places(*point_at, placing), computes(*dynamics, rule)]
                    places(*point_at, placing) && computes(*dynamics, rule) ==> pixels@
                        == raster_of(placing, rule, bounds, upper_left, lower_right, limit)
            },
            Err(fault) => bounds_fault(bounds) == Some(fault),
        },
{
    if bounds.0 == 0 || bounds.1 == 0 {
        return Err(RenderError::EmptyBounds);
    }
    match bounds.0.checked_mul(bounds.1) {
        None => Err(RenderError::TooLarge),
        Some(size) => {
            let mut pixels: Vec<u8> = vec![0u8; size];
            plot_madelbrot(
                pixels.as_mut_slice(),
                bounds,
                upper_left,
                lower_right,
                limit,
                point_at,
                dynamics,
            );
            Ok(pixels)
        },
    }
}

/// Rendering the same region twice gives the same bytes, where the caller's
/// functions give the same result whenever they get the same arguments.
pub proof fn lemma_plot_repeatable<Z, M, E, S>(
    first: Seq<u8>,
    second: Seq<u8>,
    bounds: (usize, usize),
    upper_left: Z,
    lower_right: Z,
    limit: usize,
    point_at: M,
    dynamics: Dynamics<Z, E, S>,
    placing: spec_fn((usize, usize), (usize, usize), Z, Z) -> Z,
    rule: Iteration<Z>,
) where M: Fn((usize, usize), (usize, usize), Z, Z) -> Z, E: Fn(Z) -> bool, S: Fn(Z, Z) -> Z
    requires
        places(point_at, placing),
        computes(dynamics, rule),
        plotted(first, bounds, upper_left, lower_right, limit, point_at, dynamics),
        plotted(second, bounds, upper_left, lower_right, limit, point_at, dynamics),
    ensures
        first == second,
{
    lemma_plot_follows_rule(
        first,
        bounds,
        upper_left,
        lower_right,
        limit,
        point_at,
        dynamics,
        placing,
        rule,
    );
    lemma_plot_follows_rule(
        second,
        bounds,
        upper_left,
        lower_right,
        limit,
        point_at,
        dynamics,
        placing,
        rule,
    );
}

/// A pixel whose point first leaves the bounded region at state `k` of its
/// orbit, with `k` below the limit and at most 255, has the grey level
/// `255 - k`.
pub proof fn lemma_escaping_pixel_shade<Z>(
    placing: spec_fn((usize, usize), (usize, usize), Z, Z) -> Z,
    rule: Iteration<Z>,
    bounds: (usize, usize),
    pixel: (usize, usize),
    upper_left: Z,
    lower_right: Z,
    limit: usize,
    k: usize,
)
    requires
        k < limit,
        k <= 255,
        (rule.exceeds)(orbit_at(rule, placing(bounds, pixel, upper_left, lower_right), k as nat)),
        forall|j: nat|
            j < k ==> !(rule.exceeds)(
                #[trigger] orbit_at(rule, placing(bounds, pixel, upper_left, lower_right), j),
            ),
    ensures
        shade_at(placing, rule, bounds, pixel, upper_left, lower_right, limit) == 255 - k,
{
    lemma_first_exceeding_is_escape_time(
        rule,
        placing(bounds, pixel, upper_left, lower_right),
        limit,
        k,
    );
}

} // verus!
