//! The render loop and the depth rule of the light-transport recursion.

use crate::render_buffer::RenderBufferI32;
use vstd::arithmetic::div_mod::lemma_fundamental_div_mod_converse;
use vstd::prelude::*;

verus! {

/// How an image is sampled.
#[derive(Clone, Copy, Debug)]
pub struct RenderSettings {
    /// Number of radiance estimates that are averaged into one pixel.
    pub num_samples_per_pixel: i32,
}

/// The pixel at `position` of the scan order of a `width` by `height` image:
/// rows from the highest `y` down to zero, and within a row `x` upwards.
pub open spec fn scan_pixel(width: int, height: int, position: int) -> (int, int) {
    (position % width, height - 1 - position / width)
}

/// The three channel entries of the pixel at `position` of the scan, in a
/// buffer that held `base` entries before the scan began.
pub open spec fn pixel_entries(entries: Seq<i32>, base: int, position: int) -> (i32, i32, i32) {
    (entries[base + 3 * position], entries[base + 3 * position + 1], entries[base + 3 * position + 2])
}

/// Number of estimates taken for one pixel.
pub open spec fn sample_count(num_samples_per_pixel: i32) -> int {
    if num_samples_per_pixel > 0 {
        num_samples_per_pixel as int
    } else {
        0
    }
}

/// `sums` is the accumulator of pixel `(x, y)` over a run of estimates:
/// `sums[0]` before the first estimate, `sums[j]` after the `j`-th.
pub open spec fn is_sample_run<C, E: Fn(C, usize, usize) -> C>(
    estimate: E,
    x: usize,
    y: usize,
    sums: Seq<C>,
) -> bool {
    forall|j: int| 1 <= j < sums.len() ==> call_ensures(estimate, (sums[j - 1], x, y), #[trigger] sums[j])
}

/// `rgb` is a value of pixel `(x, y)`: the accumulator was started, took
/// exactly `sample_count` estimates in a row, and was finished into `rgb`.
pub open spec fn is_pixel<
    C,
    B: Fn() -> C,
    E: Fn(C, usize, usize) -> C,
    Q: Fn(C, i32) -> (i32, i32, i32),
>(begin: B, estimate: E, finish: Q, num_samples_per_pixel: i32, x: usize, y: usize, rgb: (
    i32,
    i32,
    i32,
)) -> bool {
    exists|sums: Seq<C>|
        {
            &&& sums.len() == sample_count(num_samples_per_pixel) + 1
            &&& call_ensures(begin, (), #[trigger] sums[0])
            &&& is_sample_run(estimate, x, y, sums)
            &&& call_ensures(finish, (sums.last(), num_samples_per_pixel), rgb)
        }
}

/// The first `count` pixels of the scan are in `entries`, from `base` on,
/// each with a value of that pixel.
pub open spec fn pixels_rendered<
    C,
    B: Fn() -> C,
    E: Fn(C, usize, usize) -> C,
    Q: Fn(C, i32) -> (i32, i32, i32),
>(
    begin: B,
    estimate: E,
    finish: Q,
    num_samples_per_pixel: i32,
    width: int,
    height: int,
    entries: Seq<i32>,
    base: int,
    count: int,
) -> bool {
    forall|position: int|
        0 <= position < count ==> is_pixel(
            begin,
            estimate,
            finish,
            num_samples_per_pixel,
            scan_pixel(width, height, position).0 as usize,
            scan_pixel(width, height, position).1 as usize,
            #[trigger] pixel_entries(entries, base, position),
        )
}

/// One pixel: starts an accumulator, adds `num_samples_per_pixel` estimates
/// to it and finishes it into three channel values.
pub fn render_pixel<
    C,
    B: Fn() -> C,
    E: Fn(C, usize, usize) -> C,
    Q: Fn(C, i32) -> (i32, i32, i32),
>(begin: &B, estimate: &E, finish: &Q, num_samples_per_pixel: i32, x: usize, y: usize) -> (rgb: (
    i32,
    i32,
    i32,
))
    requires
        call_requires(*begin, ()),
        forall|sum: C| call_requires(*estimate, (sum, x, y)),
        forall|sum: C| call_requires(*finish, (sum, num_samples_per_pixel)),
    ensures
        is_pixel(*begin, *estimate, *finish, num_samples_per_pixel, x, y, rgb),
{
    let mut sum: C = begin();
    let ghost mut sums: Seq<C> = seq![sum];
    let mut taken: i32 = 0;
    while taken < num_samples_per_pixel
        invariant
            0 <= taken,
            taken <= sample_count(num_samples_per_pixel),
            sums.len() == taken + 1,
            sums.last() == sum,
            call_ensures(*begin, (), sums[0]),
            is_sample_run(*estimate, x, y, sums),
            forall|sum: C| call_requires(*estimate, (sum, x, y)),
        decreases num_samples_per_pixel - taken,
    {
        let next: C = estimate(sum, x, y);
        proof {
            let extended = sums.push(next);
            assert forall|j: int| 1 <= j < extended.len() implies call_ensures(
                *estimate,
                (extended[j - 1], x, y),
                #[trigger] extended[j],
            ) by {
                if j < sums.len() {
                    assert(extended[j] == sums[j]);
                    assert(extended[j - 1] == sums[j - 1]);
                }
            }
            sums = extended;
        }
        sum = next;
        taken = taken + 1;
    }
    finish(sum, num_samples_per_pixel)
}

/// Renders a whole image into `output_buffer`, after what it already holds.
///
/// Pixels are visited in scan order, from the top row (the highest `y`) to
/// the bottom and from left to right within a row. For each one an
/// accumulator is started by `begin`, `estimate` adds one radiance estimate to
/// it `num_samples_per_pixel` times, and `finish` turns it into the three
/// channel values that are appended to the buffer.
pub fn render<
    C,
    B: Fn() -> C,
    E: Fn(C, usize, usize) -> C,
    Q: Fn(C, i32) -> (i32, i32, i32),
>(
    output_buffer: &mut RenderBufferI32,
    render_settings: &RenderSettings,
    begin: B,
    estimate: E,
    finish: Q,
)
    requires
        call_requires(begin, ()),
        forall|sum: C, x: usize, y: usize|
            x < old(output_buffer).width && y < old(output_buffer).height ==> call_requires(
                estimate,
                (sum, x, y),
            ),
        forall|sum: C| call_requires(finish, (sum, render_settings.num_samples_per_pixel)),
    ensures
        final(output_buffer).width == old(output_buffer).width,
        final(output_buffer).height == old(output_buffer).height,
        final(output_buffer).buffer@.len() == old(output_buffer).buffer@.len() + old(
            output_buffer,
        ).expected_len(),
        final(output_buffer).buffer@.subrange(0, old(output_buffer).buffer@.len() as int) == old(
            output_buffer,
        ).buffer@,
        old(output_buffer).buffer@.len() == 0 ==> final(output_buffer).is_complete(),
        pixels_rendered(
            begin,
            estimate,
            finish,
            render_settings.num_samples_per_pixel,
            old(output_buffer).width as int,
            old(output_buffer).height as int,
            final(output_buffer).buffer@,
            old(output_buffer).buffer@.len() as int,
            old(output_buffer).width * old(output_buffer).height,
        ),
{
    let num_pixels_y: usize = output_buffer.height;
    let num_pixels_x: usize = output_buffer.width;
    let samples: i32 = render_settings.num_samples_per_pixel;
    let ghost base: int = output_buffer.buffer@.len() as int;
    let ghost before: Seq<i32> = output_buffer.buffer@;
    let mut row: usize = 0;
    while row < num_pixels_y
        invariant
            row <= num_pixels_y,
            output_buffer.width == num_pixels_x,
            output_buffer.height == num_pixels_y,
            output_buffer.buffer@.len() == base + 3 * (row * num_pixels_x),
            output_buffer.buffer@.subrange(0, base) == before,
            base == before.len(),
            pixels_rendered(
                begin,
                estimate,
                finish,
                samples,
                num_pixels_x as int,
                num_pixels_y as int,
                output_buffer.buffer@,
                base,
                row * num_pixels_x,
            ),
            call_requires(begin, ()),
            forall|sum: C, x: usize, y: usize|
                x < num_pixels_x && y < num_pixels_y ==> call_requires(estimate, (sum, x, y)),
            forall|sum: C| call_requires(finish, (sum, samples)),
        decreases num_pixels_y - row,
    {
        let y: usize = num_pixels_y - 1 - row;
        let mut x: usize = 0;
        while x < num_pixels_x
            invariant
                row < num_pixels_y,
                y == num_pixels_y - 1 - row,
                x <= num_pixels_x,
                output_buffer.width == num_pixels_x,
                output_buffer.height == num_pixels_y,
                output_buffer.buffer@.len() == base + 3 * (row * num_pixels_x + x),
                output_buffer.buffer@.subrange(0, base) == before,
                base == before.len(),
                pixels_rendered(
                    begin,
                    estimate,
                    finish,
                    samples,
                    num_pixels_x as int,
                    num_pixels_y as int,
                    output_buffer.buffer@,
                    base,
                    row * num_pixels_x + x,
                ),
                call_requires(begin, ()),
                forall|sum: C, x: usize, y: usize|
                    x < num_pixels_x && y < num_pixels_y ==> call_requires(estimate, (sum, x, y)),
                forall|sum: C| call_requires(finish, (sum, samples)),
            decreases num_pixels_x - x,
        {
            let rgb = render_pixel(&begin, &estimate, &finish, samples, x, y);
            let ghost earlier = output_buffer.buffer@;
            let ghost position: int = row * num_pixels_x + x;
            output_buffer.push_pixel(rgb.0, rgb.1, rgb.2);
            proof {
                let entries = output_buffer.buffer@;
                assert(entries.subrange(0, base) =~= earlier.subrange(0, base));
                lemma_fundamental_div_mod_converse(position, num_pixels_x as int, row as int, x as int);
                assert(scan_pixel(num_pixels_x as int, num_pixels_y as int, position) == (
                    x as int,
                    y as int,
                ));
                assert(pixel_entries(entries, base, position) == rgb);
                assert forall|at: int| 0 <= at < position + 1 implies is_pixel(
                    begin,
                    estimate,
                    finish,
                    samples,
                    scan_pixel(num_pixels_x as int, num_pixels_y as int, at).0 as usize,
                    scan_pixel(num_pixels_x as int, num_pixels_y as int, at).1 as usize,
                    #[trigger] pixel_entries(entries, base, at),
                ) by {
                    if at < position {
                        assert(pixel_entries(entries, base, at) == pixel_entries(earlier, base, at));
                    }
                }
            }
            x = x + 1;
        }
        proof {
            assert(row * num_pixels_x + num_pixels_x == (row + 1) * num_pixels_x) by (nonlinear_arith);
        }
        row = row + 1;
    }
    proof {
        assert(num_pixels_y * num_pixels_x == num_pixels_x * num_pixels_y) by (nonlinear_arith);
        assert(3 * (num_pixels_x * num_pixels_y) == num_pixels_x * num_pixels_y * 3) by (nonlinear_arith);
    }
}

/// Every pixel has one place in the scan: pixel `(x, y)` stands at position
/// `(height - 1 - y) * width + x`, so the image is laid out row by row, the
/// row with the highest `y` first.
pub proof fn lemma_scan_position(width: int, height: int, x: int, y: int)
    requires
        0 <= x < width,
        0 <= y < height,
    ensures
        0 <= (height - 1 - y) * width + x < width * height,
        scan_pixel(width, height, (height - 1 - y) * width + x) == (x, y),
{
    let row = height - 1 - y;
    lemma_fundamental_div_mod_converse(row * width + x, width, row, x);
    assert(0 <= row * width) by (nonlinear_arith)
        requires
            0 <= row,
            0 <= width,
    ;
    assert(row * width + x < width * height) by (nonlinear_arith)
        requires
            0 <= row <= height - 1,
            0 <= x < width,
    ;
}

/// Number of scattering events after which a path is cut off.
pub const MAX_DEPTH: i32 = 50;

/// `color` is a radiance estimate along `ray` for a path that has scattered
/// `depth` times already.
///
/// A ray that hits nothing takes the background. A ray that hits a surface
/// is black when the path is `MAX_DEPTH` deep, in which case the material is
/// not consulted, or when the material absorbs it; otherwise it takes the
/// estimate along the scattered ray, one level deeper, attenuated by the
/// material.
pub open spec fn is_color<
    R,
    H,
    C,
    N: Fn(&R) -> Option<H>,
    A: Fn(&R, &H) -> Option<(C, R)>,
    G: Fn(&R) -> C,
    T: Fn(C, &C) -> C,
>(nearest_hit: N, apply: A, background: G, attenuate: T, black: C, ray: R, depth: int, color: C) -> bool
    decreases MAX_DEPTH - depth,
{
    exists|hit: Option<H>| #[trigger]
        call_ensures(nearest_hit, (&ray,), hit) && match hit {
            None => call_ensures(background, (&ray,), color),
            Some(record) => if depth < MAX_DEPTH {
                exists|output: Option<(C, R)>| #[trigger]
                    call_ensures(apply, (&ray, &record), output) && match output {
                        Some((attenuation, scattered)) => exists|inner: C|
                            is_color(
                                nearest_hit,
                                apply,
                                background,
                                attenuate,
                                black,
                                scattered,
                                depth + 1,
                                inner,
                            ) && #[trigger] call_ensures(attenuate, (inner, &attenuation), color),
                        None => color == black,
                    }
            } else {
                color == black
            },
        }
}

/// The radiance estimate along `ray`, for a path that has scattered `depth`
/// times already.
///
/// `nearest_hit` queries the scene, `apply` evaluates the material at a hit
/// and gives the attenuation and the scattered ray, or `None` if the ray is
/// absorbed, `background` colors a ray that leaves the scene, and `attenuate`
/// multiplies an estimate by an attenuation.
pub fn color<
    R,
    H,
    C: Copy,
    N: Fn(&R) -> Option<H>,
    A: Fn(&R, &H) -> Option<(C, R)>,
    G: Fn(&R) -> C,
    T: Fn(C, &C) -> C,
>(ray: &R, depth: i32, nearest_hit: &N, apply: &A, background: &G, attenuate: &T, black: C) -> (result:
    C)
    requires
        forall|any: R| call_requires(*nearest_hit, (&any,)),
        forall|any: R, record: H| call_requires(*apply, (&any, &record)),
        forall|any: R| call_requires(*background, (&any,)),
        forall|inner: C, attenuation: C| call_requires(*attenuate, (inner, &attenuation)),
    ensures
        is_color(*nearest_hit, *apply, *background, *attenuate, black, *ray, depth as int, result),
    decreases MAX_DEPTH - depth,
{
    let hit = nearest_hit(ray);
    match hit {
        Some(record) => {
            if depth < MAX_DEPTH {
                let output = apply(ray, &record);
                match output {
                    Some((attenuation, scattered)) => {
                        let inner = color(
                            &scattered,
                            depth + 1,
                            nearest_hit,
                            apply,
                            background,
                            attenuate,
                            black,
                        );
                        let result = attenuate(inner, &attenuation);
                        proof {
                            assert(call_ensures(*apply, (ray, &record), output));
                            assert(call_ensures(*nearest_hit, (ray,), hit));
                        }
                        result
                    },
                    None => {
                        proof {
                            assert(call_ensures(*apply, (ray, &record), output));
                            assert(call_ensures(*nearest_hit, (ray,), hit));
                        }
                        black
                    },
                }
            } else {
                proof {
                    assert(call_ensures(*nearest_hit, (ray,), hit));
                }
                black
            }
        },
        None => {
            let result = background(ray);
            proof {
                assert(call_ensures(*nearest_hit, (ray,), hit));
            }
            result
        },
    }
}

/// A ray that the scene reports as a miss takes the background, whatever the
/// depth.
pub proof fn lemma_miss_takes_background<
    R,
    H,
    C,
    N: Fn(&R) -> Option<H>,
    A: Fn(&R, &H) -> Option<(C, R)>,
    G: Fn(&R) -> C,
    T: Fn(C, &C) -> C,
>(nearest_hit: N, apply: A, background: G, attenuate: T, black: C, ray: R, depth: int, color: C)
    requires
        is_color(nearest_hit, apply, background, attenuate, black, ray, depth, color),
        forall|hit: Option<H>| call_ensures(nearest_hit, (&ray,), hit) ==> hit is None,
    ensures
        call_ensures(background, (&ray,), color),
{
}

/// At `MAX_DEPTH` and beyond the recursion has ended: the estimate is black
/// on a hit and the background on a miss, and no material is consulted.
pub proof fn lemma_depth_cut_off<
    R,
    H,
    C,
    N: Fn(&R) -> Option<H>,
    A: Fn(&R, &H) -> Option<(C, R)>,
    G: Fn(&R) -> C,
    T: Fn(C, &C) -> C,
>(nearest_hit: N, apply: A, background: G, attenuate: T, black: C, ray: R, depth: int, color: C)
    requires
        is_color(nearest_hit, apply, background, attenuate, black, ray, depth, color),
        depth >= MAX_DEPTH,
    ensures
        exists|hit: Option<H>| #[trigger]
            call_ensures(nearest_hit, (&ray,), hit) && match hit {
                Some(_) => color == black,
                None => call_ensures(background, (&ray,), color),
            },
{
}

/// Two runs of estimates for one pixel from the same start agree at every
/// step, when `estimate` is a function of its arguments.
proof fn lemma_sample_runs_agree<C, E: Fn(C, usize, usize) -> C>(
    estimate: E,
    x: usize,
    y: usize,
    first: Seq<C>,
    second: Seq<C>,
    step: int,
)
    requires
        forall|sum: C, px: usize, py: usize, a: C, b: C|
            call_ensures(estimate, (sum, px, py), a) && call_ensures(estimate, (sum, px, py), b)
                ==> a == b,
        is_sample_run(estimate, x, y, first),
        is_sample_run(estimate, x, y, second),
        0 <= step < first.len() == second.len(),
        first[0] == second[0],
    ensures
        first[step] == second[step],
    decreases step,
{
    if step > 0 {
        lemma_sample_runs_agree(estimate, x, y, first, second, step - 1);
        assert(call_ensures(estimate, (first[step - 1], x, y), first[step]));
        assert(call_ensures(estimate, (second[step - 1], x, y), second[step]));
    }
}

/// A pixel has one value only, when `begin`, `estimate` and `finish` are
/// functions of their arguments.
pub proof fn lemma_pixel_is_determined<
    C,
    B: Fn() -> C,
    E: Fn(C, usize, usize) -> C,
    Q: Fn(C, i32) -> (i32, i32, i32),
>(
    begin: B,
    estimate: E,
    finish: Q,
    num_samples_per_pixel: i32,
    x: usize,
    y: usize,
    first: (i32, i32, i32),
    second: (i32, i32, i32),
)
    requires
        forall|a: C, b: C| call_ensures(begin, (), a) && call_ensures(begin, (), b) ==> a == b,
        forall|sum: C, px: usize, py: usize, a: C, b: C|
            call_ensures(estimate, (sum, px, py), a) && call_ensures(estimate, (sum, px, py), b)
                ==> a == b,
        forall|sum: C, a: (i32, i32, i32), b: (i32, i32, i32)|
            call_ensures(finish, (sum, num_samples_per_pixel), a) && call_ensures(
                finish,
                (sum, num_samples_per_pixel),
                b,
            ) ==> a == b,
        is_pixel(begin, estimate, finish, num_samples_per_pixel, x, y, first),
        is_pixel(begin, estimate, finish, num_samples_per_pixel, x, y, second),
    ensures
        first == second,
{
    let sums_a = choose|sums: Seq<C>|
        {
            &&& sums.len() == sample_count(num_samples_per_pixel) + 1
            &&& call_ensures(begin, (), #[trigger] sums[0])
            &&& is_sample_run(estimate, x, y, sums)
            &&& call_ensures(finish, (sums.last(), num_samples_per_pixel), first)
        };
    let sums_b = choose|sums: Seq<C>|
        {
            &&& sums.len() == sample_count(num_samples_per_pixel) + 1
            &&& call_ensures(begin, (), #[trigger] sums[0])
            &&& is_sample_run(estimate, x, y, sums)
            &&& call_ensures(finish, (sums.last(), num_samples_per_pixel), second)
        };
    lemma_sample_runs_agree(estimate, x, y, sums_a, sums_b, sums_a.len() - 1);
}

/// Rendering is repeatable: when `begin`, `estimate` and `finish` are
/// functions of their arguments, two renders of one image shape that start
/// from equal buffers end with equal buffers.
pub proof fn lemma_render_is_repeatable<
    C,
    B: Fn() -> C,
    E: Fn(C, usize, usize) -> C,
    Q: Fn(C, i32) -> (i32, i32, i32),
>(
    begin: B,
    estimate: E,
    finish: Q,
    num_samples_per_pixel: i32,
    width: int,
    height: int,
    base: int,
    first: Seq<i32>,
    second: Seq<i32>,
)
    requires
        forall|a: C, b: C| call_ensures(begin, (), a) && call_ensures(begin, (), b) ==> a == b,
        forall|sum: C, px: usize, py: usize, a: C, b: C|
            call_ensures(estimate, (sum, px, py), a) && call_ensures(estimate, (sum, px, py), b)
                ==> a == b,
        forall|sum: C, a: (i32, i32, i32), b: (i32, i32, i32)|
            call_ensures(finish, (sum, num_samples_per_pixel), a) && call_ensures(
                finish,
                (sum, num_samples_per_pixel),
                b,
            ) ==> a == b,
        0 <= width,
        0 <= height,
        0 <= base,
        first.len() == base + width * height * 3,
        second.len() == base + width * height * 3,
        first.subrange(0, base) == second.subrange(0, base),
        pixels_rendered(
            begin,
            estimate,
            finish,
            num_samples_per_pixel,
            width,
            height,
            first,
            base,
            width * height,
        ),
        pixels_rendered(
            begin,
            estimate,
            finish,
            num_samples_per_pixel,
            width,
            height,
            second,
            base,
            width * height,
        ),
    ensures
        first == second,
{
    assert forall|at: int| 0 <= at < first.len() implies first[at] == second[at] by {
        if at < base {
            assert(first[at] == first.subrange(0, base)[at]);
            assert(second[at] == second.subrange(0, base)[at]);
        } else {
            let position = (at - base) / 3;
            let channel = (at - base) % 3;
            assert(0 <= position < width * height);
            assert(at == base + 3 * position + channel);
            let pixel = scan_pixel(width, height, position);
            let rgb_a = pixel_entries(first, base, position);
            let rgb_b = pixel_entries(second, base, position);
            lemma_pixel_is_determined(
                begin,
                estimate,
                finish,
                num_samples_per_pixel,
                pixel.0 as usize,
                pixel.1 as usize,
                rgb_a,
                rgb_b,
            );
        }
    }
    assert(first =~= second);
}

} // verus!
