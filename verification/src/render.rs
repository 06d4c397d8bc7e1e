//! From a scene and a camera to the bytes of an image.

use crate::camera::Camera;
use crate::material::{is_unit_draw, ScatterSample};
use crate::random::uniform;
use crate::scalar::{Scalar, SCALE};
use crate::sphere::Sphere;
use crate::utils::{black, clamp, clamp_spec, is_disk_sample, is_tape, ray_color, trace, trace_spec};
use crate::vector::{Vector, VectorType};
use rayon::iter::{IndexedParallelIterator, IntoParallelIterator, ParallelIterator};
use vstd::prelude::*;

verus! {

/// Raw value of the brightest channel that is told apart: 0.9999.
pub const CHANNEL_MAX: i64 = 999_900_000;

pub open spec fn sample_coordinate_spec(index: u32, jitter: Scalar, extent: u32) -> Scalar {
    Scalar::from_int(index as i64).plus(jitter).over(
        Scalar::from_int(extent as i64).minus(Scalar::one()),
    )
}

/// Where on the image, as a fraction of its extent, the sample of pixel
/// `index` lies that is `jitter` of a pixel off: `(index + jitter) / (extent - 1)`.
#[verifier::when_used_as_spec(sample_coordinate_spec)]
pub fn sample_coordinate(index: u32, jitter: Scalar, extent: u32) -> (r: Scalar)
    ensures
        r == sample_coordinate_spec(index, jitter, extent),
{
    (Scalar::from_int(index as i64) + jitter) / (Scalar::from_int(extent as i64) - Scalar::one())
}

pub open spec fn quantize_spec(channel: Scalar) -> u8 {
    Scalar::from_int(256).times(
        clamp_spec(channel, Scalar::zero(), Scalar::from_raw(CHANNEL_MAX)),
    ).spec_trunc() as u8
}

/// The byte for a channel: the channel is clamped to `[0, 0.9999]`, times 256,
/// rounded down.
#[verifier::when_used_as_spec(quantize_spec)]
pub fn quantize(channel: Scalar) -> (r: u8)
    ensures
        r == quantize_spec(channel),
        r == (256 * clamp_spec(channel, Scalar::zero(), Scalar::from_raw(CHANNEL_MAX)).raw)
            / (SCALE as int),
{
    let clamped = clamp(channel, Scalar::zero(), Scalar::from_raw(CHANNEL_MAX));
    let scaled = Scalar::from_int(256) * clamped;
    proof {
        assert(256 * SCALE * clamped.raw == (256 * clamped.raw) * SCALE) by (nonlinear_arith);
        vstd::arithmetic::div_mod::lemma_div_multiples_vanish(256 * clamped.raw, SCALE as int);
        assert(scaled.raw == 256 * clamped.raw);
    }
    let whole = scaled.trunc();
    whole as u8
}

pub open spec fn channel_spec(total: Scalar, samples_per_pixel: u32) -> u8 {
    quantize_spec(
        Scalar::one().over(Scalar::from_int(samples_per_pixel as i64)).times(total).spec_sqrt(),
    )
}

/// The bytes of a pixel from the sum of the colours of its samples: each
/// channel is divided by the number of samples, gamma-corrected by its square
/// root, and quantized.
pub fn pixel_from_sum(sum: Vector, samples_per_pixel: u32) -> (pixel: [u8; 3])
    ensures
        pixel[0] == channel_spec(sum.x(), samples_per_pixel),
        pixel[1] == channel_spec(sum.y(), samples_per_pixel),
        pixel[2] == channel_spec(sum.z(), samples_per_pixel),
{
    let scale = Scalar::one() / Scalar::from_int(samples_per_pixel as i64);
    [
        quantize((scale * sum.data.0).sqrt()),
        quantize((scale * sum.data.1).sqrt()),
        quantize((scale * sum.data.2).sqrt()),
    ]
}

/// The bytes of a pixel, in the order red, green, blue.
pub open spec fn pixel_spec(sum: Vector, samples_per_pixel: u32) -> Seq<u8> {
    seq![
        channel_spec(sum.x(), samples_per_pixel),
        channel_spec(sum.y(), samples_per_pixel),
        channel_spec(sum.z(), samples_per_pixel),
    ]
}

/// The random values that one sample of a pixel uses, as plain values.
pub struct PixelDraws {
    /// How far into the pixel the sample lies to the right.
    pub across: Scalar,
    /// How far into the pixel the sample lies upward.
    pub upward: Scalar,
    /// The point of the unit disk from which the ray leaves the lens.
    pub lens: Vector,
    /// The samples of the scatterings along the path, in their order.
    pub scatter: Seq<ScatterSample>,
}

impl PixelDraws {
    /// Whether the values are ones that the random draws may return, for a
    /// path of at most `depth` scatterings.
    pub open spec fn is_valid(self, depth: nat) -> bool {
        &&& is_unit_draw(self.across)
        &&& is_unit_draw(self.upward)
        &&& is_disk_sample(self.lens)
        &&& is_tape(self.scatter, depth)
    }
}

/// The random values that one sample of a pixel uses.
#[derive(Clone, Debug)]
pub struct PixelSample {
    /// How far into the pixel the sample lies to the right.
    pub across: Scalar,
    /// How far into the pixel the sample lies upward.
    pub upward: Scalar,
    /// The point of the unit disk from which the ray leaves the lens.
    pub lens: Vector,
    /// The samples of the scatterings along the path, in their order.
    pub scatter: Vec<ScatterSample>,
}

impl View for PixelSample {
    type V = PixelDraws;

    open spec fn view(&self) -> PixelDraws {
        PixelDraws {
            across: self.across,
            upward: self.upward,
            lens: self.lens,
            scatter: self.scatter@,
        }
    }
}

/// The colour of the sample of pixel `(x, y)` that uses `draws`: the colour
/// that comes back along the camera's ray through the sample's place.
pub open spec fn sample_color_spec(
    camera: &Camera,
    world: Seq<Sphere>,
    x: u32,
    y: u32,
    width: u32,
    height: u32,
    depth: nat,
    draws: PixelDraws,
) -> Vector {
    let u = sample_coordinate_spec(x, draws.across, width);
    let v = sample_coordinate_spec(y, draws.upward, height);
    trace_spec(camera.ray_through_spec(u, v, draws.lens), world, depth, draws.scatter)
}

/// The colour of the sample of pixel `(x, y)` of an image of `width` by
/// `height` pixels that uses the values of `sample` in place of random draws.
pub fn sample_color(
    camera: &Camera,
    world: &Vec<Sphere>,
    x: u32,
    y: u32,
    width: u32,
    height: u32,
    max_depth: u64,
    sample: &PixelSample,
) -> (color: Vector)
    ensures
        color == sample_color_spec(camera, world@, x, y, width, height, max_depth as nat, sample@),
{
    let u = sample_coordinate(x, sample.across, width);
    let v = sample_coordinate(y, sample.upward, height);
    let r = camera.ray_through(u, v, sample.lens);
    trace(&r, world, max_depth, &sample.scatter)
}

/// The sum of the colours of the samples of pixel `(x, y)` that use `draws`,
/// one after the other.
pub open spec fn pixel_sum_spec(
    camera: &Camera,
    world: Seq<Sphere>,
    x: u32,
    y: u32,
    width: u32,
    height: u32,
    depth: nat,
    draws: Seq<PixelDraws>,
) -> Vector
    decreases draws.len(),
{
    if draws.len() == 0 {
        black()
    } else {
        pixel_sum_spec(camera, world, x, y, width, height, depth, draws.drop_last()).plus(
            sample_color_spec(camera, world, x, y, width, height, depth, draws.last()),
        )
    }
}

/// The bytes of the first pixels of row `y`, as many as `draws` is long,
/// where the samples of pixel `x` use `draws[x]`.
pub open spec fn line_spec(
    camera: &Camera,
    world: Seq<Sphere>,
    width: u32,
    height: u32,
    y: u32,
    depth: nat,
    samples_per_pixel: u32,
    draws: Seq<Seq<PixelDraws>>,
) -> Seq<u8>
    decreases draws.len(),
{
    if draws.len() == 0 {
        Seq::empty()
    } else {
        line_spec(
            camera,
            world,
            width,
            height,
            y,
            depth,
            samples_per_pixel,
            draws.drop_last(),
        ) + pixel_spec(
            pixel_sum_spec(
                camera,
                world,
                (draws.len() - 1) as u32,
                y,
                width,
                height,
                depth,
                draws.last(),
            ),
            samples_per_pixel,
        )
    }
}

/// Whether `draws` holds values that the random draws may return for
/// `pixels` pixels of `samples_per_pixel` samples each.
pub open spec fn are_draws(
    draws: Seq<Seq<PixelDraws>>,
    pixels: nat,
    samples_per_pixel: u32,
    depth: nat,
) -> bool {
    &&& draws.len() == pixels
    &&& forall|x: int|
        0 <= x < draws.len() ==> (#[trigger] draws[x]).len() == samples_per_pixel
    &&& forall|x: int, s: int|
        0 <= x < draws.len() && 0 <= s < draws[x].len() ==> (#[trigger] draws[x][s]).is_valid(
            depth,
        )
}

/// Whether `pixels` holds the bytes of row `y`, counted from the bottom, for
/// some values that the random draws may return: each pixel is the root of
/// the mean of the colours of its samples, quantized.
pub open spec fn is_line(
    pixels: Seq<u8>,
    camera: &Camera,
    world: Seq<Sphere>,
    width: u32,
    height: u32,
    y: u32,
    depth: nat,
    samples_per_pixel: u32,
) -> bool {
    exists|draws: Seq<Seq<PixelDraws>>|
        are_draws(draws, width as nat, samples_per_pixel, depth) && pixels == #[trigger] line_spec(
            camera,
            world,
            width,
            height,
            y,
            depth,
            samples_per_pixel,
            draws,
        )
}

/// The bytes of row `y` of the image, counted from the bottom: three for each
/// of its `width` pixels, from left to right. Each pixel averages
/// `samples_per_pixel` rays through random places within the pixel.
pub fn render_line(
    samples_per_pixel: u32,
    world: &Vec<Sphere>,
    camera: &Camera,
    width: u32,
    height: u32,
    y: u32,
    max_depth: u64,
) -> (pixels: Vec<u8>)
    requires
        3 * width <= usize::MAX,
    ensures
        pixels.len() == 3 * width,
        is_line(pixels@, camera, world@, width, height, y, max_depth as nat, samples_per_pixel),
{
    let mut pixels: Vec<u8> = Vec::new();
    let ghost mut line: Seq<Seq<PixelDraws>> = Seq::empty();
    let mut x: u32 = 0;
    while x < width
        invariant
            x <= width,
            pixels.len() == 3 * x,
            3 * width <= usize::MAX,
            are_draws(line, x as nat, samples_per_pixel, max_depth as nat),
            pixels@ == line_spec(
                camera,
                world@,
                width,
                height,
                y,
                max_depth as nat,
                samples_per_pixel,
                line,
            ),
        decreases width - x,
    {
        let mut sum = Vector::new(
            Scalar::zero(),
            Scalar::zero(),
            Scalar::zero(),
            VectorType::Color,
        );
        let ghost mut pixel: Seq<PixelDraws> = Seq::empty();
        let mut s: u32 = 0;
        while s < samples_per_pixel
            invariant
                s <= samples_per_pixel,
                pixel.len() == s,
                forall|k: int|
                    0 <= k < pixel.len() ==> (#[trigger] pixel[k]).is_valid(max_depth as nat),
                sum == pixel_sum_spec(
                    camera,
                    world@,
                    x,
                    y,
                    width,
                    height,
                    max_depth as nat,
                    pixel,
                ),
            decreases samples_per_pixel - s,
        {
            let across = uniform(Scalar::zero(), Scalar::one());
            let upward = uniform(Scalar::zero(), Scalar::one());
            let u = sample_coordinate(x, across, width);
            let v = sample_coordinate(y, upward, height);
            let r = camera.get_ray(u, v);
            let c = ray_color(&r, world, max_depth);
            proof {
                let lens = choose|lens: Vector|
                    is_disk_sample(lens) && r == #[trigger] camera.ray_through_spec(u, v, lens);
                let scatter = choose|samples: Seq<ScatterSample>|
                    is_tape(samples, max_depth as nat) && c == #[trigger] trace_spec(
                        r,
                        world@,
                        max_depth as nat,
                        samples,
                    );
                let draws = PixelDraws { across, upward, lens, scatter };
                assert(draws.is_valid(max_depth as nat));
                assert(c == sample_color_spec(
                    camera,
                    world@,
                    x,
                    y,
                    width,
                    height,
                    max_depth as nat,
                    draws,
                ));
                let before = pixel;
                pixel = pixel.push(draws);
                assert(pixel.drop_last() =~= before);
                assert(pixel.last() == draws);
            }
            sum = sum + c;
            s = s + 1;
        }
        let bytes = pixel_from_sum(sum, samples_per_pixel);
        let ghost bytes_before = pixels@;
        pixels.push(bytes[0]);
        pixels.push(bytes[1]);
        pixels.push(bytes[2]);
        proof {
            let before = line;
            line = line.push(pixel);
            assert(line.drop_last() =~= before);
            assert(line.last() == pixel);
            assert(pixels@ =~= bytes_before + pixel_spec(sum, samples_per_pixel));
        }
        x = x + 1;
    }
    pixels
}

/// Where in the image the bytes of row `y`, counted from the bottom, begin:
/// the rows stand in the image from the top down.
pub open spec fn row_start(y: int, width: int, height: int) -> int {
    (height - 1 - y) * (3 * width)
}

/// The image from its rows: `rows[y]` is row `y` counted from the bottom, and
/// the image holds the rows from the top down.
pub fn assemble(rows: &Vec<Vec<u8>>, width: u32, height: u32) -> (pixels: Vec<u8>)
    requires
        rows.len() == height,
        forall|y: int| 0 <= y < height ==> (#[trigger] rows[y]).len() == 3 * width,
        3 * width * height <= usize::MAX,
    ensures
        pixels.len() == 3 * width * height,
        forall|y: int, k: int|
            0 <= y < height && 0 <= k < 3 * width ==> pixels[row_start(
                y,
                width as int,
                height as int,
            ) + k] == #[trigger] rows[y][k],
{
    let mut pixels: Vec<u8> = Vec::new();
    let mut done: u32 = 0;
    while done < height
        invariant
            done <= height,
            rows.len() == height,
            forall|y: int| 0 <= y < height ==> (#[trigger] rows[y]).len() == 3 * width,
            3 * width * height <= usize::MAX,
            pixels.len() == done * (3 * width),
            forall|y: int, k: int|
                height - done <= y < height && 0 <= k < 3 * width ==> pixels[row_start(
                    y,
                    width as int,
                    height as int,
                ) + k] == #[trigger] rows[y][k],
        decreases height - done,
    {
        let source = (height - 1 - done) as usize;
        let row = &rows[source];
        let ghost before = pixels@;
        proof {
            assert((done + 1) * (3 * width) == done * (3 * width) + 3 * width) by (nonlinear_arith);
            assert((done + 1) * (3 * width) <= 3 * width * height) by (nonlinear_arith)
                requires
                    done + 1 <= height,
                    0 <= width,
            ;
            assert(row_start(source as int, width as int, height as int) == done * (3 * width));
        }
        let mut k: usize = 0;
        while k < row.len()
            invariant
                k <= row.len(),
                row.len() == 3 * width,
                row@ == rows[source as int]@,
                pixels.len() == before.len() + k,
                before.len() == done * (3 * width),
                before.len() + 3 * width <= usize::MAX,
                forall|i: int| 0 <= i < before.len() ==> pixels[i] == before[i],
                forall|j: int| 0 <= j < k ==> pixels[before.len() + j] == row[j],
            decreases row.len() - k,
        {
            pixels.push(row[k]);
            k = k + 1;
        }
        proof {
            assert forall|y: int, k: int|
                height - (done + 1) <= y < height && 0 <= k < 3 * width implies pixels[row_start(
                y,
                width as int,
                height as int,
            ) + k] == #[trigger] rows[y][k] by {
                if y == source {
                } else {
                    assert((height - 1 - y) * (3 * width) + 3 * width <= done * (3 * width))
                        by (nonlinear_arith)
                        requires
                            height - 1 - y + 1 <= done,
                            0 <= width,
                    ;
                    assert(0 <= (height - 1 - y) * (3 * width)) by (nonlinear_arith)
                        requires
                            0 <= height - 1 - y,
                            0 <= width,
                    ;
                }
            }
        }
        done = done + 1;
    }
    proof {
        assert(height * (3 * width) == 3 * width * height) by (nonlinear_arith);
    }
    pixels
}

/// Runs `render_line` for every row on the thread pool of `rayon`, through
/// `into_par_iter`, `map` and `collect_into_vec` on the range of rows. Of
/// what comes back this states the count, which is the length of the range,
/// and that the entry at `y` is what `render_line` returned for row `y`: of
/// that entry it repeats what `render_line` ensures.
#[verifier::external_body]
fn render_rows(
    height: u32,
    width: u32,
    samples_per_pixel: u32,
    world: &Vec<Sphere>,
    camera: &Camera,
    max_depth: u64,
) -> (rows: Vec<Vec<u8>>)
    requires
        3 * width <= usize::MAX,
    ensures
        rows.len() == height,
        forall|y: int|
            0 <= y < height ==> (#[trigger] rows[y]).len() == 3 * width && is_line(
                rows[y]@,
                camera,
                world@,
                width,
                height,
                y as u32,
                max_depth as nat,
                samples_per_pixel,
            ),
{
    let mut rows: Vec<Vec<u8>> = Vec::new();
    (0..height).into_par_iter().map(
        |y| render_line(samples_per_pixel, world, camera, width, height, y, max_depth),
    ).collect_into_vec(&mut rows);
    rows
}

/// The image of `world` through `camera`: three bytes for each pixel, the
/// rows from the top down and each row from left to right. The rows are
/// rendered in parallel, each with random draws of its own.
pub fn render(
    height: u32,
    width: u32,
    samples_per_pixel: u32,
    world: &Vec<Sphere>,
    camera: Camera,
    max_depth: u64,
) -> (pixels: Vec<u8>)
    requires
        3 * width * height <= usize::MAX,
    ensures
        pixels.len() == 3 * width * height,
        forall|y: int|
            0 <= y < height ==> is_line(
                #[trigger] pixels@.subrange(
                    row_start(y, width as int, height as int),
                    row_start(y, width as int, height as int) + 3 * width,
                ),
                &camera,
                world@,
                width,
                height,
                y as u32,
                max_depth as nat,
                samples_per_pixel,
            ),
{
    if height == 0 {
        return Vec::new();
    }
    proof {
        assert(3 * width <= 3 * width * height) by (nonlinear_arith)
            requires
                height >= 1,
                width >= 0,
        ;
    }
    let rows = render_rows(height, width, samples_per_pixel, world, &camera, max_depth);
    let pixels = assemble(&rows, width, height);
    proof {
        assert forall|y: int| 0 <= y < height implies is_line(
            #[trigger] pixels@.subrange(
                row_start(y, width as int, height as int),
                row_start(y, width as int, height as int) + 3 * width,
            ),
            &camera,
            world@,
            width,
            height,
            y as u32,
            max_depth as nat,
            samples_per_pixel,
        ) by {
            let start = row_start(y, width as int, height as int);
            lemma_row_within(y, width as int, height as int);
            assert(rows[y].len() == 3 * width);
            assert forall|k: int| 0 <= k < 3 * width implies pixels@[start + k] == rows[y]@[k] by {
                assert(pixels[start + k] == rows[y][k]);
            }
            assert(pixels@.subrange(start, start + 3 * width) =~= rows[y]@);
        }
    }
    pixels
}

/// The bytes of a row lie within the image.
pub proof fn lemma_row_within(y: int, width: int, height: int)
    requires
        0 <= y < height,
        0 <= width,
    ensures
        0 <= row_start(y, width, height),
        row_start(y, width, height) + 3 * width <= 3 * width * height,
{
    assert(0 <= (height - 1 - y) * (3 * width)) by (nonlinear_arith)
        requires
            0 <= height - 1 - y,
            0 <= width,
    ;
    assert((height - 1 - y) * (3 * width) + 3 * width <= 3 * width * height) by (nonlinear_arith)
        requires
            0 <= y,
            0 <= width,
    ;
}

} // verus!
