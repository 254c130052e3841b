//! Noise estimation per row, the adaptive threshold's crossings, and the crop
//! to the band between the first and the last crossing.

use vstd::prelude::*;
use crate::buffer::{Image, ImageModel, Pixel};

verus! {

/// `|a - b|`.
pub open spec fn abs_diff(a: u8, b: u8) -> int {
    if a >= b { a - b } else { b - a }
}

/// The column to the left of `x`; column 0 wraps to the last column.
pub open spec fn left_of(x: int, width: int) -> int {
    if x == 0 { width - 1 } else { x - 1 }
}

/// Sum of the horizontal intensity differences of the first `n` columns of `row`.
pub open spec fn row_noise_upto(row: Seq<Pixel>, n: int) -> int
    decreases n,
{
    if n <= 0 {
        0
    } else {
        row_noise_upto(row, n - 1) + abs_diff(row[left_of(n - 1, row.len() as int)].r, row[n - 1].r)
    }
}

/// The noise energy of a row: the sum over its columns of the absolute
/// difference between a pixel's intensity and that of its left neighbour.
pub open spec fn row_noise(row: Seq<Pixel>) -> int {
    row_noise_upto(row, row.len() as int)
}

/// The noise energy of each row, top first.
pub open spec fn noise_signal(m: ImageModel) -> Seq<int> {
    Seq::new(m.height(), |y: int| row_noise(m.rows[y]))
}

/// An integer sequence read as mathematical integers.
pub open spec fn as_ints(s: Seq<u32>) -> Seq<int> {
    s.map_values(|v: u32| v as int)
}

/// Row `y` crosses threshold `t` when its energy and that of the row above it
/// (row 0's is the last row's) lie strictly on opposite sides of `t`.
pub open spec fn is_crossing(noise: Seq<int>, t: int, y: int) -> bool {
    let p1 = noise[y];
    let p2 = if y == 0 { noise[noise.len() - 1] } else { noise[y - 1] };
    (p1 < t && p2 > t) || (p1 > t && p2 < t)
}

/// The crossing rows among the first `n`, ascending.
pub open spec fn crossings_upto(noise: Seq<int>, t: int, n: int) -> Seq<int>
    decreases n,
{
    if n <= 0 {
        seq![]
    } else {
        let c = crossings_upto(noise, t, n - 1);
        if is_crossing(noise, t, n - 1) { c.push(n - 1) } else { c }
    }
}

/// All crossing rows of `noise` for threshold `t`, ascending.
pub open spec fn crossings(noise: Seq<int>, t: int) -> Seq<int> {
    crossings_upto(noise, t, noise.len() as int)
}

/// The image cropped to the rows from the first crossing up to, not
/// including, the last one; unchanged where there is no crossing.
pub open spec fn crop_to_crossings(m: ImageModel, t: int) -> ImageModel {
    let c = crossings(noise_signal(m), t);
    if c.len() == 0 {
        m
    } else {
        ImageModel { width: m.width, rows: m.rows.subrange(c[0], c.last()) }
    }
}

/// A row's energy is at most 255 per column.
proof fn lemma_row_noise_bound(row: Seq<Pixel>, n: int)
    requires
        0 <= n <= row.len(),
    ensures
        0 <= row_noise_upto(row, n) <= 255 * n,
    decreases n,
{
    if n > 0 {
        lemma_row_noise_bound(row, n - 1);
    }
}

/// The noise energy of each row of `img`, top first.
pub fn get_noise_estimation(img: &Image) -> (r: Vec<u32>)
    requires
        img@.wf(),
        img@.width * 255 <= u32::MAX,
    ensures
        as_ints(r@) == noise_signal(img@),
{
    let w = img.width();
    let h = img.height();
    let mut noise: Vec<u32> = Vec::new();
    let mut y: usize = 0;
    while y < h
        invariant
            img@.wf(),
            w == img@.width,
            h == img@.height(),
            w * 255 <= u32::MAX,
            y <= h,
            noise@.len() == y,
            forall|k: int| 0 <= k < y ==> noise@[k] as int == row_noise(#[trigger] img@.rows[k]),
        decreases h - y,
    {
        let ghost row = img@.rows[y as int];
        let mut sum: u32 = 0;
        let mut x: usize = 0;
        while x < w
            invariant
                img@.wf(),
                w == img@.width,
                h == img@.height(),
                w * 255 <= u32::MAX,
                y < h,
                row == img@.rows[y as int],
                row.len() == w,
                x <= w,
                sum as int == row_noise_upto(row, x as int),
            decreases w - x,
        {
            let pix1 = if x == 0 { img.pixel(w - 1, y).r } else { img.pixel(x - 1, y).r };
            let pix2 = img.pixel(x, y).r;
            let diff: u8 = if pix1 >= pix2 { pix1 - pix2 } else { pix2 - pix1 };
            proof {
                lemma_row_noise_bound(row, x + 1);
            }
            sum = sum + diff as u32;
            x = x + 1;
        }
        noise.push(sum);
        y = y + 1;
    }
    assert(as_ints(noise@) =~= noise_signal(img@));
    noise
}

/// The least and the greatest energy of a non-empty signal.
pub fn noise_range(noise: &Vec<u32>) -> (r: (u32, u32))
    requires
        noise@.len() >= 1,
    ensures
        exists|i: int| 0 <= i < noise@.len() && noise@[i] == r.0,
        exists|i: int| 0 <= i < noise@.len() && noise@[i] == r.1,
        forall|i: int| 0 <= i < noise@.len() ==> r.0 <= #[trigger] noise@[i] <= r.1,
{
    let mut lo = noise[0];
    let mut hi = noise[0];
    let mut i: usize = 1;
    while i < noise.len()
        invariant
            1 <= i <= noise@.len(),
            exists|k: int| 0 <= k < i && noise@[k] == lo,
            exists|k: int| 0 <= k < i && noise@[k] == hi,
            forall|k: int| 0 <= k < i ==> lo <= #[trigger] noise@[k] <= hi,
        decreases noise@.len() - i,
    {
        if noise[i] < lo {
            lo = noise[i];
        }
        if noise[i] > hi {
            hi = noise[i];
        }
        i = i + 1;
    }
    (lo, hi)
}

/// The crossings among the first `n` rows are ascending and below `n`.
proof fn lemma_crossings_ascending(noise: Seq<int>, t: int, n: int)
    requires
        0 <= n,
    ensures
        forall|i: int|
            0 <= i < crossings_upto(noise, t, n).len() ==> 0 <= #[trigger] crossings_upto(
                noise,
                t,
                n,
            )[i] < n,
        forall|i: int, j: int|
            0 <= i < j < crossings_upto(noise, t, n).len() ==> crossings_upto(noise, t, n)[i]
                < crossings_upto(noise, t, n)[j],
    decreases n,
{
    if n > 0 {
        lemma_crossings_ascending(noise, t, n - 1);
        let c = crossings_upto(noise, t, n - 1);
        let r = crossings_upto(noise, t, n);
        if is_crossing(noise, t, n - 1) {
            assert(r == c.push(n - 1));
            assert forall|i: int| 0 <= i < r.len() implies 0 <= #[trigger] r[i] < n by {
                if i < c.len() {
                    assert(r[i] == c[i]);
                }
            }
            assert forall|i: int, j: int| 0 <= i < j < r.len() implies r[i] < r[j] by {
                assert(r[i] == c[i]);
                if j < c.len() {
                    assert(r[j] == c[j]);
                }
            }
        }
    }
}

/// The rows where `noise` crosses `threshold`, ascending.
pub fn threshold_crossings(noise: &Vec<u32>, threshold: u32) -> (r: Vec<usize>)
    ensures
        r@.map_values(|y: usize| y as int) == crossings(as_ints(noise@), threshold as int),
{
    let ghost sig = as_ints(noise@);
    let n = noise.len();
    let mut points: Vec<usize> = Vec::new();
    let mut y: usize = 0;
    while y < n
        invariant
            n == noise@.len(),
            sig == as_ints(noise@),
            y <= n,
            points@.map_values(|v: usize| v as int) == crossings_upto(sig, threshold as int, y as int),
        decreases n - y,
    {
        let p1 = noise[y];
        let p2 = if y == 0 { noise[n - 1] } else { noise[y - 1] };
        if p1 < threshold && p2 > threshold || p1 > threshold && p2 < threshold {
            points.push(y);
        }
        assert(points@.map_values(|v: usize| v as int) =~= crossings_upto(
            sig,
            threshold as int,
            y + 1,
        ));
        y = y + 1;
    }
    points
}

/// Crops `img` to the rows from the first crossing of `threshold` by the rows'
/// noise energy up to, not including, the last crossing. Where no row crosses,
/// the image stays as it is.
pub fn crop_noise(img: &mut Image, threshold: u32)
    requires
        old(img)@.wf(),
        old(img)@.width * 255 <= u32::MAX,
    ensures
        final(img)@ == crop_to_crossings(old(img)@, threshold as int),
{
    let noise = get_noise_estimation(img);
    let points = threshold_crossings(&noise, threshold);
    let ghost c = crossings(noise_signal(img@), threshold as int);
    proof {
        lemma_crossings_ascending(noise_signal(img@), threshold as int, img@.height() as int);
        assert(points@.len() == c.len());
    }
    if points.len() == 0 {
        return;
    }
    let top = points[0];
    let bottom = points[points.len() - 1];
    proof {
        assert(top as int == c[0]);
        assert(bottom as int == c[c.len() - 1]);
        if c.len() > 1 {
            assert(c[0] < c[c.len() - 1]);
        }
    }
    img.crop_rows(top, bottom);
}

/// The energy of the first `n` columns of a row of one intensity is zero.
proof fn lemma_flat_row_noise(row: Seq<Pixel>, v: u8, n: int)
    requires
        0 <= n <= row.len(),
        forall|x: int| 0 <= x < row.len() ==> (#[trigger] row[x]).r == v,
    ensures
        row_noise_upto(row, n) == 0,
    decreases n,
{
    if n > 0 {
        lemma_flat_row_noise(row, v, n - 1);
        assert(row[left_of(n - 1, row.len() as int)].r == v);
        assert(row[n - 1].r == v);
    }
}

/// A signal that takes one value everywhere crosses no threshold.
proof fn lemma_constant_signal_no_crossing(noise: Seq<int>, e: int, t: int, n: int)
    requires
        0 <= n <= noise.len(),
        forall|y: int| 0 <= y < noise.len() ==> noise[y] == e,
    ensures
        crossings_upto(noise, t, n).len() == 0,
    decreases n,
{
    if n > 0 {
        lemma_constant_signal_no_crossing(noise, e, t, n - 1);
        let y = n - 1;
        assert(noise[y] == e);
        assert(noise[noise.len() - 1] == e);
        if y > 0 {
            assert(noise[y - 1] == e);
        }
    }
}

/// An image of one intensity has zero energy in every row, no crossing for any
/// threshold, and is left unchanged by the crop.
pub proof fn lemma_uniform_image_not_cropped(m: ImageModel, v: u8, t: int)
    requires
        m.wf(),
        forall|x: int, y: int| 0 <= x < m.width && 0 <= y < m.height() ==> m.intensity(x, y) == v,
    ensures
        forall|y: int| 0 <= y < m.height() ==> #[trigger] noise_signal(m)[y] == 0,
        crossings(noise_signal(m), t).len() == 0,
        crop_to_crossings(m, t) == m,
{
    let sig = noise_signal(m);
    assert forall|y: int| 0 <= y < m.height() implies #[trigger] sig[y] == 0 by {
        let row = m.rows[y];
        assert forall|x: int| 0 <= x < row.len() implies (#[trigger] row[x]).r == v by {
            assert(m.intensity(x, y) == v);
        }
        lemma_flat_row_noise(row, v, row.len() as int);
    }
    lemma_constant_signal_no_crossing(sig, 0, t, sig.len() as int);
}

/// Where the energy crosses the threshold at exactly two rows `r1 < r2`, the
/// crop is `r2 - r1` rows high and its row `k` is row `r1 + k` of the image.
pub proof fn lemma_two_crossings_crop(m: ImageModel, t: int, r1: int, r2: int)
    requires
        m.wf(),
        crossings(noise_signal(m), t) == seq![r1, r2],
    ensures
        r1 < r2 <= m.height(),
        crop_to_crossings(m, t).width == m.width,
        crop_to_crossings(m, t).height() == r2 - r1,
        forall|k: int| 0 <= k < r2 - r1 ==> #[trigger] crop_to_crossings(m, t).rows[k] == m.rows[r1 + k],
{
    let c = crossings(noise_signal(m), t);
    lemma_crossings_ascending(noise_signal(m), t, m.height() as int);
    assert(c[0] == r1 && c[1] == r2);
    assert(c.last() == r2);
}

/// How many of the first `n` rows have an energy strictly above `t`.
pub open spec fn rows_above_upto(noise: Seq<int>, t: int, n: int) -> nat
    decreases n,
{
    if n <= 0 {
        0
    } else {
        rows_above_upto(noise, t, n - 1) + if noise[n - 1] > t { 1nat } else { 0nat }
    }
}

/// How many rows have an energy strictly above `t`.
pub open spec fn rows_above(noise: Seq<int>, t: int) -> nat {
    rows_above_upto(noise, t, noise.len() as int)
}

proof fn lemma_rows_above_upto_antitone(noise: Seq<int>, t1: int, t2: int, n: int)
    requires
        t1 <= t2,
    ensures
        rows_above_upto(noise, t2, n) <= rows_above_upto(noise, t1, n),
    decreases n,
{
    if n > 0 {
        lemma_rows_above_upto_antitone(noise, t1, t2, n - 1);
    }
}

/// Raising the threshold never adds a row whose energy lies above it.
pub proof fn lemma_rows_above_antitone(m: ImageModel, t1: int, t2: int)
    requires
        t1 <= t2,
    ensures
        rows_above(noise_signal(m), t2) <= rows_above(noise_signal(m), t1),
{
    let sig = noise_signal(m);
    lemma_rows_above_upto_antitone(sig, t1, t2, sig.len() as int);
}

} // verus!
