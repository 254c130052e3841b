//! The 3x3 median filter on the first channel.

use vstd::prelude::*;
use vstd::relations::{sorted_by, total_ordering};
use crate::buffer::{Image, ImageModel, Pixel};

verus! {

/// Radius of the neighbourhood around each pixel.
pub const RADIUS: usize = 1;

/// Number of samples in a neighbourhood: `(2 * RADIUS + 1)^2`.
pub const WINDOW_LEN: usize = 9;

/// Position of the median among the sorted samples: `(WINDOW_LEN + 1) / 2 - 1`.
pub const MEDIAN_INDEX: usize = 4;

/// The boundary policy of the filter: reflect a negative coordinate across 0,
/// then clamp one past the last index down to it.
pub open spec fn reflect_clamp(c: int, offset: int, dim: int) -> int {
    let m = if c + offset < 0 { -(c + offset) } else { c + offset };
    if m > dim - 1 { dim - 1 } else { m }
}

/// The nine intensities around `(x, y)`: sample `k` sits at offset
/// `(k / 3 - 1, k % 3 - 1)`.
pub open spec fn window(m: ImageModel, x: int, y: int) -> Seq<u8> {
    Seq::new(
        WINDOW_LEN as nat,
        |k: int|
            m.intensity(
                reflect_clamp(x, k / 3 - 1, m.width as int),
                reflect_clamp(y, k % 3 - 1, m.height() as int),
            ),
    )
}

/// Ascending order on intensities.
pub open spec fn intensity_order() -> spec_fn(u8, u8) -> bool {
    |a: u8, b: u8| a <= b
}

/// The sample at the median position once the samples are sorted ascending.
pub open spec fn median_of(s: Seq<u8>) -> u8 {
    s.sort_by(intensity_order())[MEDIAN_INDEX as int]
}

/// An opaque gray pixel of intensity `v`.
pub open spec fn gray(v: u8) -> Pixel {
    Pixel { r: v, g: v, b: v, a: 255 }
}

/// The filtered image: every pixel is the gray of the median of its
/// neighbourhood in the source image.
pub open spec fn filtered(m: ImageModel) -> ImageModel {
    ImageModel {
        width: m.width,
        rows: Seq::new(
            m.height(),
            |y: int| Seq::new(m.width, |x: int| gray(median_of(window(m, x, y)))),
        ),
    }
}

proof fn lemma_intensity_order_total()
    ensures
        total_ordering(intensity_order()),
{
}

/// Reflect-then-clamp of coordinate `c` moved by `offset` in a dimension of size `dim`.
fn neighbor(c: usize, offset: i8, dim: usize) -> (r: usize)
    requires
        c < dim,
        -1 <= offset <= 1,
    ensures
        r == reflect_clamp(c as int, offset as int, dim as int),
        r < dim,
{
    let m: usize = if offset < 0 {
        if c == 0 { 1 } else { c - 1 }
    } else if offset == 0 {
        c
    } else {
        c + 1
    };
    if m > dim - 1 { dim - 1 } else { m }
}

/// Gathers the intensities of the neighbourhood of `(x, y)`.
fn window_at(img: &Image, x: usize, y: usize) -> (r: [u8; 9])
    requires
        img@.wf(),
        x < img@.width,
        y < img@.height(),
    ensures
        r@ == window(img@, x as int, y as int),
{
    let w = img.width();
    let h = img.height();
    let mut win: [u8; 9] = [0u8; 9];
    let mut k: usize = 0;
    while k < WINDOW_LEN
        invariant
            k <= WINDOW_LEN,
            img@.wf(),
            w == img@.width,
            h == img@.height(),
            x < w,
            y < h,
            forall|j: int| 0 <= j < k ==> win@[j] == window(img@, x as int, y as int)[j],
        decreases WINDOW_LEN - k,
    {
        let dx: i8 = (k / 3) as i8 - 1;
        let dy: i8 = (k % 3) as i8 - 1;
        let px = neighbor(x, dx, w);
        let py = neighbor(y, dy, h);
        win[k] = img.pixel(px, py).r;
        k = k + 1;
    }
    assert(win@ =~= window(img@, x as int, y as int));
    win
}

proof fn lemma_swap_keeps_multiset(s: Seq<u8>, i: int, j: int)
    requires
        0 <= i < s.len(),
        0 <= j < s.len(),
    ensures
        s.update(i, s[j]).update(j, s[i]).to_multiset() == s.to_multiset(),
{
    broadcast use vstd::seq_lib::group_to_multiset_ensures, vstd::multiset::group_multiset_axioms;

    let t = s.update(i, s[j]);
    if i == j {
        assert(t =~= s);
        assert(t.update(j, s[i]) =~= s);
    } else {
        assert(t[j] == s[j]);
        assert(s.to_multiset().remove(s[i]).insert(s[j]).remove(s[j]).insert(s[i])
            =~= s.to_multiset());
    }
}

/// Sorts the samples ascending by insertion.
fn sorted_window(win: [u8; 9]) -> (r: [u8; 9])
    ensures
        sorted_by(r@, intensity_order()),
        r@.to_multiset() == win@.to_multiset(),
{
    let mut a = win;
    let mut i: usize = 1;
    while i < WINDOW_LEN
        invariant
            1 <= i <= WINDOW_LEN,
            a@.len() == WINDOW_LEN,
            a@.to_multiset() == win@.to_multiset(),
            forall|p: int, q: int| 0 <= p < q < i ==> a@[p] <= a@[q],
        decreases WINDOW_LEN - i,
    {
        let mut j: usize = i;
        while j > 0 && a[j - 1] > a[j]
            invariant
                0 <= j <= i < WINDOW_LEN,
                a@.len() == WINDOW_LEN,
                a@.to_multiset() == win@.to_multiset(),
                forall|p: int, q: int| 0 <= p < q <= i && p != j && q != j ==> a@[p] <= a@[q],
                forall|q: int| j < q <= i ==> a@[j as int] <= a@[q],
            decreases j,
        {
            proof {
                lemma_swap_keeps_multiset(a@, j - 1, j as int);
            }
            let t = a[j - 1];
            a[j - 1] = a[j];
            a[j] = t;
            j = j - 1;
        }
        i = i + 1;
    }
    a
}

/// The median of the samples.
fn median_of_window(win: [u8; 9]) -> (r: u8)
    ensures
        r == median_of(win@),
{
    let s = sorted_window(win);
    proof {
        lemma_intensity_order_total();
        win@.lemma_sort_by_ensures(intensity_order());
        vstd::seq_lib::lemma_sorted_unique(s@, win@.sort_by(intensity_order()), intensity_order());
    }
    s[MEDIAN_INDEX]
}

/// The filtered copy of `img`; `img` itself is only read.
fn filtered_copy(img: &Image) -> (r: Image)
    requires
        img@.wf(),
    ensures
        r@ == filtered(img@),
{
    let w = img.width();
    let h = img.height();
    let ghost target = filtered(img@);
    let mut rows: Vec<Vec<Pixel>> = Vec::new();
    let mut y: usize = 0;
    while y < h
        invariant
            img@.wf(),
            w == img@.width,
            h == img@.height(),
            target == filtered(img@),
            y <= h,
            rows@.len() == y,
            forall|k: int| 0 <= k < y ==> (#[trigger] rows@[k])@ == target.rows[k],
        decreases h - y,
    {
        let mut row: Vec<Pixel> = Vec::new();
        let mut x: usize = 0;
        while x < w
            invariant
                img@.wf(),
                w == img@.width,
                h == img@.height(),
                y < h,
                x <= w,
                row@ == Seq::new(x as nat, |i: int| gray(median_of(window(img@, i, y as int)))),
            decreases w - x,
        {
            let v = median_of_window(window_at(img, x, y));
            row.push(Pixel { r: v, g: v, b: v, a: 255 });
            x = x + 1;
            assert(row@ =~= Seq::new(x as nat, |i: int| gray(median_of(window(img@, i, y as int)))));
        }
        assert(row@ =~= target.rows[y as int]);
        rows.push(row);
        y = y + 1;
    }
    let out = Image::from_sized_rows(w, rows);
    assert(out@.rows =~= target.rows);
    out
}

/// Replaces every pixel by an opaque gray whose intensity is the median of the
/// pixel's 3x3 neighbourhood. Every neighbourhood is read from the image as it
/// was before the call.
pub fn median_filter(img: &mut Image)
    requires
        old(img)@.wf(),
    ensures
        final(img)@ == filtered(old(img)@),
{
    let out = filtered_copy(img);
    *img = out;
}

/// Filtering keeps the width and the height of the image.
pub proof fn lemma_filter_keeps_dimensions(m: ImageModel)
    requires
        m.wf(),
    ensures
        filtered(m).wf(),
        filtered(m).width == m.width,
        filtered(m).height() == m.height(),
{
}

/// Reflect-then-clamp stays inside the dimension.
proof fn lemma_reflect_clamp_in_range(c: int, offset: int, dim: int)
    requires
        0 <= c < dim,
        -1 <= offset <= 1,
    ensures
        0 <= reflect_clamp(c, offset, dim) < dim,
{
}

/// The median of samples that all equal `v` is `v`.
proof fn lemma_median_of_constant(s: Seq<u8>, v: u8)
    requires
        s.len() == WINDOW_LEN,
        forall|k: int| 0 <= k < s.len() ==> s[k] == v,
    ensures
        median_of(s) == v,
{
    broadcast use vstd::seq_lib::group_to_multiset_ensures;

    lemma_intensity_order_total();
    s.lemma_sort_by_ensures(intensity_order());
    let sorted = s.sort_by(intensity_order());
    assert(s.to_multiset().len() == s.len());
    assert(sorted.to_multiset().len() == sorted.len());
    let med = sorted[MEDIAN_INDEX as int];
    assert(sorted.contains(med));
    assert(s.contains(med));
}

/// On an image whose intensity is `v` everywhere, the filter gives an opaque
/// gray of intensity `v` everywhere.
pub proof fn lemma_filter_uniform(m: ImageModel, v: u8)
    requires
        m.wf(),
        forall|x: int, y: int| 0 <= x < m.width && 0 <= y < m.height() ==> m.intensity(x, y) == v,
    ensures
        forall|x: int, y: int|
            0 <= x < m.width && 0 <= y < m.height() ==> #[trigger] filtered(m).at(x, y) == gray(v),
{
    assert forall|x: int, y: int| 0 <= x < m.width && 0 <= y < m.height() implies #[trigger] filtered(
        m,
    ).at(x, y) == gray(v) by {
        let s = window(m, x, y);
        assert forall|k: int| 0 <= k < s.len() implies s[k] == v by {
            lemma_reflect_clamp_in_range(x, k / 3 - 1, m.width as int);
            lemma_reflect_clamp_in_range(y, k % 3 - 1, m.height() as int);
        }
        lemma_median_of_constant(s, v);
    }
}

/// A single-pixel image filters to the opaque gray of its own intensity.
pub proof fn lemma_filter_single_pixel(m: ImageModel)
    requires
        m.wf(),
        m.width == 1,
        m.height() == 1,
    ensures
        filtered(m) == (ImageModel { width: 1, rows: seq![seq![gray(m.intensity(0, 0))]] }),
{
    let v = m.intensity(0, 0);
    lemma_filter_uniform(m, v);
    assert(filtered(m).at(0, 0) == gray(v));
    assert(filtered(m).rows[0] =~= seq![gray(v)]);
    assert(filtered(m).rows =~= seq![seq![gray(v)]]);
}

} // verus!
