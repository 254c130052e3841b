use nnr::buffer::{Image, Pixel};
use nnr::median::median_filter;
use nnr::noise::{crop_noise, get_noise_estimation, noise_range, threshold_crossings};

fn px(r: u8) -> Pixel {
    Pixel { r, g: 7, b: 9, a: 3 }
}

fn gray(v: u8) -> Pixel {
    Pixel { r: v, g: v, b: v, a: 255 }
}

fn image_of(width: usize, rows: &[&[u8]]) -> Image {
    let rows: Vec<Vec<Pixel>> = rows.iter().map(|row| row.iter().map(|&v| px(v)).collect()).collect();
    Image::from_rows(width, rows).expect("rows of the given width")
}

fn intensities(img: &Image) -> Vec<Vec<u8>> {
    (0..img.height()).map(|y| (0..img.width()).map(|x| img.pixel(x, y).r).collect()).collect()
}

fn threshold_value(noise: &[u32], param: f32) -> u32 {
    let (lo, hi) = noise_range(&noise.to_vec());
    (lo as f32 + param * (hi - lo) as f32) as u32
}

#[test]
fn from_rows_rejects_ragged_rows() {
    let rows = vec![vec![px(1), px(2)], vec![px(3)]];
    assert!(Image::from_rows(2, rows).is_none());
}

#[test]
fn rows_round_trip_unchanged() {
    let rows = vec![vec![px(1), px(2)], vec![px(3), px(4)]];
    let img = Image::from_rows(2, rows.clone()).unwrap();
    assert_eq!(img.into_rows(), rows);
}

#[test]
fn filled_image_has_given_size() {
    let img = Image::filled(3, 2, px(5));
    assert_eq!((img.width(), img.height()), (3, 2));
    assert_eq!(img.pixel(2, 1), px(5));
}

#[test]
fn filter_keeps_dimensions() {
    for (w, h) in [(1usize, 1usize), (1, 4), (5, 1), (3, 2), (7, 6)] {
        let mut img = Image::filled(w, h, px(12));
        median_filter(&mut img);
        assert_eq!((img.width(), img.height()), (w, h));
    }
}

#[test]
fn filter_uniform_image_turns_gray() {
    let mut img = Image::filled(4, 3, px(77));
    median_filter(&mut img);
    for y in 0..3 {
        for x in 0..4 {
            assert_eq!(img.pixel(x, y), gray(77));
        }
    }
}

#[test]
fn filter_single_pixel() {
    let mut img = Image::filled(1, 1, Pixel { r: 200, g: 1, b: 2, a: 0 });
    median_filter(&mut img);
    assert_eq!(img.into_rows(), vec![vec![gray(200)]]);
}

#[test]
fn filter_exact_medians_with_reflect_then_clamp() {
    let mut img = image_of(3, &[&[10, 20, 30], &[40, 50, 60], &[70, 80, 90]]);
    median_filter(&mut img);
    assert_eq!(intensities(&img), vec![vec![40, 40, 50], vec![50, 50, 60], vec![70, 70, 80]]);
    assert_eq!(img.pixel(0, 0), gray(40));
    assert_eq!(img.pixel(2, 2), gray(80));
}

#[test]
fn filter_removes_isolated_spike() {
    let mut img = image_of(3, &[&[0, 0, 0], &[0, 255, 0], &[0, 0, 0]]);
    median_filter(&mut img);
    assert_eq!(intensities(&img), vec![vec![0; 3]; 3]);
}

#[test]
fn noise_estimation_wraps_left_neighbour() {
    let img = image_of(3, &[&[10, 20, 5], &[0, 0, 0], &[255, 0, 255]]);
    assert_eq!(get_noise_estimation(&img), vec![30, 0, 510]);
}

#[test]
fn noise_range_gives_min_and_max() {
    assert_eq!(noise_range(&vec![7, 3, 9, 3, 8]), (3, 9));
    assert_eq!(noise_range(&vec![4]), (4, 4));
}

#[test]
fn crossings_of_single_noisy_row() {
    assert_eq!(threshold_crossings(&vec![0, 0, 100, 0], 50), vec![2, 3]);
}

#[test]
fn crossings_ignore_values_on_threshold() {
    assert_eq!(threshold_crossings(&vec![50, 100, 50, 0], 50), Vec::<usize>::new());
}

#[test]
fn crossings_wrap_from_last_row() {
    assert_eq!(threshold_crossings(&vec![100, 0, 0, 0], 50), vec![0, 1]);
}

#[test]
fn end_to_end_four_by_four() {
    let rows: &[&[u8]] = &[&[9, 9, 9, 9], &[4, 4, 4, 4], &[0, 50, 0, 0], &[1, 1, 1, 1]];
    let mut img = image_of(4, rows);
    let noise = get_noise_estimation(&img);
    assert_eq!(noise, vec![0, 0, 100, 0]);
    let t = threshold_value(&noise, 0.5);
    assert_eq!(t, 50);
    assert_eq!(threshold_crossings(&noise, t), vec![2, 3]);
    crop_noise(&mut img, t);
    assert_eq!((img.width(), img.height()), (4, 1));
    assert_eq!(intensities(&img), vec![vec![0, 50, 0, 0]]);
}

#[test]
fn crop_between_two_crossings() {
    let mut img = image_of(2, &[&[3, 3], &[6, 6], &[0, 50], &[50, 0], &[8, 8]]);
    let noise = get_noise_estimation(&img);
    assert_eq!(noise, vec![0, 0, 100, 100, 0]);
    assert_eq!(threshold_crossings(&noise, 50), vec![2, 4]);
    crop_noise(&mut img, 50);
    assert_eq!(img.height(), 2);
    assert_eq!(intensities(&img), vec![vec![0, 50], vec![50, 0]]);
}

#[test]
fn crop_with_one_crossing_is_empty() {
    let mut img = image_of(2, &[&[0, 0], &[0, 25], &[0, 50]]);
    assert_eq!(get_noise_estimation(&img), vec![0, 50, 100]);
    crop_noise(&mut img, 50);
    assert_eq!((img.width(), img.height()), (2, 0));
}

#[test]
fn uniform_image_is_not_cropped() {
    let mut img = Image::filled(5, 4, px(33));
    let noise = get_noise_estimation(&img);
    assert_eq!(noise, vec![0; 4]);
    let t = threshold_value(&noise, 0.5);
    assert_eq!(t, 0);
    assert!(threshold_crossings(&noise, t).is_empty());
    crop_noise(&mut img, t);
    assert_eq!(img.into_rows(), Image::filled(5, 4, px(33)).into_rows());
}

#[test]
fn higher_threshold_never_counts_more_rows_above() {
    let img = image_of(3, &[&[0, 9, 0], &[0, 90, 0], &[0, 40, 0], &[5, 5, 5], &[0, 255, 0]]);
    let noise = get_noise_estimation(&img);
    let mut last = usize::MAX;
    for step in 0..=10 {
        let t = threshold_value(&noise, step as f32 / 10.0);
        let above = noise.iter().filter(|&&v| v > t).count();
        assert!(above <= last);
        last = above;
    }
    assert_eq!(last, 0);
}

#[test]
fn crop_rows_keeps_band() {
    let mut img = image_of(1, &[&[1], &[2], &[3], &[4]]);
    img.crop_rows(1, 3);
    assert_eq!(intensities(&img), vec![vec![2], vec![3]]);
}
