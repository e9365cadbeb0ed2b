use revela::geometry::{crop, crop_window, flip_h, flip_v, orient, rotate180, rotate270, rotate90};
use revela::pipeline::{grain_noise, transpose};
use revela::raster::Image;

fn sample(w: usize, h: usize) -> Image<u32> {
    let mut data = Vec::new();
    for y in 0..h {
        for x in 0..w {
            for c in 0..3 {
                data.push((100 * y + 10 * x + c) as u32);
            }
        }
    }
    Image { width: w, height: h, data }
}

fn at(img: &Image<u32>, x: usize, y: usize) -> [u32; 3] {
    img.px(x, y)
}

#[test]
fn new_fills_every_channel() {
    let img = Image::new(3, 2, 7u8);
    assert_eq!(img.width, 3);
    assert_eq!(img.height, 2);
    assert_eq!(img.data, vec![7u8; 18]);
}

#[test]
fn set_then_px_reads_back() {
    let mut img = Image::new(2, 2, 0.0f32);
    img.set(1, 0, [0.25, 0.5, 0.75]);
    assert_eq!(img.px(1, 0), [0.25, 0.5, 0.75]);
    assert_eq!(img.px(0, 1), [0.0, 0.0, 0.0]);
    assert_eq!(img.data[3..6], [0.25, 0.5, 0.75]);
}

#[test]
fn rotate90_moves_pixels_clockwise() {
    let src = sample(3, 2);
    let out = rotate90(&src);
    assert_eq!((out.width, out.height), (2, 3));
    // out(x, y) = src(y, h - 1 - x)
    for y in 0..3 {
        for x in 0..2 {
            assert_eq!(at(&out, x, y), at(&src, y, 1 - x));
        }
    }
    // top-left of the output is the bottom-left of the source
    assert_eq!(at(&out, 0, 0), [100, 101, 102]);
}

#[test]
fn rotate270_moves_pixels_counter_clockwise() {
    let src = sample(3, 2);
    let out = rotate270(&src);
    assert_eq!((out.width, out.height), (2, 3));
    for y in 0..3 {
        for x in 0..2 {
            assert_eq!(at(&out, x, y), at(&src, 2 - y, x));
        }
    }
}

#[test]
fn quarter_turns_cancel() {
    let src = sample(4, 3);
    let back = rotate270(&rotate90(&src));
    assert_eq!((back.width, back.height), (4, 3));
    assert_eq!(back.data, src.data);
    let back2 = rotate90(&rotate270(&src));
    assert_eq!(back2.data, src.data);
}

#[test]
fn two_quarter_turns_are_a_half_turn() {
    let src = sample(4, 3);
    let a = rotate90(&rotate90(&src));
    let b = rotate180(&src);
    assert_eq!((a.width, a.height), (b.width, b.height));
    assert_eq!(a.data, b.data);
    assert_eq!(at(&b, 0, 0), at(&src, 3, 2));
}

#[test]
fn mirrors_undo_themselves_and_make_a_half_turn() {
    let src = sample(3, 3);
    assert_eq!(flip_h(&flip_h(&src)).data, src.data);
    assert_eq!(flip_v(&flip_v(&src)).data, src.data);
    assert_eq!(rotate180(&rotate180(&src)).data, src.data);
    assert_eq!(flip_v(&flip_h(&src)).data, rotate180(&src).data);
    assert_eq!(at(&flip_h(&src), 0, 1), at(&src, 2, 1));
    assert_eq!(at(&flip_v(&src), 0, 0), at(&src, 0, 2));
}

#[test]
fn empty_images_stay_empty() {
    let src: Image<u32> = Image { width: 0, height: 5, data: Vec::new() };
    let out = rotate90(&src);
    assert_eq!((out.width, out.height), (5, 0));
    assert!(out.data.is_empty());
}

#[test]
fn crop_copies_the_window() {
    let src = sample(5, 4);
    let out = crop(&src, 1, 2, 3, 2);
    assert_eq!((out.width, out.height), (3, 2));
    for y in 0..2 {
        for x in 0..3 {
            assert_eq!(at(&out, x, y), at(&src, 1 + x, 2 + y));
        }
    }
    assert_eq!(crop(&src, 0, 0, 5, 4).data, src.data);
}

#[test]
fn crop_window_clamps_into_the_image() {
    assert_eq!(crop_window(100, 50, 10, 5, 30, 20), (10, 5, 30, 20));
    // corner clamped, size at least 8 but never past the edge
    assert_eq!(crop_window(100, 50, -5, 60, 3, 500), (0, 49, 8, 1));
    assert_eq!(crop_window(100, 50, 95, 0, 40, 8), (95, 0, 5, 8));
}

#[test]
fn orient_turns_then_mirrors() {
    let src = sample(3, 2);
    assert_eq!(orient(sample(3, 2), 0, false, false).data, src.data);
    assert_eq!(orient(sample(3, 2), 5, false, false).data, rotate90(&src).data);
    assert_eq!(orient(sample(3, 2), 2, true, false).data, flip_h(&rotate180(&src)).data);
    assert_eq!(orient(sample(3, 2), 3, true, true).data, flip_v(&flip_h(&rotate270(&src))).data);
}

#[test]
fn transpose_swaps_rows_and_columns() {
    let plane: Vec<u8> = vec![1, 2, 3, 4, 5, 6]; // 3 wide, 2 tall
    let t = transpose(&plane, 3, 2);
    assert_eq!(t, vec![1, 4, 2, 5, 3, 6]);
    assert_eq!(transpose(&t, 2, 3), plane);
}

#[test]
fn grain_noise_is_a_fixed_16_bit_hash() {
    assert_eq!(grain_noise(0, 0), 0);
    assert_eq!(grain_noise(1, 0), 29142);
    assert_eq!(grain_noise(3, 7), 39642);
    assert_eq!(grain_noise(100, 200), 194);
    assert_eq!(grain_noise(100, 200), grain_noise(100, 200));
}
