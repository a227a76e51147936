use dbs_dither::context::DbsContext;
use dbs_dither::input::{plan_resize, ResizePlan};
use dbs_dither::picture::{color_planes, mono_plane, process_mono, resize_picture};
use dbs_dither::plane::GrayPlane;
use dbs_dither::progress::{Event, Progress};
use dbs_dither::render::{merge_channels, split_channels, total_counts, total_pixels};
use image::{DynamicImage, GenericImageView, GrayImage, RgbImage};
use std::cell::RefCell;

fn bits(weights: &[i64]) -> Vec<u64> {
    weights.iter().map(|&w| (w as f64).to_bits()).collect()
}

fn soft() -> Vec<u64> {
    bits(&[4096, 8192, 4096, 8192, 16384, 8192, 4096, 8192, 4096])
}

fn gray(width: u32, height: u32, pixels: Vec<u8>) -> DynamicImage {
    match GrayImage::from_raw(width, height, pixels) {
        Some(img) => DynamicImage::ImageLuma8(img),
        None => panic!("too few bytes"),
    }
}

fn color(width: u32, height: u32, pixels: Vec<u8>) -> DynamicImage {
    match RgbImage::from_raw(width, height, pixels) {
        Some(img) => DynamicImage::ImageRgb8(img),
        None => panic!("too few bytes"),
    }
}

#[test]
fn gray_pictures_are_taken_as_they_are() {
    let plane = mono_plane(&gray(3, 2, vec![1, 2, 3, 4, 5, 6]));
    assert_eq!((plane.width, plane.height), (3, 2));
    assert_eq!(plane.pixels, vec![1, 2, 3, 4, 5, 6]);
}

#[test]
fn color_pictures_are_weighed() {
    let plane = mono_plane(&color(2, 1, vec![255, 0, 0, 10, 20, 30]));
    assert_eq!((plane.width, plane.height), (2, 1));
    assert_eq!(plane.pixels, vec![54, 18]);
}

#[test]
fn channels_are_taken_apart() {
    let img = color(2, 2, vec![1, 2, 3, 4, 5, 6, 7, 8, 9, 10, 11, 12]);
    match color_planes(&img) {
        Some((r, g, b)) => {
            assert_eq!((r.width, r.height), (2, 2));
            assert_eq!(r.pixels, vec![1, 4, 7, 10]);
            assert_eq!(g.pixels, vec![2, 5, 8, 11]);
            assert_eq!(b.pixels, vec![3, 6, 9, 12]);
        }
        None => panic!("does not fit"),
    }
}

#[test]
fn gray_pictures_have_three_equal_channels() {
    match color_planes(&gray(2, 1, vec![7, 200])) {
        Some((r, g, b)) => {
            assert_eq!(r.pixels, vec![7, 200]);
            assert_eq!(g.pixels, r.pixels);
            assert_eq!(b.pixels, r.pixels);
        }
        None => panic!("does not fit"),
    }
}

#[test]
fn pictures_are_scaled_as_planned() {
    let img = gray(4, 2, vec![0, 255, 0, 255, 0, 255, 0, 255]);
    match resize_picture(img, ResizePlan::Resize { width: 8, height: 4 }) {
        Some(out) => assert_eq!(out.dimensions(), (8, 4)),
        None => panic!("does not fit"),
    }
    let img = gray(4, 2, vec![9; 8]);
    match resize_picture(img, ResizePlan::Resize { width: 2, height: 5 }) {
        Some(out) => {
            assert_eq!(out.dimensions(), (2, 5));
            assert_eq!(out.to_luma8().into_raw(), vec![9; 10]);
        }
        None => panic!("does not fit"),
    }
}

#[test]
fn pictures_without_height_keep_one_pixel() {
    let img = gray(4, 2, vec![9; 8]);
    match resize_picture(img, ResizePlan::Resize { width: 1, height: 0 }) {
        Some(out) => assert_eq!(out.dimensions(), (1, 1)),
        None => panic!("does not fit"),
    }
}

#[test]
fn pictures_of_the_right_size_are_copied() {
    let img = gray(2, 1, vec![3, 4]);
    match resize_picture(img, ResizePlan::Resize { width: 2, height: 1 }) {
        Some(out) => assert_eq!(out.to_luma8().into_raw(), vec![3, 4]),
        None => panic!("does not fit"),
    }
}

#[test]
fn pictures_are_kept_without_a_plan() {
    for plan in [ResizePlan::Keep, ResizePlan::Invalid] {
        match resize_picture(gray(2, 1, vec![3, 4]), plan) {
            Some(out) => assert_eq!(out.to_luma8().into_raw(), vec![3, 4]),
            None => panic!("does not fit"),
        }
    }
}

#[test]
fn the_typed_height_is_that_of_the_result() {
    for (width, height, line, dims) in
        [(3, 100, "150\n", (4, 150)), (10, 30, "10", (3, 10)), (7, 5, "0", (1, 1))]
    {
        let img = gray(width, height, vec![9; (width * height) as usize]);
        match resize_picture(img, plan_resize(width, height, line)) {
            Some(out) => assert_eq!(out.dimensions(), dims),
            None => panic!("does not fit"),
        }
    }
}

#[test]
fn sides_too_long_to_scale() {
    let plan = ResizePlan::Resize { width: 0x40_0001, height: 1 };
    assert!(resize_picture(gray(2, 1, vec![3, 4]), plan).is_none());
    let plan = ResizePlan::Resize { width: 1, height: 0x40_0001 };
    assert!(resize_picture(gray(2, 1, vec![3, 4]), plan).is_none());
    let long = gray(0x40_0001, 1, vec![0; 0x40_0001]);
    assert!(resize_picture(long, ResizePlan::Resize { width: 1, height: 2 }).is_none());
}

#[test]
fn pictures_too_large_to_scale() {
    let plan = ResizePlan::Resize { width: u32::MAX, height: u32::MAX };
    assert!(resize_picture(gray(2, 1, vec![3, 4]), plan).is_none());
}

#[test]
fn black_and_white_stay() {
    let shown = RefCell::new(Vec::new());
    let mut progress = Progress::new(|e| shown.borrow_mut().push(e));
    let img = gray(3, 2, vec![255; 6]);
    match process_mono(&img, 3, &soft(), &mut progress) {
        Some((bytes, toggles, swaps)) => {
            assert_eq!(bytes, vec![255; 6]);
            assert_eq!((toggles, swaps), (0, 0));
        }
        None => panic!("does not fit"),
    }
    let shown = shown.borrow();
    assert_eq!(shown[0], Event::Initializing);
    assert_eq!(shown[shown.len() - 1], Event::Finished);
}

#[test]
fn a_gray_field_gets_its_tone() {
    let mut progress = Progress::new(|_| {});
    let img = gray(16, 16, vec![64; 256]);
    match process_mono(&img, 3, &soft(), &mut progress) {
        Some((bytes, toggles, swaps)) => {
            assert_eq!(bytes.len(), 256);
            assert!(bytes.iter().all(|&b| b == 0 || b == 255));
            let on = bytes.iter().filter(|&&b| b == 255).count();
            assert!(40 <= on && on <= 90);
            assert!(toggles > 0 && swaps >= 0);
        }
        None => panic!("does not fit"),
    }
}

#[test]
fn pictures_that_cannot_be_halftoned() {
    let shown = RefCell::new(Vec::new());
    let mut progress = Progress::new(|e| shown.borrow_mut().push(e));
    assert!(process_mono(&gray(0, 5, vec![]), 1, &soft(), &mut progress).is_none());
    assert!(process_mono(&gray(1, 1, vec![0]), i32::MAX, &soft(), &mut progress).is_none());
    assert!(shown.borrow().is_empty());
}

fn halves(left: u8, right: u8) -> DbsContext {
    let img = GrayPlane { width: 2, height: 1, pixels: vec![left, right] };
    DbsContext::new(&img, 3, &soft())
}

#[test]
fn halftones_as_bytes() {
    let dbs = halves(0, 200);
    assert_eq!(dbs.output_byte(0, 0), 0);
    assert_eq!(dbs.output_byte(1, 0), 255);
    assert_eq!(dbs.render(2, 1), vec![0, 255]);
    assert_eq!(dbs.render(3, 1), vec![0, 255, 0]);
    assert!(dbs.render(0, 5).is_empty());
}

#[test]
fn channels_are_put_together() {
    let bytes = merge_channels(&halves(255, 0), &halves(0, 255), &halves(255, 255), 2, 1);
    assert_eq!(bytes, vec![255, 0, 255, 0, 255, 255]);
}

#[test]
fn taking_apart_undoes_putting_together() {
    let (red, green, blue) = (halves(255, 0), halves(0, 255), halves(0, 0));
    let bytes = merge_channels(&red, &green, &blue, 2, 1);
    let (r, g, b) = split_channels(2, 1, &bytes);
    assert_eq!(r.pixels, red.render(2, 1));
    assert_eq!(g.pixels, green.render(2, 1));
    assert_eq!(b.pixels, blue.render(2, 1));
}

#[test]
fn counts_of_three_channels() {
    assert_eq!(total_counts((1, 10), (2, 20), (3, 30)), (6, 60));
    assert_eq!(total_counts((i32::MAX, 0), (1, 0), (-5, 0)), (i32::MAX - 5, 0));
}

#[test]
fn pixels_of_a_picture() {
    assert_eq!(total_pixels(1920, 1080), 2073600);
    assert_eq!(total_pixels(65536, 65536), u32::MAX as u64);
    assert_eq!(total_pixels(0, 9), 0);
}
