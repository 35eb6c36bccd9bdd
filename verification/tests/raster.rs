use image::{Rgb, RgbImage};
use raytracer_rust::pixels::Rgb8;
use raytracer_rust::raster::Raster;
use raytracer_rust::renderer::Renderer;

const WHITE: Rgb8 = Rgb8 {
    red: 255,
    green: 255,
    blue: 255,
};

fn rgb(red: u8, green: u8, blue: u8) -> Rgb8 {
    Rgb8 { red, green, blue }
}

#[test]
fn compose_without_samples_is_black() {
    let raster = Raster::compose(3, 2, &vec![]);

    assert_eq!(raster.dimensions(), (3, 2));
    assert_eq!(raster.into_raw(), vec![0u8; 18]);
}

#[test]
fn compose_puts_each_sample_at_its_pixel() {
    let samples = vec![(0, 1, rgb(1, 2, 3)), (1, 2, rgb(4, 5, 6))];
    let raster = Raster::compose(3, 2, &samples);

    assert_eq!(raster.pixel(1, 0), rgb(1, 2, 3));
    assert_eq!(raster.pixel(2, 1), rgb(4, 5, 6));
    assert_eq!(raster.pixel(0, 0), rgb(0, 0, 0));
    assert_eq!(raster.pixel(1, 1), rgb(0, 0, 0));
    assert_eq!(
        raster.into_raw(),
        vec![0, 0, 0, 1, 2, 3, 0, 0, 0, 0, 0, 0, 0, 0, 0, 4, 5, 6]
    );
}

#[test]
fn compose_keeps_the_last_sample_of_a_pixel() {
    let samples = vec![
        (1, 0, rgb(1, 1, 1)),
        (0, 0, rgb(2, 2, 2)),
        (1, 0, rgb(3, 3, 3)),
    ];
    let raster = Raster::compose(1, 2, &samples);

    assert_eq!(raster.into_raw(), vec![2, 2, 2, 3, 3, 3]);
}

#[test]
fn compose_does_not_depend_on_the_order_of_distinct_pixels() {
    let forward = vec![
        (0, 0, rgb(1, 0, 0)),
        (0, 1, rgb(0, 1, 0)),
        (1, 0, rgb(0, 0, 1)),
        (1, 1, rgb(1, 1, 1)),
    ];
    let mut backward = forward.clone();
    backward.reverse();

    assert_eq!(
        Raster::compose(2, 2, &forward).into_raw(),
        Raster::compose(2, 2, &backward).into_raw()
    );
}

#[test]
fn compose_agrees_with_the_image_crate() {
    let samples = vec![(2, 3, rgb(7, 8, 9)), (0, 4, rgb(10, 11, 12))];
    let raster = Raster::compose(5, 3, &samples);
    let image = RgbImage::from_raw(5, 3, raster.into_raw()).unwrap();

    assert_eq!(image.get_pixel(3, 2), &Rgb([7, 8, 9]));
    assert_eq!(image.get_pixel(4, 0), &Rgb([10, 11, 12]));
    assert_eq!(image.get_pixel(2, 3 - 1), &Rgb([0, 0, 0]));
}

#[test]
fn compose_with_no_pixels() {
    assert_eq!(Raster::compose(0, 0, &vec![]).dimensions(), (0, 0));
    assert_eq!(Raster::compose(4, 0, &vec![]).dimensions(), (4, 0));
    assert!(Raster::compose(0, 4, &vec![]).into_raw().is_empty());
}

#[test]
fn white_samples_from_every_tile_give_a_white_image() {
    let renderer = Renderer {
        rays_per_pixel: 1,
        tile_size: 16,
        max_bounces: 1,
    };
    let mut samples = Vec::new();
    for tile in renderer.tiles(20, 20) {
        for (row, col) in tile.pixels() {
            samples.push((row, col, WHITE));
        }
    }
    let raster = Raster::compose(20, 20, &samples);

    assert_eq!(samples.len(), 400);
    assert_eq!(raster.into_raw(), vec![255u8; 20 * 20 * 3]);
}

#[test]
fn from_raw_reads_runs_of_three_bytes() {
    let raster = Raster::from_raw(2, 2, vec![1, 2, 3, 4, 5, 6, 7, 8, 9, 10, 11, 12]).unwrap();

    assert_eq!(raster.dimensions(), (2, 2));
    assert_eq!(raster.pixel(0, 0), rgb(1, 2, 3));
    assert_eq!(raster.pixel(1, 0), rgb(4, 5, 6));
    assert_eq!(raster.pixel(0, 1), rgb(7, 8, 9));
    assert_eq!(raster.pixel(1, 1), rgb(10, 11, 12));
}

#[test]
fn from_raw_tells_width_from_height() {
    let raster = Raster::from_raw(3, 1, vec![1, 2, 3, 4, 5, 6, 7, 8, 9]).unwrap();

    assert_eq!(raster.dimensions(), (3, 1));
    assert_eq!(raster.pixel(2, 0), rgb(7, 8, 9));
}

#[test]
fn from_raw_and_into_raw_round_trip() {
    let raw: Vec<u8> = (0..24).collect();
    let raster = Raster::from_raw(4, 2, raw.clone()).unwrap();

    assert_eq!(raster.into_raw(), raw);
}

#[test]
fn from_raw_rejects_a_buffer_of_another_size() {
    assert!(Raster::from_raw(2, 2, vec![0; 11]).is_none());
    assert!(Raster::from_raw(2, 2, vec![0; 13]).is_none());
    assert!(Raster::from_raw(2, 2, vec![]).is_none());
    assert!(Raster::from_raw(0, 5, vec![0; 3]).is_none());
    assert!(Raster::from_raw(u32::MAX, u32::MAX, vec![0; 3]).is_none());
}

#[test]
fn from_raw_accepts_an_empty_image() {
    let raster = Raster::from_raw(0, 5, vec![]).unwrap();

    assert_eq!(raster.dimensions(), (0, 5));
    assert!(raster.into_raw().is_empty());
}
