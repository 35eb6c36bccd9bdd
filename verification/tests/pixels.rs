use raytracer_rust::pixels::{Pixels, Rgb8};

fn channel(value: f64) -> u8 {
    (value.clamp(0., 1.) * 255.) as u8
}

fn color(red: f64, green: f64, blue: f64) -> Rgb8 {
    Rgb8 {
        red: channel(red),
        green: channel(green),
        blue: channel(blue),
    }
}

fn get_expected_pixels() -> Vec<u8> {
    vec![
        0, 0, 0, 255, 0, 0, 0, 255, 0, 0, 0, 255, // First row
        255, 255, 255, 0, 255, 255, 255, 0, 255, 255, 255, 0, // Second row
    ]
}

#[test]
fn pixels_test_new() {
    let pixels = Pixels::new(3, 2);

    assert_eq!(pixels.width, 3);
    assert_eq!(pixels.height, 2);
    assert_eq!(pixels.bytes(), &vec![0u8; 3 * 2 * 3]);
    assert_eq!(pixels, Pixels::new(3, 2));
}

#[test]
fn test_set_color() {
    let mut pixels = Pixels::new(4, 2);

    for col in 0..4 {
        pixels.set_color(
            0,
            col,
            color(
                if col == 1 { 1. } else { 0. },
                if col == 2 { 1. } else { 0. },
                if col == 3 { 1. } else { 0. },
            ),
        );
        pixels.set_color(
            1,
            col,
            color(
                if col != 1 { 1. } else { 0. },
                if col != 2 { 1. } else { 0. },
                if col != 3 { 1. } else { 0. },
            ),
        );
    }

    assert_eq!(pixels.width, 4);
    assert_eq!(pixels.height, 2);
    assert_eq!(pixels.bytes(), &get_expected_pixels());
}

#[test]
fn new_with_no_pixels_is_empty() {
    assert!(Pixels::new(0, 7).bytes().is_empty());
    assert!(Pixels::new(7, 0).bytes().is_empty());
}

#[test]
fn set_color_touches_three_bytes_only() {
    let mut pixels = Pixels::new(3, 3);
    pixels.set_color(1, 2, Rgb8 { red: 10, green: 20, blue: 30 });

    let mut expected = vec![0u8; 27];
    expected[15] = 10;
    expected[16] = 20;
    expected[17] = 30;
    assert_eq!(pixels.bytes(), &expected);
}

#[test]
fn set_color_overwrites() {
    let mut pixels = Pixels::new(2, 1);
    pixels.set_color(0, 1, Rgb8 { red: 1, green: 2, blue: 3 });
    pixels.set_color(0, 1, Rgb8 { red: 4, green: 5, blue: 6 });

    assert_eq!(pixels.bytes(), &vec![0, 0, 0, 4, 5, 6]);
}
