use raytracer_rust::renderer::{ConfigError, Renderer};
use raytracer_rust::tiles::Tile;

fn renderer(tile_size: usize) -> Renderer {
    Renderer {
        rays_per_pixel: 1,
        tile_size,
        max_bounces: 1,
    }
}

fn tile(from: (usize, usize), to: (usize, usize)) -> Tile {
    Tile { from, to }
}

/// How often each pixel of the image is met when the tiles are taken in
/// order and the pixels of each tile in order.
fn visits(width: usize, height: usize, tile_size: usize) -> Vec<usize> {
    let mut count = vec![0usize; width * height];
    for tile in renderer(tile_size).tiles(width, height) {
        for (row, col) in tile.pixels() {
            assert!(row < height && col < width);
            count[row * width + col] += 1;
        }
    }
    count
}

#[test]
fn tiling_20_by_20_with_16() {
    let tiles = renderer(16).tiles(20, 20);

    assert_eq!(
        tiles,
        vec![
            tile((0, 0), (16, 16)),
            tile((0, 16), (16, 20)),
            tile((16, 0), (20, 16)),
            tile((16, 16), (20, 20)),
        ]
    );
}

#[test]
fn tiling_20_by_20_has_no_overlap_and_no_gap() {
    assert_eq!(visits(20, 20, 16), vec![1usize; 400]);
}

#[test]
fn tiling_visits_each_pixel_once() {
    assert_eq!(visits(7, 5, 3), vec![1usize; 35]);
    assert_eq!(visits(5, 7, 2), vec![1usize; 35]);
    assert_eq!(visits(1, 1, 1), vec![1usize; 1]);
    assert_eq!(visits(5, 5, 8), vec![1usize; 25]);
    assert_eq!(visits(9, 4, 1), vec![1usize; 36]);
}

#[test]
fn tiling_of_exact_multiples_is_not_clipped() {
    assert_eq!(
        renderer(16).tiles(32, 16),
        vec![tile((0, 0), (16, 16)), tile((0, 16), (16, 32))]
    );
    assert_eq!(
        renderer(16).tiles(16, 32),
        vec![tile((0, 0), (16, 16)), tile((16, 0), (32, 16))]
    );
}

#[test]
fn tiling_is_wider_than_high() {
    assert_eq!(
        renderer(4).tiles(10, 3),
        vec![
            tile((0, 0), (3, 4)),
            tile((0, 4), (3, 8)),
            tile((0, 8), (3, 10)),
        ]
    );
}

#[test]
fn tile_larger_than_image_is_the_image() {
    assert_eq!(renderer(64).tiles(20, 10), vec![tile((0, 0), (10, 20))]);
}

#[test]
fn empty_image_has_no_tiles() {
    assert!(renderer(16).tiles(0, 0).is_empty());
    assert!(renderer(16).tiles(20, 0).is_empty());
    assert!(renderer(16).tiles(0, 20).is_empty());
}

#[test]
fn tiling_with_the_largest_tile_size() {
    assert_eq!(
        renderer(usize::MAX).tiles(3, 2),
        vec![tile((0, 0), (2, 3))]
    );
}

#[test]
fn tile_pixels_go_row_by_row() {
    assert_eq!(
        tile((1, 2), (3, 5)).pixels(),
        vec![(1, 2), (1, 3), (1, 4), (2, 2), (2, 3), (2, 4)]
    );
}

#[test]
fn tile_without_rows_or_columns_has_no_pixels() {
    assert!(tile((3, 0), (3, 4)).pixels().is_empty());
    assert!(tile((0, 4), (3, 4)).pixels().is_empty());
    assert!(tile((5, 5), (2, 9)).pixels().is_empty());
    assert!(tile((5, 5), (9, 2)).pixels().is_empty());
}

#[test]
fn default_renderer() {
    let renderer = Renderer::default();

    assert_eq!(renderer.rays_per_pixel, 512);
    assert_eq!(renderer.tile_size, 16);
    assert_eq!(renderer.max_bounces, 16);
    assert_eq!(renderer.validate(), Ok(()));
}

#[test]
fn validate_rejects_no_rays() {
    let renderer = Renderer {
        rays_per_pixel: 0,
        tile_size: 16,
        max_bounces: 16,
    };
    assert_eq!(renderer.validate(), Err(ConfigError::NoRays));

    let renderer = Renderer {
        rays_per_pixel: 0,
        tile_size: 0,
        max_bounces: 16,
    };
    assert_eq!(renderer.validate(), Err(ConfigError::NoRays));
}

#[test]
fn validate_rejects_empty_tiles() {
    let renderer = Renderer {
        rays_per_pixel: 4,
        tile_size: 0,
        max_bounces: 16,
    };
    assert_eq!(renderer.validate(), Err(ConfigError::EmptyTile));
}

#[test]
fn validate_accepts_no_bounces() {
    let renderer = Renderer {
        rays_per_pixel: 1,
        tile_size: 1,
        max_bounces: 0,
    };
    assert_eq!(renderer.validate(), Ok(()));
}
