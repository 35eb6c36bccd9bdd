//! The configuration of a render and the work plan derived from it.

use vstd::prelude::*;
use vstd::arithmetic::div_mod::lemma_fundamental_div_mod_converse;
use crate::pixels::Rgb8;
use crate::raster::{composed, lemma_shown_agreeing, Sample};
use crate::tiles::{
    lemma_every_pixel_once, lemma_tiles_along, lemma_tiling_partitions, owner, tile_at,
    tiles_along, tiling, Tile,
};

verus! {

/// How an image is rendered: the number of light paths averaged per pixel,
/// the side of the square tiles that are handed out as units of work, and
/// the number of surface interactions after which a path is given up.
#[derive(Debug, Clone, Copy, PartialEq, Eq)]
pub struct Renderer {
    pub rays_per_pixel: usize,
    pub tile_size: usize,
    pub max_bounces: usize,
}

/// Why a configuration cannot be rendered.
#[derive(Debug, Clone, Copy, PartialEq, Eq, Structural)]
pub enum ConfigError {
    /// No path would be traced for any pixel.
    NoRays,
    /// Tiles of side zero cannot cover an image.
    EmptyTile,
}

impl Default for Renderer {
    fn default() -> (r: Renderer)
        ensures
            r.rays_per_pixel == 512,
            r.tile_size == 16,
            r.max_bounces == 16,
    {
        Renderer { rays_per_pixel: 512, tile_size: 16, max_bounces: 16 }
    }
}

impl Renderer {
    /// The configuration can be rendered: it traces at least one path per
    /// pixel and its tiles are not empty.
    pub open spec fn valid(self) -> bool {
        self.rays_per_pixel > 0 && self.tile_size > 0
    }

    /// Accepts exactly the valid configurations. One that traces no path is
    /// reported as `NoRays`, whatever its tile size; any other with empty
    /// tiles as `EmptyTile`.
    pub fn validate(&self) -> (r: Result<(), ConfigError>)
        ensures
            r is Ok <==> self.valid(),
            r == Err::<(), ConfigError>(ConfigError::NoRays) <==> self.rays_per_pixel == 0,
            r == Err::<(), ConfigError>(ConfigError::EmptyTile) <==> self.rays_per_pixel > 0
                && self.tile_size == 0,
    {
        if self.rays_per_pixel == 0 {
            Err(ConfigError::NoRays)
        } else if self.tile_size == 0 {
            Err(ConfigError::EmptyTile)
        } else {
            Ok(())
        }
    }

    /// The tiles of a `width` x `height` image, row by row and from left to
    /// right within a row. Every pixel of the image lies in exactly one of
    /// them, the one that `owner` names, and no tile reaches outside the
    /// image.
    pub fn tiles(&self, width: usize, height: usize) -> (r: Vec<Tile>)
        requires
            self.tile_size > 0,
            tiles_along(height as int, self.tile_size as int) * tiles_along(
                width as int,
                self.tile_size as int,
            ) <= usize::MAX,
        ensures
            r@ == tiling(width, height, self.tile_size),
            forall|row: int, col: int|
                0 <= row < height && 0 <= col < width ==> 0 <= (#[trigger] owner(
                    width,
                    self.tile_size,
                    row,
                    col,
                )) < r@.len() && r@[owner(width, self.tile_size, row, col)].contains(row, col),
            forall|k: int, row: int, col: int|
                0 <= k < r@.len() && (#[trigger] r@[k].contains(row, col)) ==> k == owner(
                    width,
                    self.tile_size,
                    row,
                    col,
                ) && 0 <= row < height && 0 <= col < width,
    {
        let size: usize = self.tile_size;
        let ghost per_row = tiles_along(width as int, size as int);
        let ghost n_rows = tiles_along(height as int, size as int);
        let mut tiles: Vec<Tile> = Vec::new();
        let mut row: usize = 0;
        let ghost mut i: int = 0;
        proof {
            lemma_tiles_along(height as int, size as int, 0);
            lemma_tiles_along(width as int, size as int, 0);
            assert(0 * per_row == 0);
            assert(0 * size == 0);
        }
        while row < height
            invariant
                size == self.tile_size,
                size > 0,
                per_row == tiles_along(width as int, size as int),
                n_rows == tiles_along(height as int, size as int),
                0 <= per_row,
                0 <= i <= n_rows,
                i < n_rows ==> row == i * size,
                i == n_rows ==> row == height,
                row <= height,
                tiles@.len() == i * per_row,
                forall|k: int|
                    0 <= k < tiles@.len() ==> tiles@[k] == tile_at(width, height, size, k),
            decreases height - row,
        {
            proof {
                lemma_tiles_along(height as int, size as int, i + 1);
                assert((i + 1) * size == i * size + size) by (nonlinear_arith);
            }
            let row_end: usize = if height - row > size {
                row + size
            } else {
                height
            };
            let mut col: usize = 0;
            let ghost mut j: int = 0;
            proof {
                lemma_tiles_along(width as int, size as int, 0);
                assert(0 * size == 0);
            }
            while col < width
                invariant
                    size == self.tile_size,
                    size > 0,
                    per_row == tiles_along(width as int, size as int),
                    0 <= i,
                    row == i * size,
                    row < height,
                    row_end == (if row + size < height {
                        (row + size) as usize
                    } else {
                        height
                    }),
                    0 <= j <= per_row,
                    j < per_row ==> col == j * size,
                    j == per_row ==> col == width,
                    col <= width,
                    tiles@.len() == i * per_row + j,
                    forall|k: int|
                        0 <= k < tiles@.len() ==> tiles@[k] == tile_at(width, height, size, k),
                decreases width - col,
            {
                proof {
                    lemma_tiles_along(width as int, size as int, j + 1);
                    assert((j + 1) * size == j * size + size) by (nonlinear_arith);
                    lemma_fundamental_div_mod_converse(i * per_row + j, per_row, i, j);
                }
                let col_end: usize = if width - col > size {
                    col + size
                } else {
                    width
                };
                tiles.push(Tile { from: (row, col), to: (row_end, col_end) });
                col = col_end;
                proof {
                    j = j + 1;
                }
            }
            row = row_end;
            proof {
                lemma_tiles_along(width as int, size as int, j);
                assert(i * per_row + per_row == (i + 1) * per_row) by (nonlinear_arith);
                i = i + 1;
            }
        }
        proof {
            lemma_tiles_along(height as int, size as int, i);
            assert(tiles@ =~= tiling(width, height, size));
            assert forall|row: int, col: int| 0 <= row < height && 0 <= col < width implies 0
                <= (#[trigger] owner(width, size, row, col)) < tiles@.len() && tiles@[owner(
                width,
                size,
                row,
                col,
            )].contains(row, col) by {
                lemma_tiling_partitions(width, height, size, row, col, 0);
            }
            assert forall|k: int, row: int, col: int|
                0 <= k < tiles@.len() && (#[trigger] tiles@[k].contains(row, col)) implies k
                == owner(width, size, row, col) && 0 <= row < height && 0 <= col < width by {
                lemma_tiling_partitions(width, height, size, row, col, k);
            }
        }
        tiles
    }
}

/// A render leaves no pixel out: where a sample was taken for every pixel of
/// every tile, and each sample carries the color that `shade` gives its
/// pixel, the composed image shows at every pixel the color that `shade`
/// gives it, in whatever order the tiles were finished.
pub proof fn lemma_render_shows_shading(
    width: usize,
    height: usize,
    tile_size: usize,
    samples: Seq<Sample>,
    shade: spec_fn(int, int) -> Rgb8,
    row: int,
    col: int,
)
    requires
        tile_size > 0,
        0 <= row < height,
        0 <= col < width,
        forall|j: int|
            0 <= j < samples.len() ==> (#[trigger] samples[j]).2 == shade(
                samples[j].0 as int,
                samples[j].1 as int,
            ),
        forall|k: int, i: int|
            0 <= k < tiling(width, height, tile_size).len() && 0 <= i < tiling(
                width,
                height,
                tile_size,
            )[k].coordinates().len() ==> exists|j: int|
                0 <= j < samples.len() && (#[trigger] samples[j]).0 == (#[trigger] tiling(
                    width,
                    height,
                    tile_size,
                )[k].coordinates()[i]).0 && samples[j].1 == tiling(
                    width,
                    height,
                    tile_size,
                )[k].coordinates()[i].1,
    ensures
        0 <= row * width + col < composed(width as int, height as int, samples).len(),
        composed(width as int, height as int, samples)[row * width + col] == shade(row, col),
{
    let tiles = tiling(width, height, tile_size);
    lemma_every_pixel_once(width, height, tile_size, row, col, 0, 0);
    let own = owner(width, tile_size, row, col);
    let place = tiles[own].index_of(row, col);
    assert(tiles[own].coordinates()[place] == (row as usize, col as usize));
    let j = choose|j: int|
        0 <= j < samples.len() && (#[trigger] samples[j]).0 == tiles[own].coordinates()[place].0
            && samples[j].1 == tiles[own].coordinates()[place].1;
    assert(samples[j].0 == row && samples[j].1 == col);
    lemma_shown_agreeing(samples, row, col, shade(row, col));
    lemma_fundamental_div_mod_converse(row * width + col, width as int, row, col);
    assert(0 <= row * width && row * width + width <= height * width && width * height == height
        * width) by (nonlinear_arith)
        requires
            0 <= row < height,
            0 < width,
    ;
}

} // verus!
