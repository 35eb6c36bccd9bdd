//! The partition of an image into square tiles, clipped at the image's
//! right and bottom edges. A tile is an independent unit of work: tiles
//! never share a pixel, and together they hold every pixel of the image.

use vstd::prelude::*;
use vstd::arithmetic::div_mod::{lemma_fundamental_div_mod, lemma_fundamental_div_mod_converse};

verus! {

/// A rectangle of pixels: the rows `from.0 .. to.0` and the columns
/// `from.1 .. to.1`. Both corners are (row, column); `to` is excluded.
#[derive(Debug, Clone, Copy, PartialEq, Eq)]
pub struct Tile {
    pub from: (usize, usize),
    pub to: (usize, usize),
}

impl Tile {
    /// The pixel at (`row`, `col`) belongs to this tile.
    pub open spec fn contains(self, row: int, col: int) -> bool {
        self.from.0 <= row < self.to.0 && self.from.1 <= col < self.to.1
    }

    /// Number of rows in the tile; none if `to` lies before `from`.
    pub open spec fn rows(self) -> nat {
        if self.to.0 > self.from.0 {
            (self.to.0 - self.from.0) as nat
        } else {
            0
        }
    }

    /// Number of columns in the tile; none if `to` lies before `from`.
    pub open spec fn cols(self) -> nat {
        if self.to.1 > self.from.1 {
            (self.to.1 - self.from.1) as nat
        } else {
            0
        }
    }

    /// The `i`-th pixel of the tile, counting row by row.
    pub open spec fn pixel_at(self, i: int) -> (usize, usize) {
        ((self.from.0 + i / (self.cols() as int)) as usize, (self.from.1 + i % (
        self.cols() as int)) as usize)
    }

    /// The pixels of the tile: rows from top to bottom, each from left to
    /// right.
    pub open spec fn coordinates(self) -> Seq<(usize, usize)> {
        Seq::new(self.rows() * self.cols(), |i: int| self.pixel_at(i))
    }

    /// Position of the pixel (`row`, `col`) among the tile's coordinates.
    pub open spec fn index_of(self, row: int, col: int) -> int {
        (row - self.from.0) * self.cols() + (col - self.from.1)
    }

    /// The coordinates of every pixel of the tile, in the order in which a
    /// renderer visits them.
    pub fn pixels(&self) -> (r: Vec<(usize, usize)>)
        requires
            self.rows() * self.cols() <= usize::MAX,
        ensures
            r@ == self.coordinates(),
    {
        let mut pixels: Vec<(usize, usize)> = Vec::new();
        let ghost cols = self.cols() as int;
        let mut row: usize = self.from.0;
        while row < self.to.0
            invariant
                cols == self.cols(),
                self.from.0 <= row,
                self.rows() == 0 ==> row == self.from.0,
                self.rows() > 0 ==> row <= self.to.0,
                pixels@.len() == (row - self.from.0) * cols,
                forall|i: int| 0 <= i < pixels@.len() ==> pixels@[i] == self.pixel_at(i),
            decreases self.to.0 - row,
        {
            let mut col: usize = self.from.1;
            while col < self.to.1
                invariant
                    cols == self.cols(),
                    self.from.0 <= row < self.to.0,
                    self.from.1 <= col,
                    cols == 0 ==> col == self.from.1,
                    cols > 0 ==> col <= self.to.1,
                    pixels@.len() == (row - self.from.0) * cols + (col - self.from.1),
                    forall|i: int| 0 <= i < pixels@.len() ==> pixels@[i] == self.pixel_at(i),
                decreases self.to.1 - col,
            {
                proof {
                    let i = (row - self.from.0) * cols + (col - self.from.1);
                    lemma_fundamental_div_mod_converse(
                        i,
                        cols,
                        row - self.from.0,
                        col - self.from.1,
                    );
                    assert(self.pixel_at(i) == (row, col));
                }
                pixels.push((row, col));
                col = col + 1;
            }
            proof {
                assert((row - self.from.0) * cols + cols == (row + 1 - self.from.0) * cols)
                    by (nonlinear_arith);
            }
            row = row + 1;
        }
        proof {
            assert((row - self.from.0) * cols == self.rows() * self.cols()) by (nonlinear_arith)
                requires
                    cols == self.cols(),
                    row - self.from.0 == self.rows(),
            ;
            assert(pixels@ =~= self.coordinates());
        }
        pixels
    }
}

/// A tile lists each of its pixels exactly once: the pixel (`row`, `col`) of
/// the tile stands at `index_of(row, col)` among its coordinates, and every
/// coordinate is a pixel of the tile standing at its own index.
pub proof fn lemma_coordinates_enumerate(tile: Tile, row: int, col: int, i: int)
    ensures
        tile.contains(row, col) ==> 0 <= tile.index_of(row, col) < tile.coordinates().len()
            && tile.coordinates()[tile.index_of(row, col)] == (row as usize, col as usize),
        0 <= i < tile.coordinates().len() ==> tile.contains(
            tile.coordinates()[i].0 as int,
            tile.coordinates()[i].1 as int,
        ) && tile.index_of(tile.coordinates()[i].0 as int, tile.coordinates()[i].1 as int) == i,
{
    let cols = tile.cols() as int;
    let rows = tile.rows() as int;
    if tile.contains(row, col) {
        let k = tile.index_of(row, col);
        lemma_fundamental_div_mod_converse(k, cols, row - tile.from.0, col - tile.from.1);
        assert(0 <= (row - tile.from.0) * cols && (row - tile.from.0) * cols + cols <= rows
            * cols) by (nonlinear_arith)
            requires
                0 <= row - tile.from.0 < rows,
                0 <= cols,
        ;
    }
    if 0 <= i < tile.coordinates().len() {
        assert(cols > 0 && rows > 0) by (nonlinear_arith)
            requires
                0 <= i < rows * cols,
                0 <= cols,
                0 <= rows,
        ;
        lemma_fundamental_div_mod(i, cols);
        assert(0 <= i / cols < rows) by (nonlinear_arith)
            requires
                0 <= i < rows * cols,
                i == cols * (i / cols) + i % cols,
                0 <= i % cols < cols,
        ;
        assert((i / cols) * cols == cols * (i / cols)) by (nonlinear_arith);
    }
}

/// Number of tiles of side `tile_size` needed to span `len` pixels.
pub open spec fn tiles_along(len: int, tile_size: int) -> int {
    (len + tile_size - 1) / tile_size
}

/// The `k`-th tile of a `width` x `height` image, counting the tiles row by
/// row: a square of side `tile_size`, clipped to the image.
pub open spec fn tile_at(width: usize, height: usize, tile_size: usize, k: int) -> Tile {
    let per_row = tiles_along(width as int, tile_size as int);
    let row = (k / per_row) * tile_size;
    let col = (k % per_row) * tile_size;
    Tile {
        from: (row as usize, col as usize),
        to: (
            if row + tile_size < height {
                (row + tile_size) as usize
            } else {
                height
            },
            if col + tile_size < width {
                (col + tile_size) as usize
            } else {
                width
            },
        ),
    }
}

/// The tiles of a `width` x `height` image, row by row.
pub open spec fn tiling(width: usize, height: usize, tile_size: usize) -> Seq<Tile> {
    Seq::new(
        (tiles_along(height as int, tile_size as int) * tiles_along(
            width as int,
            tile_size as int,
        )) as nat,
        |k: int| tile_at(width, height, tile_size, k),
    )
}

/// Index, in the tiling, of the tile that holds the pixel (`row`, `col`).
pub open spec fn owner(width: usize, tile_size: usize, row: int, col: int) -> int {
    (row / (tile_size as int)) * tiles_along(width as int, tile_size as int) + col / (
    tile_size as int)
}

/// The `i`-th tile along an axis starts inside the image exactly when `i`
/// is less than the number of tiles along that axis.
pub proof fn lemma_tiles_along(len: int, tile_size: int, i: int)
    requires
        0 <= len,
        0 < tile_size,
        0 <= i,
    ensures
        i < tiles_along(len, tile_size) <==> i * tile_size < len,
        0 <= tiles_along(len, tile_size),
{
    let n = tiles_along(len, tile_size);
    lemma_fundamental_div_mod(len + tile_size - 1, tile_size);
    let r = (len + tile_size - 1) % tile_size;
    assert(0 <= r < tile_size);
    assert(len + tile_size - 1 == tile_size * n + r);
    assert(0 <= n) by (nonlinear_arith)
        requires
            len + tile_size - 1 == tile_size * n + r,
            0 <= r < tile_size,
            0 <= len,
            0 < tile_size,
    ;
    if i < n {
        assert(i * tile_size < len) by (nonlinear_arith)
            requires
                i <= n - 1,
                0 < tile_size,
                len + tile_size - 1 == tile_size * n + r,
                0 <= r,
        ;
    } else {
        assert(i * tile_size >= len) by (nonlinear_arith)
            requires
                i >= n,
                0 < tile_size,
                len + tile_size - 1 == tile_size * n + r,
                r < tile_size,
        ;
    }
}

/// An axis never needs more tiles than it has pixels.
pub proof fn lemma_tiles_along_bound(len: int, tile_size: int)
    requires
        0 <= len,
        0 < tile_size,
    ensures
        0 <= tiles_along(len, tile_size) <= len,
{
    lemma_tiles_along(len, tile_size, len);
    assert(len * tile_size >= len) by (nonlinear_arith)
        requires
            0 <= len,
            1 <= tile_size,
    ;
}

/// A position `x` below `len` falls in the tile number `x / tile_size`
/// along its axis, and in no other.
proof fn lemma_axis_owner(len: int, tile_size: int, x: int, i: int)
    requires
        0 <= x < len,
        0 < tile_size,
        0 <= i,
    ensures
        0 <= x / tile_size < tiles_along(len, tile_size),
        (i * tile_size <= x && (x < i * tile_size + tile_size)) <==> i == x / tile_size,
{
    lemma_fundamental_div_mod(x, tile_size);
    let q = x / tile_size;
    let r = x % tile_size;
    assert(0 <= q) by (nonlinear_arith)
        requires
            x == tile_size * q + r,
            0 <= r < tile_size,
            0 <= x,
    ;
    assert(q * tile_size <= x) by (nonlinear_arith)
        requires
            x == tile_size * q + r,
            0 <= r,
    ;
    lemma_tiles_along(len, tile_size, q);
    if i * tile_size <= x && x < i * tile_size + tile_size {
        lemma_fundamental_div_mod_converse(x, tile_size, i, x - i * tile_size);
    }
    if i == q {
        assert(i * tile_size <= x && x < i * tile_size + tile_size) by (nonlinear_arith)
            requires
                i == q,
                x == tile_size * q + r,
                0 <= r < tile_size,
        ;
    }
}

/// The tiling leaves no gap and no overlap: every pixel of the image lies
/// in the tile that `owner` names, and a tile that holds a pixel is that
/// tile and the pixel is one of the image.
pub proof fn lemma_tiling_partitions(
    width: usize,
    height: usize,
    tile_size: usize,
    row: int,
    col: int,
    k: int,
)
    requires
        tile_size > 0,
    ensures
        0 <= row < height && 0 <= col < width ==> 0 <= owner(width, tile_size, row, col) < tiling(
            width,
            height,
            tile_size,
        ).len() && tiling(width, height, tile_size)[owner(width, tile_size, row, col)].contains(
            row,
            col,
        ),
        0 <= k < tiling(width, height, tile_size).len() && tiling(
            width,
            height,
            tile_size,
        )[k].contains(row, col) ==> k == owner(width, tile_size, row, col) && 0 <= row < height
            && 0 <= col < width,
{
    let ts = tile_size as int;
    let per_row = tiles_along(width as int, ts);
    let n_rows = tiles_along(height as int, ts);
    lemma_tiles_along(width as int, ts, 0);
    lemma_tiles_along(height as int, ts, 0);
    if 0 <= row < height && 0 <= col < width {
        let a = row / ts;
        let b = col / ts;
        let o = owner(width, tile_size, row, col);
        lemma_axis_owner(height as int, ts, row, a);
        lemma_axis_owner(width as int, ts, col, b);
        lemma_fundamental_div_mod_converse(o, per_row, a, b);
        assert(0 <= a * per_row && a * per_row + per_row <= n_rows * per_row) by (nonlinear_arith)
            requires
                0 <= a < n_rows,
                0 <= per_row,
        ;
        lemma_tile_span(width, height, tile_size, o);
    }
    if 0 <= k < tiling(width, height, tile_size).len() && tiling(width, height, tile_size)[k].contains(
        row,
        col,
    ) {
        lemma_tile_span(width, height, tile_size, k);
        let a = k / per_row;
        let b = k % per_row;
        lemma_axis_owner(height as int, ts, row, a);
        lemma_axis_owner(width as int, ts, col, b);
        lemma_fundamental_div_mod(k, per_row);
        assert(a * per_row == per_row * a) by (nonlinear_arith);
    }
}

/// Where the `k`-th tile lies: it starts at a multiple of `tile_size` inside
/// the image, on both axes, and ends `tile_size` further or at the image's
/// edge.
pub proof fn lemma_tile_span(width: usize, height: usize, tile_size: usize, k: int)
    requires
        tile_size > 0,
        0 <= k < tiling(width, height, tile_size).len(),
    ensures
        ({
            let per_row = tiles_along(width as int, tile_size as int);
            let n_rows = tiles_along(height as int, tile_size as int);
            let tile = tile_at(width, height, tile_size, k);
            &&& 0 < per_row
            &&& 0 <= k / per_row < n_rows
            &&& 0 <= k % per_row < per_row
            &&& tile.from.0 == (k / per_row) * tile_size
            &&& tile.from.1 == (k % per_row) * tile_size
            &&& tile.from.0 < tile.to.0 <= height
            &&& tile.from.1 < tile.to.1 <= width
            &&& tile.to.0 <= tile.from.0 + tile_size
            &&& tile.to.1 <= tile.from.1 + tile_size
            &&& tile.to.0 == tile.from.0 + tile_size || tile.to.0 == height
            &&& tile.to.1 == tile.from.1 + tile_size || tile.to.1 == width
        }),
{
    let ts = tile_size as int;
    let per_row = tiles_along(width as int, ts);
    let n_rows = tiles_along(height as int, ts);
    lemma_tiles_along(width as int, ts, 0);
    lemma_tiles_along(height as int, ts, 0);
    assert(per_row > 0 && n_rows > 0) by (nonlinear_arith)
        requires
            0 <= k < n_rows * per_row,
            0 <= per_row,
            0 <= n_rows,
    ;
    lemma_fundamental_div_mod(k, per_row);
    let a = k / per_row;
    let b = k % per_row;
    assert(0 <= a < n_rows) by (nonlinear_arith)
        requires
            0 <= k < n_rows * per_row,
            k == per_row * a + b,
            0 <= b < per_row,
    ;
    lemma_tiles_along(height as int, ts, a);
    lemma_tiles_along(width as int, ts, b);
    assert(0 <= a * ts) by (nonlinear_arith)
        requires
            0 <= a,
            0 < ts,
    ;
    assert(0 <= b * ts) by (nonlinear_arith)
        requires
            0 <= b,
            0 < ts,
    ;
}

/// A renderer that takes the tiles of an image one by one, and the pixels
/// of each tile in order, meets every pixel of the image exactly once: the
/// pixel (`row`, `col`) stands at one place of one tile, and whatever
/// stands at the place `i` of the tile `k` is a pixel of the image found
/// nowhere else.
pub proof fn lemma_every_pixel_once(
    width: usize,
    height: usize,
    tile_size: usize,
    row: int,
    col: int,
    k: int,
    i: int,
)
    requires
        tile_size > 0,
    ensures
        0 <= row < height && 0 <= col < width ==> ({
            let tiles = tiling(width, height, tile_size);
            let own = owner(width, tile_size, row, col);
            &&& 0 <= own < tiles.len()
            &&& 0 <= tiles[own].index_of(row, col) < tiles[own].coordinates().len()
            &&& tiles[own].coordinates()[tiles[own].index_of(row, col)] == (
                row as usize,
                col as usize,
            )
        }),
        ({
            let tiles = tiling(width, height, tile_size);
            0 <= k < tiles.len() && 0 <= i < tiles[k].coordinates().len() ==> {
                let pixel = tiles[k].coordinates()[i];
                &&& pixel.0 < height
                &&& pixel.1 < width
                &&& k == owner(width, tile_size, pixel.0 as int, pixel.1 as int)
                &&& i == tiles[k].index_of(pixel.0 as int, pixel.1 as int)
            }
        }),
{
    let tiles = tiling(width, height, tile_size);
    if 0 <= row < height && 0 <= col < width {
        lemma_tiling_partitions(width, height, tile_size, row, col, 0);
        let own = owner(width, tile_size, row, col);
        lemma_coordinates_enumerate(tiles[own], row, col, 0);
    }
    if 0 <= k < tiles.len() && 0 <= i < tiles[k].coordinates().len() {
        lemma_coordinates_enumerate(tiles[k], 0, 0, i);
        let pixel = tiles[k].coordinates()[i];
        lemma_tiling_partitions(width, height, tile_size, pixel.0 as int, pixel.1 as int, k);
    }
}

} // verus!
