//! From escape counts to a finished image: shading tile by tile, and
//! putting the tiles together.

use vstd::prelude::*;
use crate::buffer::{addressable, lemma_pixel_offset, pixel_offset, PixelArrayBuffer};
use crate::color::{classify, color_of, Rgb};
use crate::grid::{
    check_partition, covered, is_partition, lemma_fault_excludes_partition,
    lemma_partition_unique, lemma_quadrants_are_partition, tiling_fault, ImageDim, Tile,
    TilingError,
};

verus! {

/// The colours of one tile: what one worker hands in.
pub struct TilePixels {
    tile: Tile,
    colors: Vec<Rgb>,
}

impl TilePixels {
    #[verifier::type_invariant]
    spec fn well_formed(self) -> bool {
        self.tile.wf() && self.colors@.len() == self.tile.area()
    }

    /// The rectangle that the colours belong to.
    pub closed spec fn tile(&self) -> Tile {
        self.tile
    }

    /// The colours, column by column.
    pub closed spec fn colors(&self) -> Seq<Rgb> {
        self.colors@
    }

    /// The colour held for pixel (`x`, `y`) of the grid.
    pub open spec fn color_at(&self, x: int, y: int) -> Rgb
        recommends
            self.tile().has(x, y),
    {
        self.colors()[self.tile().local_index(x, y)]
    }

    pub fn region(&self) -> (tile: Tile)
        ensures
            tile == self.tile(),
            tile.wf(),
            self.colors().len() == tile.area(),
    {
        proof {
            use_type_invariant(self);
        }
        self.tile
    }

    /// The colour of pixel (`x`, `y`) of the grid, which lies in the tile.
    pub fn at(&self, x: usize, y: usize) -> (c: Rgb)
        requires
            self.tile().has(x as int, y as int),
        ensures
            c == self.color_at(x as int, y as int),
    {
        proof {
            use_type_invariant(self);
            self.tile.lemma_local_index(x as int, y as int);
        }
        assert(self.colors.len() == self.tile.area());
        let at: usize = (x - self.tile.left) * (self.tile.bottom - self.tile.top) + (y
            - self.tile.top);
        self.colors[at]
    }
}

/// The counts shaded one by one.
pub open spec fn shade(counts: Seq<u32>, cap: u32, set_color: Rgb) -> Seq<Rgb> {
    counts.map_values(|count: u32| color_of(count, cap, set_color))
}

/// Whether no count exceeds the cap.
pub open spec fn counts_within(counts: Seq<u32>, cap: u32) -> bool {
    forall|i: int| 0 <= i < counts.len() ==> #[trigger] counts[i] <= cap
}

/// Shades one tile: `counts` holds the escape count of each of its pixels,
/// column by column, and each becomes the colour that `classify` gives it.
pub fn shade_tile(tile: &Tile, counts: &[u32], cap: u32, set_color: &Rgb) -> (part: TilePixels)
    requires
        tile.wf(),
        counts@.len() == tile.area(),
        counts_within(counts@, cap),
    ensures
        part.tile() == *tile,
        part.colors() == shade(counts@, cap, *set_color),
{
    let mut colors: Vec<Rgb> = Vec::new();
    let mut i: usize = 0;
    while i < counts.len()
        invariant
            i <= counts@.len(),
            counts_within(counts@, cap),
            colors@ == shade(counts@.take(i as int), cap, *set_color),
        decreases counts@.len() - i,
    {
        let color = classify(counts[i], cap, set_color);
        colors.push(color);
        assert(counts@.take(i + 1) == counts@.take(i as int).push(counts@[i as int]));
        assert(colors@ =~= shade(counts@.take(i + 1), cap, *set_color));
        i += 1;
    }
    assert(counts@.take(i as int) == counts@);
    TilePixels { tile: *tile, colors }
}

/// The tiles of the parts, in their order.
pub open spec fn tiles_of(parts: Seq<TilePixels>) -> Seq<Tile> {
    parts.map_values(|part: TilePixels| part.tile())
}

/// Whether the buffer agrees with the part at pixel (`x`, `y`), where the
/// part's tile holds that pixel.
pub open spec fn painted(buf: &PixelArrayBuffer, part: TilePixels, x: int, y: int) -> bool {
    part.tile().has(x, y) ==> buf.pixel(x, y) == part.color_at(x, y)
}

/// Whether the buffer has the size of the grid and zero in every padding
/// byte.
pub open spec fn fits_grid(buf: &PixelArrayBuffer, dims: ImageDim) -> bool {
    &&& buf.spec_width() == dims.width
    &&& buf.spec_height() == dims.height
    &&& buf.bytes().len() == 4 * dims.area()
    &&& forall|x: int, y: int| dims.has(x, y) ==> #[trigger] buf.padding(x, y) == 0
}

/// Whether the buffer is the parts put together: each pixel has the colour
/// that the part with its tile holds for it.
pub open spec fn assembled(buf: &PixelArrayBuffer, dims: ImageDim, parts: Seq<TilePixels>) -> bool {
    &&& fits_grid(buf, dims)
    &&& forall|k: int, x: int, y: int|
        0 <= k < parts.len() ==> #[trigger] painted(buf, parts[k], x, y)
}

/// Whether the buffer is the image of the counts: pixel (`x`, `y`) has the
/// colour of the count at its index in the grid.
pub open spec fn shows(
    buf: &PixelArrayBuffer,
    dims: ImageDim,
    counts: Seq<u32>,
    cap: u32,
    set_color: Rgb,
) -> bool {
    &&& fits_grid(buf, dims)
    &&& forall|x: int, y: int|
        dims.has(x, y) ==> #[trigger] buf.pixel(x, y) == color_of(
            counts[dims.index(x, y)],
            cap,
            set_color,
        )
}

/// Every byte of a buffer belongs to one pixel of its grid: byte `i` is
/// channel `i % 4` of the pixel in column `i / 4 / height` and row
/// `i / 4 % height`.
pub proof fn lemma_byte_of_pixel(dims: ImageDim, i: int)
    requires
        0 <= i < 4 * dims.area(),
    ensures
        dims.has(i / 4 / (dims.height as int), i / 4 % (dims.height as int)),
        i == pixel_offset(
            i / 4 / (dims.height as int),
            i / 4 % (dims.height as int),
            dims.height as int,
        ) + i % 4,
        0 <= i % 4 < 4,
{
    let h = dims.height as int;
    let w = dims.width as int;
    let p = i / 4;
    assert(0 < h && 0 < w) by (nonlinear_arith)
        requires
            0 < 4 * (w * h),
            0 <= w,
            0 <= h,
    ;
    assert(0 <= p < w * h);
    vstd::arithmetic::div_mod::lemma_fundamental_div_mod(p, h);
    vstd::arithmetic::div_mod::lemma_mod_bound(p, h);
    let x = p / h;
    let y = p % h;
    assert(0 <= x < w) by (nonlinear_arith)
        requires
            p == h * x + y,
            0 <= y < h,
            0 <= p < w * h,
    ;
    assert(h * x == x * h) by (nonlinear_arith);
}

/// The image of the counts is one buffer and no other: two buffers that
/// show the same counts, whatever tiles each was rendered through, agree
/// byte for byte.
pub proof fn lemma_partition_independence(
    a: &PixelArrayBuffer,
    b: &PixelArrayBuffer,
    dims: ImageDim,
    counts: Seq<u32>,
    cap: u32,
    set_color: Rgb,
)
    requires
        shows(a, dims, counts, cap, set_color),
        shows(b, dims, counts, cap, set_color),
    ensures
        a.spec_width() == b.spec_width(),
        a.spec_height() == b.spec_height(),
        a.bytes() == b.bytes(),
{
    assert forall|i: int| 0 <= i < a.bytes().len() implies a.bytes()[i] == b.bytes()[i] by {
        lemma_byte_of_pixel(dims, i);
        let x = i / 4 / (dims.height as int);
        let y = i / 4 % (dims.height as int);
        assert(a.pixel(x, y) == b.pixel(x, y));
        assert(a.padding(x, y) == b.padding(x, y));
    }
    assert(a.bytes() =~= b.bytes());
}

/// Writes the parts into a fresh buffer.
fn paint(dims: &ImageDim, parts: &Vec<TilePixels>) -> (buf: PixelArrayBuffer)
    requires
        addressable(dims.width as int, dims.height as int),
        is_partition(tiles_of(parts@), *dims),
    ensures
        assembled(&buf, *dims, parts@),
{
    let mut buf = PixelArrayBuffer::with_size(dims.width, dims.height);
    proof {
        assert forall|x: int, y: int| dims.has(x, y) implies #[trigger] buf.padding(x, y) == 0 by {
            lemma_pixel_offset(x, y, dims.width as int, dims.height as int);
        }
    }
    let mut k: usize = 0;
    while k < parts.len()
        invariant
            is_partition(tiles_of(parts@), *dims),
            k <= parts@.len(),
            fits_grid(&buf, *dims),
            forall|j: int, x: int, y: int| 0 <= j < k ==> #[trigger] painted(&buf, parts@[j], x, y),
        decreases parts@.len() - k,
    {
        let part = &parts[k];
        let t = part.region();
        assert(t == tiles_of(parts@)[k as int]);
        assert(t.within(*dims));
        let mut x: usize = t.left;
        while x < t.right
            invariant
                is_partition(tiles_of(parts@), *dims),
                k < parts@.len(),
                part == parts@[k as int],
                t == part.tile(),
                t.within(*dims),
                t.left <= x <= t.right,
                fits_grid(&buf, *dims),
                forall|j: int, u: int, v: int|
                    0 <= j < k ==> #[trigger] painted(&buf, parts@[j], u, v),
                forall|u: int, v: int|
                    t.has(u, v) && u < x ==> #[trigger] buf.pixel(u, v) == part.color_at(u, v),
            decreases t.right - x,
        {
            let mut y: usize = t.top;
            while y < t.bottom
                invariant
                    is_partition(tiles_of(parts@), *dims),
                    k < parts@.len(),
                    part == parts@[k as int],
                    t == part.tile(),
                    t.within(*dims),
                    t.left <= x < t.right,
                    t.top <= y <= t.bottom,
                    fits_grid(&buf, *dims),
                    forall|j: int, u: int, v: int|
                        0 <= j < k ==> #[trigger] painted(&buf, parts@[j], u, v),
                    forall|u: int, v: int|
                        t.has(u, v) && ImageDim::before(u, v, x as int, y as int)
                            ==> #[trigger] buf.pixel(u, v) == part.color_at(u, v),
                decreases t.bottom - y,
            {
                let color = part.at(x, y);
                let ghost prior = buf;
                buf.set(x, y, &color);
                proof {
                    assert forall|u: int, v: int|
                        t.has(u, v) && ImageDim::before(u, v, x as int, y + 1) implies #[trigger] buf.pixel(
                        u,
                        v,
                    ) == part.color_at(u, v) by {
                        if u != x || v != y {
                            assert(dims.has(u, v));
                            assert(buf.pixel(u, v) == prior.pixel(u, v));
                        }
                    }
                    assert forall|j: int, u: int, v: int| 0 <= j < k implies #[trigger] painted(
                        &buf,
                        parts@[j],
                        u,
                        v,
                    ) by {
                        assert(painted(&prior, parts@[j], u, v));
                        if parts@[j].tile().has(u, v) {
                            assert(tiles_of(parts@)[j] == parts@[j].tile());
                            assert(tiles_of(parts@)[j].within(*dims));
                            if u == x && v == y {
                                lemma_partition_unique(
                                    tiles_of(parts@),
                                    *dims,
                                    u,
                                    v,
                                    j,
                                    k as int,
                                );
                            }
                        }
                    }
                }
                y += 1;
            }
            x += 1;
        }
        k += 1;
    }
    buf
}

/// Puts the parts together into one buffer, provided their tiles divide
/// the grid; names the first fault where they do not.
pub fn assemble(dims: &ImageDim, parts: &Vec<TilePixels>) -> (res: Result<
    PixelArrayBuffer,
    TilingError,
>)
    ensures
        res.is_ok() <==> addressable(dims.width as int, dims.height as int) && is_partition(
            tiles_of(parts@),
            *dims,
        ),
        match res {
            Ok(buf) => assembled(&buf, *dims, parts@),
            Err(e) => tiling_fault(tiles_of(parts@), *dims, e),
        },
{
    let mut tiles: Vec<Tile> = Vec::new();
    let mut k: usize = 0;
    while k < parts.len()
        invariant
            k <= parts@.len(),
            tiles@ == tiles_of(parts@.take(k as int)),
        decreases parts@.len() - k,
    {
        tiles.push(parts[k].region());
        assert(parts@.take(k + 1) == parts@.take(k as int).push(parts@[k as int]));
        assert(tiles@ =~= tiles_of(parts@.take(k + 1)));
        k += 1;
    }
    assert(parts@.take(k as int) == parts@);
    match check_partition(dims, &tiles) {
        Ok(_) => Ok(paint(dims, parts)),
        Err(e) => Err(e),
    }
}

/// The escape counts of the pixels of one tile, column by column, taken
/// from the counts of the whole grid.
pub fn tile_counts(dims: &ImageDim, tile: &Tile, counts: &[u32]) -> (part: Vec<u32>)
    requires
        tile.within(*dims),
        counts@.len() == dims.area(),
    ensures
        part@.len() == tile.area(),
        forall|x: int, y: int|
            tile.has(x, y) ==> part@[#[trigger] tile.local_index(x, y)] == counts@[dims.index(
                x,
                y,
            )],
        forall|i: int| 0 <= i < part@.len() ==> counts@.contains(#[trigger] part@[i]),
{
    let mut part: Vec<u32> = Vec::new();
    let mut x: usize = tile.left;
    assert(0 == (x - tile.left) * tile.spec_height());
    while x < tile.right
        invariant
            tile.within(*dims),
            counts@.len() == dims.area(),
            tile.left <= x <= tile.right,
            part@.len() == (x - tile.left) * tile.spec_height(),
            forall|u: int, v: int|
                tile.has(u, v) && u < x ==> part@[#[trigger] tile.local_index(u, v)]
                    == counts@[dims.index(u, v)],
            forall|i: int| 0 <= i < part@.len() ==> counts@.contains(#[trigger] part@[i]),
        decreases tile.right - x,
    {
        let mut y: usize = tile.top;
        while y < tile.bottom
            invariant
                tile.within(*dims),
                counts@.len() == dims.area(),
                tile.left <= x < tile.right,
                tile.top <= y <= tile.bottom,
                part@.len() == tile.local_index(x as int, y as int),
                forall|u: int, v: int|
                    tile.has(u, v) && ImageDim::before(u, v, x as int, y as int) ==> part@[#[trigger] tile.local_index(
                        u,
                        v,
                    )] == counts@[dims.index(u, v)],
                forall|i: int| 0 <= i < part@.len() ==> counts@.contains(#[trigger] part@[i]),
            decreases tile.bottom - y,
        {
            proof {
                dims.lemma_index(x as int, y as int);
                assert(counts.len() == dims.area());
                assert forall|u: int, v: int|
                    tile.has(u, v) && ImageDim::before(u, v, x as int, y as int) implies 0
                    <= #[trigger] tile.local_index(u, v) < part@.len() by {
                    tile.lemma_local_index_ordered(u, v, x as int, y as int);
                }
            }
            let count = counts[x * dims.height + y];
            part.push(count);
            y += 1;
        }
        assert(tile.local_index(x as int, y as int) == (x + 1 - tile.left) * tile.spec_height())
            by (nonlinear_arith)
            requires
                y == tile.bottom,
                tile.local_index(x as int, y as int) == (x - tile.left) * (tile.bottom
                    - tile.top) + (y - tile.top),
                tile.spec_height() == tile.bottom - tile.top,
        ;
        x += 1;
    }
    assert(part@.len() == tile.area());
    part
}

/// Renders the image of the counts tile by tile: for every pixel of the
/// grid, `counts` holds the number of steps that its orbit ran, column by
/// column. Whatever tiles divide the grid, the image is the same.
pub fn render_tiles(
    set_color: &Rgb,
    dims: &ImageDim,
    tiles: &Vec<Tile>,
    cap: u32,
    counts: &[u32],
) -> (res: Result<PixelArrayBuffer, TilingError>)
    requires
        counts@.len() == dims.area(),
        counts_within(counts@, cap),
    ensures
        res.is_ok() <==> addressable(dims.width as int, dims.height as int) && is_partition(
            tiles@,
            *dims,
        ),
        match res {
            Ok(buf) => shows(&buf, *dims, counts@, cap, *set_color),
            Err(e) => tiling_fault(tiles@, *dims, e),
        },
{
    match check_partition(dims, tiles) {
        Ok(_) => {},
        Err(e) => {
            return Err(e);
        },
    }
    let mut parts: Vec<TilePixels> = Vec::new();
    let mut k: usize = 0;
    while k < tiles.len()
        invariant
            is_partition(tiles@, *dims),
            counts@.len() == dims.area(),
            counts_within(counts@, cap),
            k <= tiles@.len(),
            parts@.len() == k,
            forall|j: int| 0 <= j < k ==> (#[trigger] parts@[j]).tile() == tiles@[j],
            forall|j: int, x: int, y: int|
                0 <= j < k && tiles@[j].has(x, y) ==> #[trigger] parts@[j].color_at(x, y)
                    == color_of(counts@[dims.index(x, y)], cap, *set_color),
        decreases tiles@.len() - k,
    {
        let tile = &tiles[k];
        assert(tile.within(*dims));
        let local = tile_counts(dims, tile, counts);
        assert(counts_within(local@, cap)) by {
            assert forall|i: int| 0 <= i < local@.len() implies #[trigger] local@[i] <= cap by {
                assert(counts@.contains(local@[i]));
            }
        }
        let part = shade_tile(tile, local.as_slice(), cap, set_color);
        proof {
            assert forall|x: int, y: int| tile.has(x, y) implies #[trigger] part.color_at(x, y)
                == color_of(counts@[dims.index(x, y)], cap, *set_color) by {
                tile.lemma_local_index(x, y);
            }
        }
        parts.push(part);
        k += 1;
    }
    assert(tiles_of(parts@) =~= tiles@);
    let buf = paint(dims, &parts);
    proof {
        assert forall|x: int, y: int| dims.has(x, y) implies #[trigger] buf.pixel(x, y)
            == color_of(counts@[dims.index(x, y)], cap, *set_color) by {
            assert(covered(tiles@, x, y));
            let j = choose|j: int| 0 <= j < tiles@.len() && (#[trigger] tiles@[j]).has(x, y);
            assert(painted(&buf, parts@[j], x, y));
        }
    }
    Ok(buf)
}

/// Renders the image of the counts, working through the four quarters of
/// the grid. Fails only where the grid is too large for a buffer.
pub fn draw_mandelbrot(set_color: &Rgb, image_dim: &ImageDim, max_iter: u32, counts: &[u32]) -> (res:
    Result<PixelArrayBuffer, TilingError>)
    requires
        counts@.len() == image_dim.area(),
        counts_within(counts@, max_iter),
    ensures
        res.is_ok() <==> addressable(image_dim.width as int, image_dim.height as int),
        match res {
            Ok(buf) => shows(&buf, *image_dim, counts@, max_iter, *set_color),
            Err(e) => e == TilingError::TooLarge,
        },
{
    let tiles = image_dim.quadrants();
    proof {
        lemma_quadrants_are_partition(*image_dim);
    }
    let res = render_tiles(set_color, image_dim, &tiles, max_iter, counts);
    proof {
        if let Err(e) = res {
            lemma_fault_excludes_partition(tiles@, *image_dim, e);
        }
    }
    res
}

} // verus!
