//! The pixel grid and its division into tiles.

use vstd::prelude::*;
use crate::buffer::{addressable, lemma_pixel_offset, lemma_pixel_offset_injective};

verus! {

/// The size of an image in pixels.
#[derive(Clone, Copy, Debug, PartialEq, Eq, Structural)]
pub struct ImageDim {
    pub width: usize,
    pub height: usize,
}

/// A rectangle of pixels: the columns from `left` up to but without
/// `right`, the rows from `top` up to but without `bottom`.
#[derive(Clone, Copy, Debug, PartialEq, Eq, Structural)]
pub struct Tile {
    pub left: usize,
    pub top: usize,
    pub right: usize,
    pub bottom: usize,
}

impl Tile {
    /// The corners are in order. A tile may be empty.
    pub open spec fn wf(&self) -> bool {
        self.left <= self.right && self.top <= self.bottom
    }

    /// Whether pixel (`x`, `y`) lies in the tile.
    pub open spec fn has(&self, x: int, y: int) -> bool {
        self.left <= x < self.right && self.top <= y < self.bottom
    }

    pub open spec fn spec_width(&self) -> int {
        self.right - self.left
    }

    pub open spec fn spec_height(&self) -> int {
        self.bottom - self.top
    }

    /// The number of pixels in the tile.
    pub open spec fn area(&self) -> int {
        self.spec_width() * self.spec_height()
    }

    /// Where pixel (`x`, `y`) stands among the pixels of the tile, which
    /// are counted column by column.
    pub open spec fn local_index(&self, x: int, y: int) -> int {
        (x - self.left) * self.spec_height() + (y - self.top)
    }

    /// Whether the tile lies inside a grid of the given size.
    pub open spec fn within(&self, dims: ImageDim) -> bool {
        self.wf() && self.right <= dims.width && self.bottom <= dims.height
    }

    /// Whether two tiles share a pixel.
    pub open spec fn overlaps(&self, other: Tile) -> bool {
        exists|x: int, y: int| self.has(x, y) && other.has(x, y)
    }

    pub fn contains(&self, x: usize, y: usize) -> (inside: bool)
        ensures
            inside == self.has(x as int, y as int),
    {
        self.left <= x && x < self.right && self.top <= y && y < self.bottom
    }

    pub fn width(&self) -> (w: usize)
        requires
            self.wf(),
        ensures
            w == self.spec_width(),
    {
        self.right - self.left
    }

    pub fn height(&self) -> (h: usize)
        requires
            self.wf(),
        ensures
            h == self.spec_height(),
    {
        self.bottom - self.top
    }

    /// The local index of a pixel of the tile is below the tile's area.
    pub proof fn lemma_local_index(&self, x: int, y: int)
        requires
            self.has(x, y),
        ensures
            0 <= self.local_index(x, y) < self.area(),
            0 <= (x - self.left) * self.spec_height(),
    {
        let dx = x - self.left;
        let h = self.spec_height();
        let w = self.spec_width();
        assert(0 <= dx * h && dx * h + h <= w * h) by (nonlinear_arith)
            requires
                0 <= dx < w,
                0 < h,
        ;
    }

    /// Pixels of the tile are counted in the order in which it is walked:
    /// one that comes before another place has the smaller index.
    pub proof fn lemma_local_index_ordered(&self, u: int, v: int, x: int, y: int)
        requires
            self.has(u, v),
            ImageDim::before(u, v, x, y),
            self.top <= y,
        ensures
            0 <= self.local_index(u, v) < self.local_index(x, y),
    {
        self.lemma_local_index(u, v);
        let h = self.spec_height();
        let du = u - self.left;
        let dx = x - self.left;
        if u < x {
            assert(du * h + h <= dx * h) by (nonlinear_arith)
                requires
                    du < dx,
                    0 < h,
            ;
        }
    }
}

impl ImageDim {
    /// Both sides are positive.
    pub open spec fn wf(&self) -> bool {
        self.width > 0 && self.height > 0
    }

    /// Whether pixel (`x`, `y`) lies in the grid.
    pub open spec fn has(&self, x: int, y: int) -> bool {
        0 <= x < self.width && 0 <= y < self.height
    }

    /// The number of pixels in the grid.
    pub open spec fn area(&self) -> int {
        self.width * self.height
    }

    /// Where pixel (`x`, `y`) stands among the pixels of the grid, which
    /// are counted column by column.
    pub open spec fn index(&self, x: int, y: int) -> int {
        x * self.height + y
    }

    /// Whether pixel (`u`, `v`) comes before pixel (`x`, `y`) where the
    /// grid is walked column by column.
    pub open spec fn before(u: int, v: int, x: int, y: int) -> bool {
        u < x || (u == x && v < y)
    }

    /// The index of a pixel of the grid is below the grid's area.
    pub proof fn lemma_index(&self, x: int, y: int)
        requires
            self.has(x, y),
        ensures
            0 <= self.index(x, y) < self.area(),
            0 <= x * self.height,
    {
        lemma_pixel_offset(x, y, self.width as int, self.height as int);
    }

    /// Different pixels have different indices.
    pub proof fn lemma_index_injective(&self, x1: int, y1: int, x2: int, y2: int)
        requires
            self.has(x1, y1),
            self.has(x2, y2),
            self.index(x1, y1) == self.index(x2, y2),
        ensures
            x1 == x2,
            y1 == y2,
    {
        if x1 != x2 || y1 != y2 {
            lemma_pixel_offset_injective(x1, y1, x2, y2, self.height as int);
        }
    }

    /// A grid of the given size, where both sides are positive.
    pub fn new(width: usize, height: usize) -> (dims: Option<ImageDim>)
        ensures
            dims == if width > 0 && height > 0 {
                Some(ImageDim { width, height })
            } else {
                None
            },
    {
        if width > 0 && height > 0 {
            Some(ImageDim { width, height })
        } else {
            None
        }
    }

    /// The size used where none is asked for: 900 by 600.
    pub fn default_size() -> (dims: ImageDim)
        ensures
            dims == (ImageDim { width: 900, height: 600 }),
    {
        ImageDim { width: 900, height: 600 }
    }

    /// The grid as one tile.
    pub fn whole(&self) -> (tile: Tile)
        ensures
            tile == (Tile { left: 0, top: 0, right: self.width, bottom: self.height }),
    {
        Tile { left: 0, top: 0, right: self.width, bottom: self.height }
    }

    /// The grid cut at half its width and half its height, both rounded
    /// down: the upper left quarter, the upper right, the lower left, the
    /// lower right.
    pub fn quadrants(&self) -> (tiles: Vec<Tile>)
        ensures
            tiles@ == quadrants_of(*self),
    {
        let half_width: usize = self.width / 2;
        let half_height: usize = self.height / 2;
        let mut tiles: Vec<Tile> = Vec::new();
        tiles.push(Tile { left: 0, top: 0, right: half_width, bottom: half_height });
        tiles.push(Tile { left: half_width, top: 0, right: self.width, bottom: half_height });
        tiles.push(Tile { left: 0, top: half_height, right: half_width, bottom: self.height });
        tiles.push(
            Tile { left: half_width, top: half_height, right: self.width, bottom: self.height },
        );
        assert(tiles@ =~= quadrants_of(*self));
        tiles
    }
}

/// The four quarters of a grid.
pub open spec fn quadrants_of(dims: ImageDim) -> Seq<Tile> {
    let hw = (dims.width / 2) as usize;
    let hh = (dims.height / 2) as usize;
    seq![
        Tile { left: 0, top: 0, right: hw, bottom: hh },
        Tile { left: hw, top: 0, right: dims.width, bottom: hh },
        Tile { left: 0, top: hh, right: hw, bottom: dims.height },
        Tile { left: hw, top: hh, right: dims.width, bottom: dims.height },
    ]
}

/// Why a list of tiles does not divide a grid.
#[derive(Clone, Copy, Debug, PartialEq, Eq, Structural)]
pub enum TilingError {
    /// The grid has more pixels than a buffer can address.
    TooLarge,
    /// The tile at this place in the list is malformed or leaves the grid.
    OutOfGrid { tile: usize },
    /// The tile at this place in the list shares a pixel with one before it.
    Overlap { tile: usize },
    /// No tile holds this pixel.
    Uncovered { x: usize, y: usize },
}

/// Whether every tile lies inside the grid.
pub open spec fn all_within(tiles: Seq<Tile>, dims: ImageDim) -> bool {
    forall|k: int| 0 <= k < tiles.len() ==> (#[trigger] tiles[k]).within(dims)
}

/// Whether one of the first `k` tiles holds pixel (`x`, `y`).
pub open spec fn hit_by_earlier(tiles: Seq<Tile>, k: int, x: int, y: int) -> bool {
    exists|j: int| 0 <= j < k && (#[trigger] tiles[j]).has(x, y)
}

/// Whether tile `k` shares no pixel with a tile before it.
pub open spec fn clear_of_earlier(tiles: Seq<Tile>, k: int) -> bool {
    forall|x: int, y: int| tiles[k].has(x, y) ==> !#[trigger] hit_by_earlier(tiles, k, x, y)
}

/// Whether no two tiles share a pixel.
pub open spec fn all_clear(tiles: Seq<Tile>) -> bool {
    forall|k: int| 0 <= k < tiles.len() ==> #[trigger] clear_of_earlier(tiles, k)
}

/// Whether some tile holds pixel (`x`, `y`).
pub open spec fn covered(tiles: Seq<Tile>, x: int, y: int) -> bool {
    hit_by_earlier(tiles, tiles.len() as int, x, y)
}

/// Whether every pixel of the grid is in some tile.
pub open spec fn all_covered(tiles: Seq<Tile>, dims: ImageDim) -> bool {
    forall|x: int, y: int| dims.has(x, y) ==> #[trigger] covered(tiles, x, y)
}

/// Whether the tiles divide the grid: each lies inside it, no two share a
/// pixel, and every pixel of the grid is in one of them.
pub open spec fn is_partition(tiles: Seq<Tile>, dims: ImageDim) -> bool {
    &&& all_within(tiles, dims)
    &&& all_clear(tiles)
    &&& all_covered(tiles, dims)
}

/// Whether `e` names the first thing that keeps the tiles from dividing
/// the grid into a buffer that can be addressed. The tests come in the
/// order of the variants, and within a variant the first offender in the
/// list, or the first pixel column by column, is named.
pub open spec fn tiling_fault(tiles: Seq<Tile>, dims: ImageDim, e: TilingError) -> bool {
    match e {
        TilingError::TooLarge => !addressable(dims.width as int, dims.height as int),
        TilingError::OutOfGrid { tile } => {
            &&& addressable(dims.width as int, dims.height as int)
            &&& tile < tiles.len()
            &&& !tiles[tile as int].within(dims)
            &&& forall|j: int| 0 <= j < tile ==> (#[trigger] tiles[j]).within(dims)
        },
        TilingError::Overlap { tile } => {
            &&& addressable(dims.width as int, dims.height as int)
            &&& all_within(tiles, dims)
            &&& tile < tiles.len()
            &&& !clear_of_earlier(tiles, tile as int)
            &&& forall|j: int| 0 <= j < tile ==> #[trigger] clear_of_earlier(tiles, j)
        },
        TilingError::Uncovered { x, y } => {
            &&& addressable(dims.width as int, dims.height as int)
            &&& all_within(tiles, dims)
            &&& all_clear(tiles)
            &&& dims.has(x as int, y as int)
            &&& !covered(tiles, x as int, y as int)
            &&& forall|u: int, v: int|
                dims.has(u, v) && ImageDim::before(u, v, x as int, y as int) ==> #[trigger] covered(
                    tiles,
                    u,
                    v,
                )
        },
    }
}

/// Whether no two tiles of the list share a pixel.
pub open spec fn pairwise_disjoint(tiles: Seq<Tile>) -> bool {
    forall|j: int, k: int|
        0 <= j < tiles.len() && 0 <= k < tiles.len() && j != k ==> !(#[trigger] tiles[j]).overlaps(
            #[trigger] tiles[k],
        )
}

/// That every tile is clear of the tiles before it says that no two tiles
/// share a pixel.
pub proof fn lemma_all_clear_is_disjoint(tiles: Seq<Tile>)
    ensures
        all_clear(tiles) <==> pairwise_disjoint(tiles),
{
    if all_clear(tiles) {
        assert forall|j: int, k: int|
            0 <= j < tiles.len() && 0 <= k < tiles.len() && j != k implies !(#[trigger] tiles[j]).overlaps(
            #[trigger] tiles[k],
        ) by {
            if tiles[j].overlaps(tiles[k]) {
                let (x, y) = choose|x: int, y: int| tiles[j].has(x, y) && tiles[k].has(x, y);
                if j < k {
                    assert(clear_of_earlier(tiles, k));
                    assert(hit_by_earlier(tiles, k, x, y));
                } else {
                    assert(clear_of_earlier(tiles, j));
                    assert(hit_by_earlier(tiles, j, x, y));
                }
            }
        }
    }
    if pairwise_disjoint(tiles) {
        assert forall|k: int| 0 <= k < tiles.len() implies #[trigger] clear_of_earlier(
            tiles,
            k,
        ) by {
            assert forall|x: int, y: int| tiles[k].has(x, y) implies !#[trigger] hit_by_earlier(
                tiles,
                k,
                x,
                y,
            ) by {
                if hit_by_earlier(tiles, k, x, y) {
                    let j = choose|j: int| 0 <= j < k && (#[trigger] tiles[j]).has(x, y);
                    assert(tiles[j].overlaps(tiles[k]));
                }
            }
        }
    }
}

/// In a partition every pixel of the grid lies in exactly one tile.
pub proof fn lemma_partition_unique(
    tiles: Seq<Tile>,
    dims: ImageDim,
    x: int,
    y: int,
    j: int,
    k: int,
)
    requires
        is_partition(tiles, dims),
        0 <= j < tiles.len(),
        0 <= k < tiles.len(),
        tiles[j].has(x, y),
        tiles[k].has(x, y),
    ensures
        j == k,
{
    if j < k {
        assert(clear_of_earlier(tiles, k));
        assert(hit_by_earlier(tiles, k, x, y));
    } else if k < j {
        assert(clear_of_earlier(tiles, j));
        assert(hit_by_earlier(tiles, j, x, y));
    }
}

/// A fault and a partition exclude each other: where a fault is named,
/// the tiles do not divide the grid or the grid cannot be addressed.
pub proof fn lemma_fault_excludes_partition(tiles: Seq<Tile>, dims: ImageDim, e: TilingError)
    requires
        tiling_fault(tiles, dims, e),
    ensures
        !(addressable(dims.width as int, dims.height as int) && is_partition(tiles, dims)),
{
    match e {
        TilingError::TooLarge => {},
        TilingError::OutOfGrid { tile } => {},
        TilingError::Overlap { tile } => {},
        TilingError::Uncovered { x, y } => {},
    }
}

/// The grid as one tile is a partition of it.
pub proof fn lemma_whole_is_partition(dims: ImageDim)
    ensures
        is_partition(
            seq![Tile { left: 0, top: 0, right: dims.width, bottom: dims.height }],
            dims,
        ),
{
    let tiles = seq![Tile { left: 0, top: 0, right: dims.width, bottom: dims.height }];
    assert forall|x: int, y: int| dims.has(x, y) implies #[trigger] covered(tiles, x, y) by {
        assert(tiles[0].has(x, y));
    }
}

/// The four quarters are a partition of the grid.
pub proof fn lemma_quadrants_are_partition(dims: ImageDim)
    ensures
        is_partition(quadrants_of(dims), dims),
{
    let tiles = quadrants_of(dims);
    let hw = dims.width / 2;
    let hh = dims.height / 2;
    assert forall|x: int, y: int| dims.has(x, y) implies #[trigger] covered(tiles, x, y) by {
        if x < hw && y < hh {
            assert(tiles[0].has(x, y));
        } else if y < hh {
            assert(tiles[1].has(x, y));
        } else if x < hw {
            assert(tiles[2].has(x, y));
        } else {
            assert(tiles[3].has(x, y));
        }
    }
}

/// Whether the mask marks pixel (`x`, `y`).
spec fn marked(mask: Seq<bool>, dims: ImageDim, x: int, y: int) -> bool {
    mask[dims.index(x, y)]
}

/// The first tile that leaves the grid, if there is one.
fn first_outside(dims: &ImageDim, tiles: &Vec<Tile>) -> (found: Option<usize>)
    ensures
        match found {
            Some(k) => {
                &&& k < tiles@.len()
                &&& !tiles@[k as int].within(*dims)
                &&& forall|j: int| 0 <= j < k ==> (#[trigger] tiles@[j]).within(*dims)
            },
            None => all_within(tiles@, *dims),
        },
{
    let mut k: usize = 0;
    while k < tiles.len()
        invariant
            k <= tiles@.len(),
            forall|j: int| 0 <= j < k ==> (#[trigger] tiles@[j]).within(*dims),
        decreases tiles@.len() - k,
    {
        let t = tiles[k];
        if !(t.left <= t.right && t.top <= t.bottom && t.right <= dims.width && t.bottom
            <= dims.height) {
            return Some(k);
        }
        k += 1;
    }
    None
}

/// Marks the pixels of tile `k` in the mask, which holds those of the
/// tiles before it. Gives `false`, and a mask of no further use, where
/// one of them was marked already.
fn mark_tile(dims: &ImageDim, tiles: &Vec<Tile>, k: usize, mask: &mut Vec<bool>) -> (clear: bool)
    requires
        addressable(dims.width as int, dims.height as int),
        k < tiles@.len(),
        tiles@[k as int].within(*dims),
        old(mask)@.len() == dims.area(),
        forall|u: int, v: int|
            dims.has(u, v) ==> #[trigger] marked(old(mask)@, *dims, u, v) == hit_by_earlier(
                tiles@,
                k as int,
                u,
                v,
            ),
    ensures
        clear == clear_of_earlier(tiles@, k as int),
        final(mask)@.len() == dims.area(),
        clear ==> forall|u: int, v: int|
            dims.has(u, v) ==> #[trigger] marked(final(mask)@, *dims, u, v) == hit_by_earlier(
                tiles@,
                k + 1,
                u,
                v,
            ),
{
    let t = tiles[k];
    let mut x: usize = t.left;
    while x < t.right
        invariant
            addressable(dims.width as int, dims.height as int),
            k < tiles@.len(),
            t == tiles@[k as int],
            t.within(*dims),
            t.left <= x <= t.right,
            mask@.len() == dims.area(),
            forall|u: int, v: int|
                dims.has(u, v) ==> #[trigger] marked(mask@, *dims, u, v) == (hit_by_earlier(
                    tiles@,
                    k as int,
                    u,
                    v,
                ) || (t.has(u, v) && u < x)),
            forall|u: int, v: int|
                t.has(u, v) && u < x ==> !#[trigger] hit_by_earlier(tiles@, k as int, u, v),
        decreases t.right - x,
    {
        let mut y: usize = t.top;
        while y < t.bottom
            invariant
                addressable(dims.width as int, dims.height as int),
                k < tiles@.len(),
                t == tiles@[k as int],
                t.within(*dims),
                t.left <= x < t.right,
                t.top <= y <= t.bottom,
                mask@.len() == dims.area(),
                forall|u: int, v: int|
                    dims.has(u, v) ==> #[trigger] marked(mask@, *dims, u, v) == (hit_by_earlier(
                        tiles@,
                        k as int,
                        u,
                        v,
                    ) || (t.has(u, v) && ImageDim::before(u, v, x as int, y as int))),
                forall|u: int, v: int|
                    t.has(u, v) && ImageDim::before(u, v, x as int, y as int)
                        ==> !#[trigger] hit_by_earlier(tiles@, k as int, u, v),
            decreases t.bottom - y,
        {
            proof {
                dims.lemma_index(x as int, y as int);
            }
            let i: usize = x * dims.height + y;
            assert(marked(mask@, *dims, x as int, y as int) == mask@[i as int]);
            if mask[i] {
                assert(hit_by_earlier(tiles@, k as int, x as int, y as int));
                assert(t.has(x as int, y as int));
                return false;
            }
            let ghost prior = mask@;
            mask.set(i, true);
            proof {
                assert forall|u: int, v: int| dims.has(u, v) implies #[trigger] marked(
                    mask@,
                    *dims,
                    u,
                    v,
                ) == (hit_by_earlier(tiles@, k as int, u, v) || (t.has(u, v) && ImageDim::before(
                    u,
                    v,
                    x as int,
                    y + 1,
                ))) by {
                    dims.lemma_index(u, v);
                    if u == x && v == y {
                    } else {
                        if dims.index(u, v) == dims.index(x as int, y as int) {
                            dims.lemma_index_injective(u, v, x as int, y as int);
                        }
                        assert(marked(mask@, *dims, u, v) == marked(prior, *dims, u, v));
                    }
                }
            }
            y += 1;
        }
        x += 1;
    }
    proof {
        assert forall|u: int, v: int| dims.has(u, v) implies #[trigger] marked(
            mask@,
            *dims,
            u,
            v,
        ) == hit_by_earlier(tiles@, k + 1, u, v) by {
            if hit_by_earlier(tiles@, k as int, u, v) {
                let j = choose|j: int| 0 <= j < k && (#[trigger] tiles@[j]).has(u, v);
                assert(0 <= j < k + 1 && tiles@[j].has(u, v));
            } else if t.has(u, v) {
                assert(tiles@[k as int].has(u, v));
            } else if hit_by_earlier(tiles@, k + 1, u, v) {
                let j = choose|j: int| 0 <= j < k + 1 && (#[trigger] tiles@[j]).has(u, v);
                assert(0 <= j < k);
            }
        }
    }
    true
}

/// The first pixel of the grid, column by column, that the mask leaves
/// unmarked, if there is one.
fn first_unmarked(dims: &ImageDim, mask: &Vec<bool>) -> (found: Option<(usize, usize)>)
    requires
        addressable(dims.width as int, dims.height as int),
        mask@.len() == dims.area(),
    ensures
        match found {
            Some((x, y)) => {
                &&& dims.has(x as int, y as int)
                &&& !marked(mask@, *dims, x as int, y as int)
                &&& forall|u: int, v: int|
                    dims.has(u, v) && ImageDim::before(u, v, x as int, y as int) ==> #[trigger] marked(
                        mask@,
                        *dims,
                        u,
                        v,
                    )
            },
            None => forall|u: int, v: int| dims.has(u, v) ==> #[trigger] marked(mask@, *dims, u, v),
        },
{
    let mut x: usize = 0;
    while x < dims.width
        invariant
            addressable(dims.width as int, dims.height as int),
            mask@.len() == dims.area(),
            x <= dims.width,
            forall|u: int, v: int|
                dims.has(u, v) && u < x ==> #[trigger] marked(mask@, *dims, u, v),
        decreases dims.width - x,
    {
        let mut y: usize = 0;
        while y < dims.height
            invariant
                addressable(dims.width as int, dims.height as int),
                mask@.len() == dims.area(),
                x < dims.width,
                y <= dims.height,
                forall|u: int, v: int|
                    dims.has(u, v) && ImageDim::before(u, v, x as int, y as int)
                        ==> #[trigger] marked(mask@, *dims, u, v),
            decreases dims.height - y,
        {
            proof {
                dims.lemma_index(x as int, y as int);
            }
            if !mask[x * dims.height + y] {
                return Some((x, y));
            }
            y += 1;
        }
        x += 1;
    }
    None
}

/// Tests whether the tiles divide the grid and the grid can be addressed,
/// and names the first fault where they do not.
pub fn check_partition(dims: &ImageDim, tiles: &Vec<Tile>) -> (res: Result<(), TilingError>)
    ensures
        res.is_ok() <==> addressable(dims.width as int, dims.height as int) && is_partition(
            tiles@,
            *dims,
        ),
        match res {
            Ok(_) => true,
            Err(e) => tiling_fault(tiles@, *dims, e),
        },
{
    let area: usize = match dims.width.checked_mul(dims.height) {
        Some(area) => match area.checked_mul(4) {
            Some(_) => area,
            None => {
                return Err(TilingError::TooLarge);
            },
        },
        None => {
            assert(0 <= dims.width * dims.height) by (nonlinear_arith)
                requires
                    0 <= dims.width,
                    0 <= dims.height,
            ;
            return Err(TilingError::TooLarge);
        },
    };
    if let Some(k) = first_outside(dims, tiles) {
        return Err(TilingError::OutOfGrid { tile: k });
    }
    let mut mask: Vec<bool> = vec![false; area];
    let mut k: usize = 0;
    proof {
        assert forall|u: int, v: int| dims.has(u, v) implies #[trigger] marked(
            mask@,
            *dims,
            u,
            v,
        ) == hit_by_earlier(tiles@, 0, u, v) by {
            dims.lemma_index(u, v);
        }
    }
    while k < tiles.len()
        invariant
            addressable(dims.width as int, dims.height as int),
            all_within(tiles@, *dims),
            k <= tiles@.len(),
            mask@.len() == dims.area(),
            forall|j: int| 0 <= j < k ==> #[trigger] clear_of_earlier(tiles@, j),
            forall|u: int, v: int|
                dims.has(u, v) ==> #[trigger] marked(mask@, *dims, u, v) == hit_by_earlier(
                    tiles@,
                    k as int,
                    u,
                    v,
                ),
        decreases tiles@.len() - k,
    {
        if !mark_tile(dims, tiles, k, &mut mask) {
            return Err(TilingError::Overlap { tile: k });
        }
        k += 1;
    }
    assert(all_clear(tiles@));
    match first_unmarked(dims, &mask) {
        Some((x, y)) => {
            assert(!covered(tiles@, x as int, y as int)) by {
                assert(marked(mask@, *dims, x as int, y as int) == hit_by_earlier(
                    tiles@,
                    k as int,
                    x as int,
                    y as int,
                ));
            }
            assert forall|u: int, v: int|
                dims.has(u, v) && ImageDim::before(u, v, x as int, y as int) implies #[trigger] covered(
                tiles@,
                u,
                v,
            ) by {
                assert(marked(mask@, *dims, u, v));
            }
            Err(TilingError::Uncovered { x, y })
        },
        None => {
            assert forall|u: int, v: int| dims.has(u, v) implies #[trigger] covered(
                tiles@,
                u,
                v,
            ) by {
                assert(marked(mask@, *dims, u, v));
            }
            Ok(())
        },
    }
}

} // verus!
