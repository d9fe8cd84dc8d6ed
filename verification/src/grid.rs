use vstd::prelude::*;

verus! {

/// Connectivity-mask weight of a track neighbour above.
pub const DIR_UP: u8 = 1;
/// Connectivity-mask weight of a track neighbour to the right.
pub const DIR_RIGHT: u8 = 2;
/// Connectivity-mask weight of a track neighbour below.
pub const DIR_DOWN: u8 = 4;
/// Connectivity-mask weight of a track neighbour to the left.
pub const DIR_LEFT: u8 = 8;

/// Number of ticks a vacated cell keeps its fading trail marker.
pub const TRAIL_TICKS: u8 = 4;

/// What currently occupies a grid cell, independent of whether the cell
/// carries track.
#[derive(Clone, Copy, PartialEq, Eq, Structural, Debug)]
pub enum Occupant {
    /// Nothing stands on the cell.
    Vacant,
    /// The leading edge of the moving player.
    Front,
    /// A fading trail marker counting down the given number of ticks.
    Trailing(u8),
    /// A hostile actor.
    Enemy,
}

/// One grid cell: track presence, the 4-bit neighbour-connectivity mask
/// (meaningful only while `track` is set), and the occupant.
#[derive(Clone, Copy, PartialEq, Eq, Structural, Debug)]
pub struct Cell {
    pub track: bool,
    pub conn: u8,
    pub occupant: Occupant,
}

impl Cell {
    /// A cell with no track, no connectivity and no occupant.
    pub fn empty() -> (r: Cell)
        ensures
            r == (Cell { track: false, conn: 0, occupant: Occupant::Vacant }),
    {
        Cell { track: false, conn: 0, occupant: Occupant::Vacant }
    }
}

/// Linear index of the cell at column `x`, row `y` in a row-major grid of
/// the given width.
pub open spec fn cell_index(x: int, y: int, w: int) -> int {
    y * w + x
}

/// The linear index of an in-bounds cell stays inside the cell array.
pub proof fn lemma_cell_index_bound(x: int, y: int, w: int, h: int)
    requires
        0 <= x < w,
        0 <= y < h,
    ensures
        0 <= cell_index(x, y, w) < w * h,
{
    assert(0 <= y * w + x < w * h) by (nonlinear_arith)
        requires 0 <= x < w, 0 <= y < h;
}

/// Distinct in-bounds cell coordinates give distinct linear indices.
pub proof fn lemma_cell_index_injective(x1: int, y1: int, x2: int, y2: int, w: int)
    requires
        0 <= x1 < w,
        0 <= x2 < w,
        0 <= y1,
        0 <= y2,
        cell_index(x1, y1, w) == cell_index(x2, y2, w),
    ensures
        x1 == x2 && y1 == y2,
{
    assert(y1 == y2 && x1 == x2) by (nonlinear_arith)
        requires 0 <= x1 < w, 0 <= x2 < w, 0 <= y1, 0 <= y2, y1 * w + x1 == y2 * w + x2;
}

/// Splitting a linear index over a positive width recovers the cell
/// coordinates.
pub proof fn lemma_cell_index_split(index: int, w: int, h: int)
    requires
        0 <= index < w * h,
        0 < w,
    ensures
        0 <= index % w < w,
        0 <= index / w < h,
        cell_index(index % w, index / w, w) == index,
{
    assert(0 <= index % w < w && 0 <= index / w < h && (index / w) * w + index % w == index)
        by (nonlinear_arith)
        requires 0 <= index < w * h, 0 < w;
}

/// The fixed-size simulation grid, addressed by `y * width + x`.
pub struct Grid {
    pub width: usize,
    pub height: usize,
    pub cells: Vec<Cell>,
}

impl Grid {
    /// The cell array matches the grid dimensions, which are nonempty.
    pub open spec fn wf(self) -> bool {
        &&& 1 <= self.width
        &&& 1 <= self.height
        &&& self.cells@.len() == self.width * self.height
    }

    /// The cell at column `x`, row `y`.
    pub open spec fn cell_at(self, x: int, y: int) -> Cell {
        self.cells@[cell_index(x, y, self.width as int)]
    }

    /// Whether `(x, y)` lies on the grid.
    pub open spec fn in_bounds(self, x: int, y: int) -> bool {
        0 <= x < self.width && 0 <= y < self.height
    }

    /// Whether `(x, y)` is an in-bounds cell carrying track.
    pub open spec fn track_at(self, x: int, y: int) -> bool {
        self.in_bounds(x, y) && self.cell_at(x, y).track
    }

    /// Both grids have the same dimensions and the same track layout;
    /// connectivity and occupancy may differ.
    pub open spec fn same_tracks(self, other: Grid) -> bool {
        &&& self.width == other.width
        &&& self.height == other.height
        &&& forall|x: int, y: int|
            self.in_bounds(x, y) ==> #[trigger] self.cell_at(x, y).track == other.cell_at(
                x,
                y,
            ).track
    }

    /// A grid of empty cells.
    pub fn new(width: usize, height: usize) -> (r: Grid)
        requires
            1 <= width,
            1 <= height,
            width * height <= usize::MAX,
        ensures
            r.wf(),
            r.width == width,
            r.height == height,
            forall|x: int, y: int|
                r.in_bounds(x, y) ==> #[trigger] r.cell_at(x, y) == (Cell {
                    track: false,
                    conn: 0,
                    occupant: Occupant::Vacant,
                }),
    {
        proof {
            assert(width * height >= 0) by (nonlinear_arith);
        }
        let total: usize = width * height;
        let mut cells: Vec<Cell> = Vec::new();
        let mut i: usize = 0;
        while i < total
            invariant
                i <= total,
                cells@.len() == i,
                forall|j: int|
                    0 <= j < i ==> cells@[j] == (Cell {
                        track: false,
                        conn: 0,
                        occupant: Occupant::Vacant,
                    }),
            decreases total - i,
        {
            cells.push(Cell { track: false, conn: 0, occupant: Occupant::Vacant });
            i = i + 1;
        }
        let r = Grid { width, height, cells };
        proof {
            assert forall|x: int, y: int| r.in_bounds(x, y) implies #[trigger] r.cell_at(x, y)
                == (Cell { track: false, conn: 0, occupant: Occupant::Vacant }) by {
                lemma_cell_index_bound(x, y, width as int, height as int);
            }
        }
        r
    }

    /// Reads the cell at in-bounds coordinates.
    pub fn cell(&self, x: usize, y: usize) -> (r: Cell)
        requires
            self.wf(),
            x < self.width,
            y < self.height,
        ensures
            r == self.cell_at(x as int, y as int),
    {
        proof {
            lemma_cell_index_bound(x as int, y as int, self.width as int, self.height as int);
        }
        let _n = self.cells.len();
        self.cells[y * self.width + x]
    }

    /// Overwrites the cell at in-bounds coordinates, leaving every other
    /// cell unchanged.
    pub fn set_cell(&mut self, x: usize, y: usize, cell: Cell)
        requires
            old(self).wf(),
            x < old(self).width,
            y < old(self).height,
        ensures
            final(self).wf(),
            final(self).width == old(self).width,
            final(self).height == old(self).height,
            final(self).cell_at(x as int, y as int) == cell,
            forall|xi: int, yi: int|
                old(self).in_bounds(xi, yi) && !(xi == x && yi == y)
                    ==> #[trigger] final(self).cell_at(xi, yi) == old(self).cell_at(xi, yi),
    {
        proof {
            lemma_cell_index_bound(x as int, y as int, self.width as int, self.height as int);
        }
        let _n = self.cells.len();
        self.cells.set(y * self.width + x, cell);
        proof {
            assert forall|xi: int, yi: int|
                old(self).in_bounds(xi, yi) && !(xi == x && yi == y)
                    implies #[trigger] self.cell_at(xi, yi) == old(self).cell_at(xi, yi) by {
                lemma_cell_index_bound(xi, yi, self.width as int, self.height as int);
                if cell_index(xi, yi, self.width as int)
                    == cell_index(x as int, y as int, self.width as int) {
                    lemma_cell_index_injective(xi, yi, x as int, y as int, self.width as int);
                }
            }
        }
    }
}

/// Linear index of the cell at column `x`, row `y` in a row-major grid of
/// the given width.
pub fn get_index(x: u32, y: u32, width: u32) -> (index: u32)
    requires
        y * width + x <= u32::MAX,
    ensures
        index == y * width + x,
{
    y * width + x
}

/// Whether a linear index falls inside a cell array of the given length.
pub fn index_in_grid(index: u32, len: u32) -> (r: bool)
    ensures
        r == (index < len),
{
    index < len
}

/// Splits a linear index back into `(column, row)` coordinates.
pub fn get_position(index: u32, width: u32) -> (r: (u32, u32))
    requires
        width > 0,
    ensures
        r.0 == index % width,
        r.1 == index / width,
        r.1 * width + r.0 == index,
{
    proof {
        assert((index / width) * width + index % width == index) by (nonlinear_arith)
            requires width > 0;
    }
    (index % width, index / width)
}

/// Reads the cell at `(x, y)`, or `None` when the coordinates fall outside
/// the grid; an out-of-range column is never aliased into a neighbouring
/// row.
pub fn get_grid_cell_pos(x: u32, y: u32, grid: &Grid) -> (r: Option<Cell>)
    requires
        grid.wf(),
    ensures
        match r {
            Some(cell) => grid.in_bounds(x as int, y as int) && cell == grid.cell_at(
                x as int,
                y as int,
            ),
            None => !grid.in_bounds(x as int, y as int),
        },
{
    if (x as usize) < grid.width && (y as usize) < grid.height {
        Some(grid.cell(x as usize, y as usize))
    } else {
        None
    }
}

/// The 4-bit connectivity mask of `(x, y)`: the sum of the direction
/// weights of the in-bounds cardinal neighbours that carry track.
pub open spec fn neighbors_mask(g: Grid, x: int, y: int) -> u8 {
    ((if g.track_at(x, y - 1) { DIR_UP } else { 0 })
        + (if g.track_at(x + 1, y) { DIR_RIGHT } else { 0 })
        + (if g.track_at(x, y + 1) { DIR_DOWN } else { 0 })
        + (if g.track_at(x - 1, y) { DIR_LEFT } else { 0 })) as u8
}

/// Whether the mask records a track neighbour above.
pub open spec fn mask_has_up(m: u8) -> bool {
    m % 2 == 1
}

/// Whether the mask records a track neighbour to the right.
pub open spec fn mask_has_right(m: u8) -> bool {
    (m / 2) % 2 == 1
}

/// Whether the mask records a track neighbour below.
pub open spec fn mask_has_down(m: u8) -> bool {
    (m / 4) % 2 == 1
}

/// Whether the mask records a track neighbour to the left.
pub open spec fn mask_has_left(m: u8) -> bool {
    (m / 8) % 2 == 1
}

/// Tests the mask's bit for a track neighbour above.
pub fn mask_up(m: u8) -> (r: bool)
    ensures
        r == mask_has_up(m),
{
    m % 2 == 1
}

/// Tests the mask's bit for a track neighbour to the right.
pub fn mask_right(m: u8) -> (r: bool)
    ensures
        r == mask_has_right(m),
{
    (m / 2) % 2 == 1
}

/// Tests the mask's bit for a track neighbour below.
pub fn mask_down(m: u8) -> (r: bool)
    ensures
        r == mask_has_down(m),
{
    (m / 4) % 2 == 1
}

/// Tests the mask's bit for a track neighbour to the left.
pub fn mask_left(m: u8) -> (r: bool)
    ensures
        r == mask_has_left(m),
{
    (m / 8) % 2 == 1
}

/// For a track cell, records the connectivity mask computed from the
/// current track layout; any other cell is left unchanged.  Only the
/// addressed cell is written, and its track flag and occupant are kept.
pub fn evaluate_track_dir(index: usize, grid: &mut Grid)
    requires
        old(grid).wf(),
        index < old(grid).cells@.len(),
    ensures
        final(grid).wf(),
        final(grid).width == old(grid).width,
        final(grid).height == old(grid).height,
        forall|j: int|
            0 <= j < old(grid).cells@.len() && j != index ==> final(grid).cells@[j] == old(
                grid,
            ).cells@[j],
        final(grid).cells@[index as int].track == old(grid).cells@[index as int].track,
        final(grid).cells@[index as int].occupant == old(grid).cells@[index as int].occupant,
        final(grid).cells@[index as int].conn == if old(grid).cells@[index as int].track {
            neighbors_mask(*old(grid), index as int % old(grid).width as int, index as int / old(
                grid,
            ).width as int)
        } else {
            old(grid).cells@[index as int].conn
        },
{
    proof {
        lemma_cell_index_split(
            index as int,
            grid.width as int,
            grid.height as int,
        );
    }
    let x: usize = index % grid.width;
    let y: usize = index / grid.width;
    let cell = grid.cell(x, y);
    if cell.track {
        let up = if y > 0 {
            grid.cell(x, y - 1).track
        } else {
            false
        };
        let right = if x + 1 < grid.width {
            grid.cell(x + 1, y).track
        } else {
            false
        };
        let down = if y + 1 < grid.height {
            grid.cell(x, y + 1).track
        } else {
            false
        };
        let left = if x > 0 {
            grid.cell(x - 1, y).track
        } else {
            false
        };
        let dir: u8 = (if up { DIR_UP } else { 0 }) + (if right { DIR_RIGHT } else { 0 }) + (if down {
            DIR_DOWN
        } else {
            0
        }) + (if left { DIR_LEFT } else { 0 });
        grid.set_cell(x, y, Cell { track: cell.track, conn: dir, occupant: cell.occupant });
        proof {
            assert forall|j: int| 0 <= j < old(grid).cells@.len() && j != index
                implies grid.cells@[j] == old(grid).cells@[j] by {
                lemma_cell_index_split(j, grid.width as int, grid.height as int);
                let jx = j % grid.width as int;
                let jy = j / grid.width as int;
                assert(grid.cell_at(jx, jy) == old(grid).cell_at(jx, jy));
            }
        }
    }
}

} // verus!
