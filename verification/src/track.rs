use vstd::prelude::*;

verus! {

use crate::grid::{
    Grid, Cell, neighbors_mask, evaluate_track_dir, cell_index, lemma_cell_index_bound,
    lemma_cell_index_injective, lemma_cell_index_split,
};
use crate::rng::{rand_in_range, rand_coin};

/// Shortest run of track cells that one step of the generation walk lays.
pub const RUN_MIN: u64 = 3;
/// Longest run of track cells that one step of the generation walk lays.
pub const RUN_MAX: u64 = 10;
/// Width of the right-hand column band in which the generation walk stops.
pub const STOP_MARGIN: usize = 5;

/// The region inside which the generation walk may lay track: any column,
/// and any row except the top and bottom border rows.
pub open spec fn eligible(g: Grid, x: int, y: int) -> bool {
    0 <= x < g.width && 1 <= y && y + 2 <= g.height
}

/// How one cell may change under track generation: connectivity and
/// occupant are untouched, track is never removed, and track appears only
/// inside the eligible region.
pub open spec fn growth_cell_ok(g0: Grid, g1: Grid, x: int, y: int) -> bool {
    &&& g1.cell_at(x, y).conn == g0.cell_at(x, y).conn
    &&& g1.cell_at(x, y).occupant == g0.cell_at(x, y).occupant
    &&& (g0.cell_at(x, y).track ==> g1.cell_at(x, y).track)
    &&& (g1.cell_at(x, y).track ==> g0.cell_at(x, y).track || eligible(g0, x, y))
}

/// Relation between the grid before and after track generation: every
/// cell changed only as `growth_cell_ok` allows.
pub open spec fn track_growth(g0: Grid, g1: Grid) -> bool {
    &&& g1.width == g0.width
    &&& g1.height == g0.height
    &&& g1.cells@.len() == g0.cells@.len()
    &&& forall|x: int, y: int| g0.in_bounds(x, y) ==> #[trigger] growth_cell_ok(g0, g1, x, y)
}

/// Laying one more track cell inside the eligible region preserves the
/// growth relation.
proof fn lemma_growth_mark(o: Grid, g1: Grid, g2: Grid, mx: int, my: int)
    requires
        track_growth(o, g1),
        eligible(o, mx, my),
        o.in_bounds(mx, my),
        g2.width == g1.width,
        g2.height == g1.height,
        g2.cells@.len() == g1.cells@.len(),
        g2.cell_at(mx, my).track,
        g2.cell_at(mx, my).conn == g1.cell_at(mx, my).conn,
        g2.cell_at(mx, my).occupant == g1.cell_at(mx, my).occupant,
        forall|x: int, y: int|
            g1.in_bounds(x, y) && !(x == mx && y == my) ==> #[trigger] g2.cell_at(x, y)
                == g1.cell_at(x, y),
    ensures
        track_growth(o, g2),
{
    assert forall|x: int, y: int| o.in_bounds(x, y) implies #[trigger] growth_cell_ok(o, g2, x, y)
        by {
        assert(growth_cell_ok(o, g1, x, y));
        if !(x == mx && y == my) {
            assert(g2.cell_at(x, y) == g1.cell_at(x, y));
        }
    }
}

/// Lays track under one cell, leaving its connectivity and occupant and
/// every other cell unchanged.
fn mark_track(grid: &mut Grid, x: usize, y: usize)
    requires
        old(grid).wf(),
        x < old(grid).width,
        y < old(grid).height,
    ensures
        final(grid).wf(),
        final(grid).width == old(grid).width,
        final(grid).height == old(grid).height,
        final(grid).cells@.len() == old(grid).cells@.len(),
        final(grid).cell_at(x as int, y as int).track,
        final(grid).cell_at(x as int, y as int).conn == old(grid).cell_at(
            x as int,
            y as int,
        ).conn,
        final(grid).cell_at(x as int, y as int).occupant == old(grid).cell_at(
            x as int,
            y as int,
        ).occupant,
        forall|xi: int, yi: int|
            old(grid).in_bounds(xi, yi) && !(xi == x && yi == y)
                ==> #[trigger] final(grid).cell_at(xi, yi) == old(grid).cell_at(xi, yi),
{
    let c = grid.cell(x, y);
    grid.set_cell(x, y, Cell { track: true, conn: c.conn, occupant: c.occupant });
}

/// Whether two cells share an edge.
pub open spec fn cells_adjacent(a: (int, int), b: (int, int)) -> bool {
    ||| (a.0 == b.0 && (a.1 == b.1 + 1 || a.1 + 1 == b.1))
    ||| (a.1 == b.1 && (a.0 == b.0 + 1 || a.0 + 1 == b.0))
}

/// Whether `p` walks over track cells of `g`, one edge-adjacent step at a
/// time.
pub open spec fn is_track_path(g: Grid, p: Seq<(int, int)>) -> bool {
    &&& p.len() >= 1
    &&& forall|i: int| 0 <= i < p.len() ==> g.track_at((#[trigger] p[i]).0, p[i].1)
    &&& forall|i: int| 0 <= i < p.len() - 1 ==> cells_adjacent(#[trigger] p[i], p[i + 1])
}

/// Whether a walk over track cells joins `(sx, sy)` to `(tx, ty)`.
pub open spec fn track_connected(g: Grid, sx: int, sy: int, tx: int, ty: int) -> bool {
    exists|p: Seq<(int, int)>|
        #[trigger] is_track_path(g, p) && p.first() == (sx, sy) && p.last() == (tx, ty)
}

/// A track cell is joined to itself.
proof fn lemma_connected_refl(g: Grid, sx: int, sy: int)
    requires
        g.track_at(sx, sy),
    ensures
        track_connected(g, sx, sy, sx, sy),
{
    let p: Seq<(int, int)> = seq![(sx, sy)];
    assert(is_track_path(g, p));
    assert(p.first() == (sx, sy) && p.last() == (sx, sy));
}

/// A walk over track cells survives any change that only adds track.
pub proof fn lemma_connected_monotone(g1: Grid, g2: Grid, sx: int, sy: int, tx: int, ty: int)
    requires
        forall|a: int, b: int| g1.track_at(a, b) ==> #[trigger] g2.track_at(a, b),
        track_connected(g1, sx, sy, tx, ty),
    ensures
        track_connected(g2, sx, sy, tx, ty),
{
    let p = choose|p: Seq<(int, int)>|
        #[trigger] is_track_path(g1, p) && p.first() == (sx, sy) && p.last() == (tx, ty);
    assert(is_track_path(g2, p)) by {
        assert forall|i: int| 0 <= i < p.len() implies g2.track_at(
            (#[trigger] p[i]).0,
            p[i].1,
        ) by {
            assert(g1.track_at(p[i].0, p[i].1));
        }
    }
}

/// A joined cell's track neighbour is joined too.
proof fn lemma_connected_extend(g: Grid, sx: int, sy: int, hx: int, hy: int, mx: int, my: int)
    requires
        track_connected(g, sx, sy, hx, hy),
        g.track_at(mx, my),
        cells_adjacent((hx, hy), (mx, my)),
    ensures
        track_connected(g, sx, sy, mx, my),
{
    let p = choose|p: Seq<(int, int)>|
        #[trigger] is_track_path(g, p) && p.first() == (sx, sy) && p.last() == (hx, hy);
    let p2 = p.push((mx, my));
    assert(is_track_path(g, p2)) by {
        assert forall|i: int| 0 <= i < p2.len() implies g.track_at(
            (#[trigger] p2[i]).0,
            p2[i].1,
        ) by {
            if i < p.len() {
                assert(p2[i] == p[i]);
                assert(g.track_at(p[i].0, p[i].1));
            }
        }
        assert forall|i: int| 0 <= i < p2.len() - 1 implies cells_adjacent(
            #[trigger] p2[i],
            p2[i + 1],
        ) by {
            if i < p.len() - 1 {
                assert(p2[i] == p[i] && p2[i + 1] == p[i + 1]);
                assert(cells_adjacent(p[i], p[i + 1]));
            } else {
                assert(p2[i] == p.last() && p2[i + 1] == (mx, my));
            }
        }
    }
    assert(p2.first() == (sx, sy) && p2.last() == (mx, my));
}

/// One laid track cell preserves every connection to the seed, joins the
/// laid cell itself, and keeps every cell laid since `o` joined.
proof fn lemma_mark_connects(
    o: Grid,
    g1: Grid,
    g2: Grid,
    sx: int,
    sy: int,
    hx: int,
    hy: int,
    mx: int,
    my: int,
)
    requires
        g1.width == g2.width,
        g1.height == g2.height,
        g1.in_bounds(mx, my),
        g2.track_at(mx, my),
        forall|a: int, b: int|
            g1.in_bounds(a, b) && !(a == mx && b == my) ==> #[trigger] g2.cell_at(a, b)
                == g1.cell_at(a, b),
        track_connected(g1, sx, sy, hx, hy),
        cells_adjacent((hx, hy), (mx, my)) || (hx == mx && hy == my),
        forall|a: int, b: int|
            g1.track_at(a, b) && !o.track_at(a, b) ==> #[trigger] track_connected(
                g1,
                sx,
                sy,
                a,
                b,
            ),
    ensures
        forall|a: int, b: int|
            track_connected(g1, sx, sy, a, b) ==> #[trigger] track_connected(g2, sx, sy, a, b),
        track_connected(g2, sx, sy, mx, my),
        forall|a: int, b: int|
            g2.track_at(a, b) && !o.track_at(a, b) ==> #[trigger] track_connected(
                g2,
                sx,
                sy,
                a,
                b,
            ),
{
    assert forall|a: int, b: int| g1.track_at(a, b) implies #[trigger] g2.track_at(a, b) by {
        if !(a == mx && b == my) {
            assert(g2.cell_at(a, b) == g1.cell_at(a, b));
        }
    }
    assert forall|a: int, b: int|
        track_connected(g1, sx, sy, a, b) implies #[trigger] track_connected(g2, sx, sy, a, b)
        by {
        lemma_connected_monotone(g1, g2, sx, sy, a, b);
    }
    assert(track_connected(g2, sx, sy, hx, hy));
    if hx == mx && hy == my {
    } else {
        lemma_connected_extend(g2, sx, sy, hx, hy, mx, my);
    }
    assert forall|a: int, b: int|
        g2.track_at(a, b) && !o.track_at(a, b) implies #[trigger] track_connected(
            g2,
            sx,
            sy,
            a,
            b,
        ) by {
        if !(a == mx && b == my) {
            assert(g2.cell_at(a, b) == g1.cell_at(a, b));
            assert(track_connected(g1, sx, sy, a, b));
        }
    }
}

/// Length of the straight run that generation is guaranteed to lay from
/// the seed: the shortest random run, clipped at the right edge.
pub open spec fn first_run_len(g: Grid, x: int) -> int {
    if x + RUN_MIN <= g.width {
        RUN_MIN as int
    } else {
        g.width - x
    }
}

/// Generates a winding track by a random walk from `(x, y)`: straight
/// runs to the right alternate with vertical runs of a random sign, each
/// run of a random length, until the walk reaches the right-hand stop
/// band.  Runs are clipped to the eligible region instead of writing out
/// of range.  The walk only adds track, only inside the eligible region,
/// never touches connectivity or occupants; it always lays track under
/// its starting cell, lays at least the shortest straight run when it
/// starts with one, and ends with track inside the stop band.
pub fn gen_track(
    x: u32,
    y: u32,
    grid: &mut Grid,
    rng: &mut rand::rngs::StdRng,
    make_corner: bool,
)
    requires
        old(grid).wf(),
        (x as int) < old(grid).width,
        1 <= y as int,
        y as int + 2 <= old(grid).height,
    ensures
        final(grid).wf(),
        track_growth(*old(grid), *final(grid)),
        final(grid).track_at(x as int, y as int),
        !make_corner ==> forall|i: int|
            0 <= i < first_run_len(*old(grid), x as int) ==> #[trigger] final(grid).track_at(
                x as int + i,
                y as int,
            ),
        exists|xx: int, yy: int|
            #[trigger] final(grid).track_at(xx, yy)
                && xx + STOP_MARGIN as int >= final(grid).width,
        forall|a: int, b: int|
            final(grid).track_at(a, b) && !old(grid).track_at(a, b) ==> #[trigger]
                track_connected(*final(grid), x as int, y as int, a, b),
{
    let ghost o = *grid;
    let mut cx: usize = x as usize;
    let mut cy: usize = y as usize;
    let mut corner = make_corner;
    let mut go = true;
    let stop_x: usize = if grid.width >= STOP_MARGIN {
        grid.width - STOP_MARGIN
    } else {
        0
    };
    // the prefix of the first run that every random outcome lays
    let first_run: usize = if make_corner {
        1
    } else {
        if (RUN_MIN as usize) < grid.width - cx {
            RUN_MIN as usize
        } else {
            grid.width - cx
        }
    };
    let mut i0: usize = 0;
    while i0 < first_run
        invariant
            grid.wf(),
            o.wf(),
            grid.width == o.width,
            grid.height == o.height,
            grid.cells@.len() == o.cells@.len(),
            cx == x as int,
            cy == y as int,
            cx < grid.width,
            1 <= cy,
            cy + 2 <= grid.height,
            1 <= first_run,
            cx + first_run <= grid.width,
            i0 <= first_run,
            track_growth(o, *grid),
            forall|i: int| 0 <= i < i0 ==> #[trigger] grid.track_at(x as int + i, y as int),
            i0 >= 1 ==> track_connected(*grid, x as int, y as int, x as int + i0 - 1, y as int),
            forall|a: int, b: int|
                grid.track_at(a, b) && !o.track_at(a, b) ==> #[trigger] track_connected(
                    *grid,
                    x as int,
                    y as int,
                    a,
                    b,
                ),
        decreases first_run - i0,
    {
        let ghost g1 = *grid;
        mark_track(grid, cx + i0, cy);
        proof {
            lemma_growth_mark(o, g1, *grid, (cx + i0) as int, cy as int);
            assert forall|i: int| 0 <= i < i0 + 1
                implies #[trigger] grid.track_at(x as int + i, y as int) by {
                if i < i0 {
                    assert(g1.track_at(x as int + i, y as int));
                }
            }
            if i0 == 0 {
                lemma_connected_refl(*grid, x as int, y as int);
                assert forall|a: int, b: int| g1.track_at(a, b)
                    implies #[trigger] grid.track_at(a, b) by {
                    if !(a == x as int && b == y as int) {
                        assert(grid.cell_at(a, b) == g1.cell_at(a, b));
                    }
                }
                assert forall|a: int, b: int|
                    grid.track_at(a, b) && !o.track_at(a, b) implies #[trigger] track_connected(
                        *grid,
                        x as int,
                        y as int,
                        a,
                        b,
                    ) by {
                    if !(a == x as int && b == y as int) {
                        assert(grid.cell_at(a, b) == g1.cell_at(a, b));
                        assert(track_connected(g1, x as int, y as int, a, b));
                        lemma_connected_monotone(g1, *grid, x as int, y as int, a, b);
                    }
                }
            } else {
                lemma_mark_connects(
                    o,
                    g1,
                    *grid,
                    x as int,
                    y as int,
                    x as int + i0 - 1,
                    y as int,
                    x as int + i0,
                    y as int,
                );
            }
        }
        i0 = i0 + 1;
    }
    proof {
        lemma_connected_refl(*grid, x as int, y as int);
    }
    while go
        invariant
            grid.wf(),
            o.wf(),
            grid.width == o.width,
            grid.height == o.height,
            grid.cells@.len() == o.cells@.len(),
            cx < grid.width,
            1 <= cy,
            cy + 2 <= grid.height,
            1 <= first_run,
            (x as int) + first_run <= grid.width,
            track_growth(o, *grid),
            forall|i: int| 0 <= i < first_run ==> #[trigger] grid.track_at(x as int + i, y as int),
            stop_x == if o.width >= STOP_MARGIN { o.width - STOP_MARGIN } else { 0 },
            !go ==> exists|xx: int, yy: int|
                #[trigger] grid.track_at(xx, yy) && xx + STOP_MARGIN as int >= grid.width,
            track_connected(*grid, x as int, y as int, cx as int, cy as int),
            forall|a: int, b: int|
                grid.track_at(a, b) && !o.track_at(a, b) ==> #[trigger] track_connected(
                    *grid,
                    x as int,
                    y as int,
                    a,
                    b,
                ),
        decreases (if go { 2int } else { 0 }) + 2 * (grid.width - cx) + (if corner {
            1int
        } else {
            0
        }),
    {
        let len = rand_in_range(rng, RUN_MIN, RUN_MAX) as usize;
        if corner {
            let down = rand_coin(rng);
            let room: usize = if down {
                grid.height - 1 - cy
            } else {
                cy
            };
            let m: usize = if len < room {
                len
            } else {
                room
            };
            let mut i: usize = 0;
            while i < m
                invariant
                    grid.wf(),
                    o.wf(),
                    grid.width == o.width,
                    grid.height == o.height,
                    grid.cells@.len() == o.cells@.len(),
                    cx < grid.width,
                    1 <= cy,
                    cy + 2 <= grid.height,
                    1 <= first_run,
                    (x as int) + first_run <= grid.width,
                    track_growth(o, *grid),
                    forall|i2: int| 0 <= i2 < first_run ==> #[trigger] grid.track_at(
                        x as int + i2,
                        y as int,
                    ),
                    i <= m,
                    1 <= m,
                    down ==> cy + m <= grid.height - 1,
                    !down ==> m <= cy,
                    track_connected(*grid, x as int, y as int, cx as int, cy as int),
                    i >= 1 ==> track_connected(
                        *grid,
                        x as int,
                        y as int,
                        cx as int,
                        if down {
                            cy as int + i - 1
                        } else {
                            cy as int - (i - 1)
                        },
                    ),
                    forall|a: int, b: int|
                        grid.track_at(a, b) && !o.track_at(a, b) ==> #[trigger] track_connected(
                            *grid,
                            x as int,
                            y as int,
                            a,
                            b,
                        ),
                decreases m - i,
            {
                let my: usize = if down {
                    cy + i
                } else {
                    cy - i
                };
                let ghost g1 = *grid;
                let ghost prev_my: int = if i == 0 {
                    cy as int
                } else if down {
                    cy as int + i - 1
                } else {
                    cy as int - (i - 1)
                };
                mark_track(grid, cx, my);
                proof {
                    lemma_growth_mark(o, g1, *grid, cx as int, my as int);
                    assert forall|i2: int| 0 <= i2 < first_run
                        implies #[trigger] grid.track_at(x as int + i2, y as int) by {
                        assert(g1.track_at(x as int + i2, y as int));
                    }
                    lemma_mark_connects(
                        o,
                        g1,
                        *grid,
                        x as int,
                        y as int,
                        cx as int,
                        prev_my,
                        cx as int,
                        my as int,
                    );
                }
                i = i + 1;
            }
            if m > 1 {
                cy = if down {
                    cy + (m - 1)
                } else {
                    cy - (m - 1)
                };
            }
            corner = false;
        } else {
            let room: usize = grid.width - cx;
            let m: usize = if len < room {
                len
            } else {
                room
            };
            let mut i: usize = 0;
            while i < m
                invariant
                    grid.wf(),
                    o.wf(),
                    grid.width == o.width,
                    grid.height == o.height,
                    grid.cells@.len() == o.cells@.len(),
                    cx < grid.width,
                    1 <= cy,
                    cy + 2 <= grid.height,
                    1 <= first_run,
                    (x as int) + first_run <= grid.width,
                    track_growth(o, *grid),
                    forall|i2: int| 0 <= i2 < first_run ==> #[trigger] grid.track_at(
                        x as int + i2,
                        y as int,
                    ),
                    i <= m,
                    cx + m <= grid.width,
                    1 <= m,
                    1 <= i ==> grid.track_at(cx + i - 1, cy as int),
                    track_connected(*grid, x as int, y as int, cx as int, cy as int),
                    i >= 1 ==> track_connected(
                        *grid,
                        x as int,
                        y as int,
                        cx as int + i - 1,
                        cy as int,
                    ),
                    forall|a: int, b: int|
                        grid.track_at(a, b) && !o.track_at(a, b) ==> #[trigger] track_connected(
                            *grid,
                            x as int,
                            y as int,
                            a,
                            b,
                        ),
                decreases m - i,
            {
                let ghost g1 = *grid;
                let ghost prev_x: int = if i == 0 {
                    cx as int
                } else {
                    cx as int + i - 1
                };
                mark_track(grid, cx + i, cy);
                proof {
                    lemma_growth_mark(o, g1, *grid, (cx + i) as int, cy as int);
                    assert forall|i2: int| 0 <= i2 < first_run
                        implies #[trigger] grid.track_at(x as int + i2, y as int) by {
                        assert(g1.track_at(x as int + i2, y as int));
                    }
                    lemma_mark_connects(
                        o,
                        g1,
                        *grid,
                        x as int,
                        y as int,
                        prev_x,
                        cy as int,
                        cx as int + i,
                        cy as int,
                    );
                }
                i = i + 1;
            }
            let last_x: usize = cx + (m - 1);
            if last_x >= stop_x {
                go = false;
                proof {
                    assert(grid.track_at(last_x as int, cy as int));
                    assert(last_x as int + STOP_MARGIN as int >= grid.width);
                }
            }
            cx = last_x;
            corner = true;
        }
    }
    proof {
        assert(grid.track_at(x as int + 0, y as int));
    }
}

/// The cell that the connectivity pass records for `(x, y)`: a track cell
/// takes the mask of its track neighbours, any other cell is unchanged.
pub open spec fn eval_cell(g: Grid, x: int, y: int) -> Cell {
    Cell {
        track: g.cell_at(x, y).track,
        conn: if g.cell_at(x, y).track {
            neighbors_mask(g, x, y)
        } else {
            g.cell_at(x, y).conn
        },
        occupant: g.cell_at(x, y).occupant,
    }
}

/// Relation between the grid before and after one full connectivity pass.
pub open spec fn connectivity_pass(g0: Grid, g1: Grid) -> bool {
    &&& g1.width == g0.width
    &&& g1.height == g0.height
    &&& g1.cells@.len() == g0.cells@.len()
    &&& forall|x: int, y: int|
        g0.in_bounds(x, y) ==> #[trigger] g1.cell_at(x, y) == eval_cell(g0, x, y)
}

/// Two grids with the same track layout assign every cell the same
/// connectivity mask.
pub proof fn lemma_mask_same_tracks(g1: Grid, g2: Grid, x: int, y: int)
    requires
        g1.same_tracks(g2),
    ensures
        neighbors_mask(g1, x, y) == neighbors_mask(g2, x, y),
{
    if g1.in_bounds(x, y - 1) {
        assert(g1.cell_at(x, y - 1).track == g2.cell_at(x, y - 1).track);
    }
    if g1.in_bounds(x + 1, y) {
        assert(g1.cell_at(x + 1, y).track == g2.cell_at(x + 1, y).track);
    }
    if g1.in_bounds(x, y + 1) {
        assert(g1.cell_at(x, y + 1).track == g2.cell_at(x, y + 1).track);
    }
    if g1.in_bounds(x - 1, y) {
        assert(g1.cell_at(x - 1, y).track == g2.cell_at(x - 1, y).track);
    }
}

/// Visits every cell and, for track cells, records the connectivity mask
/// computed from the current track layout.
pub fn evaluate_all_tracks(grid: &mut Grid)
    requires
        old(grid).wf(),
    ensures
        final(grid).wf(),
        connectivity_pass(*old(grid), *final(grid)),
{
    let ghost o = *grid;
    let total: usize = grid.cells.len();
    let mut i: usize = 0;
    while i < total
        invariant
            grid.wf(),
            o.wf(),
            grid.width == o.width,
            grid.height == o.height,
            grid.cells@.len() == o.cells@.len(),
            total == o.cells@.len(),
            i <= total,
            forall|j: int| i <= j < total ==> grid.cells@[j] == o.cells@[j],
            forall|xi: int, yi: int|
                o.in_bounds(xi, yi) && cell_index(xi, yi, o.width as int) < i
                    ==> #[trigger] grid.cell_at(xi, yi) == eval_cell(o, xi, yi),
            o.same_tracks(*grid),
        decreases total - i,
    {
        let ghost gpre = *grid;
        evaluate_track_dir(i, grid);
        proof {
            lemma_cell_index_split(i as int, o.width as int, o.height as int);
            let ix = i as int % o.width as int;
            let iy = i as int / o.width as int;
            lemma_mask_same_tracks(gpre, o, ix, iy);
            assert(gpre.cells@[i as int] == o.cells@[i as int]);
            assert forall|xi: int, yi: int|
                o.in_bounds(xi, yi) && cell_index(xi, yi, o.width as int) < i + 1
                    implies #[trigger] grid.cell_at(xi, yi) == eval_cell(o, xi, yi) by {
                lemma_cell_index_bound(xi, yi, o.width as int, o.height as int);
                if cell_index(xi, yi, o.width as int) == i {
                    lemma_cell_index_injective(xi, yi, ix, iy, o.width as int);
                } else {
                    assert(gpre.cell_at(xi, yi) == eval_cell(o, xi, yi));
                    assert(grid.cells@[cell_index(xi, yi, o.width as int)] == gpre.cells@[
                        cell_index(xi, yi, o.width as int)
                    ]);
                }
            }
            assert forall|xi: int, yi: int| o.in_bounds(xi, yi)
                implies #[trigger] o.cell_at(xi, yi).track == grid.cell_at(xi, yi).track by {
                lemma_cell_index_bound(xi, yi, o.width as int, o.height as int);
                if cell_index(xi, yi, o.width as int) == i {
                    lemma_cell_index_injective(xi, yi, ix, iy, o.width as int);
                } else {
                    assert(gpre.cell_at(xi, yi).track == o.cell_at(xi, yi).track);
                    assert(grid.cells@[cell_index(xi, yi, o.width as int)] == gpre.cells@[
                        cell_index(xi, yi, o.width as int)
                    ]);
                }
            }
        }
        i = i + 1;
    }
    proof {
        assert forall|xi: int, yi: int| o.in_bounds(xi, yi)
            implies #[trigger] grid.cell_at(xi, yi) == eval_cell(o, xi, yi) by {
            lemma_cell_index_bound(xi, yi, o.width as int, o.height as int);
        }
    }
}

/// Every track cell's recorded mask matches the mask its neighbours
/// define.
pub open spec fn masks_recorded(g: Grid) -> bool {
    forall|x: int, y: int|
        g.track_at(x, y) ==> #[trigger] g.cell_at(x, y).conn == neighbors_mask(g, x, y)
}

/// After a connectivity pass, every track cell's mask matches its
/// neighbours in the resulting grid.
pub proof fn lemma_pass_records(g0: Grid, g1: Grid)
    requires
        connectivity_pass(g0, g1),
    ensures
        masks_recorded(g1),
{
    assert forall|a: int, b: int| g0.in_bounds(a, b)
        implies #[trigger] g0.cell_at(a, b).track == g1.cell_at(a, b).track by {
        assert(g1.cell_at(a, b) == eval_cell(g0, a, b));
    }
    assert(g0.same_tracks(g1));
    assert forall|x: int, y: int| g1.track_at(x, y)
        implies #[trigger] g1.cell_at(x, y).conn == neighbors_mask(g1, x, y) by {
        assert(g1.cell_at(x, y) == eval_cell(g0, x, y));
        lemma_mask_same_tracks(g0, g1, x, y);
    }
}

/// Recording connectivity is idempotent: a second pass over a grid whose
/// masks were just recorded leaves every cell exactly as it was.
pub proof fn lemma_connectivity_pass_idempotent(g0: Grid, g1: Grid, g2: Grid)
    requires
        g0.wf(),
        connectivity_pass(g0, g1),
        connectivity_pass(g1, g2),
    ensures
        g2.width == g1.width,
        g2.height == g1.height,
        g2.cells@ == g1.cells@,
{
    assert forall|x: int, y: int| g0.in_bounds(x, y)
        implies #[trigger] g0.cell_at(x, y).track == g1.cell_at(x, y).track by {
        assert(g1.cell_at(x, y) == eval_cell(g0, x, y));
    }
    assert(g0.same_tracks(g1));
    assert forall|x: int, y: int| g1.in_bounds(x, y)
        implies #[trigger] g2.cell_at(x, y) == g1.cell_at(x, y) by {
        assert(g1.cell_at(x, y) == eval_cell(g0, x, y));
        assert(g2.cell_at(x, y) == eval_cell(g1, x, y));
        lemma_mask_same_tracks(g0, g1, x, y);
    }
    assert(g2.cells@ =~= g1.cells@) by {
        assert forall|j: int| 0 <= j < g1.cells@.len() implies g2.cells@[j] == g1.cells@[j] by {
            lemma_cell_index_split(j, g1.width as int, g1.height as int);
            let jx = j % g1.width as int;
            let jy = j / g1.width as int;
            assert(g2.cell_at(jx, jy) == g1.cell_at(jx, jy));
        }
    }
}

} // verus!
