use railgrid::game::{
    advance_train, track_tile_for_mask, Entity, Game, Input, TrackTile, BACKGROUND_COLOR,
    CELL_PLAYER_COLOR, CELL_TRACK_COLOR, GRASS_COLOR, GRID_HEIGHT, GRID_WIDTH, SEED_X, SEED_Y,
};
use railgrid::renderer::Renderer;
use railgrid::grid::{
    evaluate_track_dir, get_grid_cell_pos, get_index, get_position, index_in_grid, Cell, Grid,
    Occupant, DIR_DOWN, DIR_LEFT, DIR_RIGHT, DIR_UP, TRAIL_TICKS,
};
use railgrid::bitmap::Bitmap;
use railgrid::rng::rng_from_seed;
use railgrid::track::{evaluate_all_tracks, gen_track};

fn test_atlas() -> Bitmap {
    Bitmap::new(49, 22)
}

fn track_cell() -> Cell {
    Cell {
        track: true,
        conn: 0,
        occupant: Occupant::Vacant,
    }
}

#[test]
fn track_generation_stays_in_bounds() {
    for seed in [0u64, 1, 7, 42, 987654321] {
        for (w, h) in [(50usize, 9usize), (50, 14), (8, 7), (100, 20)] {
            let mut grid = Grid::new(w, h);
            let mut rng = rng_from_seed(seed);
            gen_track(0, 5, &mut grid, &mut rng, false);
            for y in 0..h {
                for x in 0..w {
                    if grid.cell(x, y).track {
                        assert!(x < w);
                        assert!(y >= 1 && y + 2 <= h, "track outside eligible rows at ({x},{y})");
                    }
                }
            }
        }
    }
}

#[test]
fn track_generation_marks_seed() {
    let mut grid = Grid::new(50, 9);
    let mut rng = rng_from_seed(3);
    gen_track(0, 5, &mut grid, &mut rng, false);
    assert!(grid.cell(0, 5).track);
}

#[test]
fn connectivity_mask_matches_neighbors() {
    // a 3x3 plus-shape of track in a 5x5 grid
    let mut grid = Grid::new(5, 5);
    for (x, y) in [(2usize, 1usize), (1, 2), (2, 2), (3, 2), (2, 3)] {
        grid.set_cell(x, y, track_cell());
    }
    evaluate_all_tracks(&mut grid);
    // the center sees all four neighbours
    assert_eq!(grid.cell(2, 2).conn, DIR_UP | DIR_RIGHT | DIR_DOWN | DIR_LEFT);
    // the arms see only the center
    assert_eq!(grid.cell(2, 1).conn, DIR_DOWN);
    assert_eq!(grid.cell(1, 2).conn, DIR_RIGHT);
    assert_eq!(grid.cell(3, 2).conn, DIR_LEFT);
    assert_eq!(grid.cell(2, 3).conn, DIR_UP);
    // non-track cells keep a zero mask
    assert_eq!(grid.cell(0, 0).conn, 0);
}

#[test]
fn connectivity_at_grid_corners_reads_no_neighbor() {
    let mut grid = Grid::new(2, 2);
    grid.set_cell(0, 0, track_cell());
    grid.set_cell(1, 1, track_cell());
    evaluate_all_tracks(&mut grid);
    // diagonal neighbours do not count, and edges read as no neighbour
    assert_eq!(grid.cell(0, 0).conn, 0);
    assert_eq!(grid.cell(1, 1).conn, 0);
}

#[test]
fn connectivity_pass_is_idempotent() {
    let mut grid = Grid::new(50, 9);
    let mut rng = rng_from_seed(11);
    gen_track(0, 5, &mut grid, &mut rng, false);
    evaluate_all_tracks(&mut grid);
    let snapshot: Vec<Cell> = (0..9)
        .flat_map(|y| (0..50).map(move |x| (x, y)))
        .map(|(x, y)| grid.cell(x, y))
        .collect();
    evaluate_all_tracks(&mut grid);
    let again: Vec<Cell> = (0..9)
        .flat_map(|y| (0..50).map(move |x| (x, y)))
        .map(|(x, y)| grid.cell(x, y))
        .collect();
    assert_eq!(snapshot, again);
}

#[test]
fn single_evaluate_only_touches_its_cell() {
    let mut grid = Grid::new(4, 4);
    grid.set_cell(1, 1, track_cell());
    grid.set_cell(2, 1, track_cell());
    let index = get_index(1, 1, 4) as usize;
    evaluate_track_dir(index, &mut grid);
    assert_eq!(grid.cell(1, 1).conn, DIR_RIGHT);
    // the neighbour was not rewritten
    assert_eq!(grid.cell(2, 1).conn, 0);
}

#[test]
fn zero_direction_tick_leaves_grid_unchanged() {
    let atlas = test_atlas();
    let mut game = Game::new(&atlas, 5, 50, 9);
    game.reset();
    // plant a trailing marker to observe that its counter is held
    game.grid.set_cell(
        3,
        3,
        Cell {
            track: false,
            conn: 0,
            occupant: Occupant::Trailing(2),
        },
    );
    let before: Vec<Cell> = (0..9)
        .flat_map(|y| (0..50).map(move |x| (x, y)))
        .map(|(x, y)| game.grid.cell(x, y))
        .collect();
    game.tick(0, 0);
    let after: Vec<Cell> = (0..9)
        .flat_map(|y| (0..50).map(move |x| (x, y)))
        .map(|(x, y)| game.grid.cell(x, y))
        .collect();
    assert_eq!(before, after);
    assert_eq!(
        game.grid.cell(SEED_X as usize, SEED_Y as usize).occupant,
        Occupant::Front
    );
}

#[test]
fn move_onto_track_relocates_front_and_leaves_full_trail() {
    let atlas = test_atlas();
    let mut game = Game::new(&atlas, 0, 10, 8);
    game.grid.set_cell(1, 1, track_cell());
    game.grid.set_cell(2, 1, track_cell());
    game.grid.set_cell(
        1,
        1,
        Cell {
            track: true,
            conn: 0,
            occupant: Occupant::Front,
        },
    );
    game.initialized = true;
    game.tick(1, 0);
    assert_eq!(game.grid.cell(2, 1).occupant, Occupant::Front);
    assert_eq!(game.grid.cell(1, 1).occupant, Occupant::Trailing(TRAIL_TICKS));
    assert!(game.grid.cell(1, 1).track, "the vacated cell keeps its track");
    // no other cell holds any occupancy marker
    for y in 0..8 {
        for x in 0..10 {
            if (x, y) != (1, 1) && (x, y) != (2, 1) {
                assert_eq!(game.grid.cell(x, y).occupant, Occupant::Vacant);
            }
        }
    }
}

#[test]
fn move_off_track_is_rejected() {
    let atlas = test_atlas();
    let mut game = Game::new(&atlas, 0, 10, 8);
    game.grid.set_cell(
        1,
        1,
        Cell {
            track: true,
            conn: 0,
            occupant: Occupant::Front,
        },
    );
    game.initialized = true;
    game.last_dir_x = 0;
    game.tick(1, 0);
    assert_eq!(game.grid.cell(1, 1).occupant, Occupant::Front);
    assert_eq!(game.grid.cell(2, 1).occupant, Occupant::Vacant);
}

#[test]
fn rejected_move_steers_down_onto_track() {
    let atlas = test_atlas();
    let mut game = Game::new(&atlas, 0, 10, 8);
    game.grid.set_cell(
        1,
        1,
        Cell {
            track: true,
            conn: 0,
            occupant: Occupant::Front,
        },
    );
    game.grid.set_cell(1, 2, track_cell());
    game.initialized = true;
    game.last_dir_x = 1;
    // the requested rightward target (2,1) is not track; the probe finds (1,2)
    game.tick(1, 0);
    assert_eq!(game.grid.cell(1, 2).occupant, Occupant::Front);
    assert_eq!(game.grid.cell(1, 1).occupant, Occupant::Trailing(TRAIL_TICKS));
    assert_eq!(game.last_dir_x, 0);
    assert_eq!(game.last_dir_y, 1);
}

#[test]
fn trailing_counters_decay_on_move_ticks() {
    let atlas = test_atlas();
    let mut game = Game::new(&atlas, 0, 10, 8);
    game.grid.set_cell(
        4,
        4,
        Cell {
            track: false,
            conn: 0,
            occupant: Occupant::Trailing(2),
        },
    );
    game.grid.set_cell(
        5,
        5,
        Cell {
            track: false,
            conn: 0,
            occupant: Occupant::Trailing(1),
        },
    );
    game.initialized = true;
    game.tick(1, 0);
    assert_eq!(game.grid.cell(4, 4).occupant, Occupant::Trailing(1));
    assert_eq!(game.grid.cell(5, 5).occupant, Occupant::Vacant);
}

#[test]
fn seeded_run_keeps_front_on_track_and_monotone() {
    let atlas = test_atlas();
    let mut game = Game::new(&atlas, 123456, 50, 9);
    game.reset();
    let (mut fx, fy0) = match railgrid::game::find_front(&game.grid) {
        Some(p) => p,
        None => panic!("no front after reset"),
    };
    assert_eq!((fx, fy0), (SEED_X as usize, SEED_Y as usize));
    assert!(game.grid.cell(fx, fy0).track);
    for _ in 0..20 {
        game.tick(1, 0);
        let (nx, ny) = railgrid::game::find_front(&game.grid).expect("front lost");
        assert!(game.grid.cell(nx, ny).track, "front left the track");
        assert!(nx >= fx, "front x went backwards");
        fx = nx;
    }
}

#[test]
fn default_grid_constants_fit_the_frame() {
    assert_eq!(GRID_WIDTH, 50);
    assert_eq!(GRID_HEIGHT, 14);
}

#[test]
fn index_helpers_round_trip() {
    assert_eq!(get_index(3, 2, 50), 103);
    let (x, y) = get_position(103, 50);
    assert_eq!((x, y), (3, 2));
    assert!(index_in_grid(103, 450));
    assert!(!index_in_grid(450, 450));
    assert!(index_in_grid(0, 450));
}

#[test]
fn cell_lookup_rejects_out_of_range_without_aliasing() {
    let mut grid = Grid::new(4, 4);
    grid.set_cell(0, 1, track_cell());
    // column 4 of row 0 would alias to (0,1) under naive linear indexing
    assert_eq!(get_grid_cell_pos(4, 0, &grid), None);
    assert_eq!(get_grid_cell_pos(0, 4, &grid), None);
    assert_eq!(get_grid_cell_pos(0, 1, &grid), Some(grid.cell(0, 1)));
}

#[test]
fn track_tile_selection_matches_masks() {
    assert_eq!(track_tile_for_mask(DIR_UP | DIR_DOWN), TrackTile::Vertical);
    assert_eq!(track_tile_for_mask(DIR_RIGHT | DIR_LEFT), TrackTile::Horizontal);
    assert_eq!(
        track_tile_for_mask(DIR_UP | DIR_DOWN | DIR_RIGHT),
        TrackTile::TJunction
    );
    assert_eq!(
        track_tile_for_mask(DIR_RIGHT | DIR_LEFT | DIR_DOWN),
        TrackTile::TJunction
    );
    assert_eq!(track_tile_for_mask(DIR_UP | DIR_RIGHT), TrackTile::CornerTopRight);
    assert_eq!(track_tile_for_mask(DIR_UP | DIR_LEFT), TrackTile::CornerTopLeft);
    assert_eq!(track_tile_for_mask(DIR_DOWN | DIR_RIGHT), TrackTile::CornerBottomRight);
    assert_eq!(track_tile_for_mask(DIR_DOWN | DIR_LEFT), TrackTile::CornerBottomLeft);
    assert_eq!(track_tile_for_mask(0), TrackTile::Crossing);
    assert_eq!(track_tile_for_mask(DIR_UP), TrackTile::Crossing);
    assert_eq!(
        track_tile_for_mask(DIR_UP | DIR_DOWN | DIR_RIGHT | DIR_LEFT),
        TrackTile::TJunction
    );
}

#[test]
fn train_follows_with_one_tick_delay() {
    let mut train = vec![Entity::new(0, 0), Entity::new(0, 32), Entity::new(0, 64)];
    // the head picks up a new velocity this tick; the carts still move by
    // the velocities held when the tick began, so cart 1 stays put
    advance_train(&mut train, 1, 0);
    assert_eq!((train[0].pos_x, train[0].pos_y), (1, 0));
    assert_eq!(train[0].vel_x, 1);
    assert_eq!((train[1].pos_x, train[1].pos_y), (0, 32));
    assert_eq!(train[1].vel_x, 0);
    assert_eq!((train[2].pos_x, train[2].pos_y), (0, 64));
    // one tick later cart 1 follows the head's previous velocity
    advance_train(&mut train, 1, 0);
    assert_eq!((train[0].pos_x, train[0].pos_y), (2, 0));
    assert_eq!((train[1].pos_x, train[1].pos_y), (1, 32));
    assert_eq!(train[1].vel_x, 1);
    assert_eq!((train[2].pos_x, train[2].pos_y), (0, 64));
    // and one tick after that the delay reaches cart 2
    advance_train(&mut train, 1, 0);
    assert_eq!((train[0].pos_x, train[0].pos_y), (3, 0));
    assert_eq!((train[1].pos_x, train[1].pos_y), (2, 32));
    assert_eq!((train[2].pos_x, train[2].pos_y), (1, 64));
    assert_eq!(train[2].vel_x, 1);
}

#[test]
fn update_accumulates_time_and_clamps_interval() {
    let atlas = test_atlas();
    let mut game = Game::new(&atlas, 9, 50, 9);
    let mut slower = Input::none();
    slower.slower_pressed = true;
    // the interval starts at 2000 and caps at 3000
    game.update(&slower, 10);
    assert_eq!(game.move_interval_ms, 2200);
    for _ in 0..10 {
        game.update(&slower, 10);
    }
    assert_eq!(game.move_interval_ms, 3000);
    let mut faster = Input::none();
    faster.faster_pressed = true;
    for _ in 0..20 {
        game.update(&faster, 10);
    }
    assert_eq!(game.move_interval_ms, 200);
    assert_eq!(game.time_passed_ms, 310);
    assert!(game.initialized);
}

#[test]
fn update_scroll_keys_move_the_view() {
    let atlas = test_atlas();
    let mut game = Game::new(&atlas, 9, 50, 9);
    let x0 = game.grid_offset_x;
    let y0 = game.grid_offset_y;
    let mut input = Input::none();
    input.scroll_up = true;
    input.scroll_left = true;
    game.update(&input, 1);
    assert_eq!(game.grid_offset_y, y0 + 32);
    assert_eq!(game.grid_offset_x, x0 + 32);
    let mut back = Input::none();
    back.scroll_down = true;
    back.scroll_right = true;
    game.update(&back, 1);
    assert_eq!(game.grid_offset_y, y0);
    assert_eq!(game.grid_offset_x, x0);
}

#[test]
fn reset_seeds_front_and_records_masks() {
    let atlas = test_atlas();
    let mut game = Game::new(&atlas, 77, 50, 9);
    game.reset();
    assert_eq!(
        game.grid.cell(SEED_X as usize, SEED_Y as usize).occupant,
        Occupant::Front
    );
    assert!(game.grid.cell(SEED_X as usize, SEED_Y as usize).track);
    // spot-check the recorded masks against the neighbours
    for y in 0..9usize {
        for x in 0..50usize {
            let c = game.grid.cell(x, y);
            if c.track {
                let mut expect = 0u8;
                if y > 0 && game.grid.cell(x, y - 1).track {
                    expect |= DIR_UP;
                }
                if x + 1 < 50 && game.grid.cell(x + 1, y).track {
                    expect |= DIR_RIGHT;
                }
                if y + 1 < 9 && game.grid.cell(x, y + 1).track {
                    expect |= DIR_DOWN;
                }
                if x > 0 && game.grid.cell(x - 1, y).track {
                    expect |= DIR_LEFT;
                }
                assert_eq!(c.conn, expect, "mask mismatch at ({x},{y})");
            }
        }
    }
}

#[test]
fn same_seed_gives_identical_runs() {
    let atlas = test_atlas();
    let mut a = Game::new(&atlas, 2024, 50, 9);
    let mut b = Game::new(&atlas, 2024, 50, 9);
    a.reset();
    b.reset();
    for _ in 0..20 {
        a.tick(1, 0);
        b.tick(1, 0);
    }
    for y in 0..9 {
        for x in 0..50 {
            assert_eq!(a.grid.cell(x, y), b.grid.cell(x, y));
        }
    }
}

#[test]
fn different_seeds_give_different_tracks() {
    let mut grid_a = Grid::new(50, 9);
    let mut grid_b = Grid::new(50, 9);
    let mut rng_a = rng_from_seed(1);
    let mut rng_b = rng_from_seed(2);
    gen_track(0, 5, &mut grid_a, &mut rng_a, false);
    gen_track(0, 5, &mut grid_b, &mut rng_b, false);
    let mut differs = false;
    for y in 0..9 {
        for x in 0..50 {
            if grid_a.cell(x, y).track != grid_b.cell(x, y).track {
                differs = true;
            }
        }
    }
    assert!(differs, "two seeds drew the same walk");
}

fn frame_px(r: &Renderer, x: usize, y: usize) -> [u8; 4] {
    let b = (y * r.width + x) * 4;
    [r.frame[b], r.frame[b + 1], r.frame[b + 2], r.frame[b + 3]]
}

#[test]
fn draw_layers_cells_over_the_background() {
    // an opaque atlas: every sprite pixel passes the alpha test
    let mut atlas = Bitmap::new(49, 22);
    for y in 0..22 {
        for x in 0..49 {
            atlas.put_pixel(x, y, [10, 20, 30, 255]);
        }
    }
    let mut game = Game::new(&atlas, 1, 50, 9);
    game.grid.set_cell(
        1,
        0,
        Cell {
            track: true,
            conn: DIR_UP | DIR_DOWN,
            occupant: Occupant::Vacant,
        },
    );
    game.grid.set_cell(
        2,
        0,
        Cell {
            track: false,
            conn: 0,
            occupant: Occupant::Front,
        },
    );
    let mut r = Renderer::new(640, 480);
    game.draw(&mut r);
    // outside every cell box (the view offset starts at 112,100): background
    assert_eq!(frame_px(&r, 0, 0), BACKGROUND_COLOR);
    assert_eq!(frame_px(&r, 111, 100), BACKGROUND_COLOR);
    // cell (0,0) is a whole empty cell: its 2x2 grass footprint is tinted
    assert_eq!(frame_px(&r, 112, 100), GRASS_COLOR);
    assert_eq!(frame_px(&r, 113, 101), GRASS_COLOR);
    // inside the cell box but beyond the sprite footprint: background
    assert_eq!(frame_px(&r, 120, 108), BACKGROUND_COLOR);
    // the track cell takes the track tint, the front cell the player tint
    assert_eq!(frame_px(&r, 144, 100), CELL_TRACK_COLOR);
    assert_eq!(frame_px(&r, 176, 100), CELL_PLAYER_COLOR);
}

#[test]
fn draw_with_transparent_sprites_leaves_background_everywhere() {
    let atlas = Bitmap::new(49, 22);
    let game = Game::new(&atlas, 1, 50, 9);
    let mut r = Renderer::new(640, 480);
    game.draw(&mut r);
    for chunk in r.frame.chunks_exact(4) {
        assert_eq!(chunk, BACKGROUND_COLOR);
    }
}

#[test]
fn generated_track_is_one_connected_path() {
    for seed in [0u64, 9, 1234, 77777] {
        let mut grid = Grid::new(50, 9);
        let mut rng = rng_from_seed(seed);
        gen_track(0, 5, &mut grid, &mut rng, false);
        // flood-fill the track from the seed cell
        let mut seen = vec![false; 50 * 9];
        let mut stack = vec![(0usize, 5usize)];
        assert!(grid.cell(0, 5).track);
        seen[5 * 50] = true;
        while let Some((x, y)) = stack.pop() {
            let neighbors = [
                (x.wrapping_sub(1), y),
                (x + 1, y),
                (x, y.wrapping_sub(1)),
                (x, y + 1),
            ];
            for (nx, ny) in neighbors {
                if nx < 50 && ny < 9 && !seen[ny * 50 + nx] && grid.cell(nx, ny).track {
                    seen[ny * 50 + nx] = true;
                    stack.push((nx, ny));
                }
            }
        }
        // every laid track cell is joined to the seed through track
        for y in 0..9 {
            for x in 0..50 {
                if grid.cell(x, y).track {
                    assert!(seen[y * 50 + x], "track at ({x},{y}) is cut off from the seed");
                }
            }
        }
    }
}

#[test]
fn new_game_has_empty_grids() {
    let atlas = test_atlas();
    let game = Game::new(&atlas, 4, 50, 9);
    assert!(!game.initialized);
    for y in 0..9 {
        for x in 0..50 {
            assert_eq!(game.grid.cell(x, y), Cell { track: false, conn: 0, occupant: Occupant::Vacant });
            assert_eq!(game.new_grid.cell(x, y), Cell { track: false, conn: 0, occupant: Occupant::Vacant });
        }
    }
}
