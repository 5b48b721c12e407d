use toroidal_life::life_cell::{Cell, CellState, World};

const W: usize = 8;
const H: usize = 8;

fn live_cells(world: &World, w: usize, h: usize) -> Vec<(usize, usize)> {
    let mut out = Vec::new();
    for y in 0..h {
        for x in 0..w {
            if world.read_cell((x, y)).state == CellState::Live {
                out.push((x, y));
            }
        }
    }
    out
}

fn brute_neighbours(world: &World, w: usize, h: usize, x: usize, y: usize) -> i32 {
    let mut n = 0;
    for dy in [h - 1, 0, 1] {
        for dx in [w - 1, 0, 1] {
            if dx == 0 && dy == 0 {
                continue;
            }
            if world.read_cell(((x + dx) % w, (y + dy) % h)).state == CellState::Live {
                n += 1;
            }
        }
    }
    n
}

fn assert_counts_exact(world: &World, w: usize, h: usize) {
    for y in 0..h {
        for x in 0..w {
            assert_eq!(
                world.read_cell((x, y)).neighbours,
                brute_neighbours(world, w, h, x, y),
                "cell ({}, {})",
                x,
                y
            );
        }
    }
}

fn seed(world: &mut World, cells: &[(usize, usize)]) -> i32 {
    let mut total = 0;
    for &c in cells {
        total += world.set_cell(c, CellState::Live);
    }
    total
}

fn sorted(mut v: Vec<(usize, usize)>) -> Vec<(usize, usize)> {
    v.sort();
    v
}

#[test]
fn invert_flips_both_ways() {
    assert_eq!(CellState::Dead.invert(), CellState::Live);
    assert_eq!(CellState::Live.invert(), CellState::Dead);
}

#[test]
fn defaults_are_dead_and_zero() {
    assert_eq!(CellState::default(), CellState::Dead);
    let c = Cell::default();
    assert_eq!(c.state, CellState::Dead);
    assert_eq!(c.neighbours, 0);
}

#[test]
fn new_world_is_all_dead_with_zero_counts() {
    let world = World::new((5, 3));
    for y in 0..3 {
        for x in 0..5 {
            let c = world.read_cell((x, y));
            assert_eq!(c.state, CellState::Dead);
            assert_eq!(c.neighbours, 0);
        }
    }
}

#[test]
fn set_cell_returns_population_delta() {
    let mut world = World::new((W, H));
    assert_eq!(world.set_cell((3, 4), CellState::Live), 1);
    assert_eq!(world.set_cell((3, 4), CellState::Live), 0);
    assert_eq!(world.set_cell((3, 4), CellState::Dead), -1);
    assert_eq!(world.set_cell((3, 4), CellState::Dead), 0);
}

#[test]
fn set_cell_updates_the_eight_neighbours() {
    let mut world = World::new((W, H));
    world.set_cell((3, 4), CellState::Live);
    for y in 0..H {
        for x in 0..W {
            let near = (x as i64 - 3).abs() <= 1 && (y as i64 - 4).abs() <= 1 && !(x == 3 && y == 4);
            assert_eq!(world.read_cell((x, y)).neighbours, if near { 1 } else { 0 });
        }
    }
}

#[test]
fn neighbours_wrap_independently_on_each_axis() {
    let mut world = World::new((5, 4));
    world.set_cell((4, 0), CellState::Live);
    // Same row, first column: horizontal wrap stays in the row.
    assert_eq!(world.read_cell((0, 0)).neighbours, 1);
    // Last row: vertical wrap.
    assert_eq!(world.read_cell((4, 3)).neighbours, 1);
    assert_eq!(world.read_cell((0, 3)).neighbours, 1);
    assert_eq!(world.read_cell((0, 1)).neighbours, 1);
    // First column of the next row is not the neighbour to the right.
    assert_eq!(world.read_cell((0, 2)).neighbours, 0);
    assert_eq!(world.read_cell((1, 1)).neighbours, 0);
    assert_counts_exact(&world, 5, 4);
}

#[test]
fn read_cell_wraps_coordinates() {
    let mut world = World::new((W, H));
    world.set_cell((0, 0), CellState::Live);
    world.set_cell((W + 2, 3 * H + 1), CellState::Live);
    assert_eq!(world.read_cell((0, 0)), world.read_cell((W, 0)));
    assert_eq!(world.read_cell((0, 0)), world.read_cell((0, H)));
    assert_eq!(world.read_cell((2, 1)).state, CellState::Live);
    assert_eq!(world.read_cell((2, 1)), world.read_cell((2 + 5 * W, 1 + 7 * H)));
    for y in 0..H {
        for x in 0..W {
            assert_eq!(world.read_cell((x, y)), world.read_cell((x + W, y)));
            assert_eq!(world.read_cell((x, y)), world.read_cell((x, y + H)));
        }
    }
}

#[test]
fn re_set_to_current_state_changes_nothing() {
    let mut world = World::new((W, H));
    seed(&mut world, &[(1, 1), (2, 1), (5, 6)]);
    let before: Vec<Cell> = (0..W * H).map(|i| world.read_cell((i % W, i / W))).collect();
    assert_eq!(world.set_cell((2, 1), CellState::Live), 0);
    assert_eq!(world.set_cell((4, 4), CellState::Dead), 0);
    let after: Vec<Cell> = (0..W * H).map(|i| world.read_cell((i % W, i / W))).collect();
    assert_eq!(before, after);
}

#[test]
fn seeding_deltas_add_up_to_population() {
    let mut world = World::new((W, H));
    let total = seed(&mut world, &[(1, 0), (3, 1), (0, 2), (1, 2), (4, 2), (5, 2), (6, 2), (1, 0)]);
    assert_eq!(total, 7);
    assert_eq!(live_cells(&world, W, H).len(), 7);
}

#[test]
fn update_delta_matches_recount_and_counts_stay_exact() {
    let mut world = World::new((W, H));
    let mut pop = seed(&mut world, &[(1, 0), (3, 1), (0, 2), (1, 2), (4, 2), (5, 2), (6, 2)]);
    assert_counts_exact(&world, W, H);
    for _ in 0..30 {
        let before = live_cells(&world, W, H).len() as i32;
        let d = world.update_world();
        let after = live_cells(&world, W, H).len() as i32;
        assert_eq!(d, after - before);
        pop += d;
        assert_eq!(pop, after);
        assert_counts_exact(&world, W, H);
    }
    world.set_cell((7, 7), CellState::Live);
    world.set_cell((0, 0), CellState::Dead);
    assert_counts_exact(&world, W, H);
}

#[test]
fn still_life_block() {
    let mut world = World::new((W, H));
    let block = vec![(1, 1), (1, 2), (2, 1), (2, 2)];
    assert_eq!(seed(&mut world, &block), 4);
    assert_eq!(world.update_world(), 0);
    assert_eq!(sorted(live_cells(&world, W, H)), sorted(block.clone()));
    for &(x, y) in &block {
        assert_eq!(world.read_cell((x, y)).state, CellState::Live);
        assert_eq!(world.read_cell((x, y)).neighbours, 3);
    }
    for _ in 0..5 {
        assert_eq!(world.update_world(), 0);
    }
    assert_eq!(sorted(live_cells(&world, W, H)), sorted(block));
}

#[test]
fn blinker_oscillates() {
    let mut world = World::new((W, H));
    let vertical = vec![(2, 1), (2, 2), (2, 3)];
    let horizontal = vec![(1, 2), (2, 2), (3, 2)];
    assert_eq!(seed(&mut world, &vertical), 3);
    assert_eq!(world.update_world(), 0);
    assert_eq!(sorted(live_cells(&world, W, H)), sorted(horizontal.clone()));
    assert_eq!(world.read_cell((2, 1)).state, CellState::Dead);
    assert_eq!(world.read_cell((2, 3)).state, CellState::Dead);
    assert_eq!(world.update_world(), 0);
    assert_eq!(sorted(live_cells(&world, W, H)), sorted(vertical));
    assert_eq!(live_cells(&world, W, H).len(), 3);
}

#[test]
fn glider_moves_diagonally_and_wraps() {
    let mut world = World::new((W, H));
    let glider = [(1, 0), (2, 1), (0, 2), (1, 2), (2, 2)];
    assert_eq!(seed(&mut world, &glider), 5);
    let mut shift = 0;
    for _ in 0..(2 * W) {
        let mut pop = 0;
        for _ in 0..4 {
            pop += world.update_world();
        }
        assert_eq!(pop, 0);
        shift += 1;
        let expected: Vec<(usize, usize)> =
            glider.iter().map(|&(x, y)| ((x + shift) % W, (y + shift) % H)).collect();
        assert_eq!(sorted(live_cells(&world, W, H)), sorted(expected));
        assert_counts_exact(&world, W, H);
    }
}

#[test]
fn single_cell_world_is_its_own_neighbour() {
    let mut world = World::new((1, 1));
    assert_eq!(world.set_cell((0, 0), CellState::Live), 1);
    assert_eq!(world.read_cell((5, 9)).neighbours, 8);
    assert_eq!(world.update_world(), -1);
    assert_eq!(world.read_cell((0, 0)).state, CellState::Dead);
    assert_eq!(world.read_cell((0, 0)).neighbours, 0);
}

#[test]
fn birth_needs_exactly_three() {
    let mut world = World::new((6, 6));
    seed(&mut world, &[(0, 0), (2, 0), (1, 2)]);
    assert_eq!(world.read_cell((1, 1)).neighbours, 3);
    let d = world.update_world();
    assert_eq!(world.read_cell((1, 1)).state, CellState::Live);
    assert_eq!(d, 1 - 3);
}

#[test]
fn overcrowded_cell_dies() {
    let mut world = World::new((6, 6));
    seed(&mut world, &[(2, 2), (1, 1), (2, 1), (3, 1), (1, 2)]);
    assert_eq!(world.read_cell((2, 2)).neighbours, 4);
    world.update_world();
    assert_eq!(world.read_cell((2, 2)).state, CellState::Dead);
}

#[test]
fn narrow_world_counts_repeated_neighbours() {
    let mut world = World::new((2, 3));
    world.set_cell((0, 0), CellState::Live);
    // In a width-2 torus the left and right neighbour are the same cell.
    assert_eq!(world.read_cell((1, 0)).neighbours, 2);
    assert_eq!(world.read_cell((1, 1)).neighbours, 2);
    assert_eq!(world.read_cell((0, 1)).neighbours, 1);
    assert_counts_exact(&world, 2, 3);
}
