use game_of_life::{Cell, Universe};

fn alive_positions(u: &Universe) -> Vec<(usize, usize)> {
    let mut out = Vec::new();
    for row in 0..u.height() {
        for col in 0..u.width() {
            if u.get_cell(row, col) == Cell::Alive {
                out.push((row, col));
            }
        }
    }
    out
}

fn translated(cells: &[(usize, usize)], dr: usize, dc: usize, h: usize, w: usize) -> Vec<(usize, usize)> {
    let mut out: Vec<(usize, usize)> = cells.iter().map(|&(r, c)| ((r + dr) % h, (c + dc) % w)).collect();
    out.sort();
    out
}

const GLIDER: [(usize, usize); 5] = [(0, 1), (1, 2), (2, 0), (2, 1), (2, 2)];

#[test]
fn new_universe_is_all_dead() {
    for (w, h) in [(1, 1), (1, 7), (3, 3), (5, 2), (8, 8), (9, 4)] {
        let u = Universe::new(w, h);
        assert_eq!(u.width(), w);
        assert_eq!(u.height(), h);
        let cells = u.get_cells();
        assert_eq!(cells.len(), w * h);
        assert!(cells.iter().all(|c| *c == Cell::Dead));
    }
}

#[test]
fn dead_grid_stays_dead() {
    let mut u = Universe::new(7, 5);
    for _ in 0..10 {
        u.tick();
        assert!(u.get_cells().iter().all(|c| *c == Cell::Dead));
    }
}

#[test]
fn glider_moves_diagonally_in_four_ticks() {
    for (w, h) in [(6, 6), (8, 7), (10, 12)] {
        let mut u = Universe::new(w, h);
        u.set_cells(&GLIDER);
        for _ in 0..4 {
            u.tick();
        }
        assert_eq!(alive_positions(&u), translated(&GLIDER, 1, 1, h, w));
    }
}

#[test]
fn glider_wraps_around_the_torus() {
    let mut u = Universe::new(6, 6);
    u.set_cells(&GLIDER);
    for _ in 0..24 {
        u.tick();
    }
    assert_eq!(alive_positions(&u), translated(&GLIDER, 6, 6, 6, 6));
    u.tick();
    u.tick();
    u.tick();
    u.tick();
    assert_eq!(alive_positions(&u), translated(&GLIDER, 7, 7, 6, 6));
}

#[test]
fn lone_cell_dies() {
    let mut u = Universe::new(5, 5);
    u.set_cell(2, 3, Cell::Alive);
    assert_eq!(u.live_neighbor_count(2, 3), 0);
    u.tick();
    assert_eq!(u.get_cell(2, 3), Cell::Dead);
    assert!(alive_positions(&u).is_empty());
}

#[test]
fn block_is_still() {
    let block = [(1, 1), (1, 2), (2, 1), (2, 2)];
    let mut u = Universe::new(6, 5);
    u.set_cells(&block);
    for r in 1..3 {
        for c in 1..3 {
            assert_eq!(u.live_neighbor_count(r, c), 3);
        }
    }
    for _ in 0..6 {
        u.tick();
        assert_eq!(alive_positions(&u), block.to_vec());
    }
}

#[test]
fn block_across_the_corner_is_still() {
    let block = [(0, 0), (0, 2), (2, 0), (2, 2)];
    let mut u = Universe::new(3, 3);
    u.set_cells(&block);
    for _ in 0..3 {
        u.tick();
        assert_eq!(alive_positions(&u), block.to_vec());
    }
}

#[test]
fn blinker_oscillates() {
    let mut u = Universe::new(5, 5);
    u.set_cells(&[(2, 1), (2, 2), (2, 3)]);
    u.tick();
    assert_eq!(alive_positions(&u), vec![(1, 2), (2, 2), (3, 2)]);
    u.tick();
    assert_eq!(alive_positions(&u), vec![(2, 1), (2, 2), (2, 3)]);
}

#[test]
fn corner_wraps_diagonally() {
    let mut u = Universe::new(3, 3);
    u.set_cell(2, 2, Cell::Alive);
    assert_eq!(u.live_neighbor_count(0, 0), 1);
    assert_eq!(u.live_neighbor_count(1, 1), 1);
    assert_eq!(u.live_neighbor_count(2, 2), 0);
}

#[test]
fn single_row_counts_wrapped_cells_again() {
    // With one row, the rows above and below are the row itself: a live cell
    // beside (0, 0) is seen three times, and a live cell sees itself twice.
    let mut u = Universe::new(3, 1);
    u.set_cell(0, 1, Cell::Alive);
    assert_eq!(u.live_neighbor_count(0, 0), 3);
    assert_eq!(u.live_neighbor_count(0, 1), 2);
}

#[test]
fn set_cell_changes_one_bit() {
    let mut u = Universe::new(4, 3);
    u.set_cell(1, 2, Cell::Alive);
    u.set_cell(2, 3, Cell::Alive);
    assert_eq!(alive_positions(&u), vec![(1, 2), (2, 3)]);
    u.set_cell(1, 2, Cell::Dead);
    assert_eq!(alive_positions(&u), vec![(2, 3)]);
    u.set_cell(1, 2, Cell::Dead);
    assert_eq!(alive_positions(&u), vec![(2, 3)]);
}

#[test]
fn set_cells_only_adds() {
    let mut u = Universe::new(4, 4);
    u.set_cell(0, 0, Cell::Alive);
    u.set_cells(&[(3, 3), (1, 2), (3, 3)]);
    assert_eq!(alive_positions(&u), vec![(0, 0), (1, 2), (3, 3)]);
    u.set_cells(&[]);
    assert_eq!(alive_positions(&u), vec![(0, 0), (1, 2), (3, 3)]);
}

#[test]
fn get_cells_is_row_major() {
    let mut u = Universe::new(3, 2);
    u.set_cell(0, 2, Cell::Alive);
    u.set_cell(1, 0, Cell::Alive);
    let expected = vec![Cell::Dead, Cell::Dead, Cell::Alive, Cell::Alive, Cell::Dead, Cell::Dead];
    assert_eq!(u.get_cells(), expected);
}

#[test]
fn memory_size_rounds_up() {
    assert_eq!(Universe::get_cell_memory_size(1, 1), 1);
    assert_eq!(Universe::get_cell_memory_size(8, 1), 1);
    assert_eq!(Universe::get_cell_memory_size(3, 3), 2);
    assert_eq!(Universe::get_cell_memory_size(4, 4), 2);
    assert_eq!(Universe::get_cell_memory_size(64, 64), 512);
    assert_eq!(Universe::get_cell_memory_size(5, 5), 4);
}

#[test]
fn random_fill_reads_bits_low_first() {
    // 0b0000_0101 sets cells 0 and 2; 0b1000_0000 in the second byte sets cell 15.
    let u = Universe::new_random_filled(4, 4, vec![0b0000_0101, 0b1000_0000]);
    assert_eq!(alive_positions(&u), vec![(0, 0), (0, 2), (3, 3)]);
}

#[test]
fn reset_replaces_cells_and_keeps_size() {
    let mut u = Universe::new(3, 3);
    u.set_cell(1, 1, Cell::Alive);
    u.reset(vec![0b0000_0010, 0b0000_0001]);
    assert_eq!(u.width(), 3);
    assert_eq!(u.height(), 3);
    assert_eq!(alive_positions(&u), vec![(0, 1), (2, 2)]);
}

#[test]
fn cells_buffer_holds_centres() {
    let mut u = Universe::new(2, 2);
    u.set_cell(0, 0, Cell::Alive);
    u.set_cell(1, 1, Cell::Alive);
    // x = (2c + 1 - w) / w, y = (2r + 1 - h) / h
    assert_eq!(u.get_gl_cells_buffer(), vec![-1, -1, 1, 1]);
    let mut v = Universe::new(4, 3);
    v.set_cell(2, 1, Cell::Alive);
    v.set_cell(0, 3, Cell::Alive);
    assert_eq!(v.get_gl_cells_buffer(), vec![3, -2, -1, 2]);
}

#[test]
fn cells_buffer_empty_for_dead_grid() {
    assert!(Universe::new(5, 5).get_gl_cells_buffer().is_empty());
}

#[test]
fn cells_buffer_length_is_twice_live_count() {
    let mut u = Universe::new(6, 6);
    u.set_cells(&GLIDER);
    for _ in 0..5 {
        let live = alive_positions(&u).len();
        assert_eq!(u.get_gl_cells_buffer().len(), 2 * live);
        u.tick();
    }
    let r = Universe::new_random_filled(7, 9, vec![0x5a, 0xff, 0x13, 0x80, 0x01, 0x77, 0xc3, 0x2e]);
    assert_eq!(r.get_gl_cells_buffer().len(), 2 * alive_positions(&r).len());
}

#[test]
fn line_buffer_lists_inner_boundaries() {
    let u = Universe::new(3, 2);
    assert_eq!(
        u.get_gl_line_buffer(),
        vec![-1, -2, -1, 2, 1, -2, 1, 2, -3, 0, 3, 0]
    );
    assert_eq!(u.get_gl_line_vertex_count(), 6);
    assert!(Universe::new(1, 1).get_gl_line_buffer().is_empty());
    assert_eq!(Universe::new(1, 1).get_gl_line_vertex_count(), 0);
}

#[test]
fn line_buffer_length_matches_vertex_count() {
    for (w, h) in [(1, 1), (1, 5), (4, 1), (3, 3), (10, 7)] {
        let u = Universe::new(w, h);
        assert_eq!(u.get_gl_line_buffer().len(), 2 * u.get_gl_line_vertex_count());
        assert_eq!(u.get_gl_line_vertex_count(), ((w - 1) + (h - 1)) * 2);
    }
}

#[test]
fn buffers_stay_in_unit_square() {
    let mut u = Universe::new_random_filled(5, 3, vec![0xff, 0xff]);
    u.set_cell(0, 0, Cell::Alive);
    let (w, h) = (u.width() as i128, u.height() as i128);
    for buffer in [u.get_gl_cells_buffer(), u.get_gl_line_buffer()] {
        assert!(!buffer.is_empty());
        for (k, v) in buffer.iter().enumerate() {
            let den = if k % 2 == 0 { w } else { h };
            assert!(-den <= *v && *v <= den);
        }
    }
}
