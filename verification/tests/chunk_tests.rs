use sph_fluid::chunk::{
    CellCoord, Chunk, ChunkPosition, CHUNK_CELLS, CHUNK_SIZE, DOMAIN_EDGE,
};

fn numbered() -> Chunk<usize> {
    Chunk { cells: std::array::from_fn(|i| i) }
}

fn cell(x: f32, y: f32) -> Option<CellCoord> {
    Chunk::<usize>::get_chunk_pos(x.to_bits(), y.to_bits())
}

#[test]
fn grid_dimensions() {
    assert_eq!(CHUNK_SIZE, 64);
    assert_eq!(CHUNK_CELLS, CHUNK_SIZE * CHUNK_SIZE);
    assert_eq!(DOMAIN_EDGE, 64.5f32.to_bits());
}

#[test]
fn chunk_position_starts_at_the_origin() {
    let p = ChunkPosition::default();
    assert_eq!(p.pos, CellCoord { x: 0, y: 0 });
}

#[test]
fn valid_positions_are_those_inside_the_square() {
    assert!(Chunk::<usize>::is_valid_pos(0, 0));
    assert!(Chunk::<usize>::is_valid_pos(63, 63));
    assert!(!Chunk::<usize>::is_valid_pos(64, 0));
    assert!(!Chunk::<usize>::is_valid_pos(0, 64));
    assert!(!Chunk::<usize>::is_valid_pos(usize::MAX, usize::MAX));
}

#[test]
fn index_is_row_major_in_y() {
    assert_eq!(Chunk::<usize>::index(0, 0), Some(0));
    assert_eq!(Chunk::<usize>::index(5, 0), Some(5));
    assert_eq!(Chunk::<usize>::index(0, 1), Some(64));
    assert_eq!(Chunk::<usize>::index(3, 2), Some(131));
    assert_eq!(Chunk::<usize>::index(63, 63), Some(4095));
    assert_eq!(Chunk::<usize>::index(64, 0), None);
    assert_eq!(Chunk::<usize>::index(0, 64), None);
}

#[test]
fn get_is_bounds_checked() {
    let grid = numbered();
    assert_eq!(grid.get(3, 2), Some(&131));
    assert_eq!(grid.get(63, 63), Some(&4095));
    assert_eq!(grid.get(64, 63), None);
    assert_eq!(grid.get(0, 64), None);
}

#[test]
fn get_mut_writes_one_cell() {
    let mut grid = numbered();
    *grid.get_mut(3, 2).unwrap() = 9000;
    assert_eq!(grid.get(3, 2), Some(&9000));
    assert_eq!(grid.get(2, 2), Some(&130));
    assert_eq!(grid.get(4, 2), Some(&132));
    assert!(grid.get_mut(64, 0).is_none());
    assert!(grid.get_mut(0, 64).is_none());
    let changed = grid.cells.iter().enumerate().filter(|(i, v)| *i != **v).count();
    assert_eq!(changed, 1);
}

#[test]
fn neighbors_of_an_inner_cell() {
    let grid = numbered();
    let at = |x: usize, y: usize| x + y * 64;
    let around = grid.get_neighbors(10, 20);
    let got: Vec<Option<usize>> = around.iter().map(|c| c.copied()).collect();
    assert_eq!(
        got,
        vec![
            Some(at(9, 19)),
            Some(at(9, 20)),
            Some(at(9, 21)),
            Some(at(10, 19)),
            Some(at(10, 21)),
            Some(at(11, 19)),
            Some(at(11, 20)),
            Some(at(11, 21)),
        ]
    );
}

#[test]
fn neighborhood_of_an_inner_cell() {
    let grid = numbered();
    let at = |x: usize, y: usize| x + y * 64;
    let block = grid.get_neighborhood(10, 20);
    let got: Vec<Option<usize>> = block.iter().map(|c| c.copied()).collect();
    assert_eq!(
        got,
        vec![
            Some(at(9, 19)),
            Some(at(9, 20)),
            Some(at(9, 21)),
            Some(at(10, 19)),
            Some(at(10, 20)),
            Some(at(10, 21)),
            Some(at(11, 19)),
            Some(at(11, 20)),
            Some(at(11, 21)),
        ]
    );
}

#[test]
fn neighbors_do_not_wrap_at_the_corners() {
    let grid = numbered();
    let low: Vec<Option<usize>> = grid.get_neighbors(0, 0).iter().map(|c| c.copied()).collect();
    assert_eq!(low, vec![None, None, None, None, Some(64), None, Some(1), Some(65)]);
    let high: Vec<Option<usize>> =
        grid.get_neighbors(63, 63).iter().map(|c| c.copied()).collect();
    assert_eq!(
        high,
        vec![Some(62 + 62 * 64), Some(62 + 63 * 64), None, Some(63 + 62 * 64), None, None, None, None]
    );
}

#[test]
fn neighborhood_at_the_edges() {
    let grid = numbered();
    let left: Vec<Option<usize>> =
        grid.get_neighborhood(0, 5).iter().map(|c| c.copied()).collect();
    assert_eq!(
        left,
        vec![
            None,
            None,
            None,
            Some(4 * 64),
            Some(5 * 64),
            Some(6 * 64),
            Some(1 + 4 * 64),
            Some(1 + 5 * 64),
            Some(1 + 6 * 64),
        ]
    );
    let top: Vec<Option<usize>> =
        grid.get_neighborhood(5, 63).iter().map(|c| c.copied()).collect();
    assert_eq!(
        top,
        vec![
            Some(4 + 62 * 64),
            Some(4 + 63 * 64),
            None,
            Some(5 + 62 * 64),
            Some(5 + 63 * 64),
            None,
            Some(6 + 62 * 64),
            Some(6 + 63 * 64),
            None,
        ]
    );
}

#[test]
fn neighborhood_around_a_coordinate_outside_the_grid() {
    let grid = numbered();
    let past: Vec<Option<usize>> =
        grid.get_neighborhood(64, 10).iter().map(|c| c.copied()).collect();
    assert_eq!(
        past,
        vec![
            Some(63 + 9 * 64),
            Some(63 + 10 * 64),
            Some(63 + 11 * 64),
            None,
            None,
            None,
            None,
            None,
            None,
        ]
    );
    assert!(grid.get_neighborhood(66, 10).iter().all(|c| c.is_none()));
    assert!(grid.get_neighborhood(usize::MAX, usize::MAX).iter().all(|c| c.is_none()));
    assert!(grid.get_neighbors(usize::MAX, 0).iter().all(|c| c.is_none()));
    assert!(grid.get_neighbors(1usize << 32, 0).iter().all(|c| c.is_none()));
}

#[test]
fn chunk_pos_rounds_to_the_nearest_cell() {
    assert_eq!(cell(10.0, 10.0), Some(CellCoord { x: 10, y: 10 }));
    assert_eq!(cell(10.5, 10.49), Some(CellCoord { x: 11, y: 10 }));
    assert_eq!(cell(0.5, 0.49999997), Some(CellCoord { x: 1, y: 0 }));
    assert_eq!(cell(-0.25, 62.5), Some(CellCoord { x: 0, y: 63 }));
    assert_eq!(cell(-0.0, 0.0), Some(CellCoord { x: 0, y: 0 }));
}

#[test]
fn chunk_pos_can_be_one_past_the_last_cell() {
    assert_eq!(cell(63.5, 64.25), Some(CellCoord { x: 64, y: 64 }));
    assert_eq!(cell(64.49999, 1.0), Some(CellCoord { x: 64, y: 1 }));
}

#[test]
fn chunk_pos_outside_the_domain() {
    assert_eq!(cell(-0.5, 1.0), None);
    assert_eq!(cell(1.0, -0.5), None);
    assert_eq!(cell(64.5, 1.0), None);
    assert_eq!(cell(1.0, 64.5), None);
    assert_eq!(cell(-3.0, 1.0), None);
    assert_eq!(cell(1.0e9, 1.0), None);
    assert_eq!(cell(f32::NAN, 1.0), None);
    assert_eq!(cell(1.0, f32::NAN), None);
    assert_eq!(cell(f32::INFINITY, 1.0), None);
    assert_eq!(cell(1.0, f32::NEG_INFINITY), None);
}

#[test]
fn chunk_pos_agrees_with_rounding_on_a_sweep() {
    let mut step = 0u32;
    while step <= 6_600 {
        let v = step as f32 / 100.0 - 0.75;
        let expected = if v > -0.5 && v < 64.5 {
            Some(CellCoord { x: v.round() as u32, y: 3 })
        } else {
            None
        };
        assert_eq!(cell(v, 3.2), expected, "value {v}");
        step += 1;
    }
}
