use std::collections::BTreeSet;

use lifegrid::{Cell, Cells};

fn grid(cells: &[Cell]) -> Cells {
    Cells::new(&cells.to_vec())
}

fn members(g: &Cells) -> BTreeSet<Cell> {
    g.cells().into_iter().collect()
}

fn set_of(cells: &[Cell]) -> BTreeSet<Cell> {
    cells.iter().copied().collect()
}

#[test]
fn new_keeps_each_seed_cell_once() {
    let g = grid(&[(0, 1), (2, 2), (2, 0), (2, 1), (1, 0), (2, 2)]);
    assert_eq!(g.len(), 5);
    assert_eq!(members(&g), set_of(&[(0, 1), (2, 2), (2, 0), (2, 1), (1, 0)]));
    assert_eq!(g.cells().len(), 5);
}

#[test]
fn empty_grid_has_no_cells() {
    let g = Cells::empty();
    assert_eq!(g.len(), 0);
    assert!(g.cells().is_empty());
    assert!(!g.contains((0, 0)));
}

#[test]
fn insert_and_remove_are_idempotent() {
    let mut g = Cells::empty();
    g.insert((3, -4));
    g.insert((3, -4));
    assert!(g.contains((3, -4)));
    assert_eq!(g.len(), 1);
    g.remove((3, -4));
    assert!(!g.contains((3, -4)));
    g.remove((3, -4));
    assert_eq!(g.len(), 0);
}

#[test]
fn toggle_flips_one_cell() {
    let mut g = grid(&[(1, 1)]);
    g.toggle(&(1, 1));
    assert!(!g.contains((1, 1)));
    g.toggle(&(2, 2));
    assert!(g.contains((2, 2)));
    assert_eq!(members(&g), set_of(&[(2, 2)]));
}

#[test]
fn toggle_twice_restores_membership() {
    let mut g = grid(&[(0, 0), (7, -3)]);
    for c in [(0, 0), (5, 5), (i64::MIN, i64::MAX)] {
        let before = members(&g);
        g.toggle(&c);
        assert_ne!(members(&g), before);
        g.toggle(&c);
        assert_eq!(members(&g), before);
    }
}

#[test]
fn subset_lists_window_in_row_major_order() {
    let g = grid(&[(0, 0), (2, 0), (1, 1), (5, 5), (-1, 0), (1, -1)]);
    assert_eq!(g.subset((0, 0), (2, 2)), vec![(0, 0), (2, 0), (1, 1)]);
    assert_eq!(g.subset((-1, -1), (1, 0)), vec![(1, -1), (-1, 0), (0, 0)]);
}

#[test]
fn subset_of_single_point() {
    let g = grid(&[(4, 4), (4, 5)]);
    assert_eq!(g.subset((4, 4), (4, 4)), vec![(4, 4)]);
    assert_eq!(g.subset((3, 3), (3, 3)), Vec::<Cell>::new());
}

#[test]
fn subset_of_inverted_window_is_empty() {
    let g = grid(&[(0, 0), (1, 1)]);
    assert!(g.subset((1, 0), (0, 1)).is_empty());
    assert!(g.subset((0, 1), (1, 0)).is_empty());
}

#[test]
fn subset_reaches_the_edges_of_the_plane() {
    let g = grid(&[(i64::MAX, i64::MAX), (i64::MIN, i64::MIN)]);
    assert_eq!(
        g.subset((i64::MAX - 1, i64::MAX - 1), (i64::MAX, i64::MAX)),
        vec![(i64::MAX, i64::MAX)]
    );
    assert_eq!(
        g.subset((i64::MIN, i64::MIN), (i64::MIN + 1, i64::MIN + 1)),
        vec![(i64::MIN, i64::MIN)]
    );
}

#[test]
fn far_toggle_is_seen_there_and_nowhere_else() {
    let mut g = grid(&[(0, 0), (1, 0)]);
    let near_origin = g.subset((-5, -5), (5, 5));
    g.toggle(&(10_000_000, -10_000_000));
    assert_eq!(
        g.subset((9_999_999, -10_000_001), (10_000_001, -9_999_999)),
        vec![(10_000_000, -10_000_000)]
    );
    assert_eq!(g.subset((-5, -5), (5, 5)), near_origin);
}

#[test]
fn neighbor_count_counts_the_eight_around() {
    let g = grid(&[(0, 0), (1, 0), (2, 0), (1, 1), (5, 5)]);
    assert_eq!(g.neighbor_count((1, 0)), 3);
    assert_eq!(g.neighbor_count((1, -1)), 3);
    assert_eq!(g.neighbor_count((0, 0)), 2);
    assert_eq!(g.neighbor_count((5, 5)), 0);
    assert_eq!(g.neighbor_count((4, 4)), 1);
}

#[test]
fn neighbor_count_stops_at_the_edge_of_the_plane() {
    let g = grid(&[(i64::MAX, 0), (i64::MAX, 1), (i64::MIN, 0)]);
    assert_eq!(g.neighbor_count((i64::MAX, 0)), 1);
    assert_eq!(g.neighbor_count((i64::MAX - 1, 0)), 2);
}

#[test]
fn block_is_a_still_life() {
    let block = [(0, 0), (1, 0), (0, 1), (1, 1)];
    let g = grid(&block);
    assert_eq!(members(&g.next_set()), set_of(&block));
}

#[test]
fn blinker_oscillates_with_period_two() {
    let vertical = [(0, -1), (0, 0), (0, 1)];
    let horizontal = [(-1, 0), (0, 0), (1, 0)];
    let g = grid(&vertical);
    let once = g.next_set();
    assert_eq!(members(&once), set_of(&horizontal));
    let twice = once.next_set();
    assert_eq!(members(&twice), set_of(&vertical));
}

#[test]
fn isolated_cell_dies() {
    let g = grid(&[(5, 5)]);
    assert_eq!(g.next_set().len(), 0);
}

#[test]
fn empty_grid_stays_empty() {
    let g = Cells::empty();
    assert_eq!(g.next_set().len(), 0);
    assert_eq!(g.next_set_split(4).len(), 0);
}

#[test]
fn step_advances_in_place() {
    let mut g = grid(&[(0, 1), (2, 2), (2, 0), (2, 1), (1, 0)]);
    g.step();
    assert_eq!(members(&g), set_of(&[(1, 0), (1, 2), (2, 0), (2, 1), (3, 1)]));
    for _ in 0..3 {
        g.step();
    }
    assert_eq!(members(&g), set_of(&[(1, 0), (2, -1), (3, -1), (3, 0), (3, 1)]));
}

#[test]
fn step_is_the_same_for_every_split() {
    let seed = [
        (0, 1), (2, 2), (2, 0), (2, 1), (1, 0),
        (10, 10), (11, 10), (12, 10), (-7, 3), (-7, 4), (-6, 3), (-6, 4), (40, -40),
    ];
    let g = grid(&seed);
    let expected = members(&g.next_set());
    for workers in [0, 1, 2, 3, 4, 5, 7, 13, 64, usize::MAX] {
        assert_eq!(members(&g.next_set_split(workers)), expected);
    }
    assert_eq!(members(&g.next_set()), expected);
}

#[test]
fn chunk_step_covers_only_its_chunk() {
    let g = grid(&[(0, -1), (0, 0), (0, 1), (20, 20), (21, 20), (22, 20)]);
    let local: BTreeSet<Cell> = g.chunk_step(&[(0, 0)]).into_iter().collect();
    assert_eq!(local, set_of(&[(-1, 0), (0, 0), (1, 0)]));
    let far: BTreeSet<Cell> = g.chunk_step(&[(20, 20)]).into_iter().collect();
    assert_eq!(far, set_of(&[(21, 19), (21, 20), (21, 21)]));
    assert!(g.chunk_step(&[]).is_empty());
}

#[test]
fn births_need_exactly_three() {
    let g = grid(&[(0, 0), (2, 0), (0, 2), (2, 2)]);
    assert_eq!(g.neighbor_count((1, 1)), 4);
    assert!(g.next_set().cells().is_empty());
    let h = grid(&[(0, 0), (2, 0), (0, 2)]);
    assert_eq!(members(&h.next_set()), set_of(&[(1, 1)]));
}

#[test]
fn pattern_at_the_corner_of_the_plane() {
    let m = i64::MAX;
    let g = grid(&[(m, m), (m - 1, m), (m, m - 1)]);
    assert_eq!(members(&g.next_set()), set_of(&[(m, m), (m - 1, m), (m, m - 1), (m - 1, m - 1)]));
}
