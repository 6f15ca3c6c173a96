use graph_layout::{Blocking, Cell};

fn sorted(mut v: Vec<usize>) -> Vec<usize> {
    v.sort();
    v
}

#[test]
fn nearby_of_no_cell_is_empty() {
    let cells: Vec<Cell> = vec![Some((0, 0)), Some((1, 1))];
    let b = Blocking::create(&cells, 3);
    assert!(b.nearby(None).is_empty());
}

#[test]
fn nearby_visits_cells_in_order() {
    // one vertex in each cell of a 3 × 3 grid, vertex 3 * x + y in cell (x, y)
    let mut cells: Vec<Cell> = Vec::new();
    for x in 0..3 {
        for y in 0..3 {
            cells.push(Some((x, y)));
        }
    }
    let b = Blocking::create(&cells, 3);
    assert_eq!(b.nearby(Some((1, 1))), vec![4, 0, 2, 1, 6, 8, 7, 3, 5]);
    assert_eq!(b.nearby(Some((0, 0))), vec![0, 4, 3, 1]);
    assert_eq!(b.nearby(Some((2, 2))), vec![8, 4, 5, 7]);
    assert_eq!(b.nearby(Some((0, 1))), vec![1, 3, 5, 4, 0, 2]);
}

#[test]
fn nearby_leaves_out_distant_cells_and_unplaced_vertices() {
    let cells: Vec<Cell> = vec![
        Some((0, 0)),
        Some((4, 4)),
        None,
        Some((1, 0)),
        Some((2, 0)),
        Some((0, 0)),
    ];
    let b = Blocking::create(&cells, 5);
    assert_eq!(b.nearby(Some((0, 0))), vec![0, 5, 3]);
    assert_eq!(b.nearby(Some((1, 1))), vec![0, 5, 4, 3]);
    assert_eq!(b.nearby(Some((4, 4))), vec![1]);
    assert_eq!(b.nearby(Some((3, 3))), vec![1]);
    assert!(b.nearby(Some((2, 2))).is_empty());
}

#[test]
fn single_cell_grid_holds_everyone() {
    let cells: Vec<Cell> = vec![Some((0, 0)), None, Some((0, 0)), Some((0, 0))];
    let b = Blocking::create(&cells, 1);
    assert_eq!(b.nearby(Some((0, 0))), vec![0, 2, 3]);
}

#[test]
fn each_placed_vertex_is_near_itself_once() {
    let cells: Vec<Cell> = vec![Some((3, 1)), Some((0, 2)), Some((3, 2)), Some((2, 1)), None];
    let b = Blocking::create(&cells, 4);
    for (v, c) in cells.iter().enumerate() {
        let near = b.nearby(*c);
        let count = near.iter().filter(|&&w| w == v).count();
        assert_eq!(count, if c.is_some() { 1 } else { 0 });
    }
    assert_eq!(sorted(b.nearby(Some((3, 1)))), vec![0, 2, 3]);
}
