use iso80s::iso::{Grid, IsoCoord, Tile};

fn at(x: i32, y: i32, layer: i32) -> IsoCoord {
    IsoCoord { x, y, layer }
}

#[test]
fn new_grid_is_empty() {
    let grid = Grid::new();
    assert_eq!(grid.len(), 0);
    assert_eq!(grid.get(at(0, 0, 0)), None);
}

#[test]
fn set_creates_then_overwrites() {
    let mut grid = Grid::new();
    assert_eq!(grid.set(at(1, 2, 0), 7), None);
    assert_eq!(grid.get(at(1, 2, 0)), Some(7));
    assert_eq!(grid.len(), 1);
    assert_eq!(grid.set(at(1, 2, 0), 9), Some(7));
    assert_eq!(grid.get(at(1, 2, 0)), Some(9));
    assert_eq!(grid.len(), 1);
    assert_eq!(grid.tile_at(0), Tile { coord: at(1, 2, 0), tile_type: 9 });
}

#[test]
fn coordinates_differ_by_any_component() {
    let mut grid = Grid::new();
    grid.set(at(1, 2, 0), 1);
    grid.set(at(1, 2, 1), 2);
    grid.set(at(2, 1, 0), 3);
    grid.set(at(1, 3, 0), 4);
    assert_eq!(grid.len(), 4);
    assert_eq!(grid.get(at(1, 2, 0)), Some(1));
    assert_eq!(grid.get(at(1, 2, 1)), Some(2));
    assert_eq!(grid.get(at(2, 1, 0)), Some(3));
    assert_eq!(grid.get(at(1, 3, 0)), Some(4));
    assert_eq!(grid.get(at(2, 2, 0)), None);
}

#[test]
fn despawn_removes_only_the_named_cell() {
    let mut grid = Grid::new();
    grid.set(at(0, 0, 0), 1);
    grid.set(at(1, 0, 0), 2);
    grid.set(at(2, 0, 0), 3);
    assert_eq!(grid.despawn(at(1, 0, 0)), Some(2));
    assert_eq!(grid.len(), 2);
    assert_eq!(grid.get(at(0, 0, 0)), Some(1));
    assert_eq!(grid.get(at(1, 0, 0)), None);
    assert_eq!(grid.get(at(2, 0, 0)), Some(3));
}

#[test]
fn despawn_of_an_empty_cell_does_nothing() {
    let mut grid = Grid::new();
    grid.set(at(0, 0, 0), 1);
    assert_eq!(grid.despawn(at(5, 5, 5)), None);
    assert_eq!(grid.len(), 1);
    assert_eq!(grid.get(at(0, 0, 0)), Some(1));
}
