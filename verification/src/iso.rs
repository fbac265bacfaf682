//! Grid coordinates and the store of occupied cells.

use vstd::prelude::*;

verus! {

/// A cell of the isometric grid: column, row and layer.
///
/// Two coordinates name the same cell exactly when all three components agree.
#[derive(Clone, Copy, Debug, PartialEq, Eq, Structural, Hash)]
pub struct IsoCoord {
    pub x: i32,
    pub y: i32,
    pub layer: i32,
}

impl Default for IsoCoord {
    /// The origin of the bottom layer.
    fn default() -> (coord: IsoCoord)
        ensures
            coord == (IsoCoord { x: 0, y: 0, layer: 0 }),
    {
        IsoCoord { x: 0, y: 0, layer: 0 }
    }
}

/// An occupied cell: where it is and which tile of the palette it shows.
#[derive(Clone, Copy, Debug, PartialEq, Eq, Structural, Hash)]
pub struct Tile {
    pub coord: IsoCoord,
    pub tile_type: usize,
}

/// Whether some cell of `cells` lies at `coord`.
pub open spec fn occupied(cells: Seq<Tile>, coord: IsoCoord) -> bool {
    exists|i: int| 0 <= i < cells.len() && (#[trigger] cells[i]).coord == coord
}

/// The position of a cell of `cells` that lies at `coord`.
pub open spec fn position_of(cells: Seq<Tile>, coord: IsoCoord) -> int {
    choose|i: int| 0 <= i < cells.len() && (#[trigger] cells[i]).coord == coord
}

/// No two cells of `cells` share a coordinate.
pub open spec fn distinct_coords(cells: Seq<Tile>) -> bool {
    forall|i: int, j: int|
        0 <= i < j < cells.len() ==> (#[trigger] cells[i]).coord != (#[trigger] cells[j]).coord
}

/// The mapping from coordinate to tile type that a list of cells stands for.
pub open spec fn cells_map(cells: Seq<Tile>) -> Map<IsoCoord, usize> {
    Map::new(
        |coord: IsoCoord| occupied(cells, coord),
        |coord: IsoCoord| cells[position_of(cells, coord)].tile_type,
    )
}

/// In a list without repeated coordinates, each cell is the one found at its coordinate.
pub proof fn lemma_position_unique(cells: Seq<Tile>, i: int)
    requires
        distinct_coords(cells),
        0 <= i < cells.len(),
    ensures
        occupied(cells, cells[i].coord),
        position_of(cells, cells[i].coord) == i,
        cells_map(cells).contains_key(cells[i].coord),
        cells_map(cells)[cells[i].coord] == cells[i].tile_type,
{
    let coord = cells[i].coord;
    let p = position_of(cells, coord);
    assert(0 <= p < cells.len() && cells[p].coord == coord);
    if p < i {
        assert(cells[p].coord != cells[i].coord);
    }
    if i < p {
        assert(cells[i].coord != cells[p].coord);
    }
}

/// The occupied cells of the map, at most one per coordinate.
///
/// Its view is the mapping from each occupied coordinate to the tile type there.
pub struct Grid {
    cells: Vec<Tile>,
}

impl View for Grid {
    type V = Map<IsoCoord, usize>;

    closed spec fn view(&self) -> Map<IsoCoord, usize> {
        cells_map(self.cells@)
    }
}

impl Grid {
    /// No coordinate is occupied twice.
    pub closed spec fn wf(&self) -> bool {
        distinct_coords(self.cells@)
    }

    /// The occupied cells in storage order.
    pub closed spec fn tiles(&self) -> Seq<Tile> {
        self.cells@
    }

    /// The view holds exactly the stored cells.
    pub proof fn lemma_view_is_tiles(&self)
        requires
            self.wf(),
        ensures
            self@ == cells_map(self.tiles()),
            distinct_coords(self.tiles()),
            self@.dom().finite(),
            self@.dom().len() == self.tiles().len(),
    {
        lemma_cells_map_finite(self.cells@);
    }

    /// A grid without cells.
    pub fn new() -> (grid: Grid)
        ensures
            grid.wf(),
            grid@ == Map::<IsoCoord, usize>::empty(),
            grid.tiles() == Seq::<Tile>::empty(),
    {
        let grid = Grid { cells: Vec::new() };
        assert(grid@ =~= Map::<IsoCoord, usize>::empty());
        grid
    }

    /// The number of occupied cells.
    pub fn len(&self) -> (n: usize)
        ensures
            n == self.tiles().len(),
    {
        self.cells.len()
    }

    /// The `i`-th occupied cell in storage order.
    pub fn tile_at(&self, i: usize) -> (tile: Tile)
        requires
            i < self.tiles().len(),
        ensures
            tile == self.tiles()[i as int],
    {
        self.cells[i]
    }

    /// Scans the cells in storage order for the first one at `coord`.
    fn find(&self, coord: IsoCoord) -> (found: Option<usize>)
        ensures
            match found {
                Some(i) => i < self.cells@.len() && self.cells@[i as int].coord == coord,
                None => !occupied(self.cells@, coord),
            },
    {
        let mut i: usize = 0;
        while i < self.cells.len()
            invariant
                i <= self.cells@.len(),
                forall|j: int| 0 <= j < i ==> (#[trigger] self.cells@[j]).coord != coord,
            decreases self.cells@.len() - i,
        {
            if self.cells[i].coord == coord {
                return Some(i);
            }
            i += 1;
        }
        None
    }

    /// The tile type at `coord`, if the cell is occupied.
    pub fn get(&self, coord: IsoCoord) -> (tile_type: Option<usize>)
        requires
            self.wf(),
        ensures
            tile_type == (if self@.contains_key(coord) {
                Some(self@[coord])
            } else {
                None
            }),
    {
        match self.find(coord) {
            Some(i) => {
                proof {
                    lemma_position_unique(self.cells@, i as int);
                }
                Some(self.cells[i].tile_type)
            },
            None => None,
        }
    }

    /// Assigns `tile_type` to the cell at `coord`, creating the cell when the
    /// coordinate was empty, and returns the tile type that was there before.
    pub fn set(&mut self, coord: IsoCoord, tile_type: usize) -> (previous: Option<usize>)
        requires
            old(self).wf(),
        ensures
            final(self).wf(),
            final(self)@ == old(self)@.insert(coord, tile_type),
            previous == (if old(self)@.contains_key(coord) {
                Some(old(self)@[coord])
            } else {
                None
            }),
    {
        match self.find(coord) {
            Some(i) => {
                proof {
                    lemma_position_unique(self.cells@, i as int);
                }
                let previous = self.cells[i].tile_type;
                self.cells.set(i, Tile { coord, tile_type });
                proof {
                    lemma_update_tile(old(self).cells@, i as int, tile_type);
                }
                Some(previous)
            },
            None => {
                self.cells.push(Tile { coord, tile_type });
                proof {
                    lemma_push_tile(old(self).cells@, Tile { coord, tile_type });
                }
                None
            },
        }
    }

    /// Removes the cell at `coord` and returns its tile type; does nothing when
    /// the coordinate is empty.
    pub fn despawn(&mut self, coord: IsoCoord) -> (removed: Option<usize>)
        requires
            old(self).wf(),
        ensures
            final(self).wf(),
            final(self)@ == old(self)@.remove(coord),
            removed == (if old(self)@.contains_key(coord) {
                Some(old(self)@[coord])
            } else {
                None
            }),
    {
        match self.find(coord) {
            Some(i) => {
                proof {
                    lemma_position_unique(self.cells@, i as int);
                }
                let tile = self.cells.remove(i);
                proof {
                    lemma_remove_tile(old(self).cells@, i as int);
                }
                Some(tile.tile_type)
            },
            None => {
                assert(self@ =~= old(self)@.remove(coord));
                None
            },
        }
    }
}

impl Default for Grid {
    fn default() -> (grid: Grid)
        ensures
            grid.wf(),
            grid@ == Map::<IsoCoord, usize>::empty(),
            grid.tiles() == Seq::<Tile>::empty(),
    {
        Grid::new()
    }
}

/// Overwriting the tile type of one cell updates the mapping at its coordinate.
proof fn lemma_update_tile(cells: Seq<Tile>, i: int, tile_type: usize)
    requires
        distinct_coords(cells),
        0 <= i < cells.len(),
    ensures
        distinct_coords(cells.update(i, Tile { coord: cells[i].coord, tile_type })),
        cells_map(cells.update(i, Tile { coord: cells[i].coord, tile_type })) == cells_map(
            cells,
        ).insert(cells[i].coord, tile_type),
{
    let coord = cells[i].coord;
    let after = cells.update(i, Tile { coord, tile_type });
    assert(distinct_coords(after)) by {
        assert forall|a: int, b: int| 0 <= a < b < after.len() implies (#[trigger] after[a]).coord
            != (#[trigger] after[b]).coord by {
            assert(cells[a].coord != cells[b].coord);
        }
    }
    let expected = cells_map(cells).insert(coord, tile_type);
    assert forall|c: IsoCoord| cells_map(after).contains_key(c) <==> expected.contains_key(
        c,
    ) by {
        if occupied(after, c) {
            let p = position_of(after, c);
            assert(cells[p].coord == c);
        }
        if occupied(cells, c) {
            let p = position_of(cells, c);
            assert(after[p].coord == c);
        }
        if c == coord {
            assert(after[i].coord == c);
        }
    }
    assert forall|c: IsoCoord| cells_map(after).contains_key(c) implies cells_map(after)[c]
        == expected[c] by {
        let p = position_of(after, c);
        lemma_position_unique(after, p);
        if p != i {
            assert(cells[p].coord == c);
            lemma_position_unique(cells, p);
        }
    }
    assert(cells_map(after) =~= expected);
}

/// Appending a cell at a free coordinate adds it to the mapping.
proof fn lemma_push_tile(cells: Seq<Tile>, tile: Tile)
    requires
        distinct_coords(cells),
        !occupied(cells, tile.coord),
    ensures
        distinct_coords(cells.push(tile)),
        cells_map(cells.push(tile)) == cells_map(cells).insert(tile.coord, tile.tile_type),
{
    let after = cells.push(tile);
    assert(distinct_coords(after)) by {
        assert forall|a: int, b: int| 0 <= a < b < after.len() implies (#[trigger] after[a]).coord
            != (#[trigger] after[b]).coord by {
            if b < cells.len() {
                assert(cells[a].coord != cells[b].coord);
            } else {
                assert(cells[a].coord != tile.coord);
            }
        }
    }
    let expected = cells_map(cells).insert(tile.coord, tile.tile_type);
    assert forall|c: IsoCoord| cells_map(after).contains_key(c) <==> expected.contains_key(
        c,
    ) by {
        if occupied(after, c) {
            let p = position_of(after, c);
            if p < cells.len() {
                assert(cells[p].coord == c);
            }
        }
        if occupied(cells, c) {
            let p = position_of(cells, c);
            assert(after[p].coord == c);
        }
        if c == tile.coord {
            assert(after[cells.len() as int].coord == c);
        }
    }
    assert forall|c: IsoCoord| cells_map(after).contains_key(c) implies cells_map(after)[c]
        == expected[c] by {
        let p = position_of(after, c);
        lemma_position_unique(after, p);
        if p < cells.len() {
            assert(cells[p].coord == c);
            lemma_position_unique(cells, p);
        }
    }
    assert(cells_map(after) =~= expected);
}

/// Taking one cell out of the list removes its coordinate from the mapping.
proof fn lemma_remove_tile(cells: Seq<Tile>, i: int)
    requires
        distinct_coords(cells),
        0 <= i < cells.len(),
    ensures
        distinct_coords(cells.remove(i)),
        cells_map(cells.remove(i)) == cells_map(cells).remove(cells[i].coord),
{
    let coord = cells[i].coord;
    let after = cells.remove(i);
    assert forall|a: int| 0 <= a < after.len() implies #[trigger] after[a] == cells[if a < i {
        a
    } else {
        a + 1
    }] by {}
    assert(distinct_coords(after)) by {
        assert forall|a: int, b: int| 0 <= a < b < after.len() implies (#[trigger] after[a]).coord
            != (#[trigger] after[b]).coord by {
            let a0 = if a < i { a } else { a + 1 };
            let b0 = if b < i { b } else { b + 1 };
            assert(after[a] == cells[a0]);
            assert(after[b] == cells[b0]);
            assert(cells[a0].coord != cells[b0].coord);
        }
    }
    let expected = cells_map(cells).remove(coord);
    assert forall|c: IsoCoord| cells_map(after).contains_key(c) <==> expected.contains_key(
        c,
    ) by {
        if occupied(after, c) {
            let p = position_of(after, c);
            let source = if p < i { p } else { p + 1 };
            assert(after[p] == cells[source]);
            assert(cells[source].coord == c);
            if c == coord {
                if source < i {
                    assert(cells[source].coord != cells[i].coord);
                } else {
                    assert(cells[i].coord != cells[source].coord);
                }
            }
        }
        if occupied(cells, c) && c != coord {
            let p = position_of(cells, c);
            let q = if p < i { p } else { p - 1 };
            assert(after[q] == cells[p]);
            assert(after[q].coord == c);
        }
    }
    assert forall|c: IsoCoord| cells_map(after).contains_key(c) implies cells_map(after)[c]
        == expected[c] by {
        let p = position_of(after, c);
        lemma_position_unique(after, p);
        let source = if p < i { p } else { p + 1 };
        assert(after[p] == cells[source]);
        lemma_position_unique(cells, source);
    }
    assert(cells_map(after) =~= expected);
}

/// The mapping of a list without repeated coordinates is finite and has one
/// entry per cell.
proof fn lemma_cells_map_finite(cells: Seq<Tile>)
    requires
        distinct_coords(cells),
    ensures
        cells_map(cells).dom().finite(),
        cells_map(cells).dom().len() == cells.len(),
    decreases cells.len(),
{
    if cells.len() == 0 {
        assert(cells_map(cells).dom() =~= Set::<IsoCoord>::empty());
    } else {
        let last = cells.last();
        let rest = cells.drop_last();
        assert forall|a: int, b: int| 0 <= a < b < rest.len() implies (#[trigger] rest[a]).coord
            != (#[trigger] rest[b]).coord by {
            assert(cells[a].coord != cells[b].coord);
        }
        assert(!occupied(rest, last.coord)) by {
            if occupied(rest, last.coord) {
                let p = position_of(rest, last.coord);
                assert(cells[p].coord != cells[cells.len() - 1].coord);
            }
        }
        lemma_cells_map_finite(rest);
        lemma_push_tile(rest, last);
        assert(rest.push(last) =~= cells);
        assert(cells_map(cells).dom() =~= cells_map(rest).dom().insert(last.coord));
        assert(!cells_map(rest).dom().contains(last.coord));
    }
}

} // verus!
