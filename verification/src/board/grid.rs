use vstd::prelude::*;

verus! {

/// A position on a two-dimensional board: `(row, column)`.
pub type Position2d = (usize, usize);

/// A relative offset between two positions: `(row delta, column delta)`.
pub type Position2dDiff = (i32, i32);

/// Row index of a position.
pub open spec fn row_of(p: Position2d) -> int {
    p.0 as int
}

/// Column index of a position.
pub open spec fn col_of(p: Position2d) -> int {
    p.1 as int
}

/// Adds a signed offset to a position, returning `None` when either axis
/// would leave the range of `usize` (in particular, when it would become
/// negative). No upper-bound check against any board happens here.
pub fn position_add(lhs: Position2d, rhs: Position2dDiff) -> (r: Option<Position2d>)
    ensures
        r is Some <==> (0 <= lhs.0 + rhs.0 <= usize::MAX && 0 <= lhs.1 + rhs.1 <= usize::MAX),
        r matches Some(q) ==> row_of(q) == lhs.0 + rhs.0 && col_of(q) == lhs.1 + rhs.1,
{
    let row = lhs.0.checked_add_signed(rhs.0 as isize);
    let col = lhs.1.checked_add_signed(rhs.1 as isize);
    match (row, col) {
        (Some(row), Some(col)) => Some((row, col)),
        _ => None,
    }
}

/// Error for a topology/adjacency combination that the grid does not
/// implement.
#[derive(Clone, Copy, Debug, PartialEq, Eq, Structural)]
pub enum GridError {
    UnsupportedConfiguration,
}

/// The shape of each cell of a grid. `Hex` is reserved and unimplemented:
/// adjacency queries on a hex grid report an unsupported configuration.
#[derive(Clone, Copy, Debug, PartialEq, Eq, Structural)]
pub enum CellType {
    Square,
    Hex,
}

/// Which offsets count as neighbors: `Side` is the four orthogonal cells;
/// `Vertex` and `SideAndVertex` are the eight surrounding cells.
#[derive(Clone, Copy, Debug, PartialEq, Eq, Structural)]
pub enum CellAdjacency {
    Side,
    Vertex,
    SideAndVertex,
}

/// The contents of a nested vector of rows, as a sequence of rows.
pub open spec fn nested_cells<T>(g: Vec<Vec<T>>) -> Seq<Seq<T>> {
    g@.map_values(|r: Vec<T>| r@)
}

/// Number of columns: the length of the first row, zero if there are no rows.
pub open spec fn grid_column_len<T>(cells: Seq<Seq<T>>) -> int {
    if cells.len() == 0 {
        0
    } else {
        cells[0].len() as int
    }
}

/// A rectangular grid: every row has the length of the first one.
pub open spec fn grid_rect<T>(cells: Seq<Seq<T>>) -> bool {
    forall|i: int| 0 <= i < cells.len() ==> #[trigger] cells[i].len() == grid_column_len(cells)
}

/// A position addresses a cell of the grid.
pub open spec fn pos_in_bounds<T>(cells: Seq<Seq<T>>, p: Position2d) -> bool {
    row_of(p) < cells.len() && col_of(p) < cells[row_of(p)].len()
}

/// Helper trait for useful square grid board functions.
pub trait GridExt<T>: Sized {
    /// The grid's contents, row by row.
    spec fn cells(&self) -> Seq<Seq<T>>;

    /// Whether the adjacency configuration is implemented.
    spec fn adjacency_supported(&self) -> bool;

    /// The offsets that count as neighbors, in enumeration order.
    spec fn adjacency_deltas(&self) -> Seq<Position2dDiff>;

    /// Number of rows.
    fn row_len(&self) -> (r: usize)
        ensures
            r == self.cells().len(),
    ;

    /// Number of columns, from the first row; zero on an empty grid.
    fn column_len(&self) -> (r: usize)
        ensures
            r == grid_column_len(self.cells()),
    ;

    /// The cells of one row, in column order.
    fn iter_row(&self, row: usize) -> (r: &Vec<T>)
        requires
            row < self.cells().len(),
        ensures
            r@ == self.cells()[row as int],
    ;

    /// All rows, in row order.
    fn rows(&self) -> (r: &Vec<Vec<T>>)
        ensures
            nested_cells(*r) == self.cells(),
    ;

    /// Bounds-checked lookup: `None` iff the position lies outside the grid.
    fn get(&self, position: &Position2d) -> (r: Option<&T>)
        ensures
            r is Some <==> pos_in_bounds(self.cells(), *position),
            r matches Some(v) ==> *v == self.cells()[row_of(*position)][col_of(*position)],
    ;

    /// Bounds-checked exclusive access: `None` iff the position lies
    /// outside the grid (and then nothing changes); the returned reference
    /// aliases exactly the addressed cell, so writing through it changes
    /// that cell and nothing else.
    fn get_mut(&mut self, position: &Position2d) -> (r: Option<&mut T>)
        ensures
            r is Some <==> pos_in_bounds(old(self).cells(), *position),
            r matches Some(m) ==> *m == old(self).cells()[row_of(*position)][col_of(*position)]
                && final(self).cells() == old(self).cells().update(
                row_of(*position),
                old(self).cells()[row_of(*position)].update(col_of(*position), *final(m)),
            ),
            r is None ==> final(self).cells() == old(self).cells(),
            final(self).adjacency_supported() == old(self).adjacency_supported(),
            final(self).adjacency_deltas() == old(self).adjacency_deltas(),
    ;

    /// The cells of one column, from the top row down.
    fn iter_column(&self, col: usize) -> (r: ColumnCellIterator<'_, T>)
        ensures
            r.cells() == self.cells(),
            r.col() == col,
            r.cur_row() == 0,
    ;

    /// All columns, from the leftmost on, each materialized on demand.
    fn columns(&self) -> (r: ColumnIterator<'_, T>)
        ensures
            r.cells() == self.cells(),
            r.cursor() == 0,
    ;

    /// The offsets that count as neighbors, in a fixed enumeration order;
    /// an unsupported topology/adjacency combination fails loudly instead
    /// of yielding an empty set.
    fn adjacencies(&self) -> (r: Result<Vec<Position2dDiff>, GridError>)
        ensures
            r is Ok <==> self.adjacency_supported(),
            r matches Ok(v) ==> v@ == self.adjacency_deltas(),
            r matches Err(e) ==> e == GridError::UnsupportedConfiguration,
    ;

    /// Applies each neighbor offset to `current` in enumeration order,
    /// discards the ones that underflow or leave the grid, and pairs each
    /// survivor with its cell.
    fn adjacent_cells(&self, current: &Position2d) -> (r: Result<
        Vec<(Position2d, &T)>,
        GridError,
    >)
        ensures
            r is Ok <==> self.adjacency_supported(),
            r matches Ok(v) ==> ({
                let ps = adjacent_positions(self.cells(), self.adjacency_deltas(), *current);
                &&& v@.len() == ps.len()
                &&& forall|i: int| 0 <= i < v@.len() ==> (#[trigger] v@[i]).0 == ps[i]
                &&& forall|i: int|
                    0 <= i < v@.len() ==> *(#[trigger] v@[i]).1 == self.cells()[row_of(
                        ps[i],
                    )][col_of(ps[i])]
            }),
            r matches Err(e) ==> e == GridError::UnsupportedConfiguration,
    ;
}

/// A rectangular board of cells with a fixed topology and adjacency policy.
///
/// The builder enforces that all rows have equal length; replacing rows in
/// place so that they differ is a caller error that lookups do not mask.
#[derive(Debug, PartialEq, Eq, Clone)]
pub struct Grid<T> {
    grid: Vec<Vec<T>>,
    cell_type: CellType,
    cell_adjacency: CellAdjacency,
}

impl<T> Grid<T> {
    /// The grid's contents, row by row.
    pub closed spec fn contents(&self) -> Seq<Seq<T>> {
        nested_cells(self.grid)
    }

    /// The grid's cell topology.
    pub closed spec fn topology(&self) -> CellType {
        self.cell_type
    }

    /// The grid's adjacency policy.
    pub closed spec fn adjacency(&self) -> CellAdjacency {
        self.cell_adjacency
    }
}

impl<T: Clone> Grid<T> {
    /// Wraps an already shaped nested vector as a square-cell grid with
    /// side adjacency.
    pub fn new_square_grid(grid: Vec<Vec<T>>) -> (r: Self)
        ensures
            r.contents() == nested_cells(grid),
            r.topology() == CellType::Square,
            r.adjacency() == CellAdjacency::Side,
    {
        Self { grid, cell_type: CellType::Square, cell_adjacency: CellAdjacency::Side }
    }

    /// Wraps an already shaped nested vector as a hex-cell grid (reserved:
    /// adjacency queries on it fail with an unsupported configuration).
    pub fn new_hex_grid(grid: Vec<Vec<T>>) -> (r: Self)
        ensures
            r.contents() == nested_cells(grid),
            r.topology() == CellType::Hex,
            r.adjacency() == CellAdjacency::Side,
    {
        Self { grid, cell_type: CellType::Hex, cell_adjacency: CellAdjacency::Side }
    }

    /// A builder with nothing configured.
    pub fn builder() -> (r: GridBuilder<T>)
        ensures
            r.cfg_rows() is None,
            r.cfg_columns() is None,
            r.cfg_initial_value() is None,
            r.cfg_cell_type() is None,
            r.cfg_cell_adjacency() is None,
    {
        GridBuilder::new()
    }
}

impl<T> GridExt<T> for Grid<T> {
    open spec fn cells(&self) -> Seq<Seq<T>> {
        self.contents()
    }

    open spec fn adjacency_supported(&self) -> bool {
        self.topology() == CellType::Square
    }

    open spec fn adjacency_deltas(&self) -> Seq<Position2dDiff> {
        deltas_for(self.adjacency())
    }

    fn row_len(&self) -> (r: usize) {
        self.grid.row_len()
    }

    fn column_len(&self) -> (r: usize) {
        self.grid.column_len()
    }

    fn iter_row(&self, row: usize) -> (r: &Vec<T>) {
        self.grid.iter_row(row)
    }

    fn rows(&self) -> (r: &Vec<Vec<T>>) {
        self.grid.rows()
    }

    fn get(&self, position: &Position2d) -> (r: Option<&T>) {
        self.grid.get(position)
    }

    fn get_mut(&mut self, position: &Position2d) -> (r: Option<&mut T>) {
        self.grid.get_mut(position)
    }

    fn iter_column(&self, col: usize) -> (r: ColumnCellIterator<'_, T>) {
        ColumnCellIterator::new(&self.grid, col)
    }

    fn columns(&self) -> (r: ColumnIterator<'_, T>) {
        ColumnIterator::new(&self.grid)
    }

    fn adjacencies(&self) -> (r: Result<Vec<Position2dDiff>, GridError>) {
        match (self.cell_type, self.cell_adjacency) {
            (CellType::Square, CellAdjacency::Side) => {
                let mut v: Vec<Position2dDiff> = Vec::new();
                v.push((-1, 0));
                v.push((0, -1));
                v.push((0, 1));
                v.push((1, 0));
                proof {
                    assert(v@ =~= side_deltas());
                }
                Ok(v)
            },
            (CellType::Square, _) => {
                let mut v: Vec<Position2dDiff> = Vec::new();
                v.push((-1, -1));
                v.push((-1, 0));
                v.push((-1, 1));
                v.push((0, -1));
                v.push((0, 1));
                v.push((1, -1));
                v.push((1, 0));
                v.push((1, 1));
                proof {
                    assert(v@ =~= vertex_deltas());
                }
                Ok(v)
            },
            (CellType::Hex, _) => Err(GridError::UnsupportedConfiguration),
        }
    }

    fn adjacent_cells(&self, current: &Position2d) -> (r: Result<
        Vec<(Position2d, &T)>,
        GridError,
    >) {
        match self.adjacencies() {
            Ok(deltas) => Ok(collect_adjacent(&self.grid, &deltas, current)),
            Err(e) => Err(e),
        }
    }
}

impl<T> GridExt<T> for Vec<Vec<T>> {
    open spec fn cells(&self) -> Seq<Seq<T>> {
        nested_cells(*self)
    }

    open spec fn adjacency_supported(&self) -> bool {
        true
    }

    open spec fn adjacency_deltas(&self) -> Seq<Position2dDiff> {
        bare_side_deltas()
    }

    fn row_len(&self) -> (r: usize) {
        self.len()
    }

    fn column_len(&self) -> (r: usize) {
        if self.len() == 0 {
            return 0;
        }
        self[0].len()
    }

    fn iter_row(&self, row: usize) -> (r: &Vec<T>) {
        &self[row]
    }

    fn rows(&self) -> (r: &Vec<Vec<T>>) {
        self
    }

    fn get(&self, position: &Position2d) -> (r: Option<&T>) {
        if position.0 < self.len() {
            let row = &self[position.0];
            if position.1 < row.len() {
                Some(&row[position.1])
            } else {
                None
            }
        } else {
            None
        }
    }

    fn get_mut(&mut self, position: &Position2d) -> (r: Option<&mut T>) {
        if position.0 < self.len() {
            let row_len = self[position.0].len();
            if position.1 < row_len {
                return Some(&mut self[position.0][position.1]);
            }
        }
        None
    }

    fn iter_column(&self, col: usize) -> (r: ColumnCellIterator<'_, T>) {
        ColumnCellIterator::new(self, col)
    }

    fn columns(&self) -> (r: ColumnIterator<'_, T>) {
        ColumnIterator::new(self)
    }

    fn adjacencies(&self) -> (r: Result<Vec<Position2dDiff>, GridError>) {
        let mut v: Vec<Position2dDiff> = Vec::new();
        v.push((0, -1));
        v.push((0, 1));
        v.push((-1, 0));
        v.push((1, 0));
        proof {
            assert(v@ =~= bare_side_deltas());
        }
        Ok(v)
    }

    fn adjacent_cells(&self, current: &Position2d) -> (r: Result<
        Vec<(Position2d, &T)>,
        GridError,
    >) {
        match self.adjacencies() {
            Ok(deltas) => Ok(collect_adjacent(self, &deltas, current)),
            Err(e) => Err(e),
        }
    }
}

/// The four orthogonal offsets, in the enumeration order a bare nested
/// vector uses: left, right, up, down.
pub open spec fn bare_side_deltas() -> Seq<Position2dDiff> {
    seq![(0i32, -1i32), (0i32, 1i32), (-1i32, 0i32), (1i32, 0i32)]
}

/// The four orthogonal offsets in a grid's enumeration order: up, left,
/// right, down.
pub open spec fn side_deltas() -> Seq<Position2dDiff> {
    seq![(-1i32, 0i32), (0i32, -1i32), (0i32, 1i32), (1i32, 0i32)]
}

/// The eight surrounding offsets, row by row.
pub open spec fn vertex_deltas() -> Seq<Position2dDiff> {
    seq![(-1i32, -1i32), (-1i32, 0i32), (-1i32, 1i32), (0i32, -1i32), (0i32, 1i32), (1i32, -1i32), (1i32, 0i32), (1i32, 1i32)]
}

/// The neighbor offsets a grid with the given adjacency policy enumerates.
pub open spec fn deltas_for(adjacency: CellAdjacency) -> Seq<Position2dDiff> {
    match adjacency {
        CellAdjacency::Side => side_deltas(),
        CellAdjacency::Vertex => vertex_deltas(),
        CellAdjacency::SideAndVertex => vertex_deltas(),
    }
}

/// The cell that one offset leads to: `None` when the target leaves `usize`
/// on either axis or lies outside the grid.
pub open spec fn delta_target<T>(cells: Seq<Seq<T>>, p: Position2d, d: Position2dDiff) -> Option<
    Position2d,
> {
    let nr = p.0 + d.0;
    let nc = p.1 + d.1;
    if 0 <= nr <= usize::MAX && 0 <= nc <= usize::MAX && nr < cells.len() && nc < cells[nr].len() {
        Some((nr as usize, nc as usize))
    } else {
        None
    }
}

/// The in-bounds neighbors of `p`, in the enumeration order of `deltas`.
pub open spec fn adjacent_positions<T>(
    cells: Seq<Seq<T>>,
    deltas: Seq<Position2dDiff>,
    p: Position2d,
) -> Seq<Position2d>
    decreases deltas.len(),
{
    if deltas.len() == 0 {
        Seq::empty()
    } else {
        let rest = adjacent_positions(cells, deltas.skip(1), p);
        match delta_target(cells, p, deltas[0]) {
            Some(q) => seq![q] + rest,
            None => rest,
        }
    }
}

/// Two positions are neighbors when some enumerated offset leads from the
/// first to the second (which is then in bounds).
pub open spec fn is_adjacent<T>(
    cells: Seq<Seq<T>>,
    deltas: Seq<Position2dDiff>,
    p: Position2d,
    q: Position2d,
) -> bool {
    exists|k: int| 0 <= k < deltas.len() && delta_target(cells, p, deltas[k]) == Some(q)
}

/// Appending one offset appends its target (if any) to the neighbor list.
proof fn lemma_adjacent_positions_push<T>(
    cells: Seq<Seq<T>>,
    deltas: Seq<Position2dDiff>,
    d: Position2dDiff,
    p: Position2d,
)
    ensures
        adjacent_positions(cells, deltas.push(d), p) == adjacent_positions(cells, deltas, p)
            + (match delta_target(cells, p, d) {
            Some(q) => seq![q],
            None => Seq::<Position2d>::empty(),
        }),
    decreases deltas.len(),
{
    let lhs = adjacent_positions(cells, deltas.push(d), p);
    let tail = (match delta_target(cells, p, d) {
        Some(q) => seq![q],
        None => Seq::<Position2d>::empty(),
    });
    if deltas.len() == 0 {
        assert(deltas.push(d)[0] == d);
        assert(deltas.push(d).skip(1) =~= Seq::<Position2dDiff>::empty());
        assert(adjacent_positions(cells, Seq::<Position2dDiff>::empty(), p)
            == Seq::<Position2d>::empty());
        match delta_target(cells, p, d) {
            Some(q) => {
                assert(lhs == seq![q] + Seq::<Position2d>::empty());
                assert(lhs =~= adjacent_positions(cells, deltas, p) + tail);
            },
            None => {
                assert(lhs == Seq::<Position2d>::empty());
                assert(lhs =~= adjacent_positions(cells, deltas, p) + tail);
            },
        }
    } else {
        assert(deltas.push(d).skip(1) =~= deltas.skip(1).push(d));
        assert(deltas.push(d)[0] == deltas[0]);
        lemma_adjacent_positions_push(cells, deltas.skip(1), d, p);
        let rest = adjacent_positions(cells, deltas.skip(1), p);
        match delta_target(cells, p, deltas[0]) {
            Some(q) => {
                assert(lhs == seq![q] + (rest + tail));
                assert(adjacent_positions(cells, deltas, p) == seq![q] + rest);
                assert(lhs =~= adjacent_positions(cells, deltas, p) + tail);
            },
            None => {
                assert(lhs == rest + tail);
                assert(lhs =~= adjacent_positions(cells, deltas, p) + tail);
            },
        }
    }
}

/// The neighbor list holds exactly the positions adjacent to `p`.
pub proof fn lemma_adjacent_positions_iff<T>(
    cells: Seq<Seq<T>>,
    deltas: Seq<Position2dDiff>,
    p: Position2d,
    q: Position2d,
)
    ensures
        adjacent_positions(cells, deltas, p).contains(q) <==> is_adjacent(cells, deltas, p, q),
    decreases deltas.len(),
{
    let aps = adjacent_positions(cells, deltas, p);
    if deltas.len() == 0 {
    } else {
        lemma_adjacent_positions_iff(cells, deltas.skip(1), p, q);
        let rest = adjacent_positions(cells, deltas.skip(1), p);
        if is_adjacent(cells, deltas.skip(1), p, q) {
            let k = choose|k: int|
                0 <= k < deltas.skip(1).len() && delta_target(cells, p, deltas.skip(1)[k])
                    == Some(q);
            assert(deltas.skip(1)[k] == deltas[k + 1]);
            assert(is_adjacent(cells, deltas, p, q));
        }
        if delta_target(cells, p, deltas[0]) == Some(q) {
            assert(aps[0] == q);
            assert(aps.contains(q));
        }
        if is_adjacent(cells, deltas, p, q) && delta_target(cells, p, deltas[0]) != Some(q) {
            let k = choose|k: int|
                0 <= k < deltas.len() && delta_target(cells, p, deltas[k]) == Some(q);
            assert(k >= 1);
            assert(deltas.skip(1)[k - 1] == deltas[k]);
            assert(is_adjacent(cells, deltas.skip(1), p, q));
        }
        if aps.contains(q) {
            match delta_target(cells, p, deltas[0]) {
                Some(q0) => {
                    if q0 != q {
                        let i = choose|i: int| 0 <= i < aps.len() && aps[i] == q;
                        assert(i >= 1);
                        assert(rest[i - 1] == q);
                        assert(rest.contains(q));
                    }
                },
                None => {},
            }
        }
        if rest.contains(q) {
            assert(aps.contains(q)) by {
                let i = choose|i: int| 0 <= i < rest.len() && rest[i] == q;
                match delta_target(cells, p, deltas[0]) {
                    Some(q0) => {
                        assert(aps[i + 1] == q);
                    },
                    None => {
                        assert(aps[i] == q);
                    },
                }
            }
        }
    }
}

/// A neighbor is always in bounds.
pub proof fn lemma_is_adjacent_in_bounds<T>(
    cells: Seq<Seq<T>>,
    deltas: Seq<Position2dDiff>,
    p: Position2d,
    q: Position2d,
)
    requires
        is_adjacent(cells, deltas, p, q),
    ensures
        pos_in_bounds(cells, q),
{
    let k = choose|k: int| 0 <= k < deltas.len() && delta_target(cells, p, deltas[k]) == Some(q);
    assert(delta_target(cells, p, deltas[k]) == Some(q));
}

/// Every listed neighbor is in bounds.
pub proof fn lemma_adjacent_positions_in_bounds<T>(
    cells: Seq<Seq<T>>,
    deltas: Seq<Position2dDiff>,
    p: Position2d,
)
    ensures
        forall|i: int|
            0 <= i < adjacent_positions(cells, deltas, p).len() ==> pos_in_bounds(
                cells,
                #[trigger] adjacent_positions(cells, deltas, p)[i],
            ),
    decreases deltas.len(),
{
    if deltas.len() == 0 {
    } else {
        lemma_adjacent_positions_in_bounds(cells, deltas.skip(1), p);
        let aps = adjacent_positions(cells, deltas, p);
        let rest = adjacent_positions(cells, deltas.skip(1), p);
        match delta_target(cells, p, deltas[0]) {
            Some(q) => {
                assert forall|i: int| 0 <= i < aps.len() implies pos_in_bounds(
                    cells,
                    #[trigger] aps[i],
                ) by {
                    if i == 0 {
                        assert(aps[0] == q);
                    } else {
                        assert(aps[i] == rest[i - 1]);
                    }
                }
            },
            None => {
                assert(forall|i: int| 0 <= i < aps.len() ==> aps[i] == #[trigger] rest[i]);
            },
        }
    }
}

/// Applies each offset to `current` in order, discards the ones that leave
/// the board, and pairs each surviving position with its cell.
fn collect_adjacent<'a, T>(
    board: &'a Vec<Vec<T>>,
    deltas: &Vec<Position2dDiff>,
    current: &Position2d,
) -> (r: Vec<(Position2d, &'a T)>)
    ensures
        ({
            let ps = adjacent_positions(nested_cells(*board), deltas@, *current);
            &&& r@.len() == ps.len()
            &&& forall|i: int| 0 <= i < r@.len() ==> (#[trigger] r@[i]).0 == ps[i]
            &&& forall|i: int|
                0 <= i < r@.len() ==> *(#[trigger] r@[i]).1 == nested_cells(*board)[row_of(
                    ps[i],
                )][col_of(ps[i])]
        }),
{
    let ghost cells = nested_cells(*board);
    let mut r: Vec<(Position2d, &'a T)> = Vec::new();
    let mut k: usize = 0;
    while k < deltas.len()
        invariant
            k <= deltas@.len(),
            ({
                let ps = adjacent_positions(cells, deltas@.take(k as int), *current);
                &&& r@.len() == ps.len()
                &&& forall|i: int| 0 <= i < r@.len() ==> (#[trigger] r@[i]).0 == ps[i]
                &&& forall|i: int|
                    0 <= i < r@.len() ==> *(#[trigger] r@[i]).1 == cells[row_of(ps[i])][col_of(
                        ps[i],
                    )]
            }),
            cells == nested_cells(*board),
        decreases deltas@.len() - k,
    {
        let d = deltas[k];
        proof {
            assert(deltas@.take(k + 1) =~= deltas@.take(k as int).push(d));
            lemma_adjacent_positions_push(cells, deltas@.take(k as int), d, *current);
        }
        match position_add(*current, d) {
            Some(q) => {
                match GridExt::get(board, &q) {
                    Some(v) => {
                        proof {
                            assert(delta_target(cells, *current, d) == Some(q));
                        }
                        r.push((q, v));
                    },
                    None => {
                        proof {
                            assert(delta_target(cells, *current, d) is None);
                        }
                    },
                }
            },
            None => {
                proof {
                    assert(delta_target(cells, *current, d) is None);
                }
            },
        }
        k = k + 1;
    }
    proof {
        assert(deltas@.take(deltas@.len() as int) =~= deltas@);
    }
    r
}

/// One column of a grid, from the top row down.
pub open spec fn column_seq<T>(cells: Seq<Seq<T>>, c: int) -> Seq<T> {
    Seq::new(cells.len(), |i: int| cells[i][c])
}

/// Walks the columns of a board, materializing one full column per step.
pub struct ColumnIterator<'a, T> {
    board: &'a Vec<Vec<T>>,
    column: usize,
}

impl<'a, T> ColumnIterator<'a, T> {
    /// The contents of the board this iterator walks.
    pub closed spec fn cells(&self) -> Seq<Seq<T>> {
        nested_cells(*self.board)
    }

    /// The column the next step produces.
    pub closed spec fn cursor(&self) -> int {
        self.column as int
    }

    pub fn new(board: &'a Vec<Vec<T>>) -> (r: Self)
        ensures
            r.cells() == nested_cells(*board),
            r.cursor() == 0,
    {
        Self { board, column: 0 }
    }

    /// The next column as a freshly allocated sequence of references;
    /// `None` once all `column_len` columns have been produced.
    pub fn next(&mut self) -> (r: Option<Vec<&'a T>>)
        requires
            grid_rect(old(self).cells()),
        ensures
            final(self).cells() == old(self).cells(),
            old(self).cursor() < grid_column_len(old(self).cells()) ==> {
                &&& final(self).cursor() == old(self).cursor() + 1
                &&& r matches Some(v) && v@.len() == old(self).cells().len() && (forall|i: int|
                    0 <= i < v@.len() ==> *(#[trigger] v@[i]) == column_seq(
                        old(self).cells(),
                        old(self).cursor(),
                    )[i])
            },
            old(self).cursor() >= grid_column_len(old(self).cells()) ==> r is None
                && final(self).cursor() == old(self).cursor(),
    {
        let cols = self.board.column_len();
        if self.column >= cols {
            return None;
        }
        let rows = self.board.len();
        let mut v: Vec<&'a T> = Vec::new();
        let mut i: usize = 0;
        while i < rows
            invariant
                i <= rows,
                rows == self.cells().len(),
                self.column < grid_column_len(self.cells()),
                grid_rect(self.cells()),
                self.cells() == nested_cells(*self.board),
                v@.len() == i,
                forall|k: int|
                    0 <= k < i ==> *(#[trigger] v@[k]) == self.cells()[k][self.column as int],
            decreases rows - i,
        {
            let row = &self.board[i];
            proof {
                assert(self.cells()[i as int].len() == grid_column_len(self.cells()));
            }
            v.push(&row[self.column]);
            i = i + 1;
        }
        self.column = self.column + 1;
        Some(v)
    }
}

/// Walks one column of a board cell by cell, from the top row down.
pub struct ColumnCellIterator<'a, T> {
    board: &'a Vec<Vec<T>>,
    col: usize,
    row: usize,
}

impl<'a, T> ColumnCellIterator<'a, T> {
    /// The contents of the board this iterator walks.
    pub closed spec fn cells(&self) -> Seq<Seq<T>> {
        nested_cells(*self.board)
    }

    /// The fixed column being walked.
    pub closed spec fn col(&self) -> int {
        self.col as int
    }

    /// The row the next step looks up.
    pub closed spec fn cur_row(&self) -> int {
        self.row as int
    }

    pub fn new(board: &'a Vec<Vec<T>>, col: usize) -> (r: Self)
        ensures
            r.cells() == nested_cells(*board),
            r.col() == col,
            r.cur_row() == 0,
    {
        Self { board, col, row: 0 }
    }

    /// The cell at the cursor, advancing one row; `None` when the cursor's
    /// row is exhausted or does not reach the column.
    pub fn next(&mut self) -> (r: Option<&'a T>)
        ensures
            final(self).cells() == old(self).cells(),
            final(self).col() == old(self).col(),
            old(self).cur_row() < old(self).cells().len()
                ==> final(self).cur_row() == old(self).cur_row() + 1,
            old(self).cur_row() >= old(self).cells().len()
                ==> final(self).cur_row() == old(self).cur_row(),
            r is Some <==> (old(self).cur_row() < old(self).cells().len() && old(self).col()
                < old(self).cells()[old(self).cur_row()].len()),
            r matches Some(v) ==> *v == old(self).cells()[old(self).cur_row()][old(self).col()],
    {
        if self.row >= self.board.len() {
            return None;
        }
        let row = &self.board[self.row];
        let r = if self.col < row.len() {
            Some(&row[self.col])
        } else {
            None
        };
        self.row = self.row + 1;
        r
    }
}

/// Configures and builds a [`Grid`]: rows, columns and the initial cell
/// value must be set (topology and adjacency too, unless a preset
/// constructor chose them) before `build`.
#[derive(Debug)]
pub struct GridBuilder<T: Clone> {
    rows: Option<usize>,
    columns: Option<usize>,
    initial_value: Option<T>,
    cell_type: Option<CellType>,
    cell_adjacency: Option<CellAdjacency>,
}

impl<T: Clone> GridBuilder<T> {
    /// The configured number of rows.
    pub closed spec fn cfg_rows(&self) -> Option<usize> {
        self.rows
    }

    /// The configured number of columns.
    pub closed spec fn cfg_columns(&self) -> Option<usize> {
        self.columns
    }

    /// The configured initial cell value.
    pub closed spec fn cfg_initial_value(&self) -> Option<T> {
        self.initial_value
    }

    /// The configured cell topology.
    pub closed spec fn cfg_cell_type(&self) -> Option<CellType> {
        self.cell_type
    }

    /// The configured adjacency policy.
    pub closed spec fn cfg_cell_adjacency(&self) -> Option<CellAdjacency> {
        self.cell_adjacency
    }

    /// Every required option has been set.
    pub open spec fn complete(&self) -> bool {
        &&& self.cfg_rows() is Some
        &&& self.cfg_columns() is Some
        &&& self.cfg_initial_value() is Some
        &&& self.cfg_cell_type() is Some
        &&& self.cfg_cell_adjacency() is Some
    }

    /// A builder with nothing configured.
    pub fn new() -> (r: Self)
        ensures
            r.cfg_rows() is None,
            r.cfg_columns() is None,
            r.cfg_initial_value() is None,
            r.cfg_cell_type() is None,
            r.cfg_cell_adjacency() is None,
    {
        Self { rows: None, columns: None, initial_value: None, cell_type: None, cell_adjacency: None }
    }

    /// A builder preset to square cells with side adjacency.
    pub fn new_square_grid() -> (r: Self)
        ensures
            r.cfg_rows() is None,
            r.cfg_columns() is None,
            r.cfg_initial_value() is None,
            r.cfg_cell_type() == Some(CellType::Square),
            r.cfg_cell_adjacency() == Some(CellAdjacency::Side),
    {
        Self {
            rows: None,
            columns: None,
            initial_value: None,
            cell_type: Some(CellType::Square),
            cell_adjacency: Some(CellAdjacency::Side),
        }
    }

    /// A builder preset to hex cells with side adjacency (reserved:
    /// adjacency queries on the built grid fail).
    pub fn new_hey_grid() -> (r: Self)
        ensures
            r.cfg_rows() is None,
            r.cfg_columns() is None,
            r.cfg_initial_value() is None,
            r.cfg_cell_type() == Some(CellType::Hex),
            r.cfg_cell_adjacency() == Some(CellAdjacency::Side),
    {
        Self {
            rows: None,
            columns: None,
            initial_value: None,
            cell_type: Some(CellType::Hex),
            cell_adjacency: Some(CellAdjacency::Side),
        }
    }

    pub fn with_rows(self, rows: usize) -> (r: Self)
        ensures
            r.cfg_rows() == Some(rows),
            r.cfg_columns() == self.cfg_columns(),
            r.cfg_initial_value() == self.cfg_initial_value(),
            r.cfg_cell_type() == self.cfg_cell_type(),
            r.cfg_cell_adjacency() == self.cfg_cell_adjacency(),
    {
        Self { rows: Some(rows), ..self }
    }

    pub fn with_columns(self, columns: usize) -> (r: Self)
        ensures
            r.cfg_columns() == Some(columns),
            r.cfg_rows() == self.cfg_rows(),
            r.cfg_initial_value() == self.cfg_initial_value(),
            r.cfg_cell_type() == self.cfg_cell_type(),
            r.cfg_cell_adjacency() == self.cfg_cell_adjacency(),
    {
        Self { columns: Some(columns), ..self }
    }

    pub fn with_initial_value(self, initial_value: T) -> (r: Self)
        ensures
            r.cfg_initial_value() == Some(initial_value),
            r.cfg_rows() == self.cfg_rows(),
            r.cfg_columns() == self.cfg_columns(),
            r.cfg_cell_type() == self.cfg_cell_type(),
            r.cfg_cell_adjacency() == self.cfg_cell_adjacency(),
    {
        Self { initial_value: Some(initial_value), ..self }
    }

    pub fn with_cell_type(self, cell_type: CellType) -> (r: Self)
        ensures
            r.cfg_cell_type() == Some(cell_type),
            r.cfg_rows() == self.cfg_rows(),
            r.cfg_columns() == self.cfg_columns(),
            r.cfg_initial_value() == self.cfg_initial_value(),
            r.cfg_cell_adjacency() == self.cfg_cell_adjacency(),
    {
        Self { cell_type: Some(cell_type), ..self }
    }

    pub fn with_cell_adjacency(self, cell_adjacency: CellAdjacency) -> (r: Self)
        ensures
            r.cfg_cell_adjacency() == Some(cell_adjacency),
            r.cfg_rows() == self.cfg_rows(),
            r.cfg_columns() == self.cfg_columns(),
            r.cfg_initial_value() == self.cfg_initial_value(),
            r.cfg_cell_type() == self.cfg_cell_type(),
    {
        Self { cell_adjacency: Some(cell_adjacency), ..self }
    }

    /// Builds a grid of `rows` by `columns` cells, each a clone of the
    /// configured initial value. Every option must have been set first.
    pub fn build(&self) -> (r: Grid<T>)
        requires
            self.complete(),
        ensures
            r.contents().len() == self.cfg_rows()->0,
            grid_rect(r.contents()),
            forall|i: int|
                0 <= i < r.contents().len() ==> (#[trigger] r.contents()[i]).len()
                    == self.cfg_columns()->0,
            forall|i: int, j: int|
                0 <= i < r.contents().len() && 0 <= j < r.contents()[i].len()
                    ==> vstd::pervasive::cloned(
                    self.cfg_initial_value()->0,
                    #[trigger] r.contents()[i][j],
                ),
            r.topology() == self.cfg_cell_type()->0,
            r.adjacency() == self.cfg_cell_adjacency()->0,
    {
        let rows = self.rows.unwrap();
        let columns = self.columns.unwrap();
        let initial_value = self.initial_value.as_ref().unwrap();

        let ghost init = self.cfg_initial_value()->0;
        let mut g: Vec<Vec<T>> = Vec::new();
        let mut i: usize = 0;
        while i < rows
            invariant
                i <= rows,
                g@.len() == i,
                forall|a: int| 0 <= a < i ==> (#[trigger] g@[a])@.len() == columns,
                forall|a: int, b: int|
                    0 <= a < i && 0 <= b < columns ==> vstd::pervasive::cloned(
                        init,
                        #[trigger] g@[a]@[b],
                    ),
                init == *initial_value,
            decreases rows - i,
        {
            let mut row: Vec<T> = Vec::new();
            let mut j: usize = 0;
            while j < columns
                invariant
                    j <= columns,
                    row@.len() == j,
                    forall|b: int|
                        0 <= b < j ==> vstd::pervasive::cloned(init, #[trigger] row@[b]),
                    init == *initial_value,
                decreases columns - j,
            {
                row.push(initial_value.clone());
                j = j + 1;
            }
            g.push(row);
            i = i + 1;
        }
        let r = Grid {
            grid: g,
            cell_type: self.cell_type.unwrap(),
            cell_adjacency: self.cell_adjacency.unwrap(),
        };
        proof {
            assert(forall|a: int|
                0 <= a < r.contents().len() ==> #[trigger] r.contents()[a] == g@[a]@);
        }
        r
    }
}

/// `q` is one orthogonal step away from `p`.
pub open spec fn orthogonal_neighbor(p: Position2d, q: Position2d) -> bool {
    ||| (row_of(q) + 1 == row_of(p) && col_of(q) == col_of(p))
    ||| (row_of(p) + 1 == row_of(q) && col_of(q) == col_of(p))
    ||| (col_of(q) + 1 == col_of(p) && row_of(q) == row_of(p))
    ||| (col_of(p) + 1 == col_of(q) && row_of(q) == row_of(p))
}

/// A bounds-checked lookup, the row view and the materialized column all
/// agree: for an in-bounds position they report the same cell.
pub proof fn lemma_get_rows_columns_agree<T>(cells: Seq<Seq<T>>, p: Position2d)
    requires
        grid_rect(cells),
        pos_in_bounds(cells, p),
    ensures
        column_seq(cells, col_of(p))[row_of(p)] == cells[row_of(p)][col_of(p)],
{
}

/// Under `Side` adjacency the neighbor list holds exactly the orthogonal
/// neighbors that lie on the grid: its length counts the four candidate
/// directions that stay in bounds — on a board of at least 3 by 3 that is
/// 2 at a corner, 3 on an edge, and 4 in the interior.
pub proof fn lemma_side_adjacency_exact<T>(cells: Seq<Seq<T>>, p: Position2d)
    requires
        grid_rect(cells),
        pos_in_bounds(cells, p),
        cells.len() <= usize::MAX,
        grid_column_len(cells) <= usize::MAX,
    ensures
        forall|q: Position2d|
            #![trigger adjacent_positions(cells, side_deltas(), p).contains(q)]
            #![trigger orthogonal_neighbor(p, q)]
            adjacent_positions(cells, side_deltas(), p).contains(q) <==> (pos_in_bounds(cells, q)
                && orthogonal_neighbor(p, q)),
        adjacent_positions(cells, side_deltas(), p).len() == (if row_of(p) > 0 {
            1int
        } else {
            0int
        }) + (if col_of(p) > 0 {
            1int
        } else {
            0int
        }) + (if col_of(p) + 1 < grid_column_len(cells) {
            1int
        } else {
            0int
        }) + (if row_of(p) + 1 < cells.len() {
            1int
        } else {
            0int
        }),
        (cells.len() >= 3 && grid_column_len(cells) >= 3) ==> ({
            let row_edge = row_of(p) == 0 || row_of(p) == cells.len() - 1;
            let col_edge = col_of(p) == 0 || col_of(p) == grid_column_len(cells) - 1;
            adjacent_positions(cells, side_deltas(), p).len() == (if row_edge && col_edge {
                2int
            } else if row_edge || col_edge {
                3int
            } else {
                4int
            })
        }),
{
    let d = side_deltas();
    let up = delta_target(cells, p, d[0]);
    let left = delta_target(cells, p, d[1]);
    let right = delta_target(cells, p, d[2]);
    let down = delta_target(cells, p, d[3]);
    assert(forall|i: int|
        0 <= i < cells.len() ==> #[trigger] cells[i].len() == grid_column_len(cells));
    let d1 = d.skip(1);
    let d2 = d1.skip(1);
    let d3 = d2.skip(1);
    let d4 = d3.skip(1);
    assert(d1 =~= seq![(0i32, -1i32), (0i32, 1i32), (1i32, 0i32)]);
    assert(d2 =~= seq![(0i32, 1i32), (1i32, 0i32)]);
    assert(d3 =~= seq![(1i32, 0i32)]);
    assert(d4 =~= Seq::<Position2dDiff>::empty());
    let a4 = adjacent_positions(cells, d4, p);
    let a3 = adjacent_positions(cells, d3, p);
    let a2 = adjacent_positions(cells, d2, p);
    let a1 = adjacent_positions(cells, d1, p);
    let a0 = adjacent_positions(cells, d, p);
    assert(a4 == Seq::<Position2d>::empty());
    assert(a3 == (match down {
        Some(q) => seq![q],
        None => Seq::<Position2d>::empty(),
    }) + a4);
    assert(a2 == (match right {
        Some(q) => seq![q],
        None => Seq::<Position2d>::empty(),
    }) + a3);
    assert(a1 == (match left {
        Some(q) => seq![q],
        None => Seq::<Position2d>::empty(),
    }) + a2);
    assert(a0 == (match up {
        Some(q) => seq![q],
        None => Seq::<Position2d>::empty(),
    }) + a1);
    assert(up is Some <==> row_of(p) > 0);
    assert(left is Some <==> col_of(p) > 0);
    assert(right is Some <==> col_of(p) + 1 < grid_column_len(cells));
    assert(down is Some <==> row_of(p) + 1 < cells.len());
    assert forall|q: Position2d|
        #![trigger adjacent_positions(cells, side_deltas(), p).contains(q)]
        #![trigger orthogonal_neighbor(p, q)]
        adjacent_positions(cells, side_deltas(), p).contains(q) <==> (pos_in_bounds(cells, q)
            && orthogonal_neighbor(p, q)) by {
        lemma_adjacent_positions_iff(cells, d, p, q);
        if pos_in_bounds(cells, q) && orthogonal_neighbor(p, q) {
            if row_of(q) + 1 == row_of(p) && col_of(q) == col_of(p) {
                assert(delta_target(cells, p, d[0]) == Some(q));
            } else if row_of(p) + 1 == row_of(q) && col_of(q) == col_of(p) {
                assert(delta_target(cells, p, d[3]) == Some(q));
            } else if col_of(q) + 1 == col_of(p) && row_of(q) == row_of(p) {
                assert(delta_target(cells, p, d[1]) == Some(q));
            } else {
                assert(delta_target(cells, p, d[2]) == Some(q));
            }
            assert(is_adjacent(cells, d, p, q));
        }
        if is_adjacent(cells, d, p, q) {
            let k = choose|k: int| 0 <= k < d.len() && delta_target(cells, p, d[k]) == Some(q);
            assert(pos_in_bounds(cells, q));
            assert(orthogonal_neighbor(p, q));
        }
    }
}

/// Side and vertex adjacency are mutual: every offset's opposite stands in
/// the same enumeration, so when `q` neighbors an on-board `p`, `p`
/// neighbors `q`.
pub proof fn lemma_adjacency_symmetric<T>(
    cells: Seq<Seq<T>>,
    adjacency: CellAdjacency,
    p: Position2d,
    q: Position2d,
)
    requires
        is_adjacent(cells, deltas_for(adjacency), p, q),
        pos_in_bounds(cells, p),
    ensures
        is_adjacent(cells, deltas_for(adjacency), q, p),
{
    let d = deltas_for(adjacency);
    let k = choose|k: int| 0 <= k < d.len() && delta_target(cells, p, d[k]) == Some(q);
    let kk = d.len() - 1 - k;
    assert((d[kk]).0 == -(d[k]).0 && (d[kk]).1 == -(d[k]).1) by {
        match adjacency {
            CellAdjacency::Side => {
                assert(d == side_deltas());
            },
            CellAdjacency::Vertex => {
                assert(d == vertex_deltas());
            },
            CellAdjacency::SideAndVertex => {
                assert(d == vertex_deltas());
            },
        }
    }
    assert(delta_target(cells, q, d[kk]) == Some(p));
}

impl<T: Clone> Default for GridBuilder<T> {
    /// The same as [`GridBuilder::new`]: nothing configured.
    fn default() -> (r: Self)
        ensures
            r.cfg_rows() is None,
            r.cfg_columns() is None,
            r.cfg_initial_value() is None,
            r.cfg_cell_type() is None,
            r.cfg_cell_adjacency() is None,
    {
        Self::new()
    }
}

} // verus!
