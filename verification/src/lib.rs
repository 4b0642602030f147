pub mod board;
pub mod card;
pub mod deck;
pub mod engine;
pub mod pathfinder;
pub mod tictactoe;

use vstd::prelude::*;

verus! {

/// A rectangular board addressed by row and column indices.
pub trait Board2D<T> {
    /// The board's contents, row by row.
    spec fn cells(&self) -> Seq<Seq<T>>;

    /// The cells of one row, in column order.
    fn iter_row(&self, row: usize) -> (r: &Vec<T>)
        requires
            row < self.cells().len(),
        ensures
            r@ == self.cells()[row as int],
    ;

    /// The cells of one column, from the top row down.
    fn iter_column(&self, col: usize) -> (r: Board2DColumnIterator<'_, T>)
        ensures
            r.cells() == self.cells(),
            r.col() == col,
            r.cur_row() == 0,
    ;

    /// The cell at an address that must be on the board.
    fn get(&self, row: usize, col: usize) -> (r: &T)
        requires
            row < self.cells().len(),
            col < self.cells()[row as int].len(),
        ensures
            *r == self.cells()[row as int][col as int],
    ;

    /// Exclusive access to the cell at an address that must be on the
    /// board.
    fn get_mut(&mut self, row: usize, col: usize) -> (r: &mut T)
        requires
            row < old(self).cells().len(),
            col < old(self).cells()[row as int].len(),
        ensures
            *r == old(self).cells()[row as int][col as int],
            final(self).cells() == old(self).cells().update(
                row as int,
                old(self).cells()[row as int].update(col as int, *final(r)),
            ),
    ;
}

impl<T> Board2D<T> for Vec<Vec<T>> {
    open spec fn cells(&self) -> Seq<Seq<T>> {
        crate::board::grid::nested_cells(*self)
    }

    fn iter_row(&self, row: usize) -> (r: &Vec<T>) {
        &self[row]
    }

    fn iter_column(&self, col: usize) -> (r: Board2DColumnIterator<'_, T>) {
        Board2DColumnIterator { board: self, col, row: 0 }
    }

    fn get(&self, row: usize, col: usize) -> (r: &T) {
        &self[row][col]
    }

    fn get_mut(&mut self, row: usize, col: usize) -> (r: &mut T) {
        &mut self[row][col]
    }
}

/// Walks one column of a board cell by cell, from the top row down.
pub struct Board2DColumnIterator<'a, T> {
    board: &'a Vec<Vec<T>>,
    col: usize,
    row: usize,
}

impl<'a, T> Board2DColumnIterator<'a, T> {
    /// The contents of the board this iterator walks.
    pub closed spec fn cells(&self) -> Seq<Seq<T>> {
        crate::board::grid::nested_cells(*self.board)
    }

    /// The fixed column being walked.
    pub closed spec fn col(&self) -> int {
        self.col as int
    }

    /// The row the next step looks up.
    pub closed spec fn cur_row(&self) -> int {
        self.row as int
    }

    /// The cell at the cursor, advancing one row; `None` when the cursor's
    /// row is exhausted or does not reach the column.
    pub fn next(&mut self) -> (r: Option<&'a T>)
        ensures
            final(self).cells() == old(self).cells(),
            final(self).col() == old(self).col(),
            old(self).cur_row() < old(self).cells().len() ==> final(self).cur_row() == old(
                self,
            ).cur_row() + 1,
            old(self).cur_row() >= old(self).cells().len() ==> final(self).cur_row() == old(
                self,
            ).cur_row(),
            r is Some <==> (old(self).cur_row() < old(self).cells().len() && old(self).col() < old(
                self,
            ).cells()[old(self).cur_row()].len()),
            r matches Some(v) ==> *v == old(self).cells()[old(self).cur_row()][old(self).col()],
    {
        if self.row >= self.board.len() {
            return None;
        }
        let row = &self.board[self.row];
        let r = if self.col < row.len() {
            Some(&row[self.col])
        } else {
            None
        };
        self.row = self.row + 1;
        r
    }
}

} // verus!
