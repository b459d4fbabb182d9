use vstd::prelude::*;

verus! {

/// An immutable position descriptor: a page, a cell index within that page,
/// and a flag that is true exactly when the position lies past the last cell
/// of the store's last page and that page is full.  Cursors are produced by
/// search operations and consumed by insertion; they are never mutated.
#[derive(Clone, Copy, Debug, PartialEq, Eq, Structural)]
pub struct Cursor {
    pub page_num: usize,
    pub cell_num: usize,
    pub end_of_table: bool,
}

impl Cursor {
    pub fn new(page_num: usize, cell_num: usize, end_of_table: bool) -> (c: Cursor)
        ensures
            c.page_num == page_num,
            c.cell_num == cell_num,
            c.end_of_table == end_of_table,
    {
        Cursor { page_num, cell_num, end_of_table }
    }

    pub fn page_num(&self) -> (n: usize)
        ensures
            n == self.page_num,
    {
        self.page_num
    }

    pub fn cell_num(&self) -> (n: usize)
        ensures
            n == self.cell_num,
    {
        self.cell_num
    }

    pub fn end_of_table(&self) -> (b: bool)
        ensures
            b == self.end_of_table,
    {
        self.end_of_table
    }
}

} // verus!
