use vstd::prelude::*;

verus! {

/// One fixed-size record stored in a leaf cell.  The tree layer treats the
/// payload as opaque; only `id` matters to it, as the record's primary key.
#[derive(Clone, Copy, Debug, PartialEq, Eq, Structural)]
pub struct Row {
    /// Primary identifier; the B-tree key of this record.
    pub id: usize,
    /// Opaque fixed-size payload.
    pub data: u64,
}

impl Row {
    pub fn new(id: usize, data: u64) -> (r: Row)
        ensures
            r.id == id,
            r.data == data,
    {
        Row { id, data }
    }
}

} // verus!
