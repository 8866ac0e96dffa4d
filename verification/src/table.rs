use vstd::prelude::*;

use crate::value::{Value, ValueV};

verus! {

/// Mathematical model of a [`Table`]: named columns over positionally
/// aligned rows.
pub struct TableV {
    pub names: Seq<Seq<char>>,
    pub rows: Seq<Seq<ValueV>>,
}

/// Well-formedness: every row has exactly one cell per column.
pub open spec fn table_wf(t: TableV) -> bool {
    forall|i: int| 0 <= i < t.rows.len() ==> #[trigger] t.rows[i].len() == t.names.len()
}

/// An in-memory table: an ordered collection of named columns, rows
/// positionally aligned across them.
#[derive(Debug)]
pub struct Table {
    pub names: Vec<String>,
    pub rows: Vec<Vec<Value>>,
}

impl View for Table {
    type V = TableV;

    open spec fn view(&self) -> TableV {
        TableV { names: self.names.deep_view(), rows: self.rows.deep_view() }
    }
}

impl Table {
    /// Every row of the table has exactly one cell per column.
    pub open spec fn wf(&self) -> bool {
        table_wf(self@)
    }

    /// Number of rows.
    pub fn height(&self) -> (r: usize)
        ensures
            r == self@.rows.len(),
    {
        self.rows.len()
    }

    /// Number of columns.
    pub fn width(&self) -> (r: usize)
        ensures
            r == self@.names.len(),
    {
        self.names.len()
    }
}

} // verus!
