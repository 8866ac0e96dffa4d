//! A declarative query front-end over an in-memory tabular engine: one SQL
//! `SELECT` statement is translated into a structured query descriptor and
//! evaluated against a table loaded from CSV text, in a fixed pipeline order
//! (filter, order, paginate, project).
use vstd::prelude::*;

pub mod convert;
pub mod csv;
pub mod error;
pub mod expr;
pub mod loader;
pub mod pipeline;
pub mod sort;
pub mod table;
pub mod value;

use crate::convert::{Sql, SqlV};
use crate::csv::{spec_parse_csv, spec_render_csv, table_renderable};
use crate::error::{Error, ErrorV};
use crate::pipeline::{execute, spec_execute};
use crate::table::{Table, TableV};

verus! {

/// The result of a query: exclusive ownership of one table, with
/// transformation access and terminal serialization to CSV text.
#[derive(Debug)]
pub struct DataSet(pub Table);

impl View for DataSet {
    type V = TableV;

    open spec fn view(&self) -> TableV {
        self.0@
    }
}

impl DataSet {
    /// Serialize the current table state to CSV text, header row
    /// included, in the table's column order.
    pub fn to_csv(&mut self) -> (r: Result<String, Error>)
        ensures
            *final(self) == *old(self),
            match r {
                Ok(s) => table_renderable(old(self)@) && s@ == spec_render_csv(old(self)@),
                Err(e) => !table_renderable(old(self)@) && e@ is Serialization,
            },
    {
        crate::csv::render_csv(&self.0)
    }
}

/// Evaluation of a descriptor against raw source content: load the
/// content into a table, then run the pipeline over it.
pub open spec fn spec_run(q: SqlV, raw: Seq<char>) -> Result<TableV, ErrorV> {
    match spec_parse_csv(raw) {
        Err(e) => Err(e),
        Ok(t) => spec_execute(q, t),
    }
}

/// Load retrieved source content and apply the query descriptor to it.
pub fn run(sql: &Sql, raw: String) -> (r: Result<DataSet, Error>)
    ensures
        match r {
            Ok(ds) => spec_run(sql@, raw@) == Ok::<TableV, ErrorV>(ds@),
            Err(e) => spec_run(sql@, raw@) == Err::<TableV, ErrorV>(e@),
        },
{
    let ds = match crate::loader::detect_content(raw).load() {
        Err(e) => {
            return Err(e);
        },
        Ok(ds) => ds,
    };
    match execute(sql, ds.0) {
        Err(e) => Err(e),
        Ok(t) => Ok(DataSet(t)),
    }
}

/// Law: round trip. Loading a table from CSV text, selecting all columns
/// with no filter, sort or pagination, and serializing the result
/// reproduces the original data: over the rendered text of any
/// renderable, load-stable table, the select-all query returns exactly
/// that table, so its serialization is that same text again.
pub proof fn lemma_csv_round_trip(q: SqlV, t: TableV)
    requires
        crate::pipeline::select_all(q),
        crate::table::table_wf(t),
        t.names.len() > 0,
        table_renderable(t),
        crate::csv::load_stable(t),
    ensures
        spec_run(q, spec_render_csv(t)) == Ok::<TableV, ErrorV>(t),
{
    crate::csv::lemma_parse_render(t);
    crate::pipeline::lemma_select_all_identity(q, t);
}

} // verus!
