use vstd::prelude::*;

use crate::csv::{parse_csv, spec_parse_csv};
use crate::error::{Error, ErrorV};
use crate::table::TableV;
use crate::DataSet;

verus! {

/// Loading of raw content into a dataset, one implementation per format.
pub trait Load {
    type Error;

    fn load(self) -> Result<DataSet, Self::Error>;
}

/// Raw CSV content, ready to load.
#[derive(Debug)]
pub struct CsvLoader(pub(crate) String);

impl View for CsvLoader {
    type V = Seq<char>;

    closed spec fn view(&self) -> Seq<char> {
        self.0@
    }
}

/// Raw content with its detected format.
#[derive(Debug)]
pub enum Loader {
    Csv(CsvLoader),
}

impl View for Loader {
    type V = Seq<char>;

    open spec fn view(&self) -> Seq<char> {
        match self {
            Loader::Csv(c) => c@,
        }
    }
}

impl CsvLoader {
    /// Parse the held CSV text into a dataset.
    pub fn load_csv(self) -> (r: Result<DataSet, Error>)
        ensures
            match r {
                Ok(ds) => spec_parse_csv(self@) == Ok::<TableV, ErrorV>(ds@) && ds.0.wf(),
                Err(e) => spec_parse_csv(self@) == Err::<TableV, ErrorV>(e@),
            },
    {
        match parse_csv(self.0.as_str()) {
            Ok(t) => Ok(DataSet(t)),
            Err(e) => Err(e),
        }
    }
}

impl Load for CsvLoader {
    type Error = Error;

    fn load(self) -> Result<DataSet, Error> {
        self.load_csv()
    }
}

impl Loader {
    /// Load the held content into a dataset, by its detected format.
    pub fn load(self) -> (r: Result<DataSet, Error>)
        ensures
            match r {
                Ok(ds) => spec_parse_csv(self@) == Ok::<TableV, ErrorV>(ds@) && ds.0.wf(),
                Err(e) => spec_parse_csv(self@) == Err::<TableV, ErrorV>(e@),
            },
    {
        match self {
            Loader::Csv(csv) => csv.load_csv(),
        }
    }
}

/// Detect the format of raw content. CSV is the one format in scope, so
/// every input is handed to the CSV loader, its text unchanged.
pub fn detect_content(data: String) -> (r: Loader)
    ensures
        r@ == data@,
{
    Loader::Csv(CsvLoader(data))
}

} // verus!
