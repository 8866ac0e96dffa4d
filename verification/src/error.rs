use vstd::prelude::*;

verus! {

/// Mathematical model of an [`Error`]: payload strings as character
/// sequences, counts as unbounded integers.
pub enum ErrorV {
    /// The SQL text is not valid under the dialect.
    Parse(Seq<char>),
    /// Zero or more than one statement was supplied; carries the count.
    MultiStatement(int),
    /// The statement is not a query; names the statement form.
    UnsupportedStatement(Seq<char>),
    /// The `FROM` clause is not a single plain table reference.
    UnsupportedSource(Seq<char>),
    /// A clause or expression form outside the supported subset.
    UnsupportedClause(Seq<char>),
    /// Retrieval of the named source failed.
    Source(Seq<char>),
    /// Raw content could not be parsed into a table.
    Load(Seq<char>),
    /// A referenced column is missing or an expression failed to evaluate.
    Evaluation(Seq<char>),
    /// The result table could not be rendered to CSV text.
    Serialization(Seq<char>),
}

/// Why a query failed. Each variant names the offending construct,
/// clause, column or content.
#[derive(Debug)]
pub enum Error {
    Parse(String),
    MultiStatement(usize),
    UnsupportedStatement(String),
    UnsupportedSource(String),
    UnsupportedClause(String),
    Source(String),
    Load(String),
    Evaluation(String),
    Serialization(String),
}

impl View for Error {
    type V = ErrorV;

    open spec fn view(&self) -> ErrorV {
        match self {
            Error::Parse(s) => ErrorV::Parse(s@),
            Error::MultiStatement(n) => ErrorV::MultiStatement(*n as int),
            Error::UnsupportedStatement(s) => ErrorV::UnsupportedStatement(s@),
            Error::UnsupportedSource(s) => ErrorV::UnsupportedSource(s@),
            Error::UnsupportedClause(s) => ErrorV::UnsupportedClause(s@),
            Error::Source(s) => ErrorV::Source(s@),
            Error::Load(s) => ErrorV::Load(s@),
            Error::Evaluation(s) => ErrorV::Evaluation(s@),
            Error::Serialization(s) => ErrorV::Serialization(s@),
        }
    }
}

impl Error {
    /// The detail string carried by the error: the name of the offending
    /// construct, clause, column or content.
    pub fn detail(&self) -> (r: &str)
        ensures
            match self@ {
                ErrorV::Parse(s) => r@ == s,
                ErrorV::MultiStatement(_) => r@ == Seq::<char>::empty(),
                ErrorV::UnsupportedStatement(s) => r@ == s,
                ErrorV::UnsupportedSource(s) => r@ == s,
                ErrorV::UnsupportedClause(s) => r@ == s,
                ErrorV::Source(s) => r@ == s,
                ErrorV::Load(s) => r@ == s,
                ErrorV::Evaluation(s) => r@ == s,
                ErrorV::Serialization(s) => r@ == s,
            },
    {
        match self {
            Error::Parse(s) => s.as_str(),
            Error::MultiStatement(_) => {
                proof {
                    reveal_strlit("");
                    assert(""@ =~= Seq::<char>::empty());
                }
                ""
            },
            Error::UnsupportedStatement(s) => s.as_str(),
            Error::UnsupportedSource(s) => s.as_str(),
            Error::UnsupportedClause(s) => s.as_str(),
            Error::Source(s) => s.as_str(),
            Error::Load(s) => s.as_str(),
            Error::Evaluation(s) => s.as_str(),
            Error::Serialization(s) => s.as_str(),
        }
    }
}

} // verus!
