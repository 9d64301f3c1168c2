//! The ways in which planning can fail.

use vstd::prelude::*;

verus! {

/// The kind of record that a line of input was meant to be.
#[derive(Debug, Clone, Copy, PartialEq, Eq, Structural)]
pub enum Record {
    Station,
    Route,
    Package,
    Train,
}

#[derive(Debug, PartialEq, Eq)]
pub enum Error {
    /// A record with the wrong number of fields, or with a number that is
    /// no decimal integer in range.
    InputFormat(Record),
    /// A route, package or train names a station that is not in the
    /// station list.
    UnknownStation(String),
    /// No sequence of moves delivers every package.
    Infeasible,
}

/// What an error is in contracts.
pub enum ErrorView {
    InputFormat(Record),
    UnknownStation(Seq<char>),
    Infeasible,
}

impl View for Error {
    type V = ErrorView;

    open spec fn view(&self) -> ErrorView {
        match self {
            Error::InputFormat(r) => ErrorView::InputFormat(*r),
            Error::UnknownStation(n) => ErrorView::UnknownStation(n@),
            Error::Infeasible => ErrorView::Infeasible,
        }
    }
}

/// The fields that a record of the given kind is made of.
pub open spec fn template(record: Record) -> Seq<char> {
    match record {
        Record::Station => "[NAME]"@,
        Record::Route => "[NAME],[STATION1],[STATION2],[TIME]"@,
        Record::Package => "[NAME],[WEIGHT],[START],[DESTINATION]"@,
        Record::Train => "[NAME],[CAPACITY],[INITIAL_STATION_NAME]"@,
    }
}

/// The text that an error is reported with.
pub open spec fn message_of(e: ErrorView) -> Seq<char> {
    match e {
        ErrorView::InputFormat(r) => template(r),
        ErrorView::UnknownStation(n) => "station not found: "@ + n,
        ErrorView::Infeasible => "no plan delivers every package"@,
    }
}

impl Error {
    /// The text to show to the operator.
    pub fn message(&self) -> (r: String)
        ensures
            r@ == message_of(self@),
    {
        match self {
            Error::InputFormat(Record::Station) => String::from_str("[NAME]"),
            Error::InputFormat(Record::Route) => String::from_str(
                "[NAME],[STATION1],[STATION2],[TIME]",
            ),
            Error::InputFormat(Record::Package) => String::from_str(
                "[NAME],[WEIGHT],[START],[DESTINATION]",
            ),
            Error::InputFormat(Record::Train) => String::from_str(
                "[NAME],[CAPACITY],[INITIAL_STATION_NAME]",
            ),
            Error::UnknownStation(n) => String::from_str("station not found: ").concat(n.as_str()),
            Error::Infeasible => String::from_str("no plan delivers every package"),
        }
    }
}

} // verus!
