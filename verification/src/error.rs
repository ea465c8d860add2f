use vstd::prelude::*;

verus! {

/// Why decoding a dataset or transforming a group of series failed.
#[derive(Clone, Copy, Debug, PartialEq, Eq, Structural)]
pub enum SeriesError {
    /// The flat value array does not have one entry per label combination.
    ShapeMismatch,
    /// A time label is in neither the year form nor the year-month form.
    DateFormat,
    /// No series of the group carries the tag asked for.
    MissingReference,
    /// The target date of a projection is not after the group's final date.
    DegenerateGoal,
    /// A series without entries was asked for its last date.
    EmptySeries,
}

impl SeriesError {
    /// A short description of the failure, for display.
    pub fn message(&self) -> (text: String)
        ensures
            text@ == self.message_text(),
    {
        match self {
            SeriesError::ShapeMismatch => "value array does not match the dimension sizes".to_owned(),
            SeriesError::DateFormat => "time label is neither a year nor a year and month".to_owned(),
            SeriesError::MissingReference => "no series carries the reference tag".to_owned(),
            SeriesError::DegenerateGoal => "target date is not after the final date".to_owned(),
            SeriesError::EmptySeries => "series has no entries".to_owned(),
        }
    }

    /// The text that `message` returns.
    pub open spec fn message_text(&self) -> Seq<char> {
        match self {
            SeriesError::ShapeMismatch => "value array does not match the dimension sizes"@,
            SeriesError::DateFormat => "time label is neither a year nor a year and month"@,
            SeriesError::MissingReference => "no series carries the reference tag"@,
            SeriesError::DegenerateGoal => "target date is not after the final date"@,
            SeriesError::EmptySeries => "series has no entries"@,
        }
    }
}

} // verus!
