//! Labelled, calendar-indexed integer series decoded from dense,
//! dimension-described statistical datasets, with an algebra of transforms
//! over them: accumulation, slicing, bucketed reduction, merging,
//! normalisation and linear goal projection.
//!
//! Every executable function carries a contract over a mathematical view of
//! its data. The persistent collections and the calendar arithmetic come from
//! outside crates; what is assumed of them is stated in `collections` and
//! `calendar`.

pub mod calendar;
pub mod collections;
pub mod error;
pub mod group;
pub mod listing;
pub mod models;
pub mod points;
pub mod radix;
pub mod series;
pub mod table;

pub use crate::calendar::Date;
pub use crate::error::SeriesError;
pub use crate::group::TimeSeriesGroup;
pub use crate::points::DataPoint;
pub use crate::series::TimeSeries;
pub use crate::table::{Table, TableFetcher};
