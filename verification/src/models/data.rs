//! The data document: a flat array of values and the dimensions that
//! address it; and the request that asks for it.

use vstd::prelude::*;

verus! {

/// The values that a dimension can take: for each value id its position in
/// the layout of the array, and its display label.
#[derive(Clone, Debug)]
pub struct Category {
    pub index: Vec<(String, u64)>,
    pub label: Vec<(String, String)>,
}

/// The unit in which a measured quantity is given.
#[derive(Clone, Debug)]
pub struct Unit {
    pub base: String,
    pub decimals: u64,
}

/// The values of the dimension of measured quantities, with their units.
#[derive(Clone, Debug)]
pub struct CategoryWithUnit {
    pub index: Vec<(String, u64)>,
    pub label: Vec<(String, String)>,
    pub unit: Vec<(String, Unit)>,
}

/// One axis of classification.
#[derive(Clone, Debug)]
pub struct Dimension {
    pub label: String,
    pub category: Category,
}

/// The dimension of measured quantities.
#[derive(Clone, Debug)]
pub struct ContentsCode {
    pub label: String,
    pub category: CategoryWithUnit,
}

/// Which dimensions distinguish measured quantities, and which one is time.
#[derive(Clone, Debug)]
pub struct Role {
    pub metric: Vec<String>,
    pub time: Vec<String>,
}

/// The dimensions of a dataset: their ids in the order of the array layout,
/// and for each id its dimension.
#[derive(Clone, Debug)]
pub struct Dimensions {
    pub dimension: Vec<(String, Dimension)>,
    pub contents_code: ContentsCode,
    pub id: Vec<String>,
    pub size: Vec<u64>,
    pub role: Role,
}

/// The entries of the dimensions document that every dataset has.
#[derive(Clone, Debug)]
pub struct DimensionsStaticKeys {
    pub id: Vec<String>,
    pub size: Vec<u64>,
    pub role: Role,
}

/// A dataset: its dimensions and its values, one for each combination of
/// labels, or none where the service has no number.
#[derive(Clone, Debug)]
pub struct Dataset {
    pub dimension: Dimensions,
    pub label: String,
    pub source: String,
    pub updated: String,
    pub value: Vec<Option<i64>>,
}

/// The data document.
#[derive(Clone, Debug)]
pub struct DatasetContainer {
    pub dataset: Dataset,
}

/// The values asked for of one variable.
#[derive(Clone, Debug)]
pub struct VariableRequest<'a> {
    pub code: &'a str,
    pub values: Vec<&'a str>,
}

/// The request for the data of a table.
#[derive(Clone, Debug)]
pub struct DataRequest<'a> {
    pub table: &'a str,
    pub format: String,
    pub variables: Vec<VariableRequest<'a>>,
}

} // verus!
