//! The metadata document of a table, and the request that asks for it.

use vstd::prelude::*;

verus! {

/// Whom to ask about a table.
#[derive(Clone, Debug)]
pub struct Contact {
    pub mail: String,
    pub name: String,
    pub phone: String,
}

/// Where a table is documented.
#[derive(Clone, Debug)]
pub struct Documentation {
    pub id: String,
    pub url: String,
}

/// One value that a variable can take: its id on the wire and its display
/// text.
#[derive(Clone, Debug)]
pub struct Value {
    pub id: String,
    pub text: String,
}

/// One variable of a table.
#[derive(Clone, Debug)]
pub struct Variable {
    pub elimination: bool,
    pub id: String,
    pub text: String,
    pub time: bool,
    pub values: Vec<Value>,
}

/// A note on a table.
#[derive(Clone, Debug)]
pub struct Footnote {
    pub text: String,
    pub mandatory: bool,
}

/// The metadata of a table. `updated` is the instant of the last update, in
/// seconds since the Unix epoch.
#[derive(Clone, Debug)]
pub struct Metadata {
    pub active: bool,
    pub contacts: Vec<Contact>,
    pub description: String,
    pub documentation: Documentation,
    pub footnote: Option<Footnote>,
    pub id: String,
    pub suppressed_data_value: String,
    pub text: String,
    pub unit: String,
    pub updated: i64,
    pub variables: Vec<Variable>,
}

/// The request for the metadata of a table.
#[derive(Clone, Debug)]
pub struct MetadataRequest<'a> {
    pub table: &'a str,
}

} // verus!
