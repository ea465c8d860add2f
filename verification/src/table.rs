//! A table of the statistics service: what to ask it for, and how to read
//! what it answers. Sending the request and receiving the answer is left to
//! the caller.

use vstd::prelude::*;

use crate::error::SeriesError;
use crate::group::{GroupView, TimeSeriesGroup};
use crate::models::data::{DataRequest, Dataset, VariableRequest};
use crate::models::metadata::{Metadata, Value, Variable};
use crate::points::{
    addressable, cross_axes, decoded, gathered, gathering_fits, has_time, is_gathering, sizes,
    zero_fill, zero_filled, DataPoint,
};
use crate::radix::cells;

verus! {

/// The texts chosen for the variable `key` by the first entry that
/// `selector` has for it from index `from` on, if it has any.
pub open spec fn first_choice(selector: Seq<(String, Vec<String>)>, key: Seq<char>, from: int) -> Option<
    Seq<String>,
>
    decreases selector.len() - from,
{
    if from < 0 || from >= selector.len() {
        None
    } else if selector[from].0@ == key {
        Some(selector[from].1@)
    } else {
        first_choice(selector, key, from + 1)
    }
}

/// What a selector chooses: for each variable with an entry, the display
/// texts of the values asked for.
pub open spec fn choices(selector: Seq<(String, Vec<String>)>) -> Map<Seq<char>, Seq<Seq<char>>> {
    Map::new(
        |key: Seq<char>| first_choice(selector, key, 0).is_some(),
        |key: Seq<char>|
            match first_choice(selector, key, 0) {
                Some(chosen) => Seq::new(chosen.len(), |i: int| chosen[i]@),
                None => Seq::empty(),
            },
    )
}

/// What a fetcher is: the id of its table, and what has been selected.
pub struct FetcherView {
    pub table: Seq<char>,
    pub selector: Map<Seq<char>, Seq<Seq<char>>>,
}

/// The id of a table with a selection of values of its variables.
pub struct TableFetcher {
    table: String,
    selector: Vec<(String, Vec<String>)>,
}

impl View for TableFetcher {
    type V = FetcherView;

    closed spec fn view(&self) -> FetcherView {
        FetcherView { table: self.table@, selector: choices(self.selector@) }
    }
}

/// The texts of a sequence of borrowed strings.
pub open spec fn borrowed_texts(values: Seq<&str>) -> Seq<Seq<char>> {
    Seq::new(values.len(), |i: int| values[i]@)
}

/// The selection `selector` with `values` added to what it has for `key`.
pub open spec fn selected(
    selector: Map<Seq<char>, Seq<Seq<char>>>,
    key: Seq<char>,
    values: Seq<Seq<char>>,
) -> Map<Seq<char>, Seq<Seq<char>>> {
    selector.insert(
        key,
        if selector.contains_key(key) {
            selector[key] + values
        } else {
            values
        },
    )
}

/// An entry before index `at` that is not for `key` does not change what
/// the selector chooses for `key` from `at` on; stated for the search from
/// any index up to `at`.
proof fn lemma_first_choice_skip(selector: Seq<(String, Vec<String>)>, key: Seq<char>, from: int, at: int)
    requires
        0 <= from <= at <= selector.len(),
        forall|i: int| from <= i < at ==> (#[trigger] selector[i]).0@ != key,
    ensures
        first_choice(selector, key, from) == first_choice(selector, key, at),
    decreases at - from,
{
    if from < at {
        lemma_first_choice_skip(selector, key, from + 1, at);
    }
}

/// Two selectors that differ at index `at` only choose the same for every
/// key but the keys of their entries at `at`.
proof fn lemma_first_choice_elsewhere(
    a: Seq<(String, Vec<String>)>,
    b: Seq<(String, Vec<String>)>,
    key: Seq<char>,
    at: int,
    from: int,
)
    requires
        a.len() == b.len(),
        0 <= at < a.len(),
        0 <= from <= a.len(),
        forall|i: int| 0 <= i < a.len() && i != at ==> #[trigger] a[i] == b[i],
        a[at].0@ == b[at].0@,
        a[at].0@ != key,
    ensures
        first_choice(a, key, from) == first_choice(b, key, from),
    decreases a.len() - from,
{
    if from < a.len() {
        lemma_first_choice_elsewhere(a, b, key, at, from + 1);
        if from != at {
            assert(a[from] == b[from]);
        }
    }
}

/// A selector with one more entry at its end chooses as before for every
/// key that it had an entry for, and for every key but that of the new
/// entry.
proof fn lemma_first_choice_pushed(
    a: Seq<(String, Vec<String>)>,
    entry: (String, Vec<String>),
    key: Seq<char>,
    from: int,
)
    requires
        0 <= from <= a.len(),
    ensures
        first_choice(a.push(entry), key, from) == (match first_choice(a, key, from) {
            Some(chosen) => Some(chosen),
            None => if entry.0@ == key {
                Some(entry.1@)
            } else {
                None
            },
        }),
    decreases a.len() - from,
{
    let b = a.push(entry);
    if from < a.len() {
        assert(b[from] == a[from]);
        lemma_first_choice_pushed(a, entry, key, from + 1);
    } else {
        assert(b[from] == entry);
        assert(first_choice(b, key, from + 1).is_none());
    }
}

impl TableFetcher {
    /// A fetcher for the table `table`, with nothing selected.
    pub fn new(table: &str) -> (r: TableFetcher)
        ensures
            r@.table == table@,
            r@.selector == Map::<Seq<char>, Seq<Seq<char>>>::empty(),
    {
        let fetcher = TableFetcher { table: table.to_owned(), selector: Vec::new() };
        proof {
            assert(choices(fetcher.selector@) =~= Map::<Seq<char>, Seq<Seq<char>>>::empty());
        }
        fetcher
    }

    /// The fetcher with `values` added to what is selected for the variable
    /// `key`. The values are given by their display texts.
    pub fn select(self, key: &str, values: &[&str]) -> (r: TableFetcher)
        ensures
            r@.table == self@.table,
            r@.selector == selected(self@.selector, key@, borrowed_texts(values@)),
    {
        let ghost before = self.selector@;
        let ghost added = borrowed_texts(values@);
        let mut fetcher = self;
        let owned_key = key.to_owned();
        let mut at: usize = 0;
        while at < fetcher.selector.len() && fetcher.selector[at].0 != owned_key
            invariant
                0 <= at <= fetcher.selector@.len(),
                fetcher.selector@ == before,
                fetcher.table == self.table,
                owned_key@ == key@,
                forall|i: int| 0 <= i < at ==> (#[trigger] before[i]).0@ != key@,
            decreases fetcher.selector@.len() - at,
        {
            at = at + 1;
        }
        proof {
            lemma_first_choice_skip(before, key@, 0, at as int);
        }
        if at == fetcher.selector.len() {
            let mut fresh: Vec<String> = Vec::new();
            let mut i: usize = 0;
            while i < values.len()
                invariant
                    0 <= i <= values@.len(),
                    fresh@.len() == i,
                    forall|k: int| 0 <= k < i ==> (#[trigger] fresh@[k])@ == values@[k]@,
                decreases values@.len() - i,
            {
                let value: &str = values[i];
                fresh.push(value.to_owned());
                i = i + 1;
            }
            let ghost entry = (owned_key, fresh);
            fetcher.selector.push((owned_key, fresh));
            proof {
                let goal = selected(choices(before), key@, added);
                assert forall|k: Seq<char>| #[trigger]
                    choices(fetcher.selector@).contains_key(k) == goal.contains_key(k)
                    && (goal.contains_key(k) ==> choices(fetcher.selector@)[k] == goal[k]) by {
                    lemma_first_choice_pushed(before, entry, k, 0);
                    if k == key@ {
                        assert(Seq::new(fresh@.len(), |i: int| fresh@[i]@) =~= added);
                    }
                }
                assert(choices(fetcher.selector@) =~= goal);
            }
        } else {
            let mut grown: Vec<String> = Vec::new();
            let mut i: usize = 0;
            while i < fetcher.selector[at].1.len()
                invariant
                    0 <= at < fetcher.selector@.len(),
                    fetcher.selector@ == before,
                    0 <= i <= before[at as int].1@.len(),
                    grown@.len() == i,
                    forall|k: int|
                        0 <= k < i ==> (#[trigger] grown@[k])@ == before[at as int].1@[k]@,
                decreases before[at as int].1@.len() - i,
            {
                grown.push(fetcher.selector[at].1[i].clone());
                i = i + 1;
            }
            let held: usize = grown.len();
            let mut n: usize = 0;
            while n < values.len()
                invariant
                    0 <= n <= values@.len(),
                    0 <= at < before.len(),
                    held == before[at as int].1@.len(),
                    grown@.len() == held + n,
                    forall|k: int|
                        0 <= k < held ==> (#[trigger] grown@[k])@ == before[at as int].1@[k]@,
                    forall|k: int| 0 <= k < n ==> (#[trigger] grown@[held + k])@ == values@[k]@,
                decreases values@.len() - n,
            {
                let value: &str = values[n];
                grown.push(value.to_owned());
                n = n + 1;
            }
            let ghost entry = (owned_key, grown);
            fetcher.selector.set(at, (owned_key, grown));
            proof {
                let after = fetcher.selector@;
                let goal = selected(choices(before), key@, added);
                assert(after[at as int] == entry);
                lemma_first_choice_skip(after, key@, 0, at as int);
                assert forall|k: Seq<char>| #[trigger]
                    choices(after).contains_key(k) == goal.contains_key(k) && (goal.contains_key(k)
                        ==> choices(after)[k] == goal[k]) by {
                    if k == key@ {
                        let old_texts = Seq::new(
                            before[at as int].1@.len(),
                            |i: int| before[at as int].1@[i]@,
                        );
                        let new_texts = Seq::new(grown@.len(), |i: int| grown@[i]@);
                        assert forall|i: int| 0 <= i < new_texts.len() implies new_texts[i] == (
                        old_texts + added)[i] by {
                            if i >= held {
                                assert(grown@[held + (i - held)]@ == values@[i - held]@);
                            }
                        }
                        assert(new_texts =~= old_texts + added);
                    } else {
                        lemma_first_choice_elsewhere(before, after, k, at as int, 0);
                    }
                }
                assert(choices(after) =~= goal);
            }
        }
        fetcher
    }

    /// The id of the table.
    pub fn table(&self) -> (r: &str)
        ensures
            r@ == self@.table,
    {
        self.table.as_str()
    }

    /// What has been selected: for each variable with a selection, its id
    /// and the display texts of the values selected.
    pub fn selector(&self) -> (r: &Vec<(String, Vec<String>)>)
        ensures
            choices(r@) == self@.selector,
    {
        &self.selector
    }
}

/// The wire id of the first value with display text `text` from index
/// `from` on, if there is one.
pub open spec fn first_value_id(values: Seq<Value>, text: Seq<char>, from: int) -> Option<Seq<char>>
    decreases values.len() - from,
{
    if from < 0 || from >= values.len() {
        None
    } else if values[from].text@ == text {
        Some(values[from].id@)
    } else {
        first_value_id(values, text, from + 1)
    }
}

/// The first variable with id `id` from index `from` on, if there is one.
pub open spec fn first_variable(variables: Seq<Variable>, id: Seq<char>, from: int) -> Option<Variable>
    decreases variables.len() - from,
{
    if from < 0 || from >= variables.len() {
        None
    } else if variables[from].id@ == id {
        Some(variables[from])
    } else {
        first_variable(variables, id, from + 1)
    }
}

/// The id of the first variable from index `from` on that is marked as
/// time, if there is one.
pub open spec fn time_variable(variables: Seq<Variable>, from: int) -> Option<Seq<char>>
    decreases variables.len() - from,
{
    if from < 0 || from >= variables.len() {
        None
    } else if variables[from].time {
        Some(variables[from].id@)
    } else {
        time_variable(variables, from + 1)
    }
}

/// Whether each of `texts` is the display text of a value of `variable`.
pub open spec fn known_texts(variable: Variable, texts: Seq<String>) -> bool {
    forall|i: int|
        0 <= i < texts.len() ==> first_value_id(variable.values@, (#[trigger] texts[i])@, 0).is_some()
}

/// The wire ids of the values of `variable` with the display texts `texts`.
pub open spec fn wire_ids(variable: Variable, texts: Seq<String>) -> Seq<Seq<char>> {
    Seq::new(
        texts.len(),
        |i: int|
            match first_value_id(variable.values@, texts[i]@, 0) {
                Some(id) => id,
                None => Seq::empty(),
            },
    )
}

/// Whether every entry of `selector` names a variable and display texts of
/// values of that variable.
pub open spec fn valid_selector(variables: Seq<Variable>, selector: Seq<(String, Vec<String>)>) -> bool {
    forall|e: int|
        0 <= e < selector.len() ==> (match first_variable(
            variables,
            (#[trigger] selector[e]).0@,
            0,
        ) {
            Some(variable) => known_texts(variable, selector[e].1@),
            None => false,
        })
}

/// The values to ask for of `variable`: the wire ids of what `selector`
/// chooses for it, or the wildcard where it chooses nothing.
pub open spec fn wanted(variable: Variable, selector: Seq<(String, Vec<String>)>) -> Seq<Seq<char>> {
    match first_choice(selector, variable.id@, 0) {
        Some(texts) => wire_ids(variable, texts),
        None => seq!["*"@],
    }
}

/// Whether `request` asks for the data of `table`, with one entry for each
/// of `variables` in order, each with the values that `selector` wants.
pub open spec fn asks(
    request: DataRequest,
    table: Seq<char>,
    variables: Seq<Variable>,
    selector: Seq<(String, Vec<String>)>,
) -> bool {
    &&& request.table@ == table
    &&& request.format@ == "JSONSTAT"@
    &&& request.variables@.len() == variables.len()
    &&& forall|j: int|
        0 <= j < variables.len() ==> (#[trigger] request.variables@[j]).code@ == variables[j].id@
            && borrowed_texts(request.variables@[j].values@) == wanted(variables[j], selector)
}

/// The wire id of the first value with display text `text`.
pub fn find_value<'a>(values: &'a Vec<Value>, text: &String) -> (r: Option<&'a str>)
    ensures
        r.is_some() == first_value_id(values@, text@, 0).is_some(),
        r matches Some(id) ==> first_value_id(values@, text@, 0) == Some(id@),
{
    let mut i: usize = 0;
    while i < values.len()
        invariant
            0 <= i <= values@.len(),
            first_value_id(values@, text@, 0) == first_value_id(values@, text@, i as int),
        decreases values@.len() - i,
    {
        if values[i].text == *text {
            return Some(values[i].id.as_str());
        }
        i = i + 1;
    }
    None
}

/// The first variable with id `id`.
pub fn find_variable<'a>(variables: &'a Vec<Variable>, id: &String) -> (r: Option<&'a Variable>)
    ensures
        r.is_some() == first_variable(variables@, id@, 0).is_some(),
        r matches Some(variable) ==> first_variable(variables@, id@, 0) == Some(*variable),
{
    let mut i: usize = 0;
    while i < variables.len()
        invariant
            0 <= i <= variables@.len(),
            first_variable(variables@, id@, 0) == first_variable(variables@, id@, i as int),
        decreases variables@.len() - i,
    {
        if variables[i].id == *id {
            return Some(&variables[i]);
        }
        i = i + 1;
    }
    None
}

/// The texts that the first entry of `selector` for `key` chooses.
pub fn find_choice<'a>(selector: &'a Vec<(String, Vec<String>)>, key: &String) -> (r: Option<
    &'a Vec<String>,
>)
    ensures
        r.is_some() == first_choice(selector@, key@, 0).is_some(),
        r matches Some(texts) ==> first_choice(selector@, key@, 0) == Some(texts@),
{
    let mut i: usize = 0;
    while i < selector.len()
        invariant
            0 <= i <= selector@.len(),
            first_choice(selector@, key@, 0) == first_choice(selector@, key@, i as int),
        decreases selector@.len() - i,
    {
        if selector[i].0 == *key {
            return Some(&selector[i].1);
        }
        i = i + 1;
    }
    None
}

/// Whether each of `texts` is the display text of a value of `variable`.
pub fn has_texts(variable: &Variable, texts: &Vec<String>) -> (r: bool)
    ensures
        r == known_texts(*variable, texts@),
{
    let mut i: usize = 0;
    while i < texts.len()
        invariant
            0 <= i <= texts@.len(),
            forall|k: int|
                0 <= k < i ==> first_value_id(
                    variable.values@,
                    (#[trigger] texts@[k])@,
                    0,
                ).is_some(),
        decreases texts@.len() - i,
    {
        if find_value(&variable.values, &texts[i]).is_none() {
            return false;
        }
        i = i + 1;
    }
    true
}

/// Whether every entry of `selector` names a variable and display texts of
/// values of that variable.
pub fn is_valid_selector(variables: &Vec<Variable>, selector: &Vec<(String, Vec<String>)>) -> (r:
    bool)
    ensures
        r == valid_selector(variables@, selector@),
{
    let mut e: usize = 0;
    while e < selector.len()
        invariant
            0 <= e <= selector@.len(),
            forall|k: int|
                0 <= k < e ==> (match first_variable(
                    variables@,
                    (#[trigger] selector@[k]).0@,
                    0,
                ) {
                    Some(variable) => known_texts(variable, selector@[k].1@),
                    None => false,
                }),
        decreases selector@.len() - e,
    {
        match find_variable(variables, &selector[e].0) {
            Some(variable) => {
                if !has_texts(variable, &selector[e].1) {
                    return false;
                }
            },
            None => {
                return false;
            },
        }
        e = e + 1;
    }
    true
}

/// The id of the first variable that is marked as time.
pub fn find_time<'a>(variables: &'a Vec<Variable>) -> (r: Option<&'a str>)
    ensures
        r.is_some() == time_variable(variables@, 0).is_some(),
        r matches Some(id) ==> time_variable(variables@, 0) == Some(id@),
{
    let mut i: usize = 0;
    while i < variables.len()
        invariant
            0 <= i <= variables@.len(),
            time_variable(variables@, 0) == time_variable(variables@, i as int),
        decreases variables@.len() - i,
    {
        if variables[i].time {
            return Some(variables[i].id.as_str());
        }
        i = i + 1;
    }
    None
}

/// A table of the service: its id and its metadata.
pub struct Table {
    table: String,
    metadata: Metadata,
}

/// The series that a table makes of a dataset, up to the order in which
/// they come: whether `group` holds the values of `dataset`, a missing one
/// read as zero, addressed by its dimensions and gathered by their tags
/// other than `time_id`, under the update instant `updated`.
pub open spec fn reads(group: GroupView, dataset: Dataset, time_id: Seq<char>, updated: int) -> bool {
    let axes = cross_axes(dataset.dimension, dataset.dimension.id@.len() as int);
    let points = decoded(axes, Map::empty(), zero_filled(dataset.value@));
    &&& group.updated == updated
    &&& is_gathering(group.series, gathered(points, time_id, points.len() as int))
}

/// Why a table cannot make series of a dataset, if it cannot: it names no
/// time variable; or the array of the dataset does not have one value for
/// each combination of labels; or a point has no time label that names a
/// month.
pub open spec fn refusal(dataset: Dataset, variables: Seq<Variable>) -> Option<SeriesError> {
    let axes = cross_axes(dataset.dimension, dataset.dimension.id@.len() as int);
    let values = zero_filled(dataset.value@);
    let points = decoded(axes, Map::empty(), values);
    match time_variable(variables, 0) {
        None => Some(SeriesError::DateFormat),
        Some(time_id) => if values.len() != cells(sizes(axes), 0) {
            Some(SeriesError::ShapeMismatch)
        } else if exists|i: int| 0 <= i < points.len() && !has_time(#[trigger] points[i], time_id) {
            Some(SeriesError::DateFormat)
        } else {
            None
        },
    }
}

impl Table {
    /// The table with id `table` and the metadata that the service gave
    /// for it.
    pub fn new(table: &str, metadata: Metadata) -> (r: Table)
        ensures
            r.name_text() == table@,
            r.metadata_value() == metadata,
    {
        Table { table: table.to_owned(), metadata }
    }

    /// The id of the table.
    pub closed spec fn name_text(&self) -> Seq<char> {
        self.table@
    }

    /// The metadata of the table.
    pub closed spec fn metadata_value(&self) -> Metadata {
        self.metadata
    }

    /// The metadata of the table.
    pub fn metadata(&self) -> (r: &Metadata)
        ensures
            *r == self.metadata_value(),
    {
        &self.metadata
    }

    /// The request for the data that `selector` chooses: for each variable
    /// of the table the wire ids of the values chosen for it by display
    /// text, or the wildcard where nothing is chosen. There is no request
    /// where the selector names a variable that the table does not have,
    /// or a value that the variable does not have.
    pub fn request<'a>(&'a self, selector: &Vec<(String, Vec<String>)>) -> (r: Option<
        DataRequest<'a>,
    >)
        ensures
            r.is_some() == valid_selector(self.metadata_value().variables@, selector@),
            r matches Some(request) ==> asks(
                request,
                self.name_text(),
                self.metadata_value().variables@,
                selector@,
            ),
    {
        let variables = &self.metadata.variables;
        if !is_valid_selector(variables, selector) {
            return None;
        }
        let mut asked: Vec<VariableRequest<'a>> = Vec::new();
        let mut j: usize = 0;
        while j < variables.len()
            invariant
                0 <= j <= variables@.len(),
                *variables == self.metadata.variables,
                valid_selector(variables@, selector@),
                asked@.len() == j,
                forall|k: int|
                    0 <= k < j ==> (#[trigger] asked@[k]).code@ == variables@[k].id@
                        && borrowed_texts(asked@[k].values@) == wanted(variables@[k], selector@),
            decreases variables@.len() - j,
        {
            let variable = &variables[j];
            let mut values: Vec<&'a str> = Vec::new();
            match find_choice(selector, &variable.id) {
                Some(texts) => {
                    let mut i: usize = 0;
                    while i < texts.len()
                        invariant
                            0 <= i <= texts@.len(),
                            values@.len() == i,
                            forall|k: int|
                                0 <= k < i ==> (#[trigger] values@[k])@ == wire_ids(
                                    *variable,
                                    texts@,
                                )[k],
                        decreases texts@.len() - i,
                    {
                        match find_value(&variable.values, &texts[i]) {
                            Some(id) => {
                                values.push(id);
                            },
                            None => {
                                values.push("");
                                proof {
                                    reveal_strlit("");
                                    assert(""@ =~= Seq::<char>::empty());
                                }
                            },
                        }
                        i = i + 1;
                    }
                    proof {
                        assert(borrowed_texts(values@) =~= wire_ids(*variable, texts@));
                    }
                },
                None => {
                    values.push("*");
                    proof {
                        assert(borrowed_texts(values@) =~= seq!["*"@]);
                    }
                },
            }
            asked.push(VariableRequest { code: variable.id.as_str(), values });
            j = j + 1;
        }
        Some(
            DataRequest {
                table: self.table.as_str(),
                format: "JSONSTAT".to_owned(),
                variables: asked,
            },
        )
    }

    /// The series of a dataset that the service sent for this table. The
    /// values of the dataset, a missing one read as zero, are addressed by
    /// its dimensions and gathered into series by their labels other than
    /// the label of the time variable.
    pub fn timeseries(&self, dataset: &Dataset) -> (r: Result<TimeSeriesGroup, SeriesError>)
        requires
            addressable(dataset.dimension),
            time_variable(self.metadata_value().variables@, 0) matches Some(time_id)
                ==> gathering_fits(
                decoded(
                    cross_axes(dataset.dimension, dataset.dimension.id@.len() as int),
                    Map::empty(),
                    zero_filled(dataset.value@),
                ),
                time_id,
            ),
        ensures
            (match r {
                Ok(group) => refusal(*dataset, self.metadata_value().variables@).is_none() && reads(
                    group@,
                    *dataset,
                    time_variable(self.metadata_value().variables@, 0).unwrap(),
                    self.metadata_value().updated as int,
                ),
                Err(e) => refusal(*dataset, self.metadata_value().variables@) == Some(e),
            }),
    {
        let time_id: &str = match find_time(&self.metadata.variables) {
            Some(id) => id,
            None => {
                return Err(SeriesError::DateFormat);
            },
        };
        let values = zero_fill(&dataset.value);
        let points = match DataPoint::from_dimensions_and_data(&dataset.dimension, values.as_slice()) {
            Ok(points) => points,
            Err(e) => {
                return Err(e);
            },
        };
        let series = match DataPoint::to_timeseries(time_id, points) {
            Ok(series) => series,
            Err(e) => {
                return Err(e);
            },
        };
        Ok(TimeSeriesGroup::new(self.metadata.updated, series))
    }
}

} // verus!
