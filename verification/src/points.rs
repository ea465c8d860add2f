//! Data points: the values of a dataset, each tagged with the labels that
//! address it; how they are read from the flat array of a dataset; and how
//! they are gathered into series.

use vstd::prelude::*;

use vstd::string::*;

use crate::calendar::{civil_day_number, Date};
use crate::collections::{
    grouped_series, groups_add, groups_new, groups_values, keyed, lists, merged, position_ids,
    position_map_entries, position_map_insert, position_map_new, position_pairs, tag_map,
    tag_map_get, tag_map_new, tag_map_update, tag_map_values, tag_map_without, tag_set_collect,
    texts, values_fit,
};
use crate::group::views;
use crate::series::{merge_view, SeriesView, TimeSeries};
use crate::error::SeriesError;
use crate::listing::{lemma_listing, listing};
use crate::models::data::{Category, Dimension, Dimensions};
use crate::radix::{
    all_positive, cells, coordinate, coordinates_within, index_of, lemma_cells_grow,
    lemma_cells_positive, lemma_cells_zero, lemma_coordinate, lemma_index_coordinates, lemma_rest_bound,
    lemma_same_coordinates, rest,
};

verus! {

/// What a data point is: a value, and for each dimension the label that the
/// point has there.
pub struct PointView {
    pub value: int,
    pub tags: Map<Seq<char>, Seq<char>>,
}

/// One value of a dataset with the labels that address it, by dimension id.
#[derive(Debug, PartialEq, Eq)]
pub struct DataPoint {
    pub value: i64,
    pub tags: im::OrdMap<String, String>,
}

impl View for DataPoint {
    type V = PointView;

    open spec fn view(&self) -> PointView {
        PointView { value: self.value as int, tags: tag_map(self.tags) }
    }
}

impl Clone for DataPoint {
    fn clone(&self) -> (r: Self)
        ensures
            r == *self,
    {
        DataPoint { value: self.value, tags: self.tags.clone() }
    }
}

/// One axis of a dataset: the id of a dimension and its labels in the order
/// of the array layout.
pub struct AxisView {
    pub name: Seq<char>,
    pub labels: Seq<Seq<char>>,
}

/// The texts of a sequence of strings.
pub open spec fn label_views(labels: Seq<String>) -> Seq<Seq<char>> {
    Seq::new(labels.len(), |i: int| labels[i]@)
}

/// The axes that a sequence of ids with their labels stands for.
pub open spec fn axis_views(axes: Seq<(String, Vec<String>)>) -> Seq<AxisView> {
    Seq::new(axes.len(), |j: int| AxisView { name: axes[j].0@, labels: label_views(axes[j].1@) })
}

/// The axes that a sequence of borrowed ids with their labels stands for.
pub open spec fn borrowed_axis_views(axes: Seq<(&str, Vec<&str>)>) -> Seq<AxisView> {
    Seq::new(
        axes.len(),
        |j: int|
            AxisView {
                name: axes[j].0@,
                labels: Seq::new(axes[j].1@.len(), |i: int| axes[j].1@[i]@),
            },
    )
}

/// The number of labels of each axis.
pub open spec fn sizes(axes: Seq<AxisView>) -> Seq<int> {
    Seq::new(axes.len(), |j: int| axes[j].labels.len() as int)
}

/// The tags of the point at position `i` after the first `n` axes have
/// given theirs: on top of `base`, for each axis its id with the label at
/// the coordinate that the position has on that axis.
pub open spec fn point_tags(
    axes: Seq<AxisView>,
    base: Map<Seq<char>, Seq<char>>,
    i: int,
    n: int,
) -> Map<Seq<char>, Seq<char>>
    decreases n,
{
    if n <= 0 {
        base
    } else {
        point_tags(axes, base, i, n - 1).insert(
            axes[n - 1].name,
            axes[n - 1].labels[coordinate(sizes(axes), n - 1, i)],
        )
    }
}

/// The points that the flat array `data` holds over the axes `axes`: at each
/// position the value there, tagged with the labels of that position.
pub open spec fn decoded(
    axes: Seq<AxisView>,
    base: Map<Seq<char>, Seq<char>>,
    data: Seq<i64>,
) -> Seq<PointView> {
    Seq::new(
        data.len(),
        |i: int| PointView { value: data[i] as int, tags: point_tags(axes, base, i, axes.len() as int) },
    )
}

/// The views of a sequence of points.
pub open spec fn point_views(points: Seq<DataPoint>) -> Seq<PointView> {
    Seq::new(points.len(), |i: int| points[i]@)
}

/// Whether no two axes have the same id.
pub open spec fn distinct_names(axes: Seq<AxisView>) -> bool {
    forall|a: int, b: int|
        0 <= a < b < axes.len() ==> (#[trigger] axes[a]).name != (#[trigger] axes[b]).name
}

/// Whether no axis has the same label twice.
pub open spec fn distinct_labels(axes: Seq<AxisView>) -> bool {
    forall|j: int, a: int, b: int|
        0 <= j < axes.len() && 0 <= a < b < axes[j].labels.len() ==> (#[trigger] axes[j].labels[a])
            != (#[trigger] axes[j].labels[b])
}

/// Where the axes have different ids, the point at a position has on each
/// axis the label at its coordinate there.
pub proof fn lemma_point_tag(
    axes: Seq<AxisView>,
    base: Map<Seq<char>, Seq<char>>,
    i: int,
    n: int,
    j: int,
)
    requires
        distinct_names(axes),
        0 <= j < n <= axes.len(),
    ensures
        point_tags(axes, base, i, n).contains_key(axes[j].name),
        point_tags(axes, base, i, n)[axes[j].name] == axes[j].labels[coordinate(sizes(axes), j, i)],
    decreases n,
{
    if j < n - 1 {
        lemma_point_tag(axes, base, i, n - 1, j);
        assert(axes[j].name != axes[n - 1].name);
    }
}

/// Where the axes have different ids and no axis has a label twice, the
/// points at different positions have different tags.
pub proof fn lemma_points_distinct(
    axes: Seq<AxisView>,
    base: Map<Seq<char>, Seq<char>>,
    a: int,
    b: int,
)
    requires
        distinct_names(axes),
        distinct_labels(axes),
        0 <= a < cells(sizes(axes), 0),
        0 <= b < cells(sizes(axes), 0),
        a != b,
    ensures
        point_tags(axes, base, a, axes.len() as int) != point_tags(axes, base, b, axes.len() as int),
{
    let s = sizes(axes);
    let n = axes.len() as int;
    if exists|j: int| 0 <= j < n && s[j] < 1 {
        let j = choose|j: int| 0 <= j < n && s[j] < 1;
        lemma_cells_zero(s, j, 0);
    } else {
        assert(all_positive(s));
        if forall|k: int| 0 <= k < s.len() ==> #[trigger] coordinate(s, k, a) == coordinate(s, k, b) {
            lemma_same_coordinates(s, a, b);
        } else {
            let k = choose|k: int| 0 <= k < s.len() && #[trigger] coordinate(s, k, a) != coordinate(s, k, b);
            lemma_point_tag(axes, base, a, n, k);
            lemma_point_tag(axes, base, b, n, k);
            lemma_coordinate(s, k, a);
            lemma_coordinate(s, k, b);
            let ca = coordinate(s, k, a);
            let cb = coordinate(s, k, b);
            if ca < cb {
                assert(axes[k].labels[ca] != axes[k].labels[cb]);
            } else {
                assert(axes[k].labels[cb] != axes[k].labels[ca]);
            }
        }
    }
}

/// Every combination of one label from each axis is the tag combination of
/// some position: for coordinates `c` within the axes there is a position
/// whose point has, on each axis, the label at the coordinate asked for.
pub proof fn lemma_points_cover(axes: Seq<AxisView>, base: Map<Seq<char>, Seq<char>>, c: Seq<int>)
    requires
        distinct_names(axes),
        coordinates_within(sizes(axes), c),
    ensures
        0 <= index_of(sizes(axes), c, 0) < cells(sizes(axes), 0),
        forall|j: int|
            0 <= j < axes.len() ==> point_tags(
                axes,
                base,
                index_of(sizes(axes), c, 0),
                axes.len() as int,
            )[(#[trigger] axes[j]).name] == axes[j].labels[c[j]],
{
    let s = sizes(axes);
    assert(all_positive(s)) by {
        assert forall|j: int| 0 <= j < s.len() implies #[trigger] s[j] >= 1 by {
            assert(0 <= c[j] < s[j]);
        }
    }
    lemma_index_coordinates(s, c);
    let i = index_of(s, c, 0);
    assert forall|j: int| 0 <= j < axes.len() implies point_tags(axes, base, i, axes.len() as int)[(
    #[trigger] axes[j]).name] == axes[j].labels[c[j]] by {
        lemma_point_tag(axes, base, i, axes.len() as int, j);
        assert(coordinate(s, j, i) == c[j]);
    }
}

/// Whether `c` is one of the ten digits.
pub open spec fn is_digit(c: char) -> bool {
    48 <= c as u32 <= 57
}

/// The number that the digit `c` stands for.
pub open spec fn digit_value(c: char) -> int {
    c as u32 - 48
}

/// The number that the four digits of `s` from index 0 stand for.
pub open spec fn year_of(s: Seq<char>) -> int {
    1000 * digit_value(s[0]) + 100 * digit_value(s[1]) + 10 * digit_value(s[2]) + digit_value(s[3])
}

/// The number that the two digits of `s` from index 5 stand for.
pub open spec fn month_of(s: Seq<char>) -> int {
    10 * digit_value(s[5]) + digit_value(s[6])
}

/// Whether `s` is a year: four digits.
pub open spec fn is_year_form(s: Seq<char>) -> bool {
    s.len() == 4 && is_digit(s[0]) && is_digit(s[1]) && is_digit(s[2]) && is_digit(s[3])
}

/// Whether `s` is a year and a month: four digits, the letter M, and two
/// digits that make a number from 1 to 12.
pub open spec fn is_year_month_form(s: Seq<char>) -> bool {
    s.len() == 7 && is_digit(s[0]) && is_digit(s[1]) && is_digit(s[2]) && is_digit(s[3]) && s[4]
        == 'M' && is_digit(s[5]) && is_digit(s[6]) && 1 <= month_of(s) <= 12
}

/// The year and the month that a time label names; a label in the year form
/// names the first month of its year. `None` for a label in neither form.
pub open spec fn time_fields(s: Seq<char>) -> Option<(int, int)> {
    if is_year_form(s) {
        Some((year_of(s), 1))
    } else if is_year_month_form(s) {
        Some((year_of(s), month_of(s)))
    } else {
        None
    }
}

/// The day that a time label stands for: the first day of the month it
/// names. `None` for a label in neither form.
pub open spec fn parsed_day(s: Seq<char>) -> Option<int> {
    match time_fields(s) {
        Some((year, month)) => civil_day_number(year, month, 1),
        None => None,
    }
}

/// The number that `c` stands for, if it is a digit.
pub fn digit_of(c: char) -> (r: Option<u32>)
    ensures
        r.is_some() == is_digit(c),
        r matches Some(d) ==> d == digit_value(c) && d <= 9,
{
    let code: u32 = c as u32;
    if 48 <= code && code <= 57 {
        Some(code - 48)
    } else {
        None
    }
}

/// The year and the month that the time label `s` names.
pub fn parse_time_fields(s: &str) -> (r: Result<(i32, u32), SeriesError>)
    ensures
        r.is_err() == time_fields(s@).is_none(),
        r matches Err(e) ==> e == SeriesError::DateFormat,
        r matches Ok(fields) ==> time_fields(s@) == Some((fields.0 as int, fields.1 as int)) && 0
            <= fields.0 <= 9999 && 1 <= fields.1 <= 12,
{
    let length: usize = s.unicode_len();
    if length != 4 && length != 7 {
        return Err(SeriesError::DateFormat);
    }
    let mut year: u32 = 0;
    let mut i: usize = 0;
    while i < 4
        invariant
            0 <= i <= 4,
            4 <= s@.len(),
            forall|k: int| 0 <= k < i ==> is_digit(#[trigger] s@[k]),
            year == (if i == 0 {
                0
            } else if i == 1 {
                digit_value(s@[0])
            } else if i == 2 {
                10 * digit_value(s@[0]) + digit_value(s@[1])
            } else if i == 3 {
                100 * digit_value(s@[0]) + 10 * digit_value(s@[1]) + digit_value(s@[2])
            } else {
                year_of(s@)
            }),
            year <= 9999,
        decreases 4 - i,
    {
        match digit_of(s.get_char(i)) {
            Some(d) => {
                year = year * 10 + d;
            },
            None => {
                return Err(SeriesError::DateFormat);
            },
        }
        i = i + 1;
    }
    if length == 4 {
        return Ok((year as i32, 1));
    }
    if s.get_char(4) != 'M' {
        return Err(SeriesError::DateFormat);
    }
    let tens: u32 = match digit_of(s.get_char(5)) {
        Some(d) => d,
        None => {
            return Err(SeriesError::DateFormat);
        },
    };
    let ones: u32 = match digit_of(s.get_char(6)) {
        Some(d) => d,
        None => {
            return Err(SeriesError::DateFormat);
        },
    };
    let month: u32 = tens * 10 + ones;
    if month < 1 || month > 12 {
        return Err(SeriesError::DateFormat);
    }
    Ok((year as i32, month))
}

/// The label that the value id `id` has the first entry for in `labels` from
/// index `from` on, if it has any.
pub open spec fn first_label(labels: Seq<(String, String)>, id: Seq<char>, from: int) -> Option<
    Seq<char>,
>
    decreases labels.len() - from,
{
    if from < 0 || from >= labels.len() {
        None
    } else if labels[from].0@ == id {
        Some(labels[from].1@)
    } else {
        first_label(labels, id, from + 1)
    }
}

/// The value ids of the first `n` entries of `index` by their positions;
/// where two have one position, the later entry stands.
pub open spec fn positions(index: Seq<(String, u64)>, n: int) -> Map<int, Seq<char>>
    decreases n,
{
    if n <= 0 {
        Map::empty()
    } else {
        positions(index, n - 1).insert(index[n - 1].1 as int, index[n - 1].0@)
    }
}

/// Whether every value id of the category has a label.
pub open spec fn labelled(category: Category) -> bool {
    forall|i: int|
        0 <= i < category.index@.len() ==> first_label(
            category.label@,
            (#[trigger] category.index@[i]).0@,
            0,
        ).is_some()
}

/// The label of `id`, or the empty text where it has none.
pub open spec fn label_or_empty(labels: Seq<(String, String)>, id: Seq<char>) -> Seq<char> {
    match first_label(labels, id, 0) {
        Some(label) => label,
        None => Seq::empty(),
    }
}

/// The labels of a category in the order of the array layout: by ascending
/// position of their value ids.
pub open spec fn sorted_labels(category: Category) -> Seq<Seq<char>> {
    let ordered = listing(positions(category.index@, category.index@.len() as int));
    Seq::new(ordered.len(), |i: int| label_or_empty(category.label@, ordered[i].1))
}

/// Every id held in `positions` is the id of an entry of the index.
pub proof fn lemma_positions_ids(index: Seq<(String, u64)>, n: int, position: int)
    requires
        0 <= n <= index.len(),
        positions(index, n).contains_key(position),
    ensures
        exists|i: int| 0 <= i < n && (#[trigger] index[i]).0@ == positions(index, n)[position],
    decreases n,
{
    if n > 0 {
        if position == index[n - 1].1 as int {
            assert(index[n - 1].0@ == positions(index, n)[position]);
        } else {
            lemma_positions_ids(index, n - 1, position);
            let i = choose|i: int|
                0 <= i < n - 1 && (#[trigger] index[i]).0@ == positions(index, n - 1)[position];
            assert(index[i].0@ == positions(index, n)[position]);
        }
    }
}

/// The label that `id` has the first entry for, if any.
pub fn find_label(labels: &Vec<(String, String)>, id: &String) -> (r: Option<String>)
    ensures
        r.is_some() == first_label(labels@, id@, 0).is_some(),
        r matches Some(label) ==> first_label(labels@, id@, 0) == Some(label@),
{
    let mut i: usize = 0;
    while i < labels.len()
        invariant
            0 <= i <= labels@.len(),
            first_label(labels@, id@, 0) == first_label(labels@, id@, i as int),
        decreases labels@.len() - i,
    {
        if labels[i].0 == *id {
            return Some(labels[i].1.clone());
        }
        i = i + 1;
    }
    None
}

/// The dimension that `id` has the first entry for in `table` from index
/// `from` on, if it has any.
pub open spec fn first_dimension(table: Seq<(String, Dimension)>, id: Seq<char>, from: int) -> Option<
    Dimension,
>
    decreases table.len() - from,
{
    if from < 0 || from >= table.len() {
        None
    } else if table[from].0@ == id {
        Some(table[from].1)
    } else {
        first_dimension(table, id, from + 1)
    }
}

/// Whether `id` is the id of a dimension of measured quantities.
pub open spec fn is_metric(dimensions: Dimensions, id: Seq<char>) -> bool {
    texts(dimensions.role.metric@).contains(id)
}

/// Whether every dimension that addresses the array has its entry in the
/// table of dimensions, and every value id in it a label.
pub open spec fn addressable(dimensions: Dimensions) -> bool {
    forall|i: int|
        0 <= i < dimensions.id@.len() && !is_metric(dimensions, (#[trigger] dimensions.id@[i])@)
            ==> (match first_dimension(dimensions.dimension@, dimensions.id@[i]@, 0) {
            Some(dimension) => labelled(dimension.category),
            None => false,
        })
}

/// The labels of the dimension with id `id`, in layout order.
pub open spec fn axis_of(dimensions: Dimensions, id: Seq<char>) -> AxisView {
    AxisView {
        name: id,
        labels: match first_dimension(dimensions.dimension@, id, 0) {
            Some(dimension) => sorted_labels(dimension.category),
            None => Seq::empty(),
        },
    }
}

/// The axes that address the array, from the first `n` dimension ids: every
/// dimension but those of measured quantities, in the order of the ids.
pub open spec fn cross_axes(dimensions: Dimensions, n: int) -> Seq<AxisView>
    decreases n,
{
    if n <= 0 {
        Seq::empty()
    } else if is_metric(dimensions, dimensions.id@[n - 1]@) {
        cross_axes(dimensions, n - 1)
    } else {
        cross_axes(dimensions, n - 1).push(axis_of(dimensions, dimensions.id@[n - 1]@))
    }
}

/// The values of a dataset with zero in the place of each missing one.
pub open spec fn zero_filled(values: Seq<Option<i64>>) -> Seq<i64> {
    Seq::new(
        values.len(),
        |i: int|
            match values[i] {
                Some(value) => value,
                None => 0i64,
            },
    )
}

/// The values of a dataset, a missing value read as zero.
pub fn zero_fill(values: &Vec<Option<i64>>) -> (r: Vec<i64>)
    ensures
        r@ == zero_filled(values@),
{
    let mut filled: Vec<i64> = Vec::new();
    let mut i: usize = 0;
    while i < values.len()
        invariant
            0 <= i <= values@.len(),
            filled@.len() == i,
            forall|k: int| 0 <= k < i ==> #[trigger] filled@[k] == zero_filled(values@)[k],
        decreases values@.len() - i,
    {
        let value: i64 = match values[i] {
            Some(value) => value,
            None => 0,
        };
        filled.push(value);
        i = i + 1;
    }
    proof {
        assert(filled@ =~= zero_filled(values@));
    }
    filled
}

/// Whether every value id of the category has a label.
pub fn is_labelled(category: &Category) -> (r: bool)
    ensures
        r == labelled(*category),
{
    let mut i: usize = 0;
    while i < category.index.len()
        invariant
            0 <= i <= category.index@.len(),
            forall|k: int|
                0 <= k < i ==> first_label(
                    category.label@,
                    (#[trigger] category.index@[k]).0@,
                    0,
                ).is_some(),
        decreases category.index@.len() - i,
    {
        if find_label(&category.label, &category.index[i].0).is_none() {
            return false;
        }
        i = i + 1;
    }
    true
}

/// Whether every dimension that addresses the array has its entry in the
/// table of dimensions, and every value id in it a label.
pub fn is_addressable(dimensions: &Dimensions) -> (r: bool)
    ensures
        r == addressable(*dimensions),
{
    let mut i: usize = 0;
    while i < dimensions.id.len()
        invariant
            0 <= i <= dimensions.id@.len(),
            forall|k: int|
                0 <= k < i && !is_metric(*dimensions, (#[trigger] dimensions.id@[k])@) ==> (
                match first_dimension(dimensions.dimension@, dimensions.id@[k]@, 0) {
                    Some(dimension) => labelled(dimension.category),
                    None => false,
                }),
        decreases dimensions.id@.len() - i,
    {
        let id = &dimensions.id[i];
        if !contains_text(&dimensions.role.metric, id) {
            match find_dimension(&dimensions.dimension, id) {
                Some(dimension) => {
                    if !is_labelled(&dimension.category) {
                        return false;
                    }
                },
                None => {
                    return false;
                },
            }
        }
        i = i + 1;
    }
    true
}

/// Whether `text` is among `list`.
pub fn contains_text(list: &Vec<String>, text: &String) -> (r: bool)
    ensures
        r == texts(list@).contains(text@),
{
    let mut i: usize = 0;
    while i < list.len()
        invariant
            0 <= i <= list@.len(),
            forall|k: int| 0 <= k < i ==> (#[trigger] list@[k])@ != text@,
        decreases list@.len() - i,
    {
        if list[i] == *text {
            return true;
        }
        i = i + 1;
    }
    false
}

/// The dimension that `id` has the first entry for, if any.
pub fn find_dimension<'a>(table: &'a Vec<(String, Dimension)>, id: &String) -> (r: Option<
    &'a Dimension,
>)
    ensures
        r.is_some() == first_dimension(table@, id@, 0).is_some(),
        r matches Some(dimension) ==> first_dimension(table@, id@, 0) == Some(*dimension),
{
    let mut i: usize = 0;
    while i < table.len()
        invariant
            0 <= i <= table@.len(),
            first_dimension(table@, id@, 0) == first_dimension(table@, id@, i as int),
        decreases table@.len() - i,
    {
        if table[i].0 == *id {
            return Some(&table[i].1);
        }
        i = i + 1;
    }
    None
}

/// Whether the point has a time label that names a month.
pub open spec fn has_time(p: PointView, time_id: Seq<char>) -> bool {
    p.tags.contains_key(time_id) && time_fields(p.tags[time_id]).is_some()
}

/// The series that one point makes by itself: under the labels that the
/// point has on the dimensions other than time, its value at its date.
pub open spec fn point_series(p: PointView, time_id: Seq<char>) -> SeriesView {
    SeriesView {
        tags: p.tags.remove(time_id).values(),
        data: Map::empty().insert(
            match parsed_day(p.tags[time_id]) {
                Some(day) => day,
                None => 0,
            },
            p.value,
        ),
    }
}

/// The first `n` points gathered into series by their tags: each point is
/// merged into the series that has its tags, or starts that series.
pub open spec fn gathered(points: Seq<PointView>, time_id: Seq<char>, n: int) -> Map<
    Set<Seq<char>>,
    SeriesView,
>
    decreases n,
{
    if n <= 0 {
        Map::empty()
    } else {
        let before = gathered(points, time_id, n - 1);
        let unit = point_series(points[n - 1], time_id);
        if before.contains_key(unit.tags) {
            before.insert(unit.tags, merge_view(before[unit.tags], unit))
        } else {
            before.insert(unit.tags, unit)
        }
    }
}

/// Whether gathering the points keeps every value within `i64`: after any
/// number of points that all have a time label, each series gathered so far
/// has values that fit.
pub open spec fn gathering_fits(points: Seq<PointView>, time_id: Seq<char>) -> bool {
    forall|n: int, k: Set<Seq<char>>|
        0 <= n <= points.len() && (forall|i: int|
            0 <= i < n ==> has_time(#[trigger] points[i], time_id)) && #[trigger] gathered(
            points,
            time_id,
            n,
        ).contains_key(k) ==> values_fit(gathered(points, time_id, n)[k].data)
}

/// Whether `vs` holds the series of `m`: each series of `vs` is the one
/// that `m` has under its tags, every series of `m` is in `vs`, and no two
/// series of `vs` have the same tags.
pub open spec fn is_gathering(vs: Seq<SeriesView>, m: Map<Set<Seq<char>>, SeriesView>) -> bool {
    &&& forall|i: int|
        0 <= i < vs.len() ==> m.contains_key((#[trigger] vs[i]).tags) && m[vs[i].tags] == vs[i]
    &&& forall|k: Set<Seq<char>>| #[trigger]
        m.contains_key(k) ==> exists|i: int| 0 <= i < vs.len() && (#[trigger] vs[i]).tags == k
    &&& forall|i: int, j: int|
        0 <= i < j < vs.len() ==> (#[trigger] vs[i]).tags != (#[trigger] vs[j]).tags
}

/// Every gathered series stands under its own tags.
pub proof fn lemma_gathered_keys(points: Seq<PointView>, time_id: Seq<char>, n: int)
    ensures
        forall|k: Set<Seq<char>>| #[trigger]
            gathered(points, time_id, n).contains_key(k) ==> gathered(points, time_id, n)[k].tags
                == k,
    decreases n,
{
    if n > 0 {
        lemma_gathered_keys(points, time_id, n - 1);
        let before = gathered(points, time_id, n - 1);
        let unit = point_series(points[n - 1], time_id);
        if before.contains_key(unit.tags) {
            assert(before[unit.tags].tags.union(unit.tags) =~= unit.tags);
        }
    }
}

/// Whether the point `p` has, on each axis, the label at the coordinate that
/// `c` gives for the axis.
pub open spec fn has_labels(p: PointView, axes: Seq<AxisView>, c: Seq<int>) -> bool {
    forall|j: int| 0 <= j < axes.len() ==> p.tags[(#[trigger] axes[j]).name] == axes[j].labels[c[j]]
}

/// An array that holds at each position the number of the position decodes
/// to one point for each combination of one label from every axis: there
/// are as many points as combinations, each has the number of its position
/// as its value, no two have the same tags, and every combination is the
/// tags of one of them. The axes have different ids, and no axis has a
/// label twice.
pub proof fn lemma_decoded_enumerates(
    axes: Seq<AxisView>,
    base: Map<Seq<char>, Seq<char>>,
    data: Seq<i64>,
)
    requires
        distinct_names(axes),
        distinct_labels(axes),
        data.len() == cells(sizes(axes), 0),
        forall|i: int| 0 <= i < data.len() ==> #[trigger] data[i] == i,
    ensures
        decoded(axes, base, data).len() == cells(sizes(axes), 0),
        forall|i: int|
            0 <= i < data.len() ==> (#[trigger] decoded(axes, base, data)[i]).value == i,
        forall|a: int, b: int|
            0 <= a < b < data.len() ==> (#[trigger] decoded(axes, base, data)[a]).tags != (
            #[trigger] decoded(axes, base, data)[b]).tags,
        forall|c: Seq<int>| #[trigger]
            coordinates_within(sizes(axes), c) ==> 0 <= index_of(sizes(axes), c, 0) < data.len()
                && has_labels(decoded(axes, base, data)[index_of(sizes(axes), c, 0)], axes, c),
{
    let points = decoded(axes, base, data);
    assert forall|a: int, b: int| 0 <= a < b < data.len() implies (#[trigger] points[a]).tags != (
    #[trigger] points[b]).tags by {
        lemma_points_distinct(axes, base, a, b);
    }
    assert forall|c: Seq<int>| #[trigger] coordinates_within(sizes(axes), c) implies 0 <= index_of(
        sizes(axes),
        c,
        0,
    ) < data.len() && has_labels(points[index_of(sizes(axes), c, 0)], axes, c) by {
        lemma_points_cover(axes, base, c);
    }
}

impl DataPoint {
    /// Reads the points of a dataset from its flat array.
    ///
    /// `axes` gives, for each dimension in the order of the array layout, its id
    /// and its labels in layout order; the first axis varies slowest. Each point
    /// gets the tags `base` and, for each axis, the label at its coordinate. It
    /// fails where the array does not have exactly one value for each
    /// combination of labels.
    pub fn decode(axes: &Vec<(String, Vec<String>)>, base: &im::OrdMap<String, String>, data: &[i64]) -> (r:
        Result<Vec<DataPoint>, SeriesError>)
        ensures
            r.is_err() == (data@.len() != cells(sizes(axis_views(axes@)), 0)),
            r matches Err(e) ==> e == SeriesError::ShapeMismatch,
            r matches Ok(points) ==> points@.len() == data@.len() && point_views(points@) == decoded(
                axis_views(axes@),
                tag_map(*base),
                data@,
            ),
    {
        let ghost av = axis_views(axes@);
        let ghost s = sizes(av);
        let count: usize = axes.len();
        let length: usize = data.len();
        let mut j: usize = 0;
        while j < count
            invariant
                0 <= j <= count,
                count == axes@.len(),
                av == axis_views(axes@),
                s == sizes(av),
                forall|k: int| 0 <= k < j ==> #[trigger] s[k] >= 1,
            decreases count - j,
        {
            if axes[j].1.len() == 0 {
                proof {
                    assert(s[j as int] == 0);
                    lemma_cells_zero(s, j as int, 0);
                }
                if data.len() == 0 {
                    let empty: Vec<DataPoint> = Vec::new();
                    proof {
                        assert(point_views(empty@) =~= decoded(av, tag_map(*base), data@));
                    }
                    return Ok(empty);
                } else {
                    return Err(SeriesError::ShapeMismatch);
                }
            }
            j = j + 1;
        }
        proof {
            assert(all_positive(s));
        }
        let mut strides: Vec<usize> = Vec::new();
        let mut k: usize = 0;
        while k < count
            invariant
                0 <= k <= count,
                strides@.len() == k,
            decreases count - k,
        {
            strides.push(1);
            k = k + 1;
        }
        let mut run: usize = 1;
        let mut at: usize = count;
        while at > 0
            invariant
                0 <= at <= count,
                count == axes@.len(),
                av == axis_views(axes@),
                s == sizes(av),
                all_positive(s),
                strides@.len() == count,
                length == data@.len(),
                run == cells(s, at as int),
                forall|k: int| at <= k < count ==> #[trigger] strides@[k] == cells(s, k + 1),
            decreases at,
        {
            at = at - 1;
            strides.set(at, run);
            let size: usize = axes[at].1.len();
            proof {
                assert(s[at as int] == size);
                assert(cells(s, at as int) == s[at as int] * cells(s, at + 1));
            }
            match size.checked_mul(run) {
                Some(product) => {
                    run = product;
                },
                None => {
                    proof {
                        lemma_cells_grow(s, at as int);
                        assert(cells(s, at as int) == size * run);
                        assert(cells(s, 0) > usize::MAX);
                    }
                    return Err(SeriesError::ShapeMismatch);
                },
            }
        }
        if run != data.len() {
            return Err(SeriesError::ShapeMismatch);
        }
        let mut points: Vec<DataPoint> = Vec::new();
        let mut i: usize = 0;
        while i < data.len()
            invariant
                0 <= i <= data@.len(),
                count == axes@.len(),
                av == axis_views(axes@),
                s == sizes(av),
                all_positive(s),
                data@.len() == cells(s, 0),
                strides@.len() == count,
                forall|k: int| 0 <= k < count ==> #[trigger] strides@[k] == cells(s, k + 1),
                points@.len() == i,
                forall|p: int|
                    0 <= p < i ==> (#[trigger] points@[p])@ == decoded(av, tag_map(*base), data@)[p],
            decreases data@.len() - i,
        {
            let mut tags = base.clone();
            let mut left: usize = i;
            let mut axis: usize = 0;
            while axis < count
                invariant
                    0 <= axis <= count,
                    0 <= i < cells(s, 0),
                    count == axes@.len(),
                    av == axis_views(axes@),
                    s == sizes(av),
                    all_positive(s),
                    strides@.len() == count,
                    forall|k: int| 0 <= k < count ==> #[trigger] strides@[k] == cells(s, k + 1),
                    left == rest(s, axis as int, i as int),
                    tag_map(tags) == point_tags(av, tag_map(*base), i as int, axis as int),
                decreases count - axis,
            {
                let stride: usize = strides[axis];
                proof {
                    lemma_cells_positive(s, axis + 1);
                    lemma_coordinate(s, axis as int, i as int);
                    lemma_rest_bound(s, axis + 1, i as int);
                    assert(s[axis as int] == axes@[axis as int].1@.len());
                }
                let digit: usize = left / stride;
                left = left % stride;
                let name = axes[axis].0.clone();
                let label = axes[axis].1[digit].clone();
                proof {
                    assert(av[axis as int].name == name@);
                    assert(av[axis as int].labels[digit as int] == label@);
                }
                tags = tag_map_update(&tags, name, label);
                axis = axis + 1;
            }
            points.push(DataPoint { value: data[i], tags });
            i = i + 1;
        }
        proof {
            assert(point_views(points@) =~= decoded(av, tag_map(*base), data@));
        }
        Ok(points)
    }

    /// Reads the points of a dataset from its flat array, the axes given as
    /// borrowed text: `decode` for callers that hold their labels elsewhere.
    pub fn join_dimensions_and_data(
        dimensions: &[(&str, Vec<&str>)],
        tags: im::OrdMap<String, String>,
        data: &[i64],
    ) -> (r: Result<Vec<DataPoint>, SeriesError>)
        ensures
            r.is_err() == (data@.len() != cells(sizes(borrowed_axis_views(dimensions@)), 0)),
            r matches Err(e) ==> e == SeriesError::ShapeMismatch,
            r matches Ok(points) ==> points@.len() == data@.len() && point_views(points@) == decoded(
                borrowed_axis_views(dimensions@),
                tag_map(tags),
                data@,
            ),
    {
        let ghost bv = borrowed_axis_views(dimensions@);
        let mut axes: Vec<(String, Vec<String>)> = Vec::new();
        let mut j: usize = 0;
        while j < dimensions.len()
            invariant
                0 <= j <= dimensions@.len(),
                bv == borrowed_axis_views(dimensions@),
                axes@.len() == j,
                forall|k: int| 0 <= k < j ==> (#[trigger] axis_views(axes@)[k]) == bv[k],
            decreases dimensions@.len() - j,
        {
            let mut labels: Vec<String> = Vec::new();
            let mut i: usize = 0;
            while i < dimensions[j].1.len()
                invariant
                    0 <= j < dimensions@.len(),
                    0 <= i <= dimensions@[j as int].1@.len(),
                    labels@.len() == i,
                    forall|k: int|
                        0 <= k < i ==> (#[trigger] labels@[k])@ == dimensions@[j as int].1@[k]@,
                decreases dimensions@[j as int].1@.len() - i,
            {
                let label: &str = dimensions[j].1[i];
                labels.push(label.to_owned());
                i = i + 1;
            }
            let name: &str = dimensions[j].0;
            let ghost before = axes@;
            axes.push((name.to_owned(), labels));
            proof {
                assert forall|k: int| 0 <= k < j + 1 implies (#[trigger] axis_views(axes@)[k])
                    == bv[k] by {
                    if k < j {
                        assert(axes@[k] == before[k]);
                        assert(axis_views(before)[k] == bv[k]);
                    } else {
                        assert(label_views(axes@[k].1@) =~= bv[k].labels);
                    }
                }
            }
            j = j + 1;
        }
        proof {
            assert(axis_views(axes@) =~= bv);
        }
        DataPoint::decode(&axes, &tags, data)
    }

    /// The date that the time label `s` stands for: the first day of the
    /// year, for a label of four digits; the first day of the month, for a
    /// label of a year, the letter M and a month of two digits. It fails on
    /// any other label.
    pub fn parse_time(s: &str) -> (r: Result<Date, SeriesError>)
        ensures
            r.is_err() == time_fields(s@).is_none(),
            r matches Err(e) ==> e == SeriesError::DateFormat,
            r matches Ok(date) ==> parsed_day(s@) == Some(date@),
    {
        match parse_time_fields(s) {
            Ok(fields) => {
                match Date::from_ymd(fields.0, fields.1, 1) {
                    Some(date) => Ok(date),
                    None => {
                        proof {
                            assert(false);
                        }
                        Err(SeriesError::DateFormat)
                    },
                }
            },
            Err(e) => Err(e),
        }
    }

    /// The labels of a dimension in the order of the array layout: sorted
    /// by the position of their value ids.
    pub fn labels_sorted_by_index(dimension: &Dimension) -> (r: Vec<String>)
        requires
            labelled(dimension.category),
        ensures
            label_views(r@) == sorted_labels(dimension.category),
    {
        let category = &dimension.category;
        let ghost index = category.index@;
        let mut by_position = position_map_new();
        let mut i: usize = 0;
        while i < category.index.len()
            invariant
                0 <= i <= category.index@.len(),
                index == category.index@,
                position_ids(by_position) == positions(index, i as int),
            decreases category.index@.len() - i,
        {
            position_map_insert(&mut by_position, category.index[i].1, category.index[i].0.clone());
            i = i + 1;
        }
        let ordered = position_map_entries(&by_position);
        let ghost m = positions(index, index.len() as int);
        let ghost s = position_pairs(ordered@);
        proof {
            lemma_listing(s, m);
        }
        let mut labels: Vec<String> = Vec::new();
        let mut k: usize = 0;
        while k < ordered.len()
            invariant
                0 <= k <= ordered@.len(),
                index == category.index@,
                *category == dimension.category,
                labelled(*category),
                m == positions(index, index.len() as int),
                s == position_pairs(ordered@),
                s == listing(m),
                lists(s, m),
                labels@.len() == k,
                forall|a: int|
                    0 <= a < k ==> (#[trigger] labels@[a])@ == label_or_empty(
                        category.label@,
                        s[a].1,
                    ),
            decreases ordered@.len() - k,
        {
            proof {
                assert(s[k as int] == (ordered@[k as int].0 as int, ordered@[k as int].1@));
                assert(m.contains_pair(s[k as int].0, s[k as int].1));
                lemma_positions_ids(index, index.len() as int, s[k as int].0);
            }
            match find_label(&category.label, &ordered[k].1) {
                Some(label) => {
                    labels.push(label);
                },
                None => {
                    proof {
                        assert(false);
                    }
                },
            }
            k = k + 1;
        }
        proof {
            assert(label_views(labels@) =~= sorted_labels(dimension.category));
        }
        labels
    }

    /// The points of a dataset: its array read over every dimension but
    /// those of measured quantities, in the order of the dimension ids. It
    /// fails where the array does not have exactly one value for each
    /// combination of labels.
    pub fn from_dimensions_and_data(dimensions: &Dimensions, data: &[i64]) -> (r: Result<
        Vec<DataPoint>,
        SeriesError,
    >)
        requires
            addressable(*dimensions),
        ensures
            r.is_err() == (data@.len() != cells(
                sizes(cross_axes(*dimensions, dimensions.id@.len() as int)),
                0,
            )),
            r matches Err(e) ==> e == SeriesError::ShapeMismatch,
            r matches Ok(points) ==> points@.len() == data@.len() && point_views(points@) == decoded(
                cross_axes(*dimensions, dimensions.id@.len() as int),
                Map::empty(),
                data@,
            ),
    {
        let mut axes: Vec<(String, Vec<String>)> = Vec::new();
        let mut i: usize = 0;
        while i < dimensions.id.len()
            invariant
                0 <= i <= dimensions.id@.len(),
                addressable(*dimensions),
                axis_views(axes@) == cross_axes(*dimensions, i as int),
            decreases dimensions.id@.len() - i,
        {
            let id = &dimensions.id[i];
            if !contains_text(&dimensions.role.metric, id) {
                proof {
                    assert(!is_metric(*dimensions, dimensions.id@[i as int]@));
                }
                match find_dimension(&dimensions.dimension, id) {
                    Some(dimension) => {
                        let labels = DataPoint::labels_sorted_by_index(dimension);
                        let ghost before = axes@;
                        axes.push((id.clone(), labels));
                        proof {
                            assert(axis_views(axes@) =~= axis_views(before).push(
                                axis_of(*dimensions, id@),
                            ));
                        }
                    },
                    None => {
                        proof {
                            assert(false);
                        }
                    },
                }
            }
            i = i + 1;
        }
        let base = tag_map_new();
        DataPoint::decode(&axes, &base, data)
    }

    /// The points gathered into series. A point belongs to the series of the
    /// labels it has on the dimensions other than `time_id`; its date is
    /// what its label on `time_id` stands for; where a series gets two
    /// values for one date, they are added. The series come out in no
    /// stated order, no two of them with the same tags. It fails where a
    /// point has no time label or one that names no month.
    pub fn to_timeseries(time_id: &str, data: Vec<DataPoint>) -> (r: Result<
        Vec<TimeSeries>,
        SeriesError,
    >)
        requires
            gathering_fits(point_views(data@), time_id@),
        ensures
            r.is_err() == (exists|i: int|
                0 <= i < data@.len() && !has_time(#[trigger] point_views(data@)[i], time_id@)),
            r matches Err(e) ==> e == SeriesError::DateFormat,
            r matches Ok(series) ==> is_gathering(
                views(series@),
                gathered(point_views(data@), time_id@, data@.len() as int),
            ),
    {
        let ghost pv = point_views(data@);
        let ghost id = time_id@;
        let mut groups = groups_new();
        let mut i: usize = 0;
        while i < data.len()
            invariant
                0 <= i <= data@.len(),
                pv == point_views(data@),
                id == time_id@,
                gathering_fits(pv, id),
                forall|a: int| 0 <= a < i ==> has_time(#[trigger] pv[a], id),
                grouped_series(groups) == gathered(pv, id, i as int),
            decreases data@.len() - i,
        {
            let point = &data[i];
            proof {
                assert(pv[i as int] == point@);
            }
            let label = match tag_map_get(&point.tags, time_id) {
                Some(label) => label,
                None => {
                    proof {
                        assert(!has_time(pv[i as int], id));
                    }
                    return Err(SeriesError::DateFormat);
                },
            };
            let date = match DataPoint::parse_time(label.as_str()) {
                Ok(date) => date,
                Err(e) => {
                    proof {
                        assert(!has_time(pv[i as int], id));
                    }
                    return Err(e);
                },
            };
            let others = tag_map_without(&point.tags, time_id);
            let tags = tag_set_collect(tag_map_values(&others));
            let unit = TimeSeries::unit(tags.clone(), date, point.value);
            proof {
                assert(has_time(pv[i as int], id));
                assert(unit@ == point_series(pv[i as int], id));
                let after = gathered(pv, id, i + 1);
                assert(after.contains_key(unit@.tags));
                assert(values_fit(after[unit@.tags].data));
            }
            groups = groups_add(groups, tags, unit);
            i = i + 1;
        }
        let series = groups_values(groups);
        proof {
            let m = gathered(pv, id, pv.len() as int);
            let vs = views(series@);
            lemma_gathered_keys(pv, id, pv.len() as int);
            let keys = choose|keys: Seq<Set<Seq<char>>>| keyed(keys, vs, m);
            assert forall|a: int| 0 <= a < vs.len() implies m.contains_key((#[trigger] vs[a]).tags)
                && m[vs[a].tags] == vs[a] by {
                assert(m.contains_key(keys[a]) && m[keys[a]] == vs[a]);
            }
            assert forall|k: Set<Seq<char>>| #[trigger] m.contains_key(k) implies exists|a: int|
                0 <= a < vs.len() && (#[trigger] vs[a]).tags == k by {
                let a = choose|a: int| 0 <= a < keys.len() && #[trigger] keys[a] == k;
                assert(m.contains_key(keys[a]) && m[keys[a]] == vs[a]);
                assert(vs[a].tags == k);
            }
            assert forall|a: int, b: int| 0 <= a < b < vs.len() implies (#[trigger] vs[a]).tags != (
            #[trigger] vs[b]).tags by {
                assert(m.contains_key(keys[a]) && m[keys[a]] == vs[a]);
                assert(m.contains_key(keys[b]) && m[keys[b]] == vs[b]);
                assert(keys[a] != keys[b]);
            }
        }
        Ok(series)
    }
}

} // verus!
