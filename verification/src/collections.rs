//! The persistent ordered collections of the `im` crate, as the library sees
//! them.
//!
//! Verus does not read `im`. Each collection type is declared opaque, what a
//! collection holds is given a name, and each method that the library calls
//! stands behind a small function whose contract says, over those names, what
//! the method does. The contracts of the functions marked `external_body`
//! and of the two `assume_specification` items are not proved: they restate
//! the documentation and source of `im`, and everything else in the library
//! is proved from them. A name is needed for each type of collection that
//! the library holds, and so is each function below.

use vstd::prelude::*;

use crate::group::views;
use crate::series::{merge_view, SeriesView, TimeSeries};

verus! {

/// `im::OrdMap`, the persistent ordered map. Nothing is seen of a value of
/// it but through the names and functions below.
#[verifier::external_type_specification]
#[verifier::external_body]
#[verifier::reject_recursive_types(K)]
#[verifier::reject_recursive_types(V)]
pub struct ExOrdMap<K, V>(im::OrdMap<K, V>);

/// `im::OrdSet`, the persistent ordered set. Nothing is seen of a value of
/// it but through the names and functions below.
#[verifier::external_type_specification]
#[verifier::external_body]
#[verifier::reject_recursive_types(A)]
pub struct ExOrdSet<A>(im::OrdSet<A>);

/// `Clone::clone` of an `im::OrdMap`: the copy is the same map.
pub assume_specification<K, V>[ <im::OrdMap<K, V> as Clone>::clone ](m: &im::OrdMap<K, V>) -> (r:
    im::OrdMap<K, V>)
    ensures
        r == *m,
;

/// `Clone::clone` of an `im::OrdSet`: the copy is the same set.
pub assume_specification<A>[ <im::OrdSet<A> as Clone>::clone ](s: &im::OrdSet<A>) -> (r: im::OrdSet<
    A,
>)
    ensures
        r == *s,
;

/// The entries of a map from day numbers to values.
pub uninterp spec fn date_values(m: im::OrdMap<i32, i64>) -> Map<int, int>;

/// The entries of a map from dimension ids to labels.
pub uninterp spec fn tag_map(m: im::OrdMap<String, String>) -> Map<Seq<char>, Seq<char>>;

/// The entries of a map from layout positions to value ids.
pub uninterp spec fn position_ids(m: im::OrdMap<u64, String>) -> Map<int, Seq<char>>;

/// The entries of a map from tag sets to series.
pub uninterp spec fn grouped_series(m: im::OrdMap<im::OrdSet<String>, TimeSeries>) -> Map<
    Set<Seq<char>>,
    SeriesView,
>;

/// The members of a set of day numbers.
pub uninterp spec fn date_set(s: im::OrdSet<i32>) -> Set<int>;

/// The members of a set of tags.
pub uninterp spec fn tag_set(s: im::OrdSet<String>) -> Set<Seq<char>>;

/// A sequence of machine pairs as pairs of integers.
pub open spec fn pairs(v: Seq<(i32, i64)>) -> Seq<(int, int)> {
    Seq::new(v.len(), |i: int| (v[i].0 as int, v[i].1 as int))
}

/// Whether `s` holds the entries of `m`, each once, by ascending key.
pub open spec fn lists<V>(s: Seq<(int, V)>, m: Map<int, V>) -> bool {
    &&& forall|i: int, j: int| 0 <= i < j < s.len() ==> (#[trigger] s[i]).0 < (#[trigger] s[j]).0
    &&& forall|i: int| 0 <= i < s.len() ==> m.contains_pair((#[trigger] s[i]).0, s[i].1)
    &&& forall|k: int| #[trigger]
        m.contains_key(k) ==> exists|i: int| 0 <= i < s.len() && (#[trigger] s[i]).0 == k
}

/// The sum of two values; the closure handed to `union_with` calls it.
pub fn sum_values(a: i64, b: i64) -> (r: i64)
    requires
        i64::MIN <= a + b <= i64::MAX,
    ensures
        r == a + b,
{
    a + b
}

/// The entries of `a` and `b` together, the values of shared days summed.
pub open spec fn merged(a: Map<int, int>, b: Map<int, int>) -> Map<int, int> {
    Map::new(
        |k: int| a.contains_key(k) || b.contains_key(k),
        |k: int|
            if a.contains_key(k) && b.contains_key(k) {
                a[k] + b[k]
            } else if a.contains_key(k) {
                a[k]
            } else {
                b[k]
            },
    )
}

/// Whether every value of `m` is an `i64`.
pub open spec fn values_fit(m: Map<int, int>) -> bool {
    forall|k: int| #[trigger] m.contains_key(k) ==> i64::MIN <= m[k] <= i64::MAX
}

/// `im::OrdMap::new`: a map without entries.
#[verifier::external_body]
pub(crate) fn date_map_new() -> (r: im::OrdMap<i32, i64>)
    ensures
        date_values(r) == (Map::<int, int>::empty()),
{
    im::OrdMap::new()
}

/// `im::OrdMap::insert`: the entry for `day` is set to `value`, the others
/// stay.
#[verifier::external_body]
pub(crate) fn date_map_insert(m: &mut im::OrdMap<i32, i64>, day: i32, value: i64)
    ensures
        date_values(*final(m)) == date_values(*old(m)).insert(day as int, value as int),
{
    m.insert(day, value);
}

/// `im::OrdMap::get`: the value at `day`, if the map has one.
#[verifier::external_body]
pub(crate) fn date_map_get(m: &im::OrdMap<i32, i64>, day: i32) -> (r: Option<i64>)
    ensures
        r.is_some() == date_values(*m).contains_key(day as int),
        r matches Some(value) ==> date_values(*m)[day as int] == value,
{
    m.get(&day).copied()
}

/// `im::OrdMap::union_with` with addition: the entries of both maps, the
/// values of shared days summed.
#[verifier::external_body]
pub(crate) fn date_map_union_sum(a: im::OrdMap<i32, i64>, b: im::OrdMap<i32, i64>) -> (r:
    im::OrdMap<i32, i64>)
    requires
        values_fit(merged(date_values(a), date_values(b))),
    ensures
        date_values(r) == merged(date_values(a), date_values(b)),
{
    a.union_with(b, |x, y| sum_values(x, y))
}

/// `im::OrdMap::iter`: the entries from the lowest day to the highest.
#[verifier::external_body]
pub(crate) fn date_map_entries(m: &im::OrdMap<i32, i64>) -> (r: Vec<(i32, i64)>)
    ensures
        lists(pairs(r@), date_values(*m)),
{
    m.iter().map(|entry| (*entry.0, *entry.1)).collect()
}

/// The numbers that occur in `v`.
pub open spec fn members(v: Seq<i32>) -> Set<int> {
    Set::new(|day: int| exists|i: int| 0 <= i < v.len() && #[trigger] v[i] == day)
}

/// `FromIterator::from_iter` of `im::OrdSet`: the set of the day numbers
/// handed in.
#[verifier::external_body]
pub(crate) fn date_set_collect(days: Vec<i32>) -> (r: im::OrdSet<i32>)
    ensures
        date_set(r) == members(days@),
{
    days.into_iter().collect()
}

/// `im::OrdSet::unit`: the set of one tag.
#[verifier::external_body]
pub(crate) fn tag_set_unit(tag: String) -> (r: im::OrdSet<String>)
    ensures
        tag_set(r) == set![tag@],
{
    im::OrdSet::unit(tag)
}

/// `im::OrdSet::union`: the tags of either set.
#[verifier::external_body]
pub(crate) fn tag_set_union(a: im::OrdSet<String>, b: im::OrdSet<String>) -> (r: im::OrdSet<String>)
    ensures
        tag_set(r) == tag_set(a).union(tag_set(b)),
{
    a.union(b)
}

/// `im::OrdSet::contains`: whether `tag` is a member.
#[verifier::external_body]
pub(crate) fn tag_set_contains(s: &im::OrdSet<String>, tag: &str) -> (r: bool)
    ensures
        r == tag_set(*s).contains(tag@),
{
    s.contains(tag)
}

/// The texts that occur in `v`.
pub open spec fn texts(v: Seq<String>) -> Set<Seq<char>> {
    Set::new(|text: Seq<char>| exists|i: int| 0 <= i < v.len() && (#[trigger] v[i])@ == text)
}

/// `FromIterator::from_iter` of `im::OrdSet`: the set of the tags handed in.
#[verifier::external_body]
pub(crate) fn tag_set_collect(tags: Vec<String>) -> (r: im::OrdSet<String>)
    ensures
        tag_set(r) == texts(tags@),
{
    tags.into_iter().collect()
}

/// `im::OrdMap::new`: a map without entries.
#[verifier::external_body]
pub(crate) fn tag_map_new() -> (r: im::OrdMap<String, String>)
    ensures
        tag_map(r) == (Map::<Seq<char>, Seq<char>>::empty()),
{
    im::OrdMap::new()
}

/// `im::OrdMap::update`: a map in which the entry for `key` is `value` and
/// the other entries are those of `m`.
#[verifier::external_body]
pub(crate) fn tag_map_update(m: &im::OrdMap<String, String>, key: String, value: String) -> (r:
    im::OrdMap<String, String>)
    ensures
        tag_map(r) == tag_map(*m).insert(key@, value@),
{
    m.update(key, value)
}

/// `im::OrdMap::get`: a copy of the label at `key`, if the map has one.
#[verifier::external_body]
pub(crate) fn tag_map_get(m: &im::OrdMap<String, String>, key: &str) -> (r: Option<String>)
    ensures
        r.is_some() == tag_map(*m).contains_key(key@),
        r matches Some(label) ==> tag_map(*m)[key@] == label@,
{
    m.get(key).cloned()
}

/// `im::OrdMap::without`: the entries of `m` but the one for `key`.
#[verifier::external_body]
pub(crate) fn tag_map_without(m: &im::OrdMap<String, String>, key: &str) -> (r: im::OrdMap<
    String,
    String,
>)
    ensures
        tag_map(r) == tag_map(*m).remove(key@),
{
    m.without(key)
}

/// `im::OrdMap::values`: copies of the labels that the map holds.
#[verifier::external_body]
pub(crate) fn tag_map_values(m: &im::OrdMap<String, String>) -> (r: Vec<String>)
    ensures
        texts(r@) == tag_map(*m).values(),
{
    m.values().cloned().collect()
}

/// A sequence of positions with ids as pairs of an integer and a text.
pub open spec fn position_pairs(v: Seq<(u64, String)>) -> Seq<(int, Seq<char>)> {
    Seq::new(v.len(), |i: int| (v[i].0 as int, v[i].1@))
}

/// `im::OrdMap::new`: a map without entries.
#[verifier::external_body]
pub(crate) fn position_map_new() -> (r: im::OrdMap<u64, String>)
    ensures
        position_ids(r) == (Map::<int, Seq<char>>::empty()),
{
    im::OrdMap::new()
}

/// `im::OrdMap::insert`: the entry for `position` is set to `id`, the others
/// stay.
#[verifier::external_body]
pub(crate) fn position_map_insert(m: &mut im::OrdMap<u64, String>, position: u64, id: String)
    ensures
        position_ids(*final(m)) == position_ids(*old(m)).insert(position as int, id@),
{
    m.insert(position, id);
}

/// `im::OrdMap::iter`: copies of the entries from the lowest position to the
/// highest.
#[verifier::external_body]
pub(crate) fn position_map_entries(m: &im::OrdMap<u64, String>) -> (r: Vec<(u64, String)>)
    ensures
        lists(position_pairs(r@), position_ids(*m)),
{
    m.iter().map(|entry| (*entry.0, entry.1.clone())).collect()
}

/// Whether `keys` names, for each series of `vs` in turn, the key under
/// which `m` holds it, and names every key of `m` once.
pub open spec fn keyed(
    keys: Seq<Set<Seq<char>>>,
    vs: Seq<SeriesView>,
    m: Map<Set<Seq<char>>, SeriesView>,
) -> bool {
    &&& keys.len() == vs.len()
    &&& forall|i: int, j: int|
        0 <= i < j < keys.len() ==> (#[trigger] keys[i]) != (#[trigger] keys[j])
    &&& forall|i: int|
        0 <= i < keys.len() ==> m.contains_key(#[trigger] keys[i]) && m[keys[i]] == vs[i]
    &&& forall|k: Set<Seq<char>>| #[trigger]
        m.contains_key(k) ==> exists|i: int| 0 <= i < keys.len() && #[trigger] keys[i] == k
}

/// Whether `vs` holds the series of `m`, one for each key, in some order.
pub open spec fn holds_values(vs: Seq<SeriesView>, m: Map<Set<Seq<char>>, SeriesView>) -> bool {
    exists|keys: Seq<Set<Seq<char>>>| keyed(keys, vs, m)
}

/// `im::OrdMap::new`: a map without entries.
#[verifier::external_body]
pub(crate) fn groups_new() -> (r: im::OrdMap<im::OrdSet<String>, TimeSeries>)
    ensures
        grouped_series(r) == (Map::<Set<Seq<char>>, SeriesView>::empty()),
{
    im::OrdMap::new()
}

/// `im::OrdMap::update_with` with the merge of series: where the map holds a
/// series under `key`, that series merged with `item` takes its place;
/// where it holds none, `item` is entered under `key`.
#[verifier::external_body]
pub(crate) fn groups_add(
    groups: im::OrdMap<im::OrdSet<String>, TimeSeries>,
    key: im::OrdSet<String>,
    item: TimeSeries,
) -> (r: im::OrdMap<im::OrdSet<String>, TimeSeries>)
    requires
        grouped_series(groups).contains_key(tag_set(key)) ==> values_fit(
            merged(grouped_series(groups)[tag_set(key)].data, item@.data),
        ),
    ensures
        grouped_series(r) == grouped_series(groups).insert(
            tag_set(key),
            if grouped_series(groups).contains_key(tag_set(key)) {
                merge_view(grouped_series(groups)[tag_set(key)], item@)
            } else {
                item@
            },
        ),
{
    groups.update_with(key, item, |held, new| held.merge(new))
}

/// `IntoIterator::into_iter` of `im::OrdMap`: the series that the map
/// holds, one for each key.
#[verifier::external_body]
pub(crate) fn groups_values(groups: im::OrdMap<im::OrdSet<String>, TimeSeries>) -> (r: Vec<
    TimeSeries,
>)
    ensures
        holds_values(views(r@), grouped_series(groups)),
{
    groups.into_iter().map(|entry| entry.1).collect()
}

} // verus!
