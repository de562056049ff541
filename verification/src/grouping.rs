use vstd::prelude::*;

use crate::error::owned;
use crate::loader::{texts, CsvSchema};
use crate::keyed::{entry_map, names_sorted};
use crate::series::{finished, fitted, padded, stamp_text, SeriesBuilder, SeriesParts};
use crate::text::{
    is_blank, is_blank_text, lemma_text_lt_irreflexive, lemma_text_lt_total,
    lemma_text_lt_transitive, text_less, text_lt,
};

verus! {

/// The cell of a row at `index`, when the row has one there and it is not blank.
pub open spec fn field_text(record: Seq<Seq<char>>, index: Option<usize>) -> Option<Seq<char>> {
    match index {
        Some(i) => if i < record.len() && !is_blank_text(record[i as int]) {
            Some(record[i as int])
        } else {
            None
        },
        None => None,
    }
}

/// The text of an optional string slice.
pub open spec fn opt_text(cell: Option<&str>) -> Option<Seq<char>> {
    match cell {
        Some(t) => Some(t@),
        None => None,
    }
}

/// The entity a row belongs to: its entity cell, or `default`.
pub open spec fn row_entity(schema: CsvSchema, record: Seq<Seq<char>>) -> Seq<char> {
    match field_text(record, schema.entity_id) {
        Some(t) => t,
        None => "default"@,
    }
}

/// The target a row measures: its target cell, else its variable-name cell, else `value`.
pub open spec fn row_target(schema: CsvSchema, record: Seq<Seq<char>>) -> Seq<char> {
    match field_text(record, schema.target) {
        Some(t) => t,
        None => match field_text(record, schema.variable_name) {
            Some(t) => t,
            None => "value"@,
        },
    }
}

/// The order of series keys: by entity, then by target.
pub open spec fn key_lt(a: (Seq<char>, Seq<char>), b: (Seq<char>, Seq<char>)) -> bool {
    text_lt(a.0, b.0) || (a.0 == b.0 && text_lt(a.1, b.1))
}

/// The key of a series under construction.
pub open spec fn builder_key<T>(b: SeriesBuilder<T>) -> (Seq<char>, Seq<char>) {
    (b.spec_entity_id(), b.spec_target())
}

/// Series strictly ordered by key (so no key occurs twice).
pub open spec fn keys_sorted<T>(bs: Seq<SeriesBuilder<T>>) -> bool {
    forall|i: int, j: int|
        0 <= i < j < bs.len() ==> key_lt(builder_key(#[trigger] bs[i]), builder_key(#[trigger] bs[j]))
}

/// Whether some series has `key`.
pub open spec fn has_key<T>(bs: Seq<SeriesBuilder<T>>, key: (Seq<char>, Seq<char>)) -> bool {
    exists|i: int| 0 <= i < bs.len() && builder_key(#[trigger] bs[i]) == key
}

/// Every column of `cols` padded with `missing` to length `n`.
pub open spec fn padded_columns<T>(cols: Map<Seq<char>, Seq<T>>, n: int, missing: T) -> Map<
    Seq<char>,
    Seq<T>,
> {
    Map::new(|k: Seq<char>| cols.contains_key(k), |k: Seq<char>| padded(cols[k], n, missing))
}

/// The columns after appending `vals` to the columns `names` in order, in a series of `rows`
/// values: each column is first padded with `missing` to the rows before the last.
pub open spec fn with_covariates<T>(
    cols: Map<Seq<char>, Seq<T>>,
    rows: int,
    names: Seq<Seq<char>>,
    vals: Seq<T>,
    missing: T,
) -> Map<Seq<char>, Seq<T>>
    decreases names.len(),
{
    if names.len() == 0 || vals.len() == 0 {
        cols
    } else {
        let m = with_covariates(cols, rows, names.drop_last(), vals.drop_last(), missing);
        let name = names.last();
        m.insert(
            name,
            padded(
                if m.contains_key(name) {
                    m[name]
                } else {
                    Seq::<T>::empty()
                },
                rows - 1,
                missing,
            ).push(vals.last()),
        )
    }
}

/// `after` is a series with the given values, timestamps and columns after one more row: the
/// value, the timestamp text, the existing columns padded to the earlier rows, then each
/// covariate value appended to its column in schema order.
pub open spec fn row_applied<T>(
    values: Seq<T>,
    stamps: Seq<Seq<char>>,
    cols: Map<Seq<char>, Seq<T>>,
    after: SeriesBuilder<T>,
    stamp: Seq<char>,
    value: T,
    names: Seq<Seq<char>>,
    vals: Seq<T>,
    missing: T,
) -> bool {
    &&& after.values_view() == values.push(value)
    &&& after.timestamps_view() == stamps.push(stamp)
    &&& after.columns_view() == with_covariates(
        padded_columns(cols, values.len() as int, missing),
        values.len() + 1 as int,
        names,
        vals,
        missing,
    )
}

/// The covariate names of a schema, in schema order.
pub open spec fn covariate_names(schema: CsvSchema) -> Seq<Seq<char>> {
    schema.covariates@.map_values(|c: (String, usize)| c.0@)
}

/// The cell of `record` at `index`, when there is one and it is not blank.
pub fn field(record: &Vec<String>, index: Option<usize>) -> (cell: Option<&str>)
    ensures
        opt_text(cell) == field_text(texts(record@), index),
{
    match index {
        Some(i) => {
            if i < record.len() {
                let cell = record[i].as_str();
                if is_blank(cell) {
                    None
                } else {
                    Some(cell)
                }
            } else {
                None
            }
        },
        None => None,
    }
}

/// The (entity, target) key that a row is grouped under.
pub fn series_key(schema: &CsvSchema, record: &Vec<String>) -> (key: (String, String))
    ensures
        key.0@ == row_entity(*schema, texts(record@)),
        key.1@ == row_target(*schema, texts(record@)),
{
    let entity = match field(record, schema.entity_id) {
        Some(t) => owned(t),
        None => owned("default"),
    };
    let target = match field(record, schema.target) {
        Some(t) => owned(t),
        None => match field(record, schema.variable_name) {
            Some(t) => owned(t),
            None => owned("value"),
        },
    };
    (entity, target)
}

/// Whether two texts are equal, decided by the order alone.
fn same_text(a: &str, b: &str) -> (r: bool)
    ensures
        r == (a@ == b@),
{
    let r = !text_less(a, b) && !text_less(b, a);
    proof {
        if a@ == b@ {
            lemma_text_lt_irreflexive(a@);
        } else {
            lemma_text_lt_total(a@, b@);
        }
    }
    r
}

fn key_less(e1: &str, t1: &str, e2: &str, t2: &str) -> (r: bool)
    ensures
        r == key_lt((e1@, t1@), (e2@, t2@)),
{
    text_less(e1, e2) || (same_text(e1, e2) && text_less(t1, t2))
}

proof fn lemma_key_lt_irreflexive(a: (Seq<char>, Seq<char>))
    ensures
        !key_lt(a, a),
{
    lemma_text_lt_irreflexive(a.0);
    lemma_text_lt_irreflexive(a.1);
}

proof fn lemma_key_lt_transitive(a: (Seq<char>, Seq<char>), b: (Seq<char>, Seq<char>), c: (Seq<char>, Seq<char>))
    requires
        key_lt(a, b),
        key_lt(b, c),
    ensures
        key_lt(a, c),
{
    if text_lt(a.0, b.0) && text_lt(b.0, c.0) {
        lemma_text_lt_transitive(a.0, b.0, c.0);
    } else if text_lt(a.1, b.1) && text_lt(b.1, c.1) && a.0 == b.0 && b.0 == c.0 {
        lemma_text_lt_transitive(a.1, b.1, c.1);
    }
}

proof fn lemma_key_lt_total(a: (Seq<char>, Seq<char>), b: (Seq<char>, Seq<char>))
    requires
        a != b,
    ensures
        key_lt(a, b) || key_lt(b, a),
{
    if a.0 != b.0 {
        lemma_text_lt_total(a.0, b.0);
    } else {
        assert(a.1 != b.1);
        lemma_text_lt_total(a.1, b.1);
    }
}

/// The number of values over all series.
pub open spec fn total_values<T>(bs: Seq<SeriesBuilder<T>>) -> nat
    decreases bs.len(),
{
    if bs.len() == 0 {
        0
    } else {
        total_values(bs.drop_last()) + bs.last().values_view().len()
    }
}

proof fn lemma_total_values_update<T>(bs: Seq<SeriesBuilder<T>>, i: int, b: SeriesBuilder<T>)
    requires
        0 <= i < bs.len(),
    ensures
        total_values(bs.update(i, b)) + bs[i].values_view().len() == total_values(bs)
            + b.values_view().len(),
    decreases bs.len(),
{
    let u = bs.update(i, b);
    if i == bs.len() - 1 {
        assert(u.drop_last() =~= bs.drop_last());
    } else {
        lemma_total_values_update(bs.drop_last(), i, b);
        assert(u.drop_last() =~= bs.drop_last().update(i, b));
        assert(u.last() == bs.last());
    }
}

proof fn lemma_total_values_insert<T>(bs: Seq<SeriesBuilder<T>>, i: int, b: SeriesBuilder<T>)
    requires
        0 <= i <= bs.len(),
    ensures
        total_values(bs.insert(i, b)) == total_values(bs) + b.values_view().len(),
    decreases bs.len(),
{
    let u = bs.insert(i, b);
    if i == bs.len() {
        assert(u.drop_last() =~= bs);
        assert(u.last() == b);
    } else {
        lemma_total_values_insert(bs.drop_last(), i, b);
        assert(u.drop_last() =~= bs.drop_last().insert(i, b));
        assert(u.last() == bs.last());
    }
}

/// What a series under construction holds: its values, its timestamp texts and its covariate
/// columns by name.
pub open spec fn state_of<T>(b: SeriesBuilder<T>) -> (Seq<T>, Seq<Seq<char>>, Map<Seq<char>, Seq<T>>) {
    (b.values_view(), b.timestamps_view(), b.columns_view())
}

/// What each series holds, by key.
pub open spec fn states_by_key<T>(bs: Seq<SeriesBuilder<T>>) -> Map<
    (Seq<char>, Seq<char>),
    (Seq<T>, Seq<Seq<char>>, Map<Seq<char>, Seq<T>>),
>
    decreases bs.len(),
{
    if bs.len() == 0 {
        Map::empty()
    } else {
        states_by_key(bs.drop_last()).insert(builder_key(bs.last()), state_of(bs.last()))
    }
}

/// A series that holds nothing yet.
pub open spec fn empty_state<T>() -> (Seq<T>, Seq<Seq<char>>, Map<Seq<char>, Seq<T>>) {
    (Seq::<T>::empty(), Seq::<Seq<char>>::empty(), Map::<Seq<char>, Seq<T>>::empty())
}

/// A series after one more row: the value and timestamp appended, the columns padded to the earlier
/// rows, then the covariate values appended to the named columns in order.
pub open spec fn state_step<T>(
    state: (Seq<T>, Seq<Seq<char>>, Map<Seq<char>, Seq<T>>),
    stamp: Seq<char>,
    value: T,
    names: Seq<Seq<char>>,
    vals: Seq<T>,
    missing: T,
) -> (Seq<T>, Seq<Seq<char>>, Map<Seq<char>, Seq<T>>) {
    (
        state.0.push(value),
        state.1.push(stamp),
        with_covariates(
            padded_columns(state.2, state.0.len() as int, missing),
            state.0.len() + 1 as int,
            names,
            vals,
            missing,
        ),
    )
}

/// The series by key after one more row with the given key.
pub open spec fn rows_step<T>(
    states: Map<(Seq<char>, Seq<char>), (Seq<T>, Seq<Seq<char>>, Map<Seq<char>, Seq<T>>)>,
    key: (Seq<char>, Seq<char>),
    stamp: Seq<char>,
    value: T,
    names: Seq<Seq<char>>,
    vals: Seq<T>,
    missing: T,
) -> Map<(Seq<char>, Seq<char>), (Seq<T>, Seq<Seq<char>>, Map<Seq<char>, Seq<T>>)> {
    states.insert(
        key,
        state_step(
            if states.contains_key(key) {
                states[key]
            } else {
                empty_state()
            },
            stamp,
            value,
            names,
            vals,
            missing,
        ),
    )
}

/// The series by key built from rows with the given keys, timestamps, values and covariate values,
/// rows taken in order.
pub open spec fn grouped_states<T>(
    keys: Seq<(Seq<char>, Seq<char>)>,
    stamps: Seq<Seq<char>>,
    values: Seq<T>,
    vals: Seq<Seq<T>>,
    names: Seq<Seq<char>>,
    missing: T,
) -> Map<(Seq<char>, Seq<char>), (Seq<T>, Seq<Seq<char>>, Map<Seq<char>, Seq<T>>)>
    decreases keys.len(),
{
    if keys.len() == 0 || stamps.len() == 0 || values.len() == 0 || vals.len() == 0 {
        Map::empty()
    } else {
        rows_step(
            grouped_states(
                keys.drop_last(),
                stamps.drop_last(),
                values.drop_last(),
                vals.drop_last(),
                names,
                missing,
            ),
            keys.last(),
            stamps.last(),
            values.last(),
            names,
            vals.last(),
            missing,
        )
    }
}

/// The items of the rows whose key is `key`, in row order.
pub open spec fn items_with_key<A>(keys: Seq<(Seq<char>, Seq<char>)>, items: Seq<A>, key: (Seq<char>, Seq<char>)) -> Seq<A>
    decreases keys.len(),
{
    if keys.len() == 0 || items.len() == 0 {
        Seq::empty()
    } else {
        let rest = items_with_key(keys.drop_last(), items.drop_last(), key);
        if keys.last() == key {
            rest.push(items.last())
        } else {
            rest
        }
    }
}

proof fn lemma_items_with_key_absent<A>(keys: Seq<(Seq<char>, Seq<char>)>, items: Seq<A>, key: (Seq<char>, Seq<char>))
    requires
        forall|i: int| 0 <= i < keys.len() ==> keys[i] != key,
    ensures
        items_with_key(keys, items, key) == Seq::<A>::empty(),
    decreases keys.len(),
{
    if keys.len() > 0 && items.len() > 0 {
        let pk = keys.drop_last();
        assert forall|i: int| 0 <= i < pk.len() implies pk[i] != key by {
            assert(pk[i] == keys[i]);
        }
        lemma_items_with_key_absent(pk, items.drop_last(), key);
        assert(keys.last() == keys[keys.len() - 1]);
    }
}

/// Grouping rows by key gives a series to each key that some row has, and to no other; the series
/// of a key holds exactly the values and timestamps of the rows with that key, in row order.
pub proof fn lemma_grouped_rows_by_key<T>(
    keys: Seq<(Seq<char>, Seq<char>)>,
    stamps: Seq<Seq<char>>,
    values: Seq<T>,
    vals: Seq<Seq<T>>,
    names: Seq<Seq<char>>,
    missing: T,
    key: (Seq<char>, Seq<char>),
)
    requires
        stamps.len() == keys.len(),
        values.len() == keys.len(),
        vals.len() == keys.len(),
    ensures
        grouped_states(keys, stamps, values, vals, names, missing).contains_key(key) <==> keys.contains(key),
        keys.contains(key) ==> grouped_states(keys, stamps, values, vals, names, missing)[key].0
            == items_with_key(keys, values, key),
        keys.contains(key) ==> grouped_states(keys, stamps, values, vals, names, missing)[key].1
            == items_with_key(keys, stamps, key),
    decreases keys.len(),
{
    if keys.len() > 0 {
        let pk = keys.drop_last();
        lemma_grouped_rows_by_key(pk, stamps.drop_last(), values.drop_last(), vals.drop_last(), names, missing, key);
        if keys.last() == key {
            assert(keys.contains(key)) by {
                assert(keys[keys.len() - 1] == key);
            }
            if !pk.contains(key) {
                assert forall|i: int| 0 <= i < pk.len() implies pk[i] != key by {}
                lemma_items_with_key_absent(pk, values.drop_last(), key);
                lemma_items_with_key_absent(pk, stamps.drop_last(), key);
            }
        } else {
            if keys.contains(key) {
                let i = choose|i: int| 0 <= i < keys.len() && keys[i] == key;
                assert(pk[i] == key);
            }
            if pk.contains(key) {
                let i = choose|i: int| 0 <= i < pk.len() && pk[i] == key;
                assert(keys[i] == key);
            }
        }
    }
}

/// No two series share a key.
pub open spec fn keys_distinct<T>(bs: Seq<SeriesBuilder<T>>) -> bool {
    forall|i: int, j: int|
        0 <= i < bs.len() && 0 <= j < bs.len() && i != j ==> builder_key(#[trigger] bs[i])
            != builder_key(#[trigger] bs[j])
}

proof fn lemma_sorted_keys_distinct<T>(bs: Seq<SeriesBuilder<T>>)
    requires
        keys_sorted(bs),
    ensures
        keys_distinct(bs),
{
    assert forall|i: int, j: int|
        0 <= i < bs.len() && 0 <= j < bs.len() && i != j implies builder_key(#[trigger] bs[i])
            != builder_key(#[trigger] bs[j]) by {
        if i < j {
            assert(key_lt(builder_key(bs[i]), builder_key(bs[j])));
            lemma_key_lt_irreflexive(builder_key(bs[i]));
        } else {
            assert(key_lt(builder_key(bs[j]), builder_key(bs[i])));
            lemma_key_lt_irreflexive(builder_key(bs[j]));
        }
    }
}

proof fn lemma_states_lookup<T>(bs: Seq<SeriesBuilder<T>>, i: int)
    requires
        keys_distinct(bs),
        0 <= i < bs.len(),
    ensures
        states_by_key(bs).contains_key(builder_key(bs[i])),
        states_by_key(bs)[builder_key(bs[i])] == state_of(bs[i]),
    decreases bs.len(),
{
    let prefix = bs.drop_last();
    if i < bs.len() - 1 {
        assert forall|a: int, b: int|
            0 <= a < prefix.len() && 0 <= b < prefix.len() && a != b implies builder_key(
            #[trigger] prefix[a],
        ) != builder_key(#[trigger] prefix[b]) by {
            assert(prefix[a] == bs[a] && prefix[b] == bs[b]);
        }
        assert(prefix[i] == bs[i]);
        lemma_states_lookup(prefix, i);
        assert(bs.last() == bs[bs.len() - 1]);
    }
}

proof fn lemma_states_absent<T>(bs: Seq<SeriesBuilder<T>>, key: (Seq<char>, Seq<char>))
    requires
        !has_key(bs, key),
    ensures
        !states_by_key(bs).contains_key(key),
    decreases bs.len(),
{
    if bs.len() > 0 {
        let prefix = bs.drop_last();
        assert(!has_key(prefix, key)) by {
            if has_key(prefix, key) {
                let i = choose|i: int| 0 <= i < prefix.len() && builder_key(#[trigger] prefix[i]) == key;
                assert(bs[i] == prefix[i]);
            }
        }
        lemma_states_absent(prefix, key);
        assert(bs.last() == bs[bs.len() - 1]);
    }
}

proof fn lemma_states_update<T>(bs: Seq<SeriesBuilder<T>>, i: int, b: SeriesBuilder<T>)
    requires
        keys_distinct(bs),
        0 <= i < bs.len(),
        builder_key(b) == builder_key(bs[i]),
    ensures
        states_by_key(bs.update(i, b)) == states_by_key(bs).insert(builder_key(b), state_of(b)),
    decreases bs.len(),
{
    let u = bs.update(i, b);
    let prefix = bs.drop_last();
    if i == bs.len() - 1 {
        assert(u.drop_last() =~= prefix);
        assert(states_by_key(u) =~= states_by_key(bs).insert(builder_key(b), state_of(b)));
    } else {
        assert forall|a: int, c: int|
            0 <= a < prefix.len() && 0 <= c < prefix.len() && a != c implies builder_key(
            #[trigger] prefix[a],
        ) != builder_key(#[trigger] prefix[c]) by {
            assert(prefix[a] == bs[a] && prefix[c] == bs[c]);
        }
        assert(prefix[i] == bs[i]);
        lemma_states_update(prefix, i, b);
        assert(u.drop_last() =~= prefix.update(i, b));
        assert(u.last() == bs.last());
        assert(bs.last() == bs[bs.len() - 1]);
        assert(builder_key(bs.last()) != builder_key(b));
        assert(states_by_key(u) =~= states_by_key(bs).insert(builder_key(b), state_of(b)));
    }
}

proof fn lemma_states_insert<T>(bs: Seq<SeriesBuilder<T>>, i: int, b: SeriesBuilder<T>)
    requires
        0 <= i <= bs.len(),
        !has_key(bs, builder_key(b)),
    ensures
        states_by_key(bs.insert(i, b)) == states_by_key(bs).insert(builder_key(b), state_of(b)),
    decreases bs.len(),
{
    let u = bs.insert(i, b);
    if i == bs.len() {
        assert(u.drop_last() =~= bs);
        assert(u.last() == b);
    } else {
        let prefix = bs.drop_last();
        assert(!has_key(prefix, builder_key(b))) by {
            if has_key(prefix, builder_key(b)) {
                let j = choose|j: int| 0 <= j < prefix.len() && builder_key(#[trigger] prefix[j]) == builder_key(b);
                assert(bs[j] == prefix[j]);
            }
        }
        lemma_states_insert(prefix, i, b);
        assert(u.drop_last() =~= prefix.insert(i, b));
        assert(u.last() == bs.last());
        assert(bs.last() == bs[bs.len() - 1]);
        assert(builder_key(bs.last()) != builder_key(b));
        assert(states_by_key(u) =~= states_by_key(bs).insert(builder_key(b), state_of(b)));
    }
}

/// The series of a CSV load, one per (entity, target) key, kept in key order.
#[derive(Debug)]
pub struct SeriesGroups<T> {
    groups: Vec<SeriesBuilder<T>>,
}

impl<T> SeriesGroups<T> {
    #[verifier::type_invariant]
    spec fn well_formed(self) -> bool {
        keys_sorted(self.groups@)
    }

    /// The series so far, in key order.
    pub closed spec fn builders(self) -> Seq<SeriesBuilder<T>> {
        self.groups@
    }
}

impl<T: Copy> SeriesGroups<T> {
    /// No series yet.
    pub fn new() -> (groups: Self)
        ensures
            groups.builders() == Seq::<SeriesBuilder<T>>::empty(),
    {
        SeriesGroups { groups: Vec::new() }
    }

    /// The number of series.
    pub fn len(&self) -> (n: usize)
        ensures
            n == self.builders().len(),
    {
        self.groups.len()
    }

    /// Whether there is no series.
    pub fn is_empty(&self) -> (r: bool)
        ensures
            r == (self.builders().len() == 0),
    {
        self.groups.len() == 0
    }

    /// Adds one CSV row: the row goes to the series of its (entity, target) key, created empty in
    /// key order when new; it adds the row's value and timestamp, then each covariate value in
    /// schema order. Returns the position of that series.
    pub fn push_row(
        &mut self,
        schema: &CsvSchema,
        record: &Vec<String>,
        value: T,
        covariate_values: &Vec<T>,
        missing: T,
    ) -> (index: usize)
        requires
            covariate_values@.len() == schema.covariates@.len(),
        ensures
            ({
                let key = (row_entity(*schema, texts(record@)), row_target(*schema, texts(record@)));
                let before = old(self).builders();
                let after = final(self).builders();
                let stamp = match field_text(texts(record@), schema.timestamp) {
                    Some(t) => t,
                    None => Seq::<char>::empty(),
                };
                &&& keys_sorted(after)
                &&& total_values(after) == total_values(before) + 1
                &&& states_by_key(after) == rows_step(
                    states_by_key(before),
                    key,
                    stamp,
                    value,
                    covariate_names(*schema),
                    covariate_values@,
                    missing,
                )
                &&& index < after.len()
                &&& builder_key(after[index as int]) == key
                &&& if has_key(before, key) {
                    &&& after.len() == before.len()
                    &&& builder_key(before[index as int]) == key
                    &&& forall|i: int| 0 <= i < after.len() && i != index ==> after[i] == before[i]
                    &&& row_applied(
                        before[index as int].values_view(),
                        before[index as int].timestamps_view(),
                        before[index as int].columns_view(),
                        after[index as int],
                        stamp,
                        value,
                        covariate_names(*schema),
                        covariate_values@,
                        missing,
                    )
                } else {
                    &&& after.len() == before.len() + 1
                    &&& after.remove(index as int) == before
                    &&& row_applied(
                        Seq::<T>::empty(),
                        Seq::<Seq<char>>::empty(),
                        Map::<Seq<char>, Seq<T>>::empty(),
                        after[index as int],
                        stamp,
                        value,
                        covariate_names(*schema),
                        covariate_values@,
                        missing,
                    )
                }
            }),
    {
        proof {
            use_type_invariant(&*self);
        }
        let (entity, target) = series_key(schema, record);
        let mut groups: Vec<SeriesBuilder<T>> = Vec::new();
        std::mem::swap(&mut groups, &mut self.groups);
        let ghost before = groups@;
        let ghost key = (entity@, target@);
        let mut i: usize = 0;
        while i < groups.len() && key_less(
            groups[i].entity_id(),
            groups[i].target(),
            entity.as_str(),
            target.as_str(),
        )
            invariant
                groups@ == before,
                keys_sorted(before),
                key == (entity@, target@),
                i <= before.len(),
                forall|k: int| 0 <= k < i ==> key_lt(builder_key(#[trigger] before[k]), key),
            decreases before.len() - i,
        {
            i = i + 1;
        }
        let found = i < groups.len() && same_text(groups[i].entity_id(), entity.as_str())
            && same_text(groups[i].target(), target.as_str());
        proof {
            lemma_key_lt_irreflexive(key);
            if found {
                assert(builder_key(before[i as int]) == key);
            } else {
                if i < before.len() {
                    assert(!key_lt(builder_key(before[i as int]), key));
                    assert(builder_key(before[i as int]) != key);
                    lemma_key_lt_total(builder_key(before[i as int]), key);
                }
                assert forall|k: int| 0 <= k < before.len() implies builder_key(#[trigger] before[k]) != key by {
                    if k < i {
                        assert(key_lt(builder_key(before[k]), key));
                    } else if k > i {
                        assert(key_lt(builder_key(before[i as int]), builder_key(before[k])));
                        lemma_key_lt_transitive(key, builder_key(before[i as int]), builder_key(before[k]));
                    }
                }
            }
        }
        let mut builder = if found {
            groups.remove(i)
        } else {
            SeriesBuilder::new(entity, target)
        };
        let ghost start = builder;
        let timestamp = field(record, schema.timestamp);
        builder.push_value(timestamp, value, missing);
        let ghost names = covariate_names(*schema);
        let ghost rows: int = start.values_view().len() as int + 1;
        let ghost base = padded_columns(start.columns_view(), start.values_view().len() as int, missing);
        assert(builder.columns_view() =~= base);
        let mut k: usize = 0;
        while k < schema.covariates.len()
            invariant
                k <= schema.covariates@.len(),
                names == covariate_names(*schema),
                covariate_values@.len() == schema.covariates@.len(),
                builder_key(builder) == builder_key(start),
                builder.values_view() == start.values_view().push(value),
                builder.timestamps_view() == start.timestamps_view().push(stamp_text(timestamp)),
                rows == start.values_view().len() + 1,
                builder.columns_view() == with_covariates(
                    base,
                    rows,
                    names.take(k as int),
                    covariate_values@.take(k as int),
                    missing,
                ),
            decreases schema.covariates@.len() - k,
        {
            let ghost prev = builder;
            builder.push_covariate(schema.covariates[k].0.as_str(), covariate_values[k], missing);
            proof {
                assert(names.take(k + 1).drop_last() =~= names.take(k as int));
                assert(covariate_values@.take(k + 1).drop_last() =~= covariate_values@.take(k as int));
                assert(names.take(k + 1).last() == schema.covariates@[k as int].0@);
                assert(covariate_values@.take(k + 1).last() == covariate_values@[k as int]);
            }
            k = k + 1;
        }
        proof {
            assert(names.take(names.len() as int) =~= names);
            assert(covariate_values@.take(covariate_values@.len() as int) =~= covariate_values@);
            assert(stamp_text(timestamp) == match field_text(texts(record@), schema.timestamp) {
                Some(t) => t,
                None => Seq::<char>::empty(),
            });
        }
        let ghost mid = groups@;
        groups.insert(i, builder);
        proof {
            let after = groups@;
            lemma_sorted_keys_distinct(before);
            if found {
                assert(mid =~= before.remove(i as int));
                assert(after =~= before.update(i as int, builder));
                lemma_total_values_update(before, i as int, builder);
                lemma_states_lookup(before, i as int);
                lemma_states_update(before, i as int, builder);
                assert forall|a: int| 0 <= a < after.len() && a != i implies after[a] == before[a] by {
                    if a < i {
                        assert(after[a] == mid[a]);
                    } else {
                        assert(after[a] == mid[a - 1]);
                    }
                }
                assert forall|a: int, b: int| 0 <= a < b < after.len() implies key_lt(
                    builder_key(#[trigger] after[a]),
                    builder_key(#[trigger] after[b]),
                ) by {
                    if a != i && b != i {
                        assert(after[a] == before[a] && after[b] == before[b]);
                    } else if a == i {
                        assert(after[b] == before[b]);
                        assert(key_lt(builder_key(before[a]), builder_key(before[b])));
                    } else {
                        assert(after[a] == before[a]);
                        assert(key_lt(builder_key(before[a]), builder_key(before[b])));
                    }
                }
            } else {
                assert(mid == before);
                assert(after.remove(i as int) =~= before);
                assert(after =~= before.insert(i as int, builder));
                lemma_total_values_insert(before, i as int, builder);
                lemma_states_absent(before, key);
                lemma_states_insert(before, i as int, builder);
                assert forall|a: int, b: int| 0 <= a < b < after.len() implies key_lt(
                    builder_key(#[trigger] after[a]),
                    builder_key(#[trigger] after[b]),
                ) by {
                    if b < i {
                        assert(after[a] == before[a] && after[b] == before[b]);
                    } else if b == i {
                        assert(after[a] == before[a]);
                    } else if a < i {
                        assert(after[a] == before[a] && after[b] == before[b - 1]);
                        assert(key_lt(key, builder_key(before[i as int])));
                        lemma_key_lt_transitive(builder_key(before[a]), key, builder_key(before[i as int]));
                        if b - 1 > i {
                            lemma_key_lt_transitive(
                                builder_key(before[a]),
                                builder_key(before[i as int]),
                                builder_key(before[b - 1]),
                            );
                        }
                    } else if a == i {
                        assert(after[b] == before[b - 1]);
                        if b - 1 > i {
                            lemma_key_lt_transitive(key, builder_key(before[i as int]), builder_key(before[b - 1]));
                        }
                    } else {
                        assert(after[a] == before[a - 1] && after[b] == before[b - 1]);
                    }
                }
            }
        }
        self.groups = groups;
        i
    }

    /// The finished series in key order.
    pub fn finish(self, missing: T) -> (series: Vec<SeriesParts<T>>)
        ensures
            series@.len() == self.builders().len(),
            forall|i: int| 0 <= i < series@.len() ==> finished(self.builders()[i], #[trigger] series@[i], missing),
            forall|i: int, j: int|
                0 <= i < j < series@.len() ==> key_lt(
                    ((#[trigger] series@[i]).entity_id@, series@[i].target@),
                    ((#[trigger] series@[j]).entity_id@, series@[j].target@),
                ),
    {
        proof {
            use_type_invariant(&self);
        }
        let SeriesGroups { groups } = self;
        let ghost all = groups@;
        let mut rest = groups;
        let mut series: Vec<SeriesParts<T>> = Vec::new();
        while rest.len() > 0
            invariant
                series@.len() + rest@.len() == all.len(),
                forall|i: int| 0 <= i < rest@.len() ==> #[trigger] rest@[i] == all[i + series@.len()],
                forall|i: int| 0 <= i < series@.len() ==> finished(all[i], #[trigger] series@[i], missing),
            decreases rest@.len(),
        {
            let ghost k = series@.len();
            let builder = rest.remove(0);
            assert(builder == all[k as int]);
            series.push(builder.finish(missing));
            assert forall|i: int| 0 <= i < rest@.len() implies #[trigger] rest@[i] == all[i + series@.len()] by {
            }
        }
        proof {
            assert forall|i: int, j: int| 0 <= i < j < series@.len() implies key_lt(
                ((#[trigger] series@[i]).entity_id@, series@[i].target@),
                ((#[trigger] series@[j]).entity_id@, series@[j].target@),
            ) by {
                assert(finished(all[i], series@[i], missing));
                assert(finished(all[j], series@[j], missing));
                assert(key_lt(builder_key(all[i]), builder_key(all[j])));
            }
        }
        series
    }
}

/// The (entity, target) keys of CSV rows, in row order.
pub open spec fn row_keys(schema: CsvSchema, records: Seq<Vec<String>>) -> Seq<(Seq<char>, Seq<char>)> {
    records.map_values(
        |record: Vec<String>| (row_entity(schema, texts(record@)), row_target(schema, texts(record@))),
    )
}

/// The timestamp texts of CSV rows, in row order (empty where a row has none).
pub open spec fn row_stamps(schema: CsvSchema, records: Seq<Vec<String>>) -> Seq<Seq<char>> {
    records.map_values(
        |record: Vec<String>|
            match field_text(texts(record@), schema.timestamp) {
                Some(t) => t,
                None => Seq::<char>::empty(),
            },
    )
}

/// A finished series: its values and timestamps, and every covariate column cut or padded with
/// `missing` to the number of values.
pub open spec fn finish_state<T>(
    state: (Seq<T>, Seq<Seq<char>>, Map<Seq<char>, Seq<T>>),
    missing: T,
) -> (Seq<T>, Seq<Seq<char>>, Map<Seq<char>, Seq<T>>) {
    (
        state.0,
        state.1,
        Map::new(
            |name: Seq<char>| state.2.contains_key(name),
            |name: Seq<char>| fitted(state.2[name], state.0.len() as int, missing),
        ),
    )
}

/// Every series of a map finished.
pub open spec fn finish_states<T>(
    states: Map<(Seq<char>, Seq<char>), (Seq<T>, Seq<Seq<char>>, Map<Seq<char>, Seq<T>>)>,
    missing: T,
) -> Map<(Seq<char>, Seq<char>), (Seq<T>, Seq<Seq<char>>, Map<Seq<char>, Seq<T>>)> {
    Map::new(
        |key: (Seq<char>, Seq<char>)| states.contains_key(key),
        |key: (Seq<char>, Seq<char>)| finish_state(states[key], missing),
    )
}

/// What a finished series holds: its values, its timestamp texts and its covariate columns by name.
pub open spec fn parts_state<T>(parts: SeriesParts<T>) -> (Seq<T>, Seq<Seq<char>>, Map<Seq<char>, Seq<T>>) {
    (parts.values@, parts.timestamps@.map_values(|t: String| t@), entry_map(parts.covariates@))
}

/// What each finished series holds, by key.
pub open spec fn parts_by_key<T>(series: Seq<SeriesParts<T>>) -> Map<
    (Seq<char>, Seq<char>),
    (Seq<T>, Seq<Seq<char>>, Map<Seq<char>, Seq<T>>),
>
    decreases series.len(),
{
    if series.len() == 0 {
        Map::empty()
    } else {
        parts_by_key(series.drop_last()).insert(
            (series.last().entity_id@, series.last().target@),
            parts_state(series.last()),
        )
    }
}

proof fn lemma_parts_by_key<T>(bs: Seq<SeriesBuilder<T>>, series: Seq<SeriesParts<T>>, missing: T)
    requires
        series.len() == bs.len(),
        forall|i: int| 0 <= i < series.len() ==> finished(bs[i], #[trigger] series[i], missing),
    ensures
        parts_by_key(series) == finish_states(states_by_key(bs), missing),
    decreases bs.len(),
{
    if bs.len() > 0 {
        let pb = bs.drop_last();
        let ps = series.drop_last();
        assert forall|i: int| 0 <= i < ps.len() implies finished(pb[i], #[trigger] ps[i], missing) by {
            assert(pb[i] == bs[i] && ps[i] == series[i]);
            assert(finished(bs[i], series[i], missing));
        }
        lemma_parts_by_key(pb, ps, missing);
        let b = bs.last();
        let p = series.last();
        assert(finished(bs[bs.len() - 1], series[series.len() - 1], missing));
        assert(parts_state(p).2 =~= finish_state(state_of(b), missing).2);
        assert(parts_state(p) == finish_state(state_of(b), missing));
        assert(finish_states(states_by_key(bs), missing) =~= finish_states(states_by_key(pb), missing).insert(
            builder_key(b),
            finish_state(state_of(b), missing),
        ));
    }
}

/// Groups CSV rows into series, one per (entity, target) key in key order: each row, with its
/// value, its timestamp and its covariate values in schema order, goes to the series of its key as
/// `push_row` adds it, and the series are finished with `missing` filling covariate gaps, each
/// series listing its covariate columns in name order.
pub fn group_rows<T: Copy>(
    schema: &CsvSchema,
    records: &Vec<Vec<String>>,
    values: &Vec<T>,
    covariate_values: &Vec<Vec<T>>,
    missing: T,
) -> (series: Vec<SeriesParts<T>>)
    requires
        values@.len() == records@.len(),
        covariate_values@.len() == records@.len(),
        forall|i: int| 0 <= i < records@.len() ==> (#[trigger] covariate_values@[i])@.len() == schema.covariates@.len(),
    ensures
        parts_by_key(series@) == finish_states(
            grouped_states(
                row_keys(*schema, records@),
                row_stamps(*schema, records@),
                values@,
                covariate_values@.map_values(|v: Vec<T>| v@),
                covariate_names(*schema),
                missing,
            ),
            missing,
        ),
        forall|i: int, j: int|
            0 <= i < j < series@.len() ==> key_lt(
                ((#[trigger] series@[i]).entity_id@, series@[i].target@),
                ((#[trigger] series@[j]).entity_id@, series@[j].target@),
            ),
        forall|i: int| 0 <= i < series@.len() ==> names_sorted((#[trigger] series@[i]).covariates@),
{
    let mut groups: SeriesGroups<T> = SeriesGroups::new();
    let ghost keys = row_keys(*schema, records@);
    let ghost stamps = row_stamps(*schema, records@);
    let ghost vals = covariate_values@.map_values(|v: Vec<T>| v@);
    let ghost names = covariate_names(*schema);
    let mut r: usize = 0;
    while r < records.len()
        invariant
            r <= records@.len(),
            values@.len() == records@.len(),
            covariate_values@.len() == records@.len(),
            forall|i: int| 0 <= i < records@.len() ==> (#[trigger] covariate_values@[i])@.len() == schema.covariates@.len(),
            keys == row_keys(*schema, records@),
            stamps == row_stamps(*schema, records@),
            vals == covariate_values@.map_values(|v: Vec<T>| v@),
            names == covariate_names(*schema),
            states_by_key(groups.builders()) == grouped_states(
                keys.take(r as int),
                stamps.take(r as int),
                values@.take(r as int),
                vals.take(r as int),
                names,
                missing,
            ),
        decreases records@.len() - r,
    {
        groups.push_row(schema, &records[r], values[r], &covariate_values[r], missing);
        proof {
            assert(keys.take(r + 1).drop_last() =~= keys.take(r as int));
            assert(stamps.take(r + 1).drop_last() =~= stamps.take(r as int));
            assert(values@.take(r + 1).drop_last() =~= values@.take(r as int));
            assert(vals.take(r + 1).drop_last() =~= vals.take(r as int));
            assert(keys.take(r + 1).last() == keys[r as int]);
            assert(stamps.take(r + 1).last() == stamps[r as int]);
            assert(values@.take(r + 1).last() == values@[r as int]);
            assert(vals.take(r + 1).last() == vals[r as int]);
        }
        r = r + 1;
    }
    proof {
        assert(keys.take(r as int) =~= keys);
        assert(stamps.take(r as int) =~= stamps);
        assert(values@.take(r as int) =~= values@);
        assert(vals.take(r as int) =~= vals);
    }
    let ghost bs = groups.builders();
    let series = groups.finish(missing);
    proof {
        lemma_parts_by_key(bs, series@, missing);
        assert forall|i: int| 0 <= i < series@.len() implies names_sorted(
            (#[trigger] series@[i]).covariates@,
        ) by {
            assert(finished(bs[i], series@[i], missing));
        }
    }
    series
}

} // verus!
