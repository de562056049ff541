use vstd::prelude::*;
use vstd::string::*;

use crate::error::owned;
use crate::keyed::{
    entry_map, lemma_entry_insert, lemma_entry_lookup, lemma_entry_absent,
    lemma_entries_pointwise, lemma_entry_update, names_sorted,
};
use crate::text::{lemma_text_lt_irreflexive, lemma_text_lt_total, lemma_text_lt_transitive, text_less, text_lt};

verus! {

/// `c` extended with `missing` up to length `n` (unchanged when already that long).
pub open spec fn padded<T>(c: Seq<T>, n: int, missing: T) -> Seq<T> {
    if c.len() < n {
        c + Seq::new((n - c.len()) as nat, |_i: int| missing)
    } else {
        c
    }
}

/// `c` cut or extended with `missing` to exactly length `n`.
pub open spec fn fitted<T>(c: Seq<T>, n: int, missing: T) -> Seq<T> {
    if c.len() >= n {
        c.subrange(0, n)
    } else {
        padded(c, n, missing)
    }
}

/// What a timestamp contributes to the series: its text, or the empty text when absent.
pub open spec fn stamp_text(timestamp: Option<&str>) -> Seq<char> {
    match timestamp {
        Some(t) => t@,
        None => Seq::<char>::empty(),
    }
}

/// `after` is `before` with one more observation: the value, its timestamp text, and every
/// covariate column padded with `missing` to the rows before this one.
pub open spec fn value_pushed<T>(
    before: SeriesBuilder<T>,
    after: SeriesBuilder<T>,
    stamp: Seq<char>,
    value: T,
    missing: T,
) -> bool {
    &&& after.spec_entity_id() == before.spec_entity_id()
    &&& after.spec_target() == before.spec_target()
    &&& after.values_view() == before.values_view().push(value)
    &&& after.timestamps_view() == before.timestamps_view().push(stamp)
    &&& after.columns_view().dom() == before.columns_view().dom()
    &&& forall|name: Seq<char>|
        #[trigger] before.columns_view().contains_key(name) ==> after.columns_view()[name] == padded(
            before.columns_view()[name],
            before.values_view().len() as int,
            missing,
        )
}

/// `after` is `before` with `value` appended to the covariate column `name` (created when new),
/// which is first padded with `missing` to the rows before the current one.
pub open spec fn covariate_pushed<T>(
    before: SeriesBuilder<T>,
    after: SeriesBuilder<T>,
    name: Seq<char>,
    value: T,
    missing: T,
) -> bool {
    &&& after.spec_entity_id() == before.spec_entity_id()
    &&& after.spec_target() == before.spec_target()
    &&& after.values_view() == before.values_view()
    &&& after.timestamps_view() == before.timestamps_view()
    &&& after.columns_view() == before.columns_view().insert(
        name,
        padded(
            if before.columns_view().contains_key(name) {
                before.columns_view()[name]
            } else {
                Seq::<T>::empty()
            },
            before.values_view().len() - 1,
            missing,
        ).push(value),
    )
}

/// `parts` is `builder` finished: the same identity, values and timestamps, and every covariate
/// column cut or padded with `missing` to the number of values, in name order.
pub open spec fn finished<T>(builder: SeriesBuilder<T>, parts: SeriesParts<T>, missing: T) -> bool {
    &&& parts.entity_id@ == builder.spec_entity_id()
    &&& parts.target@ == builder.spec_target()
    &&& parts.values@ == builder.values_view()
    &&& parts.timestamps@.map_values(|t: String| t@) == builder.timestamps_view()
    &&& names_sorted(parts.covariates@)
    &&& entry_map(parts.covariates@).dom() == builder.columns_view().dom()
    &&& forall|name: Seq<char>|
        #[trigger] builder.columns_view().contains_key(name) ==> entry_map(parts.covariates@)[name]
            == fitted(builder.columns_view()[name], builder.values_view().len() as int, missing)
}

/// Accumulates one series (values, timestamps and named covariate columns) row by row.
#[derive(Debug)]
pub struct SeriesBuilder<T> {
    entity_id: String,
    target: String,
    values: Vec<T>,
    timestamps: Vec<String>,
    covariates: Vec<(String, Vec<T>)>,
}

/// A finished series: covariate columns in name order, each as long as the values.
#[derive(Debug)]
pub struct SeriesParts<T> {
    pub entity_id: String,
    pub target: String,
    pub values: Vec<T>,
    pub timestamps: Vec<String>,
    pub covariates: Vec<(String, Vec<T>)>,
}

/// Extends `c` with `missing` up to length `n`.
fn pad_to<T: Copy>(c: &mut Vec<T>, n: usize, missing: T)
    ensures
        final(c)@ == padded(old(c)@, n as int, missing),
{
    let ghost start = c@;
    if c.len() >= n {
        return;
    }
    while c.len() < n
        invariant
            start.len() < n,
            start.len() <= c@.len() <= n,
            c@ == start + Seq::new((c@.len() - start.len()) as nat, |_i: int| missing),
        decreases n - c@.len(),
    {
        let ghost before = c@;
        c.push(missing);
        assert(c@ =~= start + Seq::new((c@.len() - start.len()) as nat, |_i: int| missing));
    }
}

impl<T> SeriesBuilder<T> {
    #[verifier::type_invariant]
    spec fn well_formed(self) -> bool {
        names_sorted(self.covariates@)
    }

    pub closed spec fn spec_entity_id(self) -> Seq<char> {
        self.entity_id@
    }

    pub closed spec fn spec_target(self) -> Seq<char> {
        self.target@
    }

    pub closed spec fn values_view(self) -> Seq<T> {
        self.values@
    }

    pub closed spec fn timestamps_view(self) -> Seq<Seq<char>> {
        self.timestamps@.map_values(|t: String| t@)
    }

    /// The covariate columns by name.
    pub closed spec fn columns_view(self) -> Map<Seq<char>, Seq<T>> {
        entry_map(self.covariates@)
    }

}

impl<T: Copy> SeriesBuilder<T> {
    /// An empty series for one entity and target.
    pub fn new(entity_id: String, target: String) -> (builder: Self)
        ensures
            builder.spec_entity_id() == entity_id@,
            builder.spec_target() == target@,
            builder.values_view() == Seq::<T>::empty(),
            builder.timestamps_view() == Seq::<Seq<char>>::empty(),
            builder.columns_view() == Map::<Seq<char>, Seq<T>>::empty(),
    {
        let b = SeriesBuilder {
            entity_id,
            target,
            values: Vec::new(),
            timestamps: Vec::new(),
            covariates: Vec::new(),
        };
        assert(b.timestamps@.map_values(|t: String| t@) =~= Seq::<Seq<char>>::empty());
        b
    }

    /// The entity this series belongs to.
    pub fn entity_id(&self) -> (r: &str)
        ensures
            r@ == self.spec_entity_id(),
    {
        self.entity_id.as_str()
    }

    /// The target this series measures.
    pub fn target(&self) -> (r: &str)
        ensures
            r@ == self.spec_target(),
    {
        self.target.as_str()
    }

    /// Appends one observation: the value, its timestamp (empty when absent), and pads every
    /// covariate column that fell behind to the rows before this one.
    pub fn push_value(&mut self, timestamp: Option<&str>, value: T, missing: T)
        ensures
            value_pushed(*old(self), *final(self), stamp_text(timestamp), value, missing),
    {
        proof {
            use_type_invariant(&*self);
        }
        let rows = self.values.len();
        let mut values: Vec<T> = Vec::new();
        std::mem::swap(&mut values, &mut self.values);
        values.push(value);
        self.values = values;
        let stamp = match timestamp {
            Some(t) => owned(t),
            None => String::new(),
        };
        let mut stamps: Vec<String> = Vec::new();
        std::mem::swap(&mut stamps, &mut self.timestamps);
        let ghost old_stamps = stamps@;
        stamps.push(stamp);
        assert(stamps@.map_values(|t: String| t@) =~= old_stamps.map_values(|t: String| t@).push(stamp@));
        self.timestamps = stamps;
        let mut columns: Vec<(String, Vec<T>)> = Vec::new();
        std::mem::swap(&mut columns, &mut self.covariates);
        let ghost before = columns@;
        let mut done: Vec<(String, Vec<T>)> = Vec::new();
        while columns.len() > 0
            invariant
                done@.len() + columns@.len() == before.len(),
                forall|i: int| 0 <= i < columns@.len() ==> #[trigger] columns@[i] == before[i + done@.len()],
                forall|i: int|
                    0 <= i < done@.len() ==> (#[trigger] done@[i]).0@ == before[i].0@ && done@[i].1@
                        == padded(before[i].1@, rows as int, missing),
            decreases columns@.len(),
        {
            let ghost k = done@.len();
            let (name, mut column) = columns.remove(0);
            assert(before[k as int].0 == name && before[k as int].1 == column);
            if column.len() < rows {
                pad_to(&mut column, rows, missing);
            }
            done.push((name, column));
            assert forall|i: int| 0 <= i < columns@.len() implies #[trigger] columns@[i] == before[i + done@.len()] by {
            }
        }
        proof {
            lemma_entries_pointwise(before, done@, |c: Seq<T>| padded(c, rows as int, missing));
            assert(names_sorted(done@)) by {
                assert forall|a: int, b: int| 0 <= a < b < done@.len() implies text_lt(
                    (#[trigger] done@[a]).0@,
                    (#[trigger] done@[b]).0@,
                ) by {
                    assert(text_lt(before[a].0@, before[b].0@));
                }
            }
        }
        self.covariates = done;
    }

    /// Appends a value to the covariate column `name`, creating it when new and first padding it
    /// to the rows before the current one.
    pub fn push_covariate(&mut self, name: &str, value: T, missing: T)
        ensures
            covariate_pushed(*old(self), *final(self), name@, value, missing),
    {
        proof {
            use_type_invariant(&*self);
        }
        let rows = self.values.len();
        let mut columns: Vec<(String, Vec<T>)> = Vec::new();
        std::mem::swap(&mut columns, &mut self.covariates);
        let ghost before = columns@;
        let mut i: usize = 0;
        while i < columns.len() && text_less(columns[i].0.as_str(), name)
            invariant
                columns@ == before,
                names_sorted(before),
                i <= before.len(),
                forall|k: int| 0 <= k < i ==> text_lt((#[trigger] before[k]).0@, name@),
            decreases before.len() - i,
        {
            i = i + 1;
        }
        let exists = i < columns.len() && columns[i].0.as_str().unicode_len() == name.unicode_len()
            && !text_less(name, columns[i].0.as_str());
        proof {
            if i < before.len() {
                if before[i as int].0@ != name@ {
                    lemma_text_lt_total(before[i as int].0@, name@);
                }
            }
        }
        if exists {
            assert(before[i as int].0@ == name@) by {
                if before[i as int].0@ != name@ {
                    lemma_text_lt_total(before[i as int].0@, name@);
                }
            }
            let (key, mut column) = columns.remove(i);
            proof {
                lemma_entry_lookup(before, i as int);
            }
            if rows > 0 && column.len() < rows - 1 {
                pad_to(&mut column, rows - 1, missing);
            }
            column.push(value);
            let ghost entry = (key, column);
            columns.insert(i, (key, column));
            proof {
                assert(columns@ =~= before.update(i as int, entry));
                lemma_entry_update(before, i as int, entry);
            }
        } else {
            proof {
                lemma_text_lt_irreflexive(name@);
                if i < before.len() {
                    assert(!text_lt(before[i as int].0@, name@));
                    if before[i as int].0@ == name@ {
                        assert(before[i as int].0@.len() == name@.len());
                    }
                    assert(before[i as int].0@ != name@);
                    lemma_text_lt_total(before[i as int].0@, name@);
                    assert(text_lt(name@, before[i as int].0@));
                }
                assert forall|k: int| 0 <= k < before.len() implies (#[trigger] before[k]).0@ != name@ by {
                    if k < i {
                        assert(text_lt(before[k].0@, name@));
                    } else if k > i {
                        assert(text_lt(before[i as int].0@, before[k].0@));
                        lemma_text_lt_transitive(name@, before[i as int].0@, before[k].0@);
                    }
                }
                lemma_entry_absent(before, name@);
            }
            let mut column: Vec<T> = Vec::new();
            if rows > 1 {
                pad_to(&mut column, rows - 1, missing);
            }
            column.push(value);
            let key = owned(name);
            columns.insert(i, (key, column));
            proof {
                if i < before.len() {
                    lemma_text_lt_total(before[i as int].0@, name@);
                    assert(before[i as int].0@ != name@);
                }
                lemma_entry_insert(before, i as int, (key, column));
            }
        }
        self.covariates = columns;
    }

    /// The finished series: every covariate column cut or padded to the number of values, columns in
    /// name order.
    pub fn finish(self, missing: T) -> (parts: SeriesParts<T>)
        ensures
            finished(self, parts, missing),
    {
        proof {
            use_type_invariant(&self);
        }
        let SeriesBuilder { entity_id, target, values, timestamps, covariates } = self;
        let rows = values.len();
        let mut columns = covariates;
        let ghost before = columns@;
        let mut done: Vec<(String, Vec<T>)> = Vec::new();
        while columns.len() > 0
            invariant
                done@.len() + columns@.len() == before.len(),
                forall|i: int| 0 <= i < columns@.len() ==> #[trigger] columns@[i] == before[i + done@.len()],
                forall|i: int|
                    0 <= i < done@.len() ==> (#[trigger] done@[i]).0@ == before[i].0@ && done@[i].1@
                        == fitted(before[i].1@, rows as int, missing),
            decreases columns@.len(),
        {
            let ghost k = done@.len();
            let (name, mut column) = columns.remove(0);
            assert(before[k as int].0 == name && before[k as int].1 == column);
            if column.len() >= rows {
                column.truncate(rows);
            } else {
                pad_to(&mut column, rows, missing);
            }
            done.push((name, column));
            assert forall|i: int| 0 <= i < columns@.len() implies #[trigger] columns@[i] == before[i + done@.len()] by {
            }
        }
        proof {
            lemma_entries_pointwise(before, done@, |c: Seq<T>| fitted(c, rows as int, missing));
            assert(names_sorted(done@)) by {
                assert forall|a: int, b: int| 0 <= a < b < done@.len() implies text_lt(
                    (#[trigger] done@[a]).0@,
                    (#[trigger] done@[b]).0@,
                ) by {
                    assert(text_lt(before[a].0@, before[b].0@));
                }
            }
        }
        SeriesParts { entity_id, target, values, timestamps, covariates: done }
    }
}

} // verus!
