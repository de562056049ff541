use vstd::prelude::*;

use crate::text::{
    lemma_text_lt_asymmetric, lemma_text_lt_irreflexive, lemma_text_lt_total, lemma_text_lt_transitive,
    text_less, text_lt,
};

verus! {

/// Entries sorted strictly by name (so no name occurs twice).
pub open spec fn names_sorted<V: View>(entries: Seq<(String, V)>) -> bool {
    forall|i: int, j: int|
        0 <= i < j < entries.len() ==> text_lt((#[trigger] entries[i]).0@, (#[trigger] entries[j]).0@)
}

/// The entries as a map from name to the view of the value.
pub open spec fn entry_map<V: View>(entries: Seq<(String, V)>) -> Map<Seq<char>, V::V>
    decreases entries.len(),
{
    if entries.len() == 0 {
        Map::empty()
    } else {
        entry_map(entries.drop_last()).insert(entries.last().0@, entries.last().1@)
    }
}

pub proof fn lemma_sorted_tail<V: View>(entries: Seq<(String, V)>)
    requires
        names_sorted(entries),
        entries.len() > 0,
    ensures
        names_sorted(entries.drop_last()),
        forall|i: int| 0 <= i < entries.len() - 1 ==> text_lt((#[trigger] entries[i]).0@, entries.last().0@),
{
    let prefix = entries.drop_last();
    assert forall|a: int, b: int| 0 <= a < b < prefix.len() implies text_lt(
        (#[trigger] prefix[a]).0@,
        (#[trigger] prefix[b]).0@,
    ) by {
        assert(prefix[a] == entries[a] && prefix[b] == entries[b]);
    }
    assert forall|i: int| 0 <= i < entries.len() - 1 implies text_lt(
        (#[trigger] entries[i]).0@,
        entries.last().0@,
    ) by {
        assert(entries.last() == entries[entries.len() - 1]);
    }
}

pub proof fn lemma_entry_absent<V: View>(entries: Seq<(String, V)>, name: Seq<char>)
    requires
        forall|i: int| 0 <= i < entries.len() ==> (#[trigger] entries[i]).0@ != name,
    ensures
        !entry_map(entries).contains_key(name),
    decreases entries.len(),
{
    if entries.len() > 0 {
        let prefix = entries.drop_last();
        assert forall|i: int| 0 <= i < prefix.len() implies (#[trigger] prefix[i]).0@ != name by {
            assert(prefix[i] == entries[i]);
        }
        lemma_entry_absent(prefix, name);
        assert(entries.last() == entries[entries.len() - 1]);
    }
}

pub proof fn lemma_entry_lookup<V: View>(entries: Seq<(String, V)>, j: int)
    requires
        names_sorted(entries),
        0 <= j < entries.len(),
    ensures
        entry_map(entries).contains_key(entries[j].0@),
        entry_map(entries)[entries[j].0@] == entries[j].1@,
    decreases entries.len(),
{
    if j < entries.len() - 1 {
        lemma_sorted_tail(entries);
        let prefix = entries.drop_last();
        assert(prefix[j] == entries[j]);
        lemma_entry_lookup(prefix, j);
        lemma_text_lt_irreflexive(entries[j].0@);
    }
}

/// Two sorted lists with the same names, in order, and values related pointwise give maps related
/// the same way.
pub proof fn lemma_entries_pointwise<V: View>(
    before: Seq<(String, V)>,
    after: Seq<(String, V)>,
    f: spec_fn(V::V) -> V::V,
)
    requires
        before.len() == after.len(),
        forall|i: int| 0 <= i < before.len() ==> (#[trigger] after[i]).0@ == before[i].0@ && after[i].1@ == f(before[i].1@),
    ensures
        entry_map(after).dom() == entry_map(before).dom(),
        forall|k: Seq<char>| #[trigger] entry_map(before).contains_key(k) ==> entry_map(after)[k] == f(entry_map(before)[k]),
    decreases before.len(),
{
    if before.len() > 0 {
        let bp = before.drop_last();
        let ap = after.drop_last();
        assert forall|i: int| 0 <= i < bp.len() implies (#[trigger] ap[i]).0@ == bp[i].0@ && ap[i].1@ == f(bp[i].1@) by {
            assert(ap[i] == after[i] && bp[i] == before[i]);
        }
        lemma_entries_pointwise(bp, ap, f);
        assert(after.last() == after[after.len() - 1]);
        assert(before.last() == before[before.len() - 1]);
        assert(entry_map(after).dom() =~= entry_map(before).dom());
    }
}

/// Inserting a new name at its sorted position adds it to the map and keeps the list sorted.
pub proof fn lemma_entry_insert<V: View>(entries: Seq<(String, V)>, i: int, entry: (String, V))
    requires
        names_sorted(entries),
        0 <= i <= entries.len(),
        forall|k: int| 0 <= k < i ==> text_lt((#[trigger] entries[k]).0@, entry.0@),
        i < entries.len() ==> text_lt(entry.0@, entries[i].0@),
    ensures
        names_sorted(entries.insert(i, entry)),
        entry_map(entries.insert(i, entry)) == entry_map(entries).insert(entry.0@, entry.1@),
    decreases entries.len(),
{
    let result = entries.insert(i, entry);
    assert(names_sorted(result)) by {
        assert forall|a: int, b: int| 0 <= a < b < result.len() implies text_lt(
            (#[trigger] result[a]).0@,
            (#[trigger] result[b]).0@,
        ) by {
            if a < i && b < i {
                assert(result[a] == entries[a] && result[b] == entries[b]);
            } else if a < i && b == i {
                assert(result[a] == entries[a]);
            } else if a < i {
                assert(result[a] == entries[a] && result[b] == entries[b - 1]);
                lemma_text_lt_transitive(entries[a].0@, entry.0@, entries[i].0@);
                if b - 1 > i {
                    lemma_text_lt_transitive(entries[a].0@, entries[i].0@, entries[b - 1].0@);
                }
            } else if a == i {
                assert(result[b] == entries[b - 1]);
                if b - 1 > i {
                    lemma_text_lt_transitive(entry.0@, entries[i].0@, entries[b - 1].0@);
                }
            } else {
                assert(result[a] == entries[a - 1] && result[b] == entries[b - 1]);
            }
        }
    }
    if i == entries.len() {
        assert(result.drop_last() =~= entries);
        assert(result.last() == entry);
    } else {
        let prefix = entries.drop_last();
        lemma_sorted_tail(entries);
        assert forall|k: int| 0 <= k < i implies text_lt((#[trigger] prefix[k]).0@, entry.0@) by {
            assert(prefix[k] == entries[k]);
        }
        if i < prefix.len() {
            assert(prefix[i] == entries[i]);
        }
        if i < entries.len() - 1 {
            lemma_entry_insert(prefix, i, entry);
        } else {
            assert(prefix.insert(i, entry) =~= prefix.push(entry));
            assert(prefix.push(entry).drop_last() =~= prefix);
            assert(prefix.push(entry).last() == entry);
            assert(entry_map(prefix.insert(i, entry)) == entry_map(prefix).insert(entry.0@, entry.1@));
        }
        assert(entry_map(prefix.insert(i, entry)) == entry_map(prefix).insert(entry.0@, entry.1@));
        assert(entry_map(entries) == entry_map(prefix).insert(entries.last().0@, entries.last().1@));
        assert(result.drop_last() =~= prefix.insert(i, entry));
        assert(result.last() == entries.last());
        assert(entry_map(result) == entry_map(prefix.insert(i, entry)).insert(entries.last().0@, entries.last().1@));
        let last = entries.last();
        assert(last == entries[entries.len() - 1]);
        if entries.len() - 1 == i {
        } else {
            lemma_text_lt_transitive(entry.0@, entries[i].0@, last.0@);
        }
        lemma_text_lt_asymmetric(entry.0@, last.0@);
        assert(last.0@ != entry.0@) by {
            lemma_text_lt_irreflexive(entry.0@);
        }
        assert(entry_map(result) =~= entry_map(entries).insert(entry.0@, entry.1@));
    }
}

/// Replacing the entry at `j` by one of the same name updates that name in the map.
pub proof fn lemma_entry_update<V: View>(entries: Seq<(String, V)>, j: int, entry: (String, V))
    requires
        names_sorted(entries),
        0 <= j < entries.len(),
        entry.0@ == entries[j].0@,
    ensures
        names_sorted(entries.update(j, entry)),
        entry_map(entries.update(j, entry)) == entry_map(entries).insert(entry.0@, entry.1@),
    decreases entries.len(),
{
    let updated = entries.update(j, entry);
    assert(names_sorted(updated)) by {
        assert forall|a: int, b: int| 0 <= a < b < updated.len() implies text_lt(
            (#[trigger] updated[a]).0@,
            (#[trigger] updated[b]).0@,
        ) by {
            assert(text_lt(entries[a].0@, entries[b].0@));
        }
    }
    let prefix = entries.drop_last();
    lemma_sorted_tail(entries);
    if j == entries.len() - 1 {
        assert(updated.drop_last() =~= prefix);
        assert(entry_map(updated) =~= entry_map(entries).insert(entry.0@, entry.1@));
    } else {
        assert(updated.drop_last() =~= prefix.update(j, entry));
        assert(prefix[j] == entries[j]);
        lemma_entry_update(prefix, j, entry);
        let last = entries.last();
        assert(updated.last() == last);
        assert(text_lt(entries[j].0@, last.0@));
        lemma_text_lt_irreflexive(last.0@);
        assert(entry_map(updated) =~= entry_map(entries).insert(entry.0@, entry.1@));
    }
}


/// Where `name` stands among sorted entries: the first position whose name is not below it, and
/// whether the entry there has that name.
pub fn find_slot<V: View>(entries: &Vec<(String, V)>, name: &str) -> (r: (usize, bool))
    requires
        names_sorted(entries@),
    ensures
        r.0 <= entries@.len(),
        forall|k: int| 0 <= k < r.0 ==> text_lt((#[trigger] entries@[k]).0@, name@),
        r.1 == (r.0 < entries@.len() && entries@[r.0 as int].0@ == name@),
        !r.1 && r.0 < entries@.len() ==> text_lt(name@, entries@[r.0 as int].0@),
        r.1 == entry_map(entries@).contains_key(name@),
        r.1 ==> entry_map(entries@)[name@] == entries@[r.0 as int].1@,
{
    let mut i: usize = 0;
    while i < entries.len() && text_less(entries[i].0.as_str(), name)
        invariant
            names_sorted(entries@),
            i <= entries@.len(),
            forall|k: int| 0 <= k < i ==> text_lt((#[trigger] entries@[k]).0@, name@),
        decreases entries@.len() - i,
    {
        i = i + 1;
    }
    let found = i < entries.len() && !text_less(name, entries[i].0.as_str());
    proof {
        lemma_text_lt_irreflexive(name@);
        if i < entries@.len() {
            assert(!text_lt(entries@[i as int].0@, name@));
            if entries@[i as int].0@ != name@ {
                lemma_text_lt_total(entries@[i as int].0@, name@);
            }
        }
        if found {
            lemma_entry_lookup(entries@, i as int);
        } else {
            assert forall|k: int| 0 <= k < entries@.len() implies (#[trigger] entries@[k]).0@ != name@ by {
                if k < i {
                    assert(text_lt(entries@[k].0@, name@));
                } else if k > i {
                    assert(text_lt(entries@[i as int].0@, entries@[k].0@));
                    lemma_text_lt_transitive(name@, entries@[i as int].0@, entries@[k].0@);
                }
            }
            lemma_entry_absent(entries@, name@);
        }
    }
    (i, found)
}

} // verus!
