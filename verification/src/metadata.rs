use vstd::prelude::*;
use std::collections::BTreeMap;

use crate::types::Frequency;

verus! {

broadcast use vstd::std_specs::btree::group_btree_axioms;

/// Arbitrary JSON values attached to entities.
#[verifier::external_type_specification]
#[verifier::external_body]
pub struct ExJsonValue(serde_json::Value);

/// Static metadata used for routing adapters, constraints, and UI context.
#[derive(Clone, Debug, Default)]
pub struct EntityMetadata {
    pub entity_id: String,
    pub domain: Option<String>,
    pub frequency: Frequency,
    pub attributes: BTreeMap<String, serde_json::Value>,
}

/// The metadata by entity ID described by a list of entries, later entries winning.
pub open spec fn metadata_map(entries: Seq<EntityMetadata>) -> Map<Seq<char>, EntityMetadata>
    decreases entries.len(),
{
    if entries.len() == 0 {
        Map::empty()
    } else {
        metadata_map(entries.drop_last()).insert(entries.last().entity_id@, entries.last())
    }
}

/// No two entries describe the same entity.
pub open spec fn distinct_entities(entries: Seq<EntityMetadata>) -> bool {
    forall|i: int, j: int|
        0 <= i < entries.len() && 0 <= j < entries.len() && i != j ==> (#[trigger] entries[i]).entity_id@
            != (#[trigger] entries[j]).entity_id@
}

/// Registry for static metadata used by loaders, adapters, and serving.
#[derive(Debug)]
pub struct MetadataManager {
    entities: Vec<EntityMetadata>,
}

impl MetadataManager {
    #[verifier::type_invariant]
    spec fn well_formed(self) -> bool {
        distinct_entities(self.entities@)
    }

    /// The metadata by entity ID.
    pub closed spec fn view_map(self) -> Map<Seq<char>, EntityMetadata> {
        metadata_map(self.entities@)
    }

    pub fn new() -> (manager: Self)
        ensures
            manager.view_map() == Map::<Seq<char>, EntityMetadata>::empty(),
            manager.view_map().dom().finite(),
    {
        MetadataManager { entities: Vec::new() }
    }

    /// Records `metadata` under its entity ID, replacing earlier metadata of that entity.
    pub fn insert(&mut self, metadata: EntityMetadata)
        ensures
            final(self).view_map() == old(self).view_map().insert(metadata.entity_id@, metadata),
            final(self).view_map().dom().finite(),
            final(self).view_map().len() == old(self).view_map().len() + if old(
                self,
            ).view_map().contains_key(metadata.entity_id@) {
                0int
            } else {
                1int
            },
    {
        proof {
            use_type_invariant(&*self);
            lemma_metadata_map_finite(self.entities@);
        }
        let mut entities: Vec<EntityMetadata> = Vec::new();
        std::mem::swap(&mut entities, &mut self.entities);
        let ghost before = entities@;
        let ghost inserted = metadata;
        match find_entity(&entities, metadata.entity_id.as_str()) {
            Some(j) => {
                entities.set(j, metadata);
                proof {
                    lemma_metadata_map_update(before, j as int, inserted);
                }
            },
            None => {
                entities.push(metadata);
                proof {
                    assert(entities@.drop_last() == before);
                    assert forall|a: int, b: int|
                        0 <= a < entities@.len() && 0 <= b < entities@.len() && a != b implies (#[trigger] entities@[a]).entity_id@
                        != (#[trigger] entities@[b]).entity_id@ by {
                        if a < before.len() && b < before.len() {
                            assert(entities@[a] == before[a] && entities@[b] == before[b]);
                        } else if a < before.len() {
                            assert(entities@[a] == before[a]);
                        } else {
                            assert(entities@[b] == before[b]);
                        }
                    }
                }
            },
        }
        self.entities = entities;
    }

    /// The metadata of `entity_id`.
    pub fn get(&self, entity_id: &str) -> (found: Option<&EntityMetadata>)
        ensures
            match found {
                Some(m) => self.view_map().contains_key(entity_id@) && *m == self.view_map()[entity_id@],
                None => !self.view_map().contains_key(entity_id@),
            },
    {
        proof {
            use_type_invariant(self);
        }
        match find_entity(&self.entities, entity_id) {
            Some(j) => {
                proof {
                    lemma_metadata_map_lookup(self.entities@, j as int);
                }
                Some(&self.entities[j])
            },
            None => {
                proof {
                    lemma_metadata_map_absent(self.entities@, entity_id@);
                }
                None
            },
        }
    }

    /// The attributes of `entity_id`, empty when the entity is unknown.
    pub fn attributes_for(&self, entity_id: &str) -> (attributes: BTreeMap<String, serde_json::Value>)
        ensures
            self.view_map().contains_key(entity_id@) ==> attributes@ == self.view_map()[entity_id@].attributes@,
            !self.view_map().contains_key(entity_id@) ==> attributes@ == Map::<String, serde_json::Value>::empty(),
    {
        match self.get(entity_id) {
            Some(metadata) => metadata.attributes.clone(),
            None => BTreeMap::new(),
        }
    }

    /// The number of entities with metadata.
    pub fn len(&self) -> (n: usize)
        ensures
            self.view_map().dom().finite(),
            n == self.view_map().len(),
    {
        proof {
            use_type_invariant(self);
            lemma_metadata_map_len(self.entities@);
        }
        self.entities.len()
    }

    pub fn is_empty(&self) -> (empty: bool)
        ensures
            empty == (self.view_map().len() == 0),
    {
        self.len() == 0
    }
}

impl Default for MetadataManager {
    fn default() -> (manager: Self)
        ensures
            manager.view_map() == Map::<Seq<char>, EntityMetadata>::empty(),
            manager.view_map().dom().finite(),
    {
        MetadataManager::new()
    }
}

/// What a copy of an entry keeps exactly: its entity ID and its domain.
pub open spec fn same_entry(copy: EntityMetadata, entry: EntityMetadata) -> bool {
    &&& copy.entity_id@ == entry.entity_id@
    &&& copy.domain.is_some() == entry.domain.is_some()
    &&& copy.domain.is_some() ==> copy.domain.unwrap()@ == entry.domain.unwrap()@
}

fn copy_entry(entry: &EntityMetadata) -> (copy: EntityMetadata)
    ensures
        same_entry(copy, *entry),
{
    let mut copy = entry.clone();
    copy.entity_id = entry.entity_id.clone();
    copy.domain = match &entry.domain {
        Some(domain) => Some(domain.clone()),
        None => None,
    };
    copy
}

proof fn lemma_metadata_map_same(copies: Seq<EntityMetadata>, entries: Seq<EntityMetadata>)
    requires
        copies.len() == entries.len(),
        forall|i: int| 0 <= i < entries.len() ==> same_entry(#[trigger] copies[i], entries[i]),
    ensures
        metadata_map(copies).dom() == metadata_map(entries).dom(),
        forall|id: Seq<char>|
            #[trigger] metadata_map(entries).contains_key(id) ==> same_entry(
                metadata_map(copies)[id],
                metadata_map(entries)[id],
            ),
    decreases entries.len(),
{
    if entries.len() > 0 {
        let copy_prefix = copies.drop_last();
        let prefix = entries.drop_last();
        assert forall|i: int| 0 <= i < prefix.len() implies same_entry(
            #[trigger] copy_prefix[i],
            prefix[i],
        ) by {
            assert(copy_prefix[i] == copies[i] && prefix[i] == entries[i]);
        }
        lemma_metadata_map_same(copy_prefix, prefix);
        assert(same_entry(copies.last(), entries.last())) by {
            assert(copies.last() == copies[copies.len() - 1]);
            assert(entries.last() == entries[entries.len() - 1]);
        }
        assert(metadata_map(copies).dom() =~= metadata_map(entries).dom());
    }
}

impl Clone for MetadataManager {
    /// A manager with the same entity IDs, each entry copied with its ID and domain.
    fn clone(&self) -> (copy: Self)
        ensures
            copy.view_map().dom().finite(),
            copy.view_map().dom() == self.view_map().dom(),
            forall|id: Seq<char>|
                #[trigger] self.view_map().contains_key(id) ==> same_entry(
                    copy.view_map()[id],
                    self.view_map()[id],
                ),
    {
        proof {
            use_type_invariant(self);
        }
        let mut entities: Vec<EntityMetadata> = Vec::new();
        let mut i: usize = 0;
        while i < self.entities.len()
            invariant
                i <= self.entities@.len(),
                entities@.len() == i,
                forall|k: int| 0 <= k < i ==> same_entry(#[trigger] entities@[k], self.entities@[k]),
            decreases self.entities@.len() - i,
        {
            entities.push(copy_entry(&self.entities[i]));
            i = i + 1;
        }
        proof {
            lemma_metadata_map_same(entities@, self.entities@);
            lemma_metadata_map_finite(entities@);
            assert(distinct_entities(entities@)) by {
                assert forall|a: int, b: int|
                    0 <= a < entities@.len() && 0 <= b < entities@.len() && a != b implies (#[trigger] entities@[a]).entity_id@
                    != (#[trigger] entities@[b]).entity_id@ by {
                    assert(same_entry(entities@[a], self.entities@[a]));
                    assert(same_entry(entities@[b], self.entities@[b]));
                }
            }
        }
        MetadataManager { entities }
    }
}

fn find_entity(entries: &Vec<EntityMetadata>, entity_id: &str) -> (position: Option<usize>)
    ensures
        match position {
            Some(j) => j < entries@.len() && entries@[j as int].entity_id@ == entity_id@,
            None => forall|i: int|
                0 <= i < entries@.len() ==> (#[trigger] entries@[i]).entity_id@ != entity_id@,
        },
{
    let target = crate::error::owned(entity_id);
    let mut i: usize = 0;
    while i < entries.len()
        invariant
            i <= entries.len(),
            target@ == entity_id@,
            forall|k: int| 0 <= k < i ==> (#[trigger] entries@[k]).entity_id@ != entity_id@,
        decreases entries.len() - i,
    {
        if entries[i].entity_id == target {
            return Some(i);
        }
        i = i + 1;
    }
    None
}

proof fn lemma_metadata_map_finite(entries: Seq<EntityMetadata>)
    ensures
        metadata_map(entries).dom().finite(),
    decreases entries.len(),
{
    if entries.len() > 0 {
        lemma_metadata_map_finite(entries.drop_last());
    }
}

/// A metadata manager describes finitely many entities.
pub proof fn lemma_view_map_finite(manager: MetadataManager)
    ensures
        manager.view_map().dom().finite(),
{
    lemma_metadata_map_finite(manager.entities@);
}

proof fn lemma_distinct_prefix(entries: Seq<EntityMetadata>)
    requires
        distinct_entities(entries),
        entries.len() > 0,
    ensures
        distinct_entities(entries.drop_last()),
{
    let prefix = entries.drop_last();
    assert forall|a: int, b: int|
        0 <= a < prefix.len() && 0 <= b < prefix.len() && a != b implies (#[trigger] prefix[a]).entity_id@
        != (#[trigger] prefix[b]).entity_id@ by {
        assert(prefix[a] == entries[a] && prefix[b] == entries[b]);
    }
}

proof fn lemma_metadata_map_absent(entries: Seq<EntityMetadata>, id: Seq<char>)
    requires
        forall|i: int| 0 <= i < entries.len() ==> (#[trigger] entries[i]).entity_id@ != id,
    ensures
        !metadata_map(entries).contains_key(id),
    decreases entries.len(),
{
    if entries.len() > 0 {
        let prefix = entries.drop_last();
        assert forall|i: int| 0 <= i < prefix.len() implies (#[trigger] prefix[i]).entity_id@ != id by {
            assert(prefix[i] == entries[i]);
        }
        lemma_metadata_map_absent(prefix, id);
        assert(entries.last() == entries[entries.len() - 1]);
    }
}

proof fn lemma_metadata_map_lookup(entries: Seq<EntityMetadata>, j: int)
    requires
        distinct_entities(entries),
        0 <= j < entries.len(),
    ensures
        metadata_map(entries).contains_key(entries[j].entity_id@),
        metadata_map(entries)[entries[j].entity_id@] == entries[j],
    decreases entries.len(),
{
    let prefix = entries.drop_last();
    if j < entries.len() - 1 {
        lemma_distinct_prefix(entries);
        assert(prefix[j] == entries[j]);
        lemma_metadata_map_lookup(prefix, j);
        assert(entries.last() == entries[entries.len() - 1]);
        assert(entries[entries.len() - 1].entity_id@ != entries[j].entity_id@);
    }
}

proof fn lemma_metadata_map_update(entries: Seq<EntityMetadata>, j: int, entry: EntityMetadata)
    requires
        distinct_entities(entries),
        0 <= j < entries.len(),
        entry.entity_id@ == entries[j].entity_id@,
    ensures
        distinct_entities(entries.update(j, entry)),
        metadata_map(entries.update(j, entry)) == metadata_map(entries).insert(entry.entity_id@, entry),
    decreases entries.len(),
{
    let updated = entries.update(j, entry);
    assert(distinct_entities(updated)) by {
        assert forall|a: int, b: int|
            0 <= a < updated.len() && 0 <= b < updated.len() && a != b implies (#[trigger] updated[a]).entity_id@
            != (#[trigger] updated[b]).entity_id@ by {
            assert(entries[a].entity_id@ != entries[b].entity_id@);
        }
    }
    let prefix = entries.drop_last();
    lemma_distinct_prefix(entries);
    if j == entries.len() - 1 {
        assert(updated.drop_last() == prefix);
        assert(entries.last() == entries[j]);
        assert(metadata_map(updated) =~= metadata_map(entries).insert(entry.entity_id@, entry));
    } else {
        assert(updated.drop_last() == prefix.update(j, entry));
        assert(prefix[j] == entries[j]);
        lemma_metadata_map_update(prefix, j, entry);
        let last = entries.last();
        assert(last == entries[entries.len() - 1]);
        assert(updated.last() == last);
        assert(last.entity_id@ != entries[j].entity_id@);
        assert(metadata_map(updated) =~= metadata_map(entries).insert(entry.entity_id@, entry));
    }
}

proof fn lemma_metadata_map_len(entries: Seq<EntityMetadata>)
    requires
        distinct_entities(entries),
    ensures
        metadata_map(entries).dom().finite(),
        metadata_map(entries).len() == entries.len(),
    decreases entries.len(),
{
    if entries.len() > 0 {
        let prefix = entries.drop_last();
        lemma_distinct_prefix(entries);
        lemma_metadata_map_len(prefix);
        let last = entries.last();
        assert forall|i: int| 0 <= i < prefix.len() implies (#[trigger] prefix[i]).entity_id@
            != last.entity_id@ by {
            assert(prefix[i] == entries[i]);
            assert(last == entries[entries.len() - 1]);
        }
        lemma_metadata_map_absent(prefix, last.entity_id@);
    }
}

} // verus!
