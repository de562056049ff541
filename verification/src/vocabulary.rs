use vstd::prelude::*;
use vstd::string::*;
use std::collections::BTreeMap;

use crate::text::{decimal, push_decimal};

pub mod laws;

verus! {

broadcast use vstd::std_specs::btree::group_btree_axioms;

/// Hierarchical token level from macro to micro behavior.
#[derive(Clone, Debug, PartialEq, Eq, PartialOrd, Ord)]
pub enum RegimeLevel {
    Macro,
    Meso,
    Micro,
}

/// Discrete regime token definition.
#[derive(Clone, Debug)]
pub struct RegimeToken {
    pub id: u32,
    pub level: RegimeLevel,
    pub label: String,
    pub description: Option<String>,
}

/// The label-to-ID map described by a list of (label, ID) entries, later entries winning.
pub open spec fn label_map(entries: Seq<(String, u32)>) -> Map<Seq<char>, u32>
    decreases entries.len(),
{
    if entries.len() == 0 {
        Map::empty()
    } else {
        label_map(entries.drop_last()).insert(entries.last().0@, entries.last().1)
    }
}

/// No two entries carry the same label.
pub open spec fn distinct_labels(entries: Seq<(String, u32)>) -> bool {
    forall|i: int, j: int|
        0 <= i < entries.len() && 0 <= j < entries.len() && i != j ==> (#[trigger] entries[i]).0@
            != (#[trigger] entries[j]).0@
}

/// Vocabulary manager for interpretable regime mappings.
#[derive(Debug)]
pub struct RegimeVocabulary {
    tokens: BTreeMap<u32, RegimeToken>,
    labels: Vec<(String, u32)>,
}

impl RegimeVocabulary {
    #[verifier::type_invariant]
    spec fn well_formed(self) -> bool {
        distinct_labels(self.labels@)
    }

    /// The tokens by ID.
    pub closed spec fn tokens_view(self) -> Map<u32, RegimeToken> {
        self.tokens@
    }

    /// The token ID registered under each label.
    pub closed spec fn labels_view(self) -> Map<Seq<char>, u32> {
        label_map(self.labels@)
    }

    /// An empty vocabulary.
    pub fn new() -> (vocabulary: Self)
        ensures
            vocabulary.tokens_view() == Map::<u32, RegimeToken>::empty(),
            vocabulary.labels_view() == Map::<Seq<char>, u32>::empty(),
            vocabulary.tokens_view().dom().finite(),
    {
        RegimeVocabulary { tokens: BTreeMap::new(), labels: Vec::new() }
    }

    /// Registers `token` under its ID, and its label as naming that ID.
    pub fn insert(&mut self, token: RegimeToken)
        ensures
            final(self).tokens_view() == old(self).tokens_view().insert(token.id, token),
            final(self).labels_view() == old(self).labels_view().insert(token.label@, token.id),
            final(self).tokens_view().dom().finite(),
            final(self).tokens_view().len() == old(self).tokens_view().len() + if old(
                self,
            ).tokens_view().contains_key(token.id) {
                0int
            } else {
                1int
            },
    {
        proof {
            use_type_invariant(&*self);
            assert(self.tokens@.dom().finite());
        }
        let ghost old_labels = self.labels@;
        let position = find_label(&self.labels, token.label.as_str());
        let mut labels: Vec<(String, u32)> = Vec::new();
        std::mem::swap(&mut labels, &mut self.labels);
        match position {
            Some(j) => {
                let entry = (token.label.clone(), token.id);
                labels.set(j, entry);
                proof {
                    lemma_label_map_update(old_labels, j as int, entry);
                }
            },
            None => {
                labels.push((token.label.clone(), token.id));
                proof {
                    assert(labels@.drop_last() == old_labels);
                }
            },
        }
        self.labels = labels;
        let mut tokens: BTreeMap<u32, RegimeToken> = BTreeMap::new();
        std::mem::swap(&mut tokens, &mut self.tokens);
        tokens.insert(token.id, token);
        self.tokens = tokens;
    }

    /// The token registered under `id`.
    pub fn token(&self, id: u32) -> (found: Option<&RegimeToken>)
        ensures
            match found {
                Some(t) => self.tokens_view().contains_key(id) && *t == self.tokens_view()[id],
                None => !self.tokens_view().contains_key(id),
            },
    {
        self.tokens.get(&id)
    }

    /// The label of token `id`, or `token_<id>` when the vocabulary has no such token.
    pub fn label_for(&self, id: u32) -> (label: String)
        ensures
            label@ == if self.tokens_view().contains_key(id) {
                self.tokens_view()[id].label@
            } else {
                "token_"@ + decimal(id as nat)
            },
    {
        match self.tokens.get(&id) {
            Some(token) => token.label.clone(),
            None => {
                let mut label = String::from_str("token_");
                proof {
                    reveal_strlit("token_");
                }
                push_decimal(&mut label, id as usize);
                label
            },
        }
    }

    /// The token ID registered under `label`.
    pub fn id_for_label(&self, label: &str) -> (found: Option<u32>)
        ensures
            match found {
                Some(id) => self.labels_view().contains_key(label@) && id == self.labels_view()[label@],
                None => !self.labels_view().contains_key(label@),
            },
    {
        proof {
            use_type_invariant(self);
        }
        match find_label(&self.labels, label) {
            Some(j) => {
                proof {
                    lemma_label_map_lookup(self.labels@, j as int);
                }
                Some(self.labels[j].1)
            },
            None => {
                proof {
                    lemma_label_map_absent(self.labels@, label@);
                }
                None
            },
        }
    }

    /// The number of distinct token IDs.
    pub fn len(&self) -> (n: usize)
        ensures
            self.tokens_view().dom().finite(),
            n == self.tokens_view().len(),
    {
        self.tokens.len()
    }

    /// Whether no token is registered.
    pub fn is_empty(&self) -> (empty: bool)
        ensures
            empty == (self.tokens_view().len() == 0),
    {
        self.tokens.is_empty()
    }
}

impl Clone for RegimeVocabulary {
    fn clone(&self) -> (copy: Self)
        ensures
            copy.tokens_view() == self.tokens_view(),
            copy.labels_view() == self.labels_view(),
            copy.tokens_view().dom().finite(),
    {
        proof {
            use_type_invariant(self);
        }
        let mut labels: Vec<(String, u32)> = Vec::new();
        let mut i: usize = 0;
        while i < self.labels.len()
            invariant
                i <= self.labels@.len(),
                labels@ == self.labels@.subrange(0, i as int),
            decreases self.labels@.len() - i,
        {
            let entry = &self.labels[i];
            labels.push((entry.0.clone(), entry.1));
            i = i + 1;
        }
        assert(labels@ == self.labels@);
        RegimeVocabulary { tokens: self.tokens.clone(), labels }
    }
}

impl Default for RegimeVocabulary {
    fn default() -> (vocabulary: Self)
        ensures
            vocabulary.tokens_view() == Map::<u32, RegimeToken>::empty(),
            vocabulary.labels_view() == Map::<Seq<char>, u32>::empty(),
            vocabulary.tokens_view().dom().finite(),
    {
        RegimeVocabulary::new()
    }
}

/// The position of the entry labelled `label`, if any.
fn find_label(entries: &Vec<(String, u32)>, label: &str) -> (position: Option<usize>)
    ensures
        match position {
            Some(j) => j < entries@.len() && entries@[j as int].0@ == label@,
            None => forall|i: int| 0 <= i < entries@.len() ==> (#[trigger] entries@[i]).0@ != label@,
        },
{
    let target = crate::error::owned(label);
    let mut i: usize = 0;
    while i < entries.len()
        invariant
            i <= entries.len(),
            target@ == label@,
            forall|k: int| 0 <= k < i ==> (#[trigger] entries@[k]).0@ != label@,
        decreases entries.len() - i,
    {
        if entries[i].0 == target {
            return Some(i);
        }
        i = i + 1;
    }
    None
}

/// A label not carried by any entry is absent from the map.
pub proof fn lemma_label_map_absent(entries: Seq<(String, u32)>, label: Seq<char>)
    requires
        forall|i: int| 0 <= i < entries.len() ==> (#[trigger] entries[i]).0@ != label,
    ensures
        !label_map(entries).contains_key(label),
    decreases entries.len(),
{
    if entries.len() > 0 {
        let prefix = entries.drop_last();
        assert forall|i: int| 0 <= i < prefix.len() implies (#[trigger] prefix[i]).0@ != label by {
            assert(prefix[i] == entries[i]);
        }
        lemma_label_map_absent(prefix, label);
        assert(entries.last() == entries[entries.len() - 1]);
    }
}

/// With distinct labels, the map sends the label of entry `j` to its ID.
pub proof fn lemma_label_map_lookup(entries: Seq<(String, u32)>, j: int)
    requires
        distinct_labels(entries),
        0 <= j < entries.len(),
    ensures
        label_map(entries).contains_key(entries[j].0@),
        label_map(entries)[entries[j].0@] == entries[j].1,
    decreases entries.len(),
{
    let prefix = entries.drop_last();
    if j < entries.len() - 1 {
        assert(distinct_labels(prefix)) by {
            assert forall|a: int, b: int|
                0 <= a < prefix.len() && 0 <= b < prefix.len() && a != b implies (#[trigger] prefix[a]).0@
                != (#[trigger] prefix[b]).0@ by {
                assert(prefix[a] == entries[a] && prefix[b] == entries[b]);
            }
        }
        assert(prefix[j] == entries[j]);
        lemma_label_map_lookup(prefix, j);
        assert(entries.last() == entries[entries.len() - 1]);
        assert(entries[entries.len() - 1].0@ != entries[j].0@);
    }
}

/// Replacing entry `j` by one with the same label updates that label's ID.
pub proof fn lemma_label_map_update(entries: Seq<(String, u32)>, j: int, entry: (String, u32))
    requires
        distinct_labels(entries),
        0 <= j < entries.len(),
        entry.0@ == entries[j].0@,
    ensures
        distinct_labels(entries.update(j, entry)),
        label_map(entries.update(j, entry)) == label_map(entries).insert(entry.0@, entry.1),
    decreases entries.len(),
{
    let updated = entries.update(j, entry);
    assert(distinct_labels(updated)) by {
        assert forall|a: int, b: int|
            0 <= a < updated.len() && 0 <= b < updated.len() && a != b implies (#[trigger] updated[a]).0@
            != (#[trigger] updated[b]).0@ by {
            assert(entries[a].0@ != entries[b].0@);
        }
    }
    let prefix = entries.drop_last();
    assert(distinct_labels(prefix)) by {
        assert forall|a: int, b: int|
            0 <= a < prefix.len() && 0 <= b < prefix.len() && a != b implies (#[trigger] prefix[a]).0@
            != (#[trigger] prefix[b]).0@ by {
            assert(prefix[a] == entries[a] && prefix[b] == entries[b]);
        }
    }
    if j == entries.len() - 1 {
        assert(updated.drop_last() == prefix);
        assert(entries.last() == entries[j]);
        assert(label_map(updated) == label_map(prefix).insert(entry.0@, entry.1));
        assert(label_map(entries) == label_map(prefix).insert(entries[j].0@, entries[j].1));
        assert(label_map(updated) =~= label_map(entries).insert(entry.0@, entry.1));
    } else {
        assert(updated.drop_last() == prefix.update(j, entry));
        assert(prefix[j] == entries[j]);
        lemma_label_map_update(prefix, j, entry);
        let last = entries.last();
        assert(last == entries[entries.len() - 1]);
        assert(updated.last() == last);
        assert(last.0@ != entries[j].0@);
        assert(label_map(updated) =~= label_map(entries).insert(entry.0@, entry.1));
    }
}

/// A vocabulary holds finitely many tokens.
pub proof fn lemma_tokens_finite(vocabulary: RegimeVocabulary)
    ensures
        vocabulary.tokens_view().dom().finite(),
{
    assert(vocabulary.tokens@.dom().finite());
}

/// After a token is inserted, its ID looks up the token and its label looks up its ID; every other
/// ID and label keeps what it had, and the vocabulary grows only when the ID is new.
pub proof fn lemma_lookup_after_insert(
    before: RegimeVocabulary,
    after: RegimeVocabulary,
    token: RegimeToken,
)
    requires
        after.tokens_view() == before.tokens_view().insert(token.id, token),
        after.labels_view() == before.labels_view().insert(token.label@, token.id),
    ensures
        after.tokens_view().contains_key(token.id),
        after.tokens_view()[token.id] == token,
        after.labels_view().contains_key(token.label@),
        after.labels_view()[token.label@] == token.id,
        forall|id: u32|
            id != token.id ==> #[trigger] after.tokens_view().contains_key(id)
                == before.tokens_view().contains_key(id) && after.tokens_view()[id]
                == before.tokens_view()[id],
        forall|label: Seq<char>|
            label != token.label@ ==> #[trigger] after.labels_view().contains_key(label)
                == before.labels_view().contains_key(label) && after.labels_view()[label]
                == before.labels_view()[label],
        after.tokens_view().dom().finite(),
        after.tokens_view().len() == if before.tokens_view().contains_key(
            token.id,
        ) {
            before.tokens_view().len()
        } else {
            before.tokens_view().len() + 1
        },
{
    assert(before.tokens@.dom().finite());
}

} // verus!
