use vstd::prelude::*;

use crate::vocabulary::{RegimeToken, RegimeVocabulary};

verus! {

/// The tokens by ID after inserting `tokens` in turn into an empty vocabulary.
pub open spec fn inserted_tokens(tokens: Seq<RegimeToken>) -> Map<u32, RegimeToken>
    decreases tokens.len(),
{
    if tokens.len() == 0 {
        Map::empty()
    } else {
        inserted_tokens(tokens.drop_last()).insert(tokens.last().id, tokens.last())
    }
}

/// The token ID by label after inserting `tokens` in turn into an empty vocabulary.
pub open spec fn inserted_labels(tokens: Seq<RegimeToken>) -> Map<Seq<char>, u32>
    decreases tokens.len(),
{
    if tokens.len() == 0 {
        Map::empty()
    } else {
        inserted_labels(tokens.drop_last()).insert(tokens.last().label@, tokens.last().id)
    }
}

/// Some token of `tokens` carries `id`.
pub open spec fn carries_id(tokens: Seq<RegimeToken>, id: u32) -> bool {
    exists|j: int| 0 <= j < tokens.len() && tokens[j].id == id
}

/// Some token of `tokens` carries `label`.
pub open spec fn carries_label(tokens: Seq<RegimeToken>, label: Seq<char>) -> bool {
    exists|j: int| 0 <= j < tokens.len() && tokens[j].label@ == label
}

/// `tokens[j]` is the last token carrying its ID.
pub open spec fn last_with_id(tokens: Seq<RegimeToken>, j: int) -> bool {
    &&& 0 <= j < tokens.len()
    &&& forall|k: int| j < k < tokens.len() ==> tokens[k].id != tokens[j].id
}

/// `tokens[j]` is the last token carrying its label.
pub open spec fn last_with_label(tokens: Seq<RegimeToken>, j: int) -> bool {
    &&& 0 <= j < tokens.len()
    &&& forall|k: int| j < k < tokens.len() ==> tokens[k].label@ != tokens[j].label@
}

/// The IDs that `tokens` carry.
pub open spec fn token_ids(tokens: Seq<RegimeToken>) -> Set<u32> {
    tokens.map_values(|t: RegimeToken| t.id).to_set()
}

proof fn lemma_inserted_tokens(tokens: Seq<RegimeToken>)
    ensures
        forall|id: u32| #[trigger]
            inserted_tokens(tokens).contains_key(id) <==> carries_id(tokens, id),
        forall|j: int| #[trigger]
            last_with_id(tokens, j) ==> inserted_tokens(tokens)[tokens[j].id] == tokens[j],
    decreases tokens.len(),
{
    if tokens.len() > 0 {
        let prefix = tokens.drop_last();
        let n = tokens.len() - 1;
        lemma_inserted_tokens(prefix);
        assert(tokens.last() == tokens[n]);
        assert forall|id: u32| #[trigger]
            inserted_tokens(tokens).contains_key(id) <==> carries_id(tokens, id) by {
            if inserted_tokens(tokens).contains_key(id) {
                if id == tokens[n].id {
                    assert(carries_id(tokens, id));
                } else {
                    assert(inserted_tokens(prefix).contains_key(id));
                    let j = choose|j: int| 0 <= j < prefix.len() && prefix[j].id == id;
                    assert(prefix[j] == tokens[j]);
                    assert(carries_id(tokens, id));
                }
            }
            if carries_id(tokens, id) {
                let j = choose|j: int| 0 <= j < tokens.len() && tokens[j].id == id;
                if j < n {
                    assert(prefix[j] == tokens[j]);
                    assert(carries_id(prefix, id));
                    assert(inserted_tokens(prefix).contains_key(id));
                }
                assert(inserted_tokens(tokens) == inserted_tokens(prefix).insert(tokens[n].id, tokens[n]));
                assert(inserted_tokens(tokens).contains_key(id));
            }
        }
        assert forall|j: int| #[trigger]
            last_with_id(tokens, j) implies inserted_tokens(tokens)[tokens[j].id] == tokens[j] by {
            if j < n {
                assert(tokens[n].id != tokens[j].id);
                assert(prefix[j] == tokens[j]);
                assert forall|k: int| j < k < prefix.len() implies prefix[k].id != prefix[j].id by {
                    assert(prefix[k] == tokens[k]);
                }
                assert(last_with_id(prefix, j));
            }
        }
    }
}

proof fn lemma_inserted_labels(tokens: Seq<RegimeToken>)
    ensures
        forall|label: Seq<char>| #[trigger]
            inserted_labels(tokens).contains_key(label) <==> carries_label(tokens, label),
        forall|j: int| #[trigger]
            last_with_label(tokens, j) ==> inserted_labels(tokens)[tokens[j].label@] == tokens[j].id,
    decreases tokens.len(),
{
    if tokens.len() > 0 {
        let prefix = tokens.drop_last();
        let n = tokens.len() - 1;
        lemma_inserted_labels(prefix);
        assert(tokens.last() == tokens[n]);
        assert forall|label: Seq<char>| #[trigger]
            inserted_labels(tokens).contains_key(label) <==> carries_label(tokens, label) by {
            if inserted_labels(tokens).contains_key(label) {
                if label == tokens[n].label@ {
                    assert(carries_label(tokens, label));
                } else {
                    assert(inserted_labels(prefix).contains_key(label));
                    let j = choose|j: int| 0 <= j < prefix.len() && prefix[j].label@ == label;
                    assert(prefix[j] == tokens[j]);
                    assert(carries_label(tokens, label));
                }
            }
            if carries_label(tokens, label) {
                let j = choose|j: int| 0 <= j < tokens.len() && tokens[j].label@ == label;
                if j < n {
                    assert(prefix[j] == tokens[j]);
                    assert(carries_label(prefix, label));
                    assert(inserted_labels(prefix).contains_key(label));
                }
                assert(inserted_labels(tokens) == inserted_labels(prefix).insert(tokens[n].label@, tokens[n].id));
                assert(inserted_labels(tokens).contains_key(label));
            }
        }
        assert forall|j: int| #[trigger]
            last_with_label(tokens, j) implies inserted_labels(tokens)[tokens[j].label@]
            == tokens[j].id by {
            if j < n {
                assert(tokens[n].label@ != tokens[j].label@);
                assert(prefix[j] == tokens[j]);
                assert forall|k: int| j < k < prefix.len() implies prefix[k].label@
                    != prefix[j].label@ by {
                    assert(prefix[k] == tokens[k]);
                }
                assert(last_with_label(prefix, j));
            }
        }
    }
}

proof fn lemma_inserted_token_ids(tokens: Seq<RegimeToken>)
    ensures
        inserted_tokens(tokens).dom() == token_ids(tokens),
{
    lemma_inserted_tokens(tokens);
    let ids = tokens.map_values(|t: RegimeToken| t.id);
    assert forall|id: u32| inserted_tokens(tokens).dom().contains(id) implies token_ids(
        tokens,
    ).contains(id) by {
        assert(inserted_tokens(tokens).contains_key(id));
        let j = choose|j: int| 0 <= j < tokens.len() && tokens[j].id == id;
        assert(ids[j] == id);
    }
    assert forall|id: u32| token_ids(tokens).contains(id) implies inserted_tokens(
        tokens,
    ).dom().contains(id) by {
        assert(ids.contains(id));
        let j = choose|j: int| 0 <= j < ids.len() && ids[j] == id;
        assert(tokens[j].id == id);
        assert(carries_id(tokens, id));
        assert(inserted_tokens(tokens).contains_key(id));
    }
    assert(inserted_tokens(tokens).dom() =~= token_ids(tokens));
}

/// `states[i + 1]` is `states[i]` after inserting `tokens[i]`, starting from an empty vocabulary.
pub open spec fn built_by_inserts(states: Seq<RegimeVocabulary>, tokens: Seq<RegimeToken>) -> bool {
    &&& states.len() == tokens.len() + 1
    &&& states[0].tokens_view() == Map::<u32, RegimeToken>::empty()
    &&& states[0].labels_view() == Map::<Seq<char>, u32>::empty()
    &&& forall|i: int|
        #![trigger tokens[i]]
        0 <= i < tokens.len() ==> states[i + 1].tokens_view() == states[i].tokens_view().insert(
            tokens[i].id,
            tokens[i],
        ) && states[i + 1].labels_view() == states[i].labels_view().insert(
            tokens[i].label@,
            tokens[i].id,
        )
}

proof fn lemma_states_follow_inserts(
    states: Seq<RegimeVocabulary>,
    tokens: Seq<RegimeToken>,
    n: int,
)
    requires
        built_by_inserts(states, tokens),
        0 <= n <= tokens.len(),
    ensures
        states[n].tokens_view() == inserted_tokens(tokens.subrange(0, n)),
        states[n].labels_view() == inserted_labels(tokens.subrange(0, n)),
    decreases n,
{
    if n > 0 {
        lemma_states_follow_inserts(states, tokens, n - 1);
        let prefix = tokens.subrange(0, n);
        assert(prefix.drop_last() == tokens.subrange(0, n - 1));
        assert(prefix.last() == tokens[n - 1]);
    } else {
        assert(inserted_tokens(tokens.subrange(0, 0)) == Map::<u32, RegimeToken>::empty());
        assert(inserted_labels(tokens.subrange(0, 0)) == Map::<Seq<char>, u32>::empty());
    }
}

/// A vocabulary built from an empty one by inserting `tokens` in turn: an ID is present exactly
/// when some inserted token carries it, and it looks up the last token that does; a label is
/// present exactly when some inserted token carries it, and it looks up the ID of the last token
/// that does; the length is the number of distinct IDs inserted.
pub proof fn lemma_vocabulary_after_inserts(states: Seq<RegimeVocabulary>, tokens: Seq<RegimeToken>)
    requires
        built_by_inserts(states, tokens),
    ensures
        forall|id: u32| #[trigger]
            states.last().tokens_view().contains_key(id) <==> carries_id(tokens, id),
        forall|j: int| #[trigger]
            last_with_id(tokens, j) ==> states.last().tokens_view()[tokens[j].id] == tokens[j],
        forall|label: Seq<char>| #[trigger]
            states.last().labels_view().contains_key(label) <==> carries_label(tokens, label),
        forall|j: int| #[trigger]
            last_with_label(tokens, j) ==> states.last().labels_view()[tokens[j].label@]
                == tokens[j].id,
        states.last().tokens_view().dom() == token_ids(tokens),
        states.last().tokens_view().len() == token_ids(tokens).len(),
{
    let n = tokens.len() as int;
    lemma_states_follow_inserts(states, tokens, n);
    assert(tokens.subrange(0, n) == tokens);
    assert(states.last() == states[n]);
    lemma_inserted_tokens(tokens);
    lemma_inserted_labels(tokens);
    lemma_inserted_token_ids(tokens);
}

} // verus!
