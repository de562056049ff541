use vstd::prelude::*;
use vstd::string::*;

use crate::error::{
    concat3, concat4, owned, validation_failure, validation_outcome, AionResult,
};
use crate::forecast::{HierarchyRelation, HierarchySpec, RequestContext};
use crate::text::{
    char_is_ascii_alphanumeric, decimal, push_decimal, is_ascii_alphanumeric_char, is_blank, is_blank_text, utf8_len,
    utf8_len_exceeds,
};

verus! {

/// What the batch validation reads of one forecast entity: its identity and how much history it has.
#[derive(Clone, Debug)]
pub struct EntityOutline {
    pub entity_id: String,
    pub target: String,
    pub history_len: usize,
}

/// The earlier failure if there is one, else the later one.
pub open spec fn first_failure(a: Option<Seq<char>>, b: Option<Seq<char>>) -> Option<Seq<char>> {
    if a is Some {
        a
    } else {
        b
    }
}

pub open spec fn horizon_failure(horizon: usize) -> Option<Seq<char>> {
    if horizon == 0 {
        Some("horizon must be greater than zero"@)
    } else {
        None
    }
}

pub open spec fn closed_index_failure(indices: Seq<usize>, horizon: usize) -> Option<Seq<char>> {
    if exists|i: int| 0 <= i < indices.len() && #[trigger] indices[i] >= horizon {
        let i = choose|i: int| 0 <= i < indices.len() && #[trigger] indices[i] >= horizon && forall|j: int|
            0 <= j < i ==> indices[j] < horizon;
        Some(
            "closed_horizon_indices contains "@ + decimal(indices[i] as nat) + ", outside horizon "@
                + decimal(horizon as nat),
        )
    } else {
        None
    }
}

pub open spec fn scenario_count_failure(count: Option<usize>) -> Option<Seq<char>> {
    if count == Some(0usize) {
        Some("scenario_count must be greater than zero"@)
    } else {
        None
    }
}

/// Whether some entry of `ids` before position `end` reads `text`.
pub open spec fn contains_text_before(ids: Seq<String>, text: Seq<char>, end: int) -> bool {
    exists|i: int| 0 <= i < end && i < ids.len() && (#[trigger] ids[i])@ == text
}

pub open spec fn contains_text(ids: Seq<String>, text: Seq<char>) -> bool {
    contains_text_before(ids, text, ids.len() as int)
}

/// Characters accepted in request context fields.
pub open spec fn is_context_char(c: char) -> bool {
    is_ascii_alphanumeric_char(c) || c == '_' || c == '-' || c == '.' || c == ':' || c == '/'
}

pub open spec fn context_field_failure(name: Seq<char>, value: Option<Seq<char>>) -> Option<
    Seq<char>,
> {
    match value {
        None => None,
        Some(v) => if is_blank_text(v) {
            Some("request context "@ + name + " must not be empty"@)
        } else if utf8_len(v) > 128 {
            Some("request context "@ + name + " must be 128 characters or fewer"@)
        } else if exists|i: int| 0 <= i < v.len() && !is_context_char(#[trigger] v[i]) {
            Some("request context "@ + name + " contains unsupported characters"@)
        } else {
            None
        },
    }
}

pub open spec fn text_of(value: Option<String>) -> Option<Seq<char>> {
    match value {
        Some(s) => Some(s@),
        None => None,
    }
}

pub open spec fn request_context_failure(context: Option<RequestContext>) -> Option<Seq<char>> {
    match context {
        None => None,
        Some(c) => first_failure(
            context_field_failure("tenant_id"@, text_of(c.tenant_id)),
            first_failure(
                context_field_failure("actor_id"@, text_of(c.actor_id)),
                first_failure(
                    context_field_failure("trace_id"@, text_of(c.trace_id)),
                    context_field_failure("purpose"@, text_of(c.purpose)),
                ),
            ),
        ),
    }
}

pub open spec fn entity_failure(entity: EntityOutline) -> Option<Seq<char>> {
    if is_blank_text(entity.entity_id@) {
        Some("entity_id must not be empty"@)
    } else if is_blank_text(entity.target@) {
        Some("target must not be empty"@)
    } else if entity.history_len == 0 {
        Some("entity "@ + entity.entity_id@ + " requires historical_values"@)
    } else {
        None
    }
}

/// The first failure among the first `n` entities.
pub open spec fn entities_failure_upto(entities: Seq<EntityOutline>, n: int) -> Option<Seq<char>>
    decreases n,
{
    if n <= 0 {
        None
    } else {
        first_failure(entities_failure_upto(entities, n - 1), entity_failure(entities[n - 1]))
    }
}

pub open spec fn entities_failure(entities: Seq<EntityOutline>) -> Option<Seq<char>> {
    if entities.len() == 0 {
        Some("at least one entity is required"@)
    } else {
        entities_failure_upto(entities, entities.len() as int)
    }
}

/// The failure, if any, of the `k`-th child of a relation.
pub open spec fn child_failure(ids: Seq<String>, relation: HierarchyRelation, k: int) -> Option<
    Seq<char>,
> {
    let parent = relation.parent_entity_id@;
    let children = relation.child_entity_ids@;
    let child = children[k]@;
    if is_blank_text(child) {
        Some("hierarchy child_entity_ids must not contain empty IDs"@)
    } else if child == parent {
        Some("hierarchy parent "@ + parent + " cannot include itself as a child"@)
    } else if !contains_text(ids, child) {
        Some("hierarchy child "@ + child + " is not present in the forecast batch"@)
    } else if contains_text_before(children, child, k) {
        Some("hierarchy child "@ + child + " is duplicated under parent "@ + parent)
    } else {
        None
    }
}

pub open spec fn children_failure_upto(ids: Seq<String>, relation: HierarchyRelation, n: int) -> Option<
    Seq<char>,
>
    decreases n,
{
    if n <= 0 {
        None
    } else {
        first_failure(
            children_failure_upto(ids, relation, n - 1),
            child_failure(ids, relation, n - 1),
        )
    }
}

pub open spec fn relation_failure(ids: Seq<String>, relation: HierarchyRelation) -> Option<
    Seq<char>,
> {
    let parent = relation.parent_entity_id@;
    if is_blank_text(parent) {
        Some("hierarchy parent_entity_id must not be empty"@)
    } else if !contains_text(ids, parent) {
        Some("hierarchy parent "@ + parent + " is not present in the forecast batch"@)
    } else if relation.child_entity_ids.len() == 0 {
        Some("hierarchy parent "@ + parent + " requires at least one child"@)
    } else {
        children_failure_upto(ids, relation, relation.child_entity_ids.len() as int)
    }
}

pub open spec fn relations_failure_upto(
    ids: Seq<String>,
    relations: Seq<HierarchyRelation>,
    n: int,
) -> Option<Seq<char>>
    decreases n,
{
    if n <= 0 {
        None
    } else {
        first_failure(
            relations_failure_upto(ids, relations, n - 1),
            relation_failure(ids, relations[n - 1]),
        )
    }
}

pub open spec fn hierarchy_failure(ids: Seq<String>, hierarchy: Option<HierarchySpec>) -> Option<
    Seq<char>,
> {
    match hierarchy {
        None => None,
        Some(h) => relations_failure_upto(ids, h.relations@, h.relations.len() as int),
    }
}

/// The entity IDs of a batch, in order.
pub open spec fn entity_ids_of(entities: Seq<EntityOutline>) -> Seq<String> {
    entities.map_values(|e: EntityOutline| e.entity_id)
}

pub open spec fn batch_outline_failure(
    context: Option<RequestContext>,
    entities: Seq<EntityOutline>,
    hierarchy: Option<HierarchySpec>,
) -> Option<Seq<char>> {
    first_failure(
        request_context_failure(context),
        first_failure(
            entities_failure(entities),
            hierarchy_failure(entity_ids_of(entities), hierarchy),
        ),
    )
}

/// Once a failure is found among the first `m` entities, later entities do not change it.
pub proof fn lemma_entities_failure_stable(entities: Seq<EntityOutline>, m: int, n: int)
    requires
        0 <= m <= n,
        entities_failure_upto(entities, m) is Some,
    ensures
        entities_failure_upto(entities, n) == entities_failure_upto(entities, m),
    decreases n - m,
{
    if n > m {
        lemma_entities_failure_stable(entities, m, n - 1);
    }
}

/// Once a failure is found among the first `m` children, later children do not change it.
pub proof fn lemma_children_failure_stable(
    ids: Seq<String>,
    relation: HierarchyRelation,
    m: int,
    n: int,
)
    requires
        0 <= m <= n,
        children_failure_upto(ids, relation, m) is Some,
    ensures
        children_failure_upto(ids, relation, n) == children_failure_upto(ids, relation, m),
    decreases n - m,
{
    if n > m {
        lemma_children_failure_stable(ids, relation, m, n - 1);
    }
}

/// Once a failure is found among the first `m` relations, later relations do not change it.
pub proof fn lemma_relations_failure_stable(
    ids: Seq<String>,
    relations: Seq<HierarchyRelation>,
    m: int,
    n: int,
)
    requires
        0 <= m <= n,
        relations_failure_upto(ids, relations, m) is Some,
    ensures
        relations_failure_upto(ids, relations, n) == relations_failure_upto(ids, relations, m),
    decreases n - m,
{
    if n > m {
        lemma_relations_failure_stable(ids, relations, m, n - 1);
    }
}

/// A context field passes: absent, or non-blank, at most 128 bytes of UTF-8, and made only of
/// letters, digits and `_ - . : /`.
pub open spec fn context_field_ok(value: Option<Seq<char>>) -> bool {
    match value {
        None => true,
        Some(v) => !is_blank_text(v) && utf8_len(v) <= 128 && forall|i: int|
            0 <= i < v.len() ==> is_context_char(#[trigger] v[i]),
    }
}

/// Every field of the request context passes, when there is a context.
pub open spec fn request_context_ok(context: Option<RequestContext>) -> bool {
    match context {
        None => true,
        Some(c) => {
            &&& context_field_ok(text_of(c.tenant_id))
            &&& context_field_ok(text_of(c.actor_id))
            &&& context_field_ok(text_of(c.trace_id))
            &&& context_field_ok(text_of(c.purpose))
        },
    }
}

/// An entity passes: non-blank ID and target, and some history.
pub open spec fn entity_ok(entity: EntityOutline) -> bool {
    !is_blank_text(entity.entity_id@) && !is_blank_text(entity.target@) && entity.history_len > 0
}

/// A relation passes: a non-blank parent in the batch with at least one child, and every child
/// non-blank, other than the parent, in the batch and not repeated.
pub open spec fn relation_ok(ids: Seq<String>, relation: HierarchyRelation) -> bool {
    let parent = relation.parent_entity_id@;
    let children = relation.child_entity_ids@;
    &&& !is_blank_text(parent)
    &&& contains_text(ids, parent)
    &&& children.len() >= 1
    &&& forall|k: int|
        0 <= k < children.len() ==> {
            &&& !is_blank_text(#[trigger] children[k]@)
            &&& children[k]@ != parent
            &&& contains_text(ids, children[k]@)
            &&& !contains_text_before(children, children[k]@, k)
        }
}

/// Every check of a batch outline passes: the request context, a non-empty list of entities that
/// each pass, and, when there is a hierarchy, each of its relations over the batch's entity IDs.
pub open spec fn batch_outline_ok(
    context: Option<RequestContext>,
    entities: Seq<EntityOutline>,
    hierarchy: Option<HierarchySpec>,
) -> bool {
    &&& request_context_ok(context)
    &&& entities.len() > 0
    &&& forall|i: int| 0 <= i < entities.len() ==> entity_ok(#[trigger] entities[i])
    &&& match hierarchy {
        None => true,
        Some(h) => forall|j: int|
            0 <= j < h.relations@.len() ==> relation_ok(entity_ids_of(entities), #[trigger] h.relations@[j]),
    }
}

proof fn lemma_entities_pass(entities: Seq<EntityOutline>, n: int)
    requires
        0 <= n <= entities.len(),
    ensures
        entities_failure_upto(entities, n) is None <==> forall|i: int|
            0 <= i < n ==> entity_ok(#[trigger] entities[i]),
    decreases n,
{
    if n > 0 {
        lemma_entities_pass(entities, n - 1);
    }
}

proof fn lemma_children_pass(ids: Seq<String>, relation: HierarchyRelation, n: int)
    requires
        0 <= n <= relation.child_entity_ids@.len(),
    ensures
        children_failure_upto(ids, relation, n) is None <==> forall|k: int|
            0 <= k < n ==> (#[trigger] child_failure(ids, relation, k)) is None,
    decreases n,
{
    if n > 0 {
        lemma_children_pass(ids, relation, n - 1);
    }
}

proof fn lemma_relation_pass(ids: Seq<String>, relation: HierarchyRelation)
    ensures
        relation_failure(ids, relation) is None <==> relation_ok(ids, relation),
{
    let children = relation.child_entity_ids@;
    lemma_children_pass(ids, relation, children.len() as int);
    if relation_failure(ids, relation) is None {
        assert forall|k: int| 0 <= k < children.len() implies {
            &&& !is_blank_text(#[trigger] children[k]@)
            &&& children[k]@ != relation.parent_entity_id@
            &&& contains_text(ids, children[k]@)
            &&& !contains_text_before(children, children[k]@, k)
        } by {
            assert(child_failure(ids, relation, k) is None);
        }
    }
    if relation_ok(ids, relation) {
        assert forall|k: int| 0 <= k < children.len() implies (#[trigger] child_failure(
            ids,
            relation,
            k,
        )) is None by {
            assert(!is_blank_text(children[k]@));
        }
    }
}

proof fn lemma_relations_pass(ids: Seq<String>, relations: Seq<HierarchyRelation>, n: int)
    requires
        0 <= n <= relations.len(),
    ensures
        relations_failure_upto(ids, relations, n) is None <==> forall|j: int|
            0 <= j < n ==> relation_ok(ids, #[trigger] relations[j]),
    decreases n,
{
    if n > 0 {
        lemma_relations_pass(ids, relations, n - 1);
        lemma_relation_pass(ids, relations[n - 1]);
        if relations_failure_upto(ids, relations, n) is None {
            assert forall|j: int| 0 <= j < n implies relation_ok(ids, #[trigger] relations[j]) by {
                if j == n - 1 {
                } else {
                    assert(relations_failure_upto(ids, relations, n - 1) is None);
                }
            }
        }
    }
}

proof fn lemma_context_field_pass(name: Seq<char>, value: Option<Seq<char>>)
    ensures
        context_field_failure(name, value) is None <==> context_field_ok(value),
{
}

/// A batch outline is accepted exactly when every check passes: the request context, at least one
/// entity, every entity, and every relation of the hierarchy when there is one. The outline's
/// validator returns `Ok` on exactly these outlines.
pub proof fn lemma_batch_outline_accepted(
    context: Option<RequestContext>,
    entities: Seq<EntityOutline>,
    hierarchy: Option<HierarchySpec>,
)
    ensures
        batch_outline_failure(context, entities, hierarchy) is None <==> batch_outline_ok(
            context,
            entities,
            hierarchy,
        ),
{
    lemma_entities_pass(entities, entities.len() as int);
    match context {
        None => {},
        Some(c) => {
            lemma_context_field_pass("tenant_id"@, text_of(c.tenant_id));
            lemma_context_field_pass("actor_id"@, text_of(c.actor_id));
            lemma_context_field_pass("trace_id"@, text_of(c.trace_id));
            lemma_context_field_pass("purpose"@, text_of(c.purpose));
        },
    }
    match hierarchy {
        None => {},
        Some(h) => {
            lemma_relations_pass(entity_ids_of(entities), h.relations@, h.relations@.len() as int);
        },
    }
}

/// Rejects a zero forecast horizon.
pub fn validate_horizon(horizon: usize) -> (r: AionResult<()>)
    ensures
        validation_outcome(r, horizon_failure(horizon)),
{
    if horizon == 0 {
        return validation_failure(owned("horizon must be greater than zero"));
    }
    Ok(())
}

/// Rejects a requested scenario count of zero.
pub fn validate_scenario_count(count: Option<usize>) -> (r: AionResult<()>)
    ensures
        validation_outcome(r, scenario_count_failure(count)),
{
    if let Some(count) = count {
        if count == 0 {
            return validation_failure(owned("scenario_count must be greater than zero"));
        }
    }
    Ok(())
}

fn context_char_allowed(c: char) -> (r: bool)
    ensures
        r == is_context_char(c),
{
    char_is_ascii_alphanumeric(c) || c == '_' || c == '-' || c == '.' || c == ':' || c == '/'
}

fn validate_context_field(name: &str, value: Option<&String>) -> (r: AionResult<()>)
    ensures
        validation_outcome(
            r,
            context_field_failure(
                name@,
                match value {
                    Some(s) => Some(s@),
                    None => None,
                },
            ),
        ),
{
    let text = match value {
        None => {
            return Ok(());
        },
        Some(owned_text) => owned_text.as_str(),
    };
    if is_blank(text) {
        return validation_failure(concat3("request context ", name, " must not be empty"));
    }
    if utf8_len_exceeds(text, 128) {
        return validation_failure(
            concat3("request context ", name, " must be 128 characters or fewer"),
        );
    }
    let n = text.unicode_len();
    let mut i: usize = 0;
    while i < n
        invariant
            n == text@.len(),
            value matches Some(s) && s@ == text@,
            i <= n,
            !is_blank_text(text@),
            utf8_len(text@) <= 128,
            forall|k: int| 0 <= k < i ==> is_context_char(#[trigger] text@[k]),
        decreases n - i,
    {
        if !context_char_allowed(text.get_char(i)) {
            assert(!is_context_char(text@[i as int]));
            return validation_failure(
                concat3("request context ", name, " contains unsupported characters"),
            );
        }
        i = i + 1;
    }
    Ok(())
}

/// Checks each field of the request context: non-blank, at most 128 bytes, and restricted characters.
pub fn validate_request_context(context: Option<&RequestContext>) -> (r: AionResult<()>)
    ensures
        validation_outcome(
            r,
            request_context_failure(
                match context {
                    Some(c) => Some(*c),
                    None => None,
                },
            ),
        ),
{
    let context = match context {
        None => {
            return Ok(());
        },
        Some(context) => context,
    };
    validate_context_field("tenant_id", context.tenant_id.as_ref())?;
    validate_context_field("actor_id", context.actor_id.as_ref())?;
    validate_context_field("trace_id", context.trace_id.as_ref())?;
    validate_context_field("purpose", context.purpose.as_ref())?;
    Ok(())
}


/// Rejects closed horizon indices that fall outside the forecast horizon, reporting the first one.
pub fn validate_closed_horizon_indices(indices: &Vec<usize>, horizon: usize) -> (r: AionResult<()>)
    ensures
        validation_outcome(r, closed_index_failure(indices@, horizon)),
{
    let mut i: usize = 0;
    while i < indices.len()
        invariant
            i <= indices.len(),
            forall|j: int| 0 <= j < i ==> indices@[j] < horizon,
        decreases indices.len() - i,
    {
        let index = indices[i];
        if index >= horizon {
            let mut message = owned("closed_horizon_indices contains ");
            push_decimal(&mut message, index);
            message.append(", outside horizon ");
            push_decimal(&mut message, horizon);
            proof {
                let w = choose|k: int| 0 <= k < indices@.len() && #[trigger] indices@[k] >= horizon
                    && forall|j: int| 0 <= j < k ==> indices@[j] < horizon;
                assert(0 <= i < indices@.len() && indices@[i as int] >= horizon && forall|j: int|
                    0 <= j < i ==> indices@[j] < horizon);
                if w < i {
                } else if w > i {
                    assert(indices@[i as int] < horizon);
                }
                assert(w == i);
            }
            return validation_failure(message);
        }
        i = i + 1;
    }
    Ok(())
}

fn validate_entity(entity: &EntityOutline) -> (r: AionResult<()>)
    ensures
        validation_outcome(r, entity_failure(*entity)),
{
    if is_blank(entity.entity_id.as_str()) {
        return validation_failure(owned("entity_id must not be empty"));
    }
    if is_blank(entity.target.as_str()) {
        return validation_failure(owned("target must not be empty"));
    }
    if entity.history_len == 0 {
        return validation_failure(
            concat3("entity ", entity.entity_id.as_str(), " requires historical_values"),
        );
    }
    Ok(())
}

/// Requires at least one entity, and for each a non-blank ID and target and some history.
pub fn validate_entities(entities: &Vec<EntityOutline>) -> (r: AionResult<()>)
    ensures
        validation_outcome(r, entities_failure(entities@)),
{
    if entities.len() == 0 {
        return validation_failure(owned("at least one entity is required"));
    }
    let mut i: usize = 0;
    while i < entities.len()
        invariant
            0 < entities.len(),
            i <= entities.len(),
            entities_failure_upto(entities@, i as int) is None,
        decreases entities.len() - i,
    {
        let checked = validate_entity(&entities[i]);
        if checked.is_err() {
            proof {
                lemma_entities_failure_stable(entities@, i + 1, entities@.len() as int);
            }
            return checked;
        }
        i = i + 1;
    }
    Ok(())
}

/// Whether some entry of `ids` before `end` equals `text`.
fn contains_before(ids: &Vec<String>, text: &String, end: usize) -> (r: bool)
    requires
        end <= ids.len(),
    ensures
        r == contains_text_before(ids@, text@, end as int),
{
    let mut i: usize = 0;
    while i < end
        invariant
            end <= ids.len(),
            i <= end,
            forall|j: int| 0 <= j < i ==> (#[trigger] ids@[j])@ != text@,
        decreases end - i,
    {
        if ids[i] == *text {
            return true;
        }
        i = i + 1;
    }
    false
}

fn validate_relation(ids: &Vec<String>, relation: &HierarchyRelation) -> (r: AionResult<()>)
    ensures
        validation_outcome(r, relation_failure(ids@, *relation)),
{
    let parent = &relation.parent_entity_id;
    if is_blank(parent.as_str()) {
        return validation_failure(owned("hierarchy parent_entity_id must not be empty"));
    }
    if !contains_before(ids, parent, ids.len()) {
        return validation_failure(
            concat3("hierarchy parent ", parent.as_str(), " is not present in the forecast batch"),
        );
    }
    let children = &relation.child_entity_ids;
    if children.len() == 0 {
        return validation_failure(
            concat3("hierarchy parent ", parent.as_str(), " requires at least one child"),
        );
    }
    let mut k: usize = 0;
    while k < children.len()
        invariant
            children == &relation.child_entity_ids,
            parent == &relation.parent_entity_id,
            k <= children.len(),
            children_failure_upto(ids@, *relation, k as int) is None,
            relation_failure(ids@, *relation) == children_failure_upto(
                ids@,
                *relation,
                children.len() as int,
            ),
        decreases children.len() - k,
    {
        let child = &children[k];
        if is_blank(child.as_str()) {
            proof {
                lemma_children_failure_stable(ids@, *relation, k + 1, children@.len() as int);
            }
            return validation_failure(
                owned("hierarchy child_entity_ids must not contain empty IDs"),
            );
        }
        if *child == *parent {
            proof {
                lemma_children_failure_stable(ids@, *relation, k + 1, children@.len() as int);
            }
            return validation_failure(
                concat3("hierarchy parent ", parent.as_str(), " cannot include itself as a child"),
            );
        }
        if !contains_before(ids, child, ids.len()) {
            proof {
                lemma_children_failure_stable(ids@, *relation, k + 1, children@.len() as int);
            }
            return validation_failure(
                concat3("hierarchy child ", child.as_str(), " is not present in the forecast batch"),
            );
        }
        if contains_before(children, child, k) {
            proof {
                lemma_children_failure_stable(ids@, *relation, k + 1, children@.len() as int);
            }
            return validation_failure(
                concat4(
                    "hierarchy child ",
                    child.as_str(),
                    " is duplicated under parent ",
                    parent.as_str(),
                ),
            );
        }
        k = k + 1;
    }
    Ok(())
}

/// Checks each hierarchy relation against the entity IDs of the batch, reporting the first problem.
pub fn validate_hierarchy(entity_ids: &Vec<String>, hierarchy: Option<&HierarchySpec>) -> (r:
    AionResult<()>)
    ensures
        validation_outcome(
            r,
            hierarchy_failure(
                entity_ids@,
                match hierarchy {
                    Some(h) => Some(*h),
                    None => None,
                },
            ),
        ),
{
    let given = match hierarchy {
        None => {
            return Ok(());
        },
        Some(h) => h,
    };
    let mut i: usize = 0;
    while i < given.relations.len()
        invariant
            hierarchy == Some(given),
            i <= given.relations.len(),
            relations_failure_upto(entity_ids@, given.relations@, i as int) is None,
        decreases given.relations.len() - i,
    {
        let checked = validate_relation(entity_ids, &given.relations[i]);
        if checked.is_err() {
            proof {
                lemma_relations_failure_stable(
                    entity_ids@,
                    given.relations@,
                    i + 1,
                    given.relations@.len() as int,
                );
            }
            return checked;
        }
        i = i + 1;
    }
    Ok(())
}

/// Validates the parts of a batch forecast request that follow its forecast options:
/// the request context, the entities, then the hierarchy.
pub fn validate_batch_outline(
    context: Option<&RequestContext>,
    entities: &Vec<EntityOutline>,
    hierarchy: Option<&HierarchySpec>,
) -> (r: AionResult<()>)
    ensures
        validation_outcome(
            r,
            batch_outline_failure(
                match context {
                    Some(c) => Some(*c),
                    None => None,
                },
                entities@,
                match hierarchy {
                    Some(h) => Some(*h),
                    None => None,
                },
            ),
        ),
{
    validate_request_context(context)?;
    validate_entities(entities)?;
    let mut ids: Vec<String> = Vec::new();
    let mut i: usize = 0;
    while i < entities.len()
        invariant
            i <= entities.len(),
            ids@ == entity_ids_of(entities@).subrange(0, i as int),
        decreases entities.len() - i,
    {
        ids.push(entities[i].entity_id.clone());
        i = i + 1;
    }
    assert(ids@ == entity_ids_of(entities@));
    validate_hierarchy(&ids, hierarchy)
}

} // verus!
