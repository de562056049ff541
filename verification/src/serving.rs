use vstd::prelude::*;
use vstd::string::*;

use crate::error::owned;
use crate::forecast::{HierarchyRelation, HierarchySpec, ReconciliationMethod, ReconciliationReport};

verus! {

/// The position of the last entry reading `text`, as a map keyed by entity ID keeps it.
pub open spec fn last_index_of(ids: Seq<String>, text: Seq<char>) -> Option<int>
    decreases ids.len(),
{
    if ids.len() == 0 {
        None
    } else if ids.last()@ == text {
        Some(ids.len() - 1)
    } else {
        last_index_of(ids.drop_last(), text)
    }
}

/// The positions of the children that are present, in the order the relation lists them.
pub open spec fn child_positions(ids: Seq<String>, children: Seq<String>) -> Seq<usize>
    decreases children.len(),
{
    if children.len() == 0 {
        Seq::empty()
    } else {
        let rest = child_positions(ids, children.drop_last());
        match last_index_of(ids, children.last()@) {
            Some(i) => rest.push(i as usize),
            None => rest,
        }
    }
}

/// The reconciliation step of one relation: its parent's position and its present children's
/// positions, when the parent is present and at least one child is.
pub open spec fn relation_step(ids: Seq<String>, relation: HierarchyRelation) -> Option<
    (usize, Seq<usize>),
> {
    match last_index_of(ids, relation.parent_entity_id@) {
        None => None,
        Some(p) => {
            let children = child_positions(ids, relation.child_entity_ids@);
            if children.len() == 0 {
                None
            } else {
                Some((p as usize, children))
            }
        },
    }
}

/// The steps of the first `n` relations, in order.
pub open spec fn plan_upto(ids: Seq<String>, relations: Seq<HierarchyRelation>, n: int) -> Seq<
    (usize, Seq<usize>),
>
    decreases n,
{
    if n <= 0 {
        Seq::empty()
    } else {
        let rest = plan_upto(ids, relations, n - 1);
        match relation_step(ids, relations[n - 1]) {
            Some(step) => rest.push(step),
            None => rest,
        }
    }
}

/// One bottom-up step: the parent at `parent` becomes the sum of the forecasts at `children`.
#[derive(Clone, Debug)]
pub struct ReconcileStep {
    pub parent: usize,
    pub children: Vec<usize>,
}

pub open spec fn step_view(step: ReconcileStep) -> (usize, Seq<usize>) {
    (step.parent, step.children@)
}

/// Applies hierarchical reconciliation to a batch forecast response.
#[derive(Clone, Copy, Debug, Default)]
pub struct HierarchicalReconciler;

pub(crate) fn last_position(ids: &Vec<String>, text: &String) -> (r: Option<usize>)
    ensures
        match r {
            Some(i) => last_index_of(ids@, text@) == Some(i as int),
            None => last_index_of(ids@, text@) is None,
        },
{
    let mut i: usize = ids.len();
    assert(ids@.subrange(0, i as int) =~= ids@);
    while i > 0
        invariant
            i <= ids@.len(),
            last_index_of(ids@, text@) == last_index_of(ids@.subrange(0, i as int), text@),
        decreases i,
    {
        assert(ids@.subrange(0, i as int).drop_last() =~= ids@.subrange(0, i - 1));
        assert(ids@.subrange(0, i as int).last() == ids@[i - 1]);
        if ids[i - 1] == *text {
            return Some(i - 1);
        }
        i = i - 1;
    }
    None
}

impl HierarchicalReconciler {
    /// The bottom-up steps for a response whose results carry `entity_ids`, one per relation whose
    /// parent and at least one child are present, in relation order. Every method reconciles
    /// bottom-up.
    pub fn plan(&self, entity_ids: &Vec<String>, hierarchy: &HierarchySpec) -> (steps: Vec<
        ReconcileStep,
    >)
        ensures
            steps@.map_values(|s: ReconcileStep| step_view(s)) == plan_upto(
                entity_ids@,
                hierarchy.relations@,
                hierarchy.relations@.len() as int,
            ),
            forall|k: int|
                0 <= k < steps@.len() ==> (#[trigger] steps@[k]).parent < entity_ids@.len()
                    && forall|j: int|
                    0 <= j < steps@[k].children@.len() ==> #[trigger] steps@[k].children@[j]
                        < entity_ids@.len(),
            steps@.len() == hierarchy.relations@.filter(reconciles(entity_ids@)).len(),
            forall|k: int|
                0 <= k < steps@.len() ==> {
                    let relation = hierarchy.relations@.filter(reconciles(entity_ids@))[k];
                    let children = relation.child_entity_ids@;
                    &&& last_index_of(entity_ids@, relation.parent_entity_id@) == Some(
                        (#[trigger] steps@[k]).parent as int,
                    )
                    &&& steps@[k].children@ == present_positions(entity_ids@, children)
                    &&& forall|i: int|
                        #![trigger steps@[k].children@[i]]
                        0 <= i < steps@[k].children@.len() ==> exists|j: int|
                            0 <= j < children.len() && #[trigger] last_index_of(entity_ids@, children[j]@)
                                == Some(steps@[k].children@[i] as int)
                    &&& forall|j: int|
                        0 <= j < children.len() && (#[trigger] last_index_of(entity_ids@, children[j]@)) is Some
                            ==> steps@[k].children@.contains(
                            last_index_of(entity_ids@, children[j]@).unwrap() as usize,
                        )
                },
    {
        let mut steps: Vec<ReconcileStep> = Vec::new();
        let mut r: usize = 0;
        while r < hierarchy.relations.len()
            invariant
                r <= hierarchy.relations@.len(),
                steps@.map_values(|s: ReconcileStep| step_view(s)) == plan_upto(
                    entity_ids@,
                    hierarchy.relations@,
                    r as int,
                ),
                forall|k: int|
                    0 <= k < steps@.len() ==> (#[trigger] steps@[k]).parent < entity_ids@.len()
                        && forall|j: int|
                        0 <= j < steps@[k].children@.len() ==> #[trigger] steps@[k].children@[j]
                            < entity_ids@.len(),
            decreases hierarchy.relations@.len() - r,
        {
            let relation = &hierarchy.relations[r];
            let ghost prev = steps@;
            match last_position(entity_ids, &relation.parent_entity_id) {
                None => {},
                Some(parent) => {
                    let children_ids = &relation.child_entity_ids;
                    let mut children: Vec<usize> = Vec::new();
                    let mut c: usize = 0;
                    while c < children_ids.len()
                        invariant
                            c <= children_ids@.len(),
                            children@ == child_positions(
                                entity_ids@,
                                children_ids@.subrange(0, c as int),
                            ),
                            forall|j: int|
                                0 <= j < children@.len() ==> #[trigger] children@[j]
                                    < entity_ids@.len(),
                        decreases children_ids@.len() - c,
                    {
                        assert(children_ids@.subrange(0, c + 1).drop_last() =~= children_ids@.subrange(
                            0,
                            c as int,
                        ));
                        match last_position(entity_ids, &children_ids[c]) {
                            Some(i) => {
                                proof {
                                    lemma_last_index_in_bounds(entity_ids@, children_ids@[c as int]@);
                                }
                                children.push(i);
                            },
                            None => {},
                        }
                        c = c + 1;
                    }
                    assert(children_ids@.subrange(0, children_ids@.len() as int) =~= children_ids@);
                    if children.len() > 0 {
                        proof {
                            lemma_last_index_in_bounds(entity_ids@, relation.parent_entity_id@);
                        }
                        let step = ReconcileStep { parent, children };
                        steps.push(step);
                        assert(steps@.map_values(|s: ReconcileStep| step_view(s)) =~= prev.map_values(
                            |s: ReconcileStep| step_view(s),
                        ).push(step_view(step)));
                    }
                },
            }
            r = r + 1;
        }
        let count = entity_ids.len();
        proof {
            let n = hierarchy.relations@.len() as int;
            assert(entity_ids@.len() == count);
            lemma_plan_steps(entity_ids@, hierarchy.relations@, n);
            assert(hierarchy.relations@.subrange(0, n) == hierarchy.relations@);
            let plan = plan_upto(entity_ids@, hierarchy.relations@, n);
            let reconciled = hierarchy.relations@.filter(reconciles(entity_ids@));
            assert forall|k: int| 0 <= k < steps@.len() implies {
                let relation = reconciled[k];
                let children = relation.child_entity_ids@;
                &&& last_index_of(entity_ids@, relation.parent_entity_id@) == Some(
                    (#[trigger] steps@[k]).parent as int,
                )
                &&& steps@[k].children@ == present_positions(entity_ids@, children)
                &&& forall|i: int|
                    #![trigger steps@[k].children@[i]]
                    0 <= i < steps@[k].children@.len() ==> exists|j: int|
                        0 <= j < children.len() && #[trigger] last_index_of(entity_ids@, children[j]@)
                            == Some(steps@[k].children@[i] as int)
                &&& forall|j: int|
                    0 <= j < children.len() && (#[trigger] last_index_of(entity_ids@, children[j]@)) is Some
                        ==> steps@[k].children@.contains(
                        last_index_of(entity_ids@, children[j]@).unwrap() as usize,
                    )
            } by {
                assert(steps@.map_values(|s: ReconcileStep| step_view(s))[k] == plan[k]);
                assert(steps@[k].parent == plan[k].0);
                assert(steps@[k].children@ == plan[k].1);
            }
        }
        steps
    }

    /// The report of a reconciliation whose steps adjusted the parents at the given positions:
    /// none when nothing was adjusted.
    pub fn report(
        &self,
        method: &ReconciliationMethod,
        entity_ids: &Vec<String>,
        steps: &Vec<ReconcileStep>,
    ) -> (report: Option<ReconciliationReport>)
        requires
            forall|k: int| 0 <= k < steps@.len() ==> (#[trigger] steps@[k]).parent < entity_ids@.len(),
        ensures
            steps@.len() == 0 ==> report is None,
            steps@.len() > 0 ==> (report matches Some(r) && {
                &&& r.method == *method
                &&& r.adjusted_entities@.len() == steps@.len()
                &&& forall|k: int|
                    0 <= k < steps@.len() ==> (#[trigger] r.adjusted_entities@[k])@
                        == entity_ids@[steps@[k].parent as int]@
                &&& r.notes@.len() == 1
                &&& r.notes@[0]@ == "reconciled aggregate forecasts using bottom-up child sums"@
            }),
    {
        if steps.len() == 0 {
            return None;
        }
        let mut adjusted: Vec<String> = Vec::new();
        let mut k: usize = 0;
        while k < steps.len()
            invariant
                k <= steps@.len(),
                forall|j: int| 0 <= j < steps@.len() ==> (#[trigger] steps@[j]).parent < entity_ids@.len(),
                adjusted@.len() == k,
                forall|j: int|
                    0 <= j < k ==> (#[trigger] adjusted@[j])@ == entity_ids@[steps@[j].parent as int]@,
            decreases steps@.len() - k,
        {
            adjusted.push(entity_ids[steps[k].parent].clone());
            k = k + 1;
        }
        let mut notes: Vec<String> = Vec::new();
        notes.push(owned("reconciled aggregate forecasts using bottom-up child sums"));
        let method_copy = match method {
            ReconciliationMethod::BottomUp => ReconciliationMethod::BottomUp,
            ReconciliationMethod::TopDown => ReconciliationMethod::TopDown,
            ReconciliationMethod::MiddleOut => ReconciliationMethod::MiddleOut,
        };
        Some(ReconciliationReport { method: method_copy, adjusted_entities: adjusted, notes })
    }
}

/// A found position is a position of the list.
pub(crate) proof fn lemma_last_index_in_bounds(ids: Seq<String>, text: Seq<char>)
    ensures
        last_index_of(ids, text) matches Some(i) ==> 0 <= i < ids.len(),
    decreases ids.len(),
{
    if ids.len() > 0 {
        lemma_last_index_in_bounds(ids.drop_last(), text);
    }
}

/// `last_index_of` finds the last entry reading `text`, and finds none exactly when no entry does.
pub proof fn lemma_last_index_of(ids: Seq<String>, text: Seq<char>)
    ensures
        match last_index_of(ids, text) {
            Some(i) => 0 <= i < ids.len() && ids[i]@ == text && forall|j: int|
                i < j < ids.len() ==> (#[trigger] ids[j])@ != text,
            None => forall|j: int| 0 <= j < ids.len() ==> (#[trigger] ids[j])@ != text,
        },
    decreases ids.len(),
{
    if ids.len() > 0 {
        let prefix = ids.drop_last();
        lemma_last_index_of(prefix, text);
        assert(ids.last() == ids[ids.len() - 1]);
        assert forall|j: int| 0 <= j < prefix.len() implies prefix[j] == ids[j] by {}
    }
}

/// Some child of `relation` is present among `ids`.
pub open spec fn child_present(ids: Seq<String>, relation: HierarchyRelation) -> bool {
    exists|j: int|
        0 <= j < relation.child_entity_ids@.len() && (#[trigger] last_index_of(
            ids,
            relation.child_entity_ids@[j]@,
        )) is Some
}

/// Whether a relation is reconciled over `ids`: its parent and at least one child are present.
pub open spec fn reconciles(ids: Seq<String>) -> spec_fn(HierarchyRelation) -> bool {
    |relation: HierarchyRelation|
        last_index_of(ids, relation.parent_entity_id@) is Some && child_present(ids, relation)
}

/// Whether a listed child is present among `ids`.
pub open spec fn present_in(ids: Seq<String>) -> spec_fn(String) -> bool {
    |child: String| last_index_of(ids, child@) is Some
}

/// The positions of the listed children that are present, one per listing, in listing order.
pub open spec fn present_positions(ids: Seq<String>, children: Seq<String>) -> Seq<usize> {
    children.filter(present_in(ids)).map_values(|child: String| last_index_of(ids, child@).unwrap() as usize)
}

proof fn lemma_child_positions_present(ids: Seq<String>, children: Seq<String>)
    ensures
        child_positions(ids, children) == present_positions(ids, children),
    decreases children.len(),
{
    reveal(Seq::filter);
    if children.len() > 0 {
        let prefix = children.drop_last();
        lemma_child_positions_present(ids, prefix);
        let kept = prefix.filter(present_in(ids));
        if present_in(ids)(children.last()) {
            assert(children.filter(present_in(ids)) == kept.push(children.last()));
        } else {
            assert(children.filter(present_in(ids)) == kept);
        }
        assert(child_positions(ids, children) =~= present_positions(ids, children));
    }
}

proof fn lemma_child_positions(ids: Seq<String>, children: Seq<String>)
    requires
        ids.len() <= usize::MAX,
    ensures
        child_positions(ids, children).len() > 0 <==> exists|j: int|
            0 <= j < children.len() && (#[trigger] last_index_of(ids, children[j]@)) is Some,
        forall|i: int|
            0 <= i < child_positions(ids, children).len() ==> exists|j: int|
                0 <= j < children.len() && #[trigger] last_index_of(ids, children[j]@) == Some(
                    (#[trigger] child_positions(ids, children)[i]) as int,
                ),
        forall|j: int|
            0 <= j < children.len() && (#[trigger] last_index_of(ids, children[j]@)) is Some
                ==> child_positions(ids, children).contains(
                last_index_of(ids, children[j]@).unwrap() as usize,
            ),
    decreases children.len(),
{
    if children.len() > 0 {
        let prefix = children.drop_last();
        let n = children.len() - 1;
        lemma_child_positions(ids, prefix);
        lemma_last_index_in_bounds(ids, children[n]@);
        assert(children.last() == children[n]);
        assert forall|j: int| 0 <= j < prefix.len() implies prefix[j] == children[j] by {}
        let rest = child_positions(ids, prefix);
        let all = child_positions(ids, children);
        if exists|j: int| 0 <= j < children.len() && (#[trigger] last_index_of(ids, children[j]@)) is Some {
            let j = choose|j: int| 0 <= j < children.len() && (#[trigger] last_index_of(ids, children[j]@)) is Some;
            if j < n {
                assert(last_index_of(ids, prefix[j]@) is Some);
            }
        }
        assert forall|i: int| 0 <= i < all.len() implies exists|j: int|
            0 <= j < children.len() && #[trigger] last_index_of(ids, children[j]@) == Some(
                (#[trigger] child_positions(ids, children)[i]) as int,
            ) by {
            if i < rest.len() {
                assert(all[i] == rest[i]);
                let j = choose|j: int|
                    0 <= j < prefix.len() && #[trigger] last_index_of(ids, prefix[j]@) == Some(
                        (#[trigger] child_positions(ids, prefix)[i]) as int,
                    );
                assert(last_index_of(ids, children[j]@) == Some(all[i] as int));
            } else {
                assert(last_index_of(ids, children[n]@) == Some(all[i] as int));
            }
        }
        assert forall|j: int|
            0 <= j < children.len() && (#[trigger] last_index_of(ids, children[j]@)) is Some implies all.contains(
            last_index_of(ids, children[j]@).unwrap() as usize,
        ) by {
            if j < n {
                assert(last_index_of(ids, prefix[j]@) is Some);
                let q = last_index_of(ids, children[j]@).unwrap() as usize;
                assert(rest.contains(q));
                let m = choose|m: int| 0 <= m < rest.len() && rest[m] == q;
                assert(all[m] == q);
            } else {
                assert(all[all.len() - 1] == last_index_of(ids, children[n]@).unwrap() as usize);
            }
        }
    }
}

/// The plan of a hierarchy has one step for each relation whose parent and at least one child are
/// present, in relation order: the step's parent is the parent's position, and its children are the
/// positions of the listed children that are present, one per listing, in listing order (so each
/// is the position of a child the relation lists, and every present child's position is among them).
pub proof fn lemma_plan_steps(ids: Seq<String>, relations: Seq<HierarchyRelation>, n: int)
    requires
        ids.len() <= usize::MAX,
        0 <= n <= relations.len(),
    ensures
        ({
            let reconciled = relations.subrange(0, n).filter(reconciles(ids));
            let plan = plan_upto(ids, relations, n);
            &&& plan.len() == reconciled.len()
            &&& forall|k: int|
                0 <= k < plan.len() ==> {
                    let children = reconciled[k].child_entity_ids@;
                    &&& last_index_of(ids, reconciled[k].parent_entity_id@) == Some(
                        (#[trigger] plan[k]).0 as int,
                    )
                    &&& plan[k].1 == present_positions(ids, children)
                    &&& forall|i: int|
                        #![trigger plan[k].1[i]]
                        0 <= i < plan[k].1.len() ==> exists|j: int|
                            0 <= j < children.len() && #[trigger] last_index_of(ids, children[j]@)
                                == Some(plan[k].1[i] as int)
                    &&& forall|j: int|
                        0 <= j < children.len() && (#[trigger] last_index_of(ids, children[j]@)) is Some
                            ==> plan[k].1.contains(last_index_of(ids, children[j]@).unwrap() as usize)
                }
        }),
    decreases n,
{
    reveal(Seq::filter);
    if n > 0 {
        lemma_plan_steps(ids, relations, n - 1);
        let relation = relations[n - 1];
        let sub = relations.subrange(0, n);
        assert(sub.drop_last() == relations.subrange(0, n - 1));
        assert(sub.last() == relation);
        let prev = relations.subrange(0, n - 1).filter(reconciles(ids));
        let reconciled = sub.filter(reconciles(ids));
        let rest = plan_upto(ids, relations, n - 1);
        let plan = plan_upto(ids, relations, n);
        lemma_child_positions(ids, relation.child_entity_ids@);
        lemma_child_positions_present(ids, relation.child_entity_ids@);
        lemma_last_index_in_bounds(ids, relation.parent_entity_id@);
        if reconciles(ids)(relation) {
            assert(reconciled == prev.push(relation));
            assert(plan == rest.push(relation_step(ids, relation).unwrap()));
            assert forall|k: int| 0 <= k < plan.len() implies {
                let children = reconciled[k].child_entity_ids@;
                &&& last_index_of(ids, reconciled[k].parent_entity_id@) == Some(
                    (#[trigger] plan[k]).0 as int,
                )
                &&& plan[k].1 == present_positions(ids, children)
                &&& forall|i: int|
                    #![trigger plan[k].1[i]]
                    0 <= i < plan[k].1.len() ==> exists|j: int|
                        0 <= j < children.len() && #[trigger] last_index_of(ids, children[j]@)
                            == Some(plan[k].1[i] as int)
                &&& forall|j: int|
                    0 <= j < children.len() && (#[trigger] last_index_of(ids, children[j]@)) is Some
                        ==> plan[k].1.contains(last_index_of(ids, children[j]@).unwrap() as usize)
            } by {
                if k < rest.len() {
                    assert(plan[k] == rest[k]);
                    assert(reconciled[k] == prev[k]);
                } else {
                    assert(reconciled[k] == relation);
                    assert(plan[k].1 == child_positions(ids, relation.child_entity_ids@));
                    let cs = relation.child_entity_ids@;
                    assert forall|i: int| #![trigger plan[k].1[i]] 0 <= i < plan[k].1.len() implies exists|j: int|
                        0 <= j < cs.len() && #[trigger] last_index_of(ids, cs[j]@) == Some(
                            plan[k].1[i] as int,
                        ) by {
                        assert(plan[k].1[i] == child_positions(ids, cs)[i]);
                    }
                }
            }
        } else {
            assert(reconciled == prev);
            assert(relation_step(ids, relation) is None);
            assert(plan == rest);
        }
    }
}

/// What a requested scenario type does to the spread of scenario paths around the point forecast.
#[derive(Clone, Copy, Debug, PartialEq, Eq, Structural)]
pub enum ScenarioKind {
    /// "optimistic": paths pulled in toward the point forecast.
    Optimistic,
    /// "conservative": paths pushed slightly out.
    Conservative,
    /// "tail-risk" or "stress": paths pushed far out.
    Stress,
    /// Anything else, or no type: paths unchanged.
    Median,
}

pub open spec fn scenario_kind_of(scenario_type: Option<Seq<char>>) -> ScenarioKind {
    match scenario_type {
        None => ScenarioKind::Median,
        Some(t) => if t == "optimistic"@ {
            ScenarioKind::Optimistic
        } else if t == "conservative"@ {
            ScenarioKind::Conservative
        } else if t == "tail-risk"@ || t == "stress"@ {
            ScenarioKind::Stress
        } else {
            ScenarioKind::Median
        },
    }
}

fn text_equals(a: &str, b: &str) -> (r: bool)
    ensures
        r == (a@ == b@),
{
    owned(a) == owned(b)
}

/// Deterministic scenario sampler for responses that did not request model-side scenarios.
#[derive(Clone, Copy, Debug)]
pub struct ScenarioSampler {
    default_count: usize,
}

impl Default for ScenarioSampler {
    fn default() -> (sampler: Self)
        ensures
            sampler.spec_default_count() == 8,
    {
        ScenarioSampler { default_count: 8 }
    }
}

impl ScenarioSampler {
    pub closed spec fn spec_default_count(self) -> usize {
        self.default_count
    }

    /// The number of scenario paths generated: the requested count, else the default, and at least one.
    pub fn scenario_count(&self, requested: Option<usize>) -> (count: usize)
        ensures
            count == match requested {
                Some(n) => if n == 0 {
                    1
                } else {
                    n
                },
                None => if self.spec_default_count() == 0 {
                    1
                } else {
                    self.spec_default_count()
                },
            },
            count >= 1,
    {
        let count = match requested {
            Some(n) => n,
            None => self.default_count,
        };
        if count == 0 {
            1
        } else {
            count
        }
    }

    /// How a scenario type reshapes the paths (`"median"` when no type is given).
    pub fn scenario_kind(&self, scenario_type: Option<&str>) -> (kind: ScenarioKind)
        ensures
            kind == scenario_kind_of(
                match scenario_type {
                    Some(t) => Some(t@),
                    None => None,
                },
            ),
    {
        match scenario_type {
            None => ScenarioKind::Median,
            Some(t) => {
                if text_equals(t, "optimistic") {
                    ScenarioKind::Optimistic
                } else if text_equals(t, "conservative") {
                    ScenarioKind::Conservative
                } else if text_equals(t, "tail-risk") || text_equals(t, "stress") {
                    ScenarioKind::Stress
                } else {
                    ScenarioKind::Median
                }
            },
        }
    }
}

} // verus!
