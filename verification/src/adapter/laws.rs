use vstd::prelude::*;

use crate::adapter::{
    in_domain, insert_by_name, of_domain, same_config, same_entries, sorted_by_name,
    AdaptationWorkflow, AdapterConfig, AdapterRegistry,
};
use crate::text::{lemma_text_lt_irreflexive, lemma_text_lt_transitive, text_lt};

verus! {

/// The entries after registering `configs` in turn into an empty registry.
pub open spec fn registered(configs: Seq<AdapterConfig>) -> Seq<AdapterConfig>
    decreases configs.len(),
{
    if configs.len() == 0 {
        Seq::empty()
    } else {
        insert_by_name(registered(configs.drop_last()), configs.last())
    }
}

/// `configs[j]` is the last of `configs` registered under its name.
pub open spec fn last_with_name(configs: Seq<AdapterConfig>, j: int) -> bool {
    &&& 0 <= j < configs.len()
    &&& forall|k: int| j < k < configs.len() ==> configs[k].name@ != configs[j].name@
}

/// `config` is the last of `configs` registered under its name.
pub open spec fn latest_registration(configs: Seq<AdapterConfig>, config: AdapterConfig) -> bool {
    exists|j: int| #[trigger] last_with_name(configs, j) && configs[j] == config
}

/// In a name-sorted list, every entry after the first has a name other than the first's.
proof fn lemma_sorted_names_differ(entries: Seq<AdapterConfig>, k: int)
    requires
        sorted_by_name(entries),
        0 < k < entries.len(),
    ensures
        entries[k].name@ != entries[0].name@,
{
    lemma_text_lt_irreflexive(entries[0].name@);
}

/// Registering `config` keeps `config` and every entry of another name, and nothing else.
proof fn lemma_insert_by_name_members(entries: Seq<AdapterConfig>, config: AdapterConfig)
    requires
        sorted_by_name(entries),
    ensures
        forall|x: AdapterConfig|
            #[trigger] insert_by_name(entries, config).contains(x) <==> (x == config || (
            entries.contains(x) && x.name@ != config.name@)),
    decreases entries.len(),
{
    let result = insert_by_name(entries, config);
    if entries.len() == 0 {
        assert forall|x: AdapterConfig| #[trigger] result.contains(x) <==> (x == config || (
        entries.contains(x) && x.name@ != config.name@)) by {
            if result.contains(x) {
                let k = choose|k: int| 0 <= k < result.len() && result[k] == x;
            }
            if x == config {
                assert(result[0] == config);
            }
        }
    } else {
        let rest = entries.drop_first();
        assert(sorted_by_name(rest)) by {
            assert forall|a: int, b: int| 0 <= a < b < rest.len() implies text_lt(
                (#[trigger] rest[a]).name@,
                (#[trigger] rest[b]).name@,
            ) by {
                assert(rest[a] == entries[a + 1] && rest[b] == entries[b + 1]);
            }
        }
        if entries[0].name@ == config.name@ {
            assert(result == seq![config] + rest);
            assert forall|x: AdapterConfig| #[trigger] result.contains(x) <==> (x == config || (
            entries.contains(x) && x.name@ != config.name@)) by {
                if result.contains(x) && x != config {
                    let k = choose|k: int| 0 <= k < result.len() && result[k] == x;
                    assert(result[k] == entries[k]);
                    lemma_sorted_names_differ(entries, k);
                }
                if entries.contains(x) && x.name@ != config.name@ {
                    let k = choose|k: int| 0 <= k < entries.len() && entries[k] == x;
                    assert(result[k] == entries[k]);
                }
                if x == config {
                    assert(result[0] == config);
                }
            }
        } else if text_lt(config.name@, entries[0].name@) {
            assert(result == seq![config] + entries);
            assert forall|x: AdapterConfig| #[trigger] result.contains(x) <==> (x == config || (
            entries.contains(x) && x.name@ != config.name@)) by {
                if result.contains(x) && x != config {
                    let k = choose|k: int| 0 <= k < result.len() && result[k] == x;
                    assert(result[k] == entries[k - 1]);
                    if k - 1 > 0 {
                        lemma_text_lt_transitive(config.name@, entries[0].name@, entries[k - 1].name@);
                    }
                    lemma_text_lt_irreflexive(config.name@);
                }
                if entries.contains(x) && x.name@ != config.name@ {
                    let k = choose|k: int| 0 <= k < entries.len() && entries[k] == x;
                    assert(result[k + 1] == entries[k]);
                }
                if x == config {
                    assert(result[0] == config);
                }
            }
        } else {
            lemma_insert_by_name_members(rest, config);
            let tail = insert_by_name(rest, config);
            assert(result == seq![entries[0]] + tail);
            assert forall|x: AdapterConfig| #[trigger] result.contains(x) <==> (x == config || (
            entries.contains(x) && x.name@ != config.name@)) by {
                if result.contains(x) {
                    let k = choose|k: int| 0 <= k < result.len() && result[k] == x;
                    if k > 0 {
                        assert(tail[k - 1] == x);
                        assert(tail.contains(x));
                        if x != config {
                            let m = choose|m: int| 0 <= m < rest.len() && rest[m] == x;
                            assert(entries[m + 1] == x);
                        }
                    } else {
                        assert(entries[0] == x);
                    }
                }
                if entries.contains(x) && x.name@ != config.name@ {
                    let k = choose|k: int| 0 <= k < entries.len() && entries[k] == x;
                    if k > 0 {
                        assert(rest[k - 1] == x);
                        assert(tail.contains(x));
                        let m = choose|m: int| 0 <= m < tail.len() && tail[m] == x;
                        assert(result[m + 1] == x);
                    } else {
                        assert(result[0] == x);
                    }
                }
                if x == config {
                    assert(tail.contains(config));
                    let m = choose|m: int| 0 <= m < tail.len() && tail[m] == config;
                    assert(result[m + 1] == config);
                }
            }
        }
    }
}

proof fn lemma_registered(configs: Seq<AdapterConfig>)
    ensures
        sorted_by_name(registered(configs)),
        forall|x: AdapterConfig| #[trigger]
            registered(configs).contains(x) <==> latest_registration(configs, x),
    decreases configs.len(),
{
    if configs.len() > 0 {
        let prefix = configs.drop_last();
        let n = configs.len() - 1;
        let last = configs.last();
        lemma_registered(prefix);
        crate::adapter::lemma_insert_by_name_sorted(registered(prefix), last);
        lemma_insert_by_name_members(registered(prefix), last);
        assert(last == configs[n]);
        assert forall|x: AdapterConfig| #[trigger]
            registered(configs).contains(x) <==> latest_registration(configs, x) by {
            if registered(configs).contains(x) {
                if x == last {
                    assert(last_with_name(configs, n));
                } else {
                    assert(registered(prefix).contains(x));
                    let j = choose|j: int| #[trigger] last_with_name(prefix, j) && prefix[j] == x;
                    assert(prefix[j] == configs[j]);
                    assert forall|k: int| j < k < configs.len() implies configs[k].name@
                        != configs[j].name@ by {
                        if k < n {
                            assert(prefix[k] == configs[k]);
                        }
                    }
                    assert(last_with_name(configs, j));
                }
            }
            if latest_registration(configs, x) {
                let j = choose|j: int| #[trigger] last_with_name(configs, j) && configs[j] == x;
                if j < n {
                    assert(prefix[j] == configs[j]);
                    assert forall|k: int| j < k < prefix.len() implies prefix[k].name@
                        != prefix[j].name@ by {
                        assert(prefix[k] == configs[k]);
                    }
                    assert(last_with_name(prefix, j));
                    assert(latest_registration(prefix, x));
                    assert(configs[n].name@ != configs[j].name@);
                }
            }
        }
    }
}

/// The entries of a domain keep the strict name order of the whole list.
proof fn lemma_in_domain_sorted(entries: Seq<AdapterConfig>, domain: Seq<char>)
    requires
        sorted_by_name(entries),
    ensures
        sorted_by_name(in_domain(entries, domain)),
    decreases entries.len(),
{
    reveal(Seq::filter);
    if entries.len() > 0 {
        let prefix = entries.drop_last();
        assert(sorted_by_name(prefix)) by {
            assert forall|a: int, b: int| 0 <= a < b < prefix.len() implies text_lt(
                (#[trigger] prefix[a]).name@,
                (#[trigger] prefix[b]).name@,
            ) by {
                assert(prefix[a] == entries[a] && prefix[b] == entries[b]);
            }
        }
        lemma_in_domain_sorted(prefix, domain);
        let kept = in_domain(prefix, domain);
        let last = entries.last();
        if last.domain@ == domain {
            let result = in_domain(entries, domain);
            assert(result == kept.push(last));
            assert forall|a: int, b: int| 0 <= a < b < result.len() implies text_lt(
                (#[trigger] result[a]).name@,
                (#[trigger] result[b]).name@,
            ) by {
                if b == result.len() - 1 {
                    assert(result[a] == kept[a]);
                    assert(kept.contains(kept[a]));
                    prefix.lemma_filter_contains_rev(of_domain(domain), kept[a]);
                    let m = choose|m: int| 0 <= m < prefix.len() && prefix[m] == kept[a];
                    assert(entries[m] == prefix[m]);
                    assert(last == entries[entries.len() - 1]);
                } else {
                    assert(result[a] == kept[a] && result[b] == kept[b]);
                }
            }
        }
    }
}

/// `states[i + 1]` is `states[i]` after registering `configs[i]`, starting from an empty registry.
pub open spec fn built_by_registering(
    states: Seq<AdapterRegistry>,
    configs: Seq<AdapterConfig>,
) -> bool {
    &&& states.len() == configs.len() + 1
    &&& states[0].entries() == Seq::<AdapterConfig>::empty()
    &&& forall|i: int|
        #![trigger configs[i]]
        0 <= i < configs.len() ==> states[i + 1].entries() == insert_by_name(
            states[i].entries(),
            configs[i],
        )
}

proof fn lemma_states_follow_registrations(
    states: Seq<AdapterRegistry>,
    configs: Seq<AdapterConfig>,
    n: int,
)
    requires
        built_by_registering(states, configs),
        0 <= n <= configs.len(),
    ensures
        states[n].entries() == registered(configs.subrange(0, n)),
    decreases n,
{
    if n > 0 {
        lemma_states_follow_registrations(states, configs, n - 1);
        let prefix = configs.subrange(0, n);
        assert(prefix.drop_last() == configs.subrange(0, n - 1));
        assert(prefix.last() == configs[n - 1]);
    } else {
        assert(registered(configs.subrange(0, 0)) == Seq::<AdapterConfig>::empty());
    }
}

/// A registry built from an empty one by registering `configs` in turn holds exactly the last
/// config registered under each name, each once and in strict name order; its configs of
/// `domain`, as `for_domain` lists them, are exactly those of them whose domain is `domain`, in
/// strict name order, and there are none exactly when no such latest config has that domain.
pub proof fn lemma_registry_after_registrations(
    states: Seq<AdapterRegistry>,
    configs: Seq<AdapterConfig>,
    domain: Seq<char>,
)
    requires
        built_by_registering(states, configs),
    ensures
        sorted_by_name(states.last().entries()),
        forall|x: AdapterConfig| #[trigger]
            states.last().entries().contains(x) <==> latest_registration(configs, x),
        sorted_by_name(in_domain(states.last().entries(), domain)),
        forall|x: AdapterConfig| #[trigger]
            in_domain(states.last().entries(), domain).contains(x) <==> (latest_registration(
                configs,
                x,
            ) && x.domain@ == domain),
        in_domain(states.last().entries(), domain).len() == 0 <==> forall|j: int| #[trigger]
            last_with_name(configs, j) ==> configs[j].domain@ != domain,
{
    let n = configs.len() as int;
    lemma_states_follow_registrations(states, configs, n);
    assert(configs.subrange(0, n) == configs);
    assert(states.last() == states[n]);
    let entries = states.last().entries();
    let pred = of_domain(domain);
    lemma_registered(configs);
    lemma_in_domain_sorted(entries, domain);
    assert forall|x: AdapterConfig| #[trigger]
        in_domain(entries, domain).contains(x) <==> (latest_registration(configs, x) && x.domain@
            == domain) by {
        if in_domain(entries, domain).contains(x) {
            entries.lemma_filter_contains_rev(pred, x);
            let k = choose|k: int| 0 <= k < in_domain(entries, domain).len()
                && in_domain(entries, domain)[k] == x;
            entries.lemma_filter_pred(pred, k);
        }
        if latest_registration(configs, x) && x.domain@ == domain {
            assert(entries.contains(x));
            let k = choose|k: int| 0 <= k < entries.len() && entries[k] == x;
            entries.lemma_filter_contains(pred, k);
        }
    }
    if in_domain(entries, domain).len() == 0 {
        assert forall|j: int| #[trigger] last_with_name(configs, j) implies configs[j].domain@
            != domain by {
            if configs[j].domain@ == domain {
                assert(latest_registration(configs, configs[j]));
                assert(in_domain(entries, domain).contains(configs[j]));
            }
        }
    } else {
        let x = in_domain(entries, domain)[0];
        assert(in_domain(entries, domain).contains(x));
        let j = choose|j: int| #[trigger] last_with_name(configs, j) && configs[j] == x;
        assert(last_with_name(configs, j) && configs[j].domain@ == domain);
    }
}

proof fn lemma_in_domain_same(a: Seq<AdapterConfig>, b: Seq<AdapterConfig>, domain: Seq<char>)
    requires
        same_entries(a, b),
    ensures
        same_entries(in_domain(a, domain), in_domain(b, domain)),
    decreases a.len(),
{
    reveal(Seq::filter);
    if a.len() > 0 {
        let (pa, pb) = (a.drop_last(), b.drop_last());
        assert forall|i: int| 0 <= i < pa.len() implies same_config(#[trigger] pa[i], pb[i]) by {
            assert(pa[i] == a[i] && pb[i] == b[i]);
        }
        lemma_in_domain_same(pa, pb, domain);
        assert(same_config(a.last(), b.last())) by {
            assert(a.last() == a[a.len() - 1] && b.last() == b[b.len() - 1]);
        }
        let (fa, fb) = (in_domain(a, domain), in_domain(b, domain));
        let (ka, kb) = (in_domain(pa, domain), in_domain(pb, domain));
        if a.last().domain@ == domain {
            assert(fa == ka.push(a.last()) && fb == kb.push(b.last()));
            assert forall|i: int| 0 <= i < fa.len() implies same_config(#[trigger] fa[i], fb[i]) by {
                if i < ka.len() {
                    assert(fa[i] == ka[i] && fb[i] == kb[i]);
                }
            }
        } else {
            assert(fa == ka && fb == kb);
        }
    }
}

/// A workflow built over a copy of a registry (one that agrees with it entry by entry, as its
/// clone does) answers as the registry does: a name is registered in one exactly when it is in the
/// other, with configs that agree on every field, and the configs of every domain agree in number,
/// order and fields.
pub proof fn lemma_workflow_over_copy(
    registry: AdapterRegistry,
    copy: AdapterRegistry,
    workflow: AdaptationWorkflow,
    name: Seq<char>,
    domain: Seq<char>,
)
    requires
        sorted_by_name(registry.entries()),
        same_entries(copy.entries(), registry.entries()),
        workflow.spec_registry() == copy,
    ensures
        (exists|i: int|
            0 <= i < workflow.spec_registry().entries().len()
                && #[trigger] workflow.spec_registry().entries()[i].name@ == name) <==> (exists|
            j: int,
        |
            0 <= j < registry.entries().len() && #[trigger] registry.entries()[j].name@ == name),
        forall|i: int, j: int|
            0 <= i < workflow.spec_registry().entries().len() && 0 <= j
                < registry.entries().len() && #[trigger] workflow.spec_registry().entries()[i].name@
                == name && #[trigger] registry.entries()[j].name@ == name ==> same_config(
                workflow.spec_registry().entries()[i],
                registry.entries()[j],
            ),
        same_entries(
            in_domain(workflow.spec_registry().entries(), domain),
            in_domain(registry.entries(), domain),
        ),
{
    let (w, r) = (workflow.spec_registry().entries(), registry.entries());
    lemma_in_domain_same(w, r, domain);
    if exists|i: int| 0 <= i < w.len() && #[trigger] w[i].name@ == name {
        let i = choose|i: int| 0 <= i < w.len() && #[trigger] w[i].name@ == name;
        assert(same_config(w[i], r[i]));
    }
    if exists|j: int| 0 <= j < r.len() && #[trigger] r[j].name@ == name {
        let j = choose|j: int| 0 <= j < r.len() && #[trigger] r[j].name@ == name;
        assert(same_config(w[j], r[j]));
    }
    assert forall|i: int, j: int|
        0 <= i < w.len() && 0 <= j < r.len() && #[trigger] w[i].name@ == name
            && #[trigger] r[j].name@ == name implies same_config(w[i], r[j]) by {
        assert(same_config(w[i], r[i]));
        if i < j {
            lemma_text_lt_irreflexive(name);
            assert(text_lt(r[i].name@, r[j].name@));
        } else if j < i {
            lemma_text_lt_irreflexive(name);
            assert(text_lt(r[j].name@, r[i].name@));
        }
    }
}

} // verus!
