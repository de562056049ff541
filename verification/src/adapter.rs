use vstd::prelude::*;
use vstd::string::*;

use crate::error::{concat2, concat3, owned, AionResult};
use crate::text::{
    lemma_text_lt_asymmetric, lemma_text_lt_irreflexive, lemma_text_lt_total,
    lemma_text_lt_transitive, text_less, text_lt,
};

pub mod laws;

verus! {

/// The identifier type of adaptation runs.
#[verifier::external_type_specification]
#[verifier::external_body]
pub struct ExUuid(uuid::Uuid);

/// The sixteen bytes of a UUID, as `uuid::Uuid::as_bytes` gives them.
pub uninterp spec fn uuid_bytes(id: uuid::Uuid) -> Seq<u8>;

/// The bytes of a random (version 4, RFC 4122 variant) UUID made from `random`: the high nibble of
/// byte 6 set to the version 4 and the top two bits of byte 8 set to `10`, the rest unchanged.
pub open spec fn random_uuid_bytes(random: Seq<u8>) -> Seq<u8> {
    random.update(6, (random[6] & 0x0f) | 0x40).update(8, (random[8] & 0x3f) | 0x80)
}

/// Calls `uuid::Builder::from_random_bytes(random).into_uuid()`, which copies the bytes and sets
/// the version (byte 6, high nibble 4) and variant (byte 8, top bits `10`) fields; it cannot fail.
#[verifier::external_body]
fn uuid_from_random_bytes(random: [u8; 16]) -> (id: uuid::Uuid)
    ensures
        uuid_bytes(id) == random_uuid_bytes(random@),
{
    uuid::Builder::from_random_bytes(random).into_uuid()
}

/// Calls `uuid::Uuid::as_bytes`, which returns the sixteen bytes the UUID holds.
#[verifier::external_body]
fn uuid_bytes_of(id: &uuid::Uuid) -> (bytes: [u8; 16])
    ensures
        bytes@ == uuid_bytes(*id),
{
    *id.as_bytes()
}

/// A random UUID has version 4 and the RFC 4122 variant, whatever the random bytes were.
pub proof fn lemma_random_uuid_version(random: Seq<u8>)
    requires
        random.len() == 16,
    ensures
        random_uuid_bytes(random).len() == 16,
        random_uuid_bytes(random)[6] >> 4 == 4,
        random_uuid_bytes(random)[8] >> 6 == 2,
{
    let b6 = random[6];
    let b8 = random[8];
    assert(((b6 & 0x0f) | 0x40) >> 4 == 4) by (bit_vector);
    assert(((b8 & 0x3f) | 0x80) >> 6 == 2) by (bit_vector);
}

/// Adapter configuration for bottleneck modules inserted into model layers.
#[derive(Clone, Debug)]
pub struct AdapterConfig {
    pub name: String,
    pub domain: String,
    pub bottleneck_dim: usize,
    pub target_layers: Vec<usize>,
}

impl Default for AdapterConfig {
    fn default() -> (config: Self)
        ensures
            config.name@ == "default"@,
            config.domain@ == "general"@,
            config.bottleneck_dim == 64,
            config.target_layers@ == Seq::<usize>::empty(),
    {
        AdapterConfig {
            name: owned("default"),
            domain: owned("general"),
            bottleneck_dim: 64,
            target_layers: Vec::new(),
        }
    }
}

/// No-op bottleneck adapter skeleton.
#[derive(Clone, Debug)]
pub struct BottleneckAdapter {
    config: AdapterConfig,
}

impl BottleneckAdapter {
    pub closed spec fn spec_config(self) -> AdapterConfig {
        self.config
    }

    pub fn new(config: AdapterConfig) -> (adapter: Self)
        ensures
            adapter.spec_config() == config,
    {
        BottleneckAdapter { config }
    }

    pub fn config(&self) -> (config: &AdapterConfig)
        ensures
            *config == self.spec_config(),
    {
        &self.config
    }
}

/// Entries sorted strictly by name, as a map keyed by name keeps them.
pub open spec fn sorted_by_name(entries: Seq<AdapterConfig>) -> bool {
    forall|i: int, j: int|
        0 <= i < j < entries.len() ==> text_lt((#[trigger] entries[i]).name@, (#[trigger] entries[j]).name@)
}

/// The entries after registering `config` in a name-ordered list: it replaces the entry of the same
/// name, or is inserted before the first entry whose name sorts after it.
pub open spec fn insert_by_name(entries: Seq<AdapterConfig>, config: AdapterConfig) -> Seq<AdapterConfig>
    decreases entries.len(),
{
    if entries.len() == 0 {
        seq![config]
    } else if entries[0].name@ == config.name@ {
        seq![config] + entries.drop_first()
    } else if text_lt(config.name@, entries[0].name@) {
        seq![config] + entries
    } else {
        seq![entries[0]] + insert_by_name(entries.drop_first(), config)
    }
}

/// Whether a config belongs to `domain`.
pub open spec fn of_domain(domain: Seq<char>) -> spec_fn(AdapterConfig) -> bool {
    |c: AdapterConfig| c.domain@ == domain
}

/// The entries whose domain is `domain`, in order.
pub open spec fn in_domain(entries: Seq<AdapterConfig>, domain: Seq<char>) -> Seq<AdapterConfig> {
    entries.filter(of_domain(domain))
}

/// Two configs agree on every field: name, domain, bottleneck width and target layers.
pub open spec fn same_config(a: AdapterConfig, b: AdapterConfig) -> bool {
    &&& a.name@ == b.name@
    &&& a.domain@ == b.domain@
    &&& a.bottleneck_dim == b.bottleneck_dim
    &&& a.target_layers@ == b.target_layers@
}

/// Two lists of configs agree entry by entry, as a registry and its clone do.
pub open spec fn same_entries(a: Seq<AdapterConfig>, b: Seq<AdapterConfig>) -> bool {
    &&& a.len() == b.len()
    &&& forall|i: int| 0 <= i < a.len() ==> same_config(#[trigger] a[i], b[i])
}

/// Registry mapping names to adapter configs, kept in name order.
#[derive(Debug)]
pub struct AdapterRegistry {
    adapters: Vec<AdapterConfig>,
}

impl AdapterRegistry {
    #[verifier::type_invariant]
    spec fn well_formed(self) -> bool {
        sorted_by_name(self.adapters@)
    }

    /// The registered configs in name order.
    pub closed spec fn entries(self) -> Seq<AdapterConfig> {
        self.adapters@
    }

    pub fn new() -> (registry: Self)
        ensures
            registry.entries() == Seq::<AdapterConfig>::empty(),
    {
        AdapterRegistry { adapters: Vec::new() }
    }

    /// Registers `config` under its name, replacing any config of the same name.
    pub fn register(&mut self, config: AdapterConfig)
        ensures
            sorted_by_name(final(self).entries()),
            final(self).entries() == insert_by_name(old(self).entries(), config),
    {
        proof {
            use_type_invariant(&*self);
        }
        let mut adapters: Vec<AdapterConfig> = Vec::new();
        std::mem::swap(&mut adapters, &mut self.adapters);
        let ghost before = adapters@;
        let mut i: usize = 0;
        while i < adapters.len() && text_less(adapters[i].name.as_str(), config.name.as_str())
            invariant
                adapters@ == before,
                sorted_by_name(before),
                i <= before.len(),
                forall|k: int| 0 <= k < i ==> text_lt((#[trigger] before[k]).name@, config.name@),
            decreases before.len() - i,
        {
            i = i + 1;
        }
        let ghost config_copy = config;
        let replace = i < adapters.len() && adapters[i].name == config.name;
        if replace {
            adapters.set(i, config);
        } else {
            adapters.insert(i, config);
        }
        proof {
            lemma_insert_by_name_at(before, config_copy, i as int);
            lemma_insert_by_name_sorted(before, config_copy);
        }
        self.adapters = adapters;
    }

    /// The config registered under `name`.
    pub fn get(&self, name: &str) -> (found: Option<&AdapterConfig>)
        ensures
            sorted_by_name(self.entries()),
            match found {
                Some(c) => self.entries().contains(*c) && c.name@ == name@,
                None => forall|i: int|
                    0 <= i < self.entries().len() ==> (#[trigger] self.entries()[i]).name@ != name@,
            },
    {
        proof {
            use_type_invariant(self);
        }
        let target = owned(name);
        let mut i: usize = 0;
        while i < self.adapters.len()
            invariant
                i <= self.adapters@.len(),
                target@ == name@,
                sorted_by_name(self.adapters@),
                forall|k: int| 0 <= k < i ==> (#[trigger] self.adapters@[k]).name@ != name@,
            decreases self.adapters@.len() - i,
        {
            if self.adapters[i].name == target {
                return Some(&self.adapters[i]);
            }
            i = i + 1;
        }
        None
    }

    /// The configs whose domain is `domain`, in name order.
    pub fn for_domain(&self, domain: &str) -> (configs: Vec<&AdapterConfig>)
        ensures
            sorted_by_name(self.entries()),
            configs@.map_values(|c: &AdapterConfig| *c) == in_domain(self.entries(), domain@),
    {
        proof {
            use_type_invariant(self);
        }
        let target = owned(domain);
        let mut configs: Vec<&AdapterConfig> = Vec::new();
        let mut i: usize = 0;
        while i < self.adapters.len()
            invariant
                i <= self.adapters@.len(),
                target@ == domain@,
                configs@.map_values(|c: &AdapterConfig| *c) == in_domain(
                    self.adapters@.subrange(0, i as int),
                    domain@,
                ),
            decreases self.adapters@.len() - i,
        {
            let ghost prefix = self.adapters@.subrange(0, i as int);
            assert(self.adapters@.subrange(0, i + 1) =~= prefix.push(self.adapters@[i as int]));
            proof {
                reveal(Seq::filter);
                assert(prefix.push(self.adapters@[i as int]).drop_last() =~= prefix);
            }
            if self.adapters[i].domain == target {
                configs.push(&self.adapters[i]);
                assert(configs@.map_values(|c: &AdapterConfig| *c) =~= in_domain(prefix, domain@).push(self.adapters@[i as int]));
            }
            i = i + 1;
        }
        assert(self.adapters@.subrange(0, self.adapters@.len() as int) =~= self.adapters@);
        configs
    }
}

impl Default for AdapterRegistry {
    fn default() -> (registry: Self)
        ensures
            registry.entries() == Seq::<AdapterConfig>::empty(),
    {
        AdapterRegistry::new()
    }
}

fn copy_layers(layers: &Vec<usize>) -> (copy: Vec<usize>)
    ensures
        copy@ == layers@,
{
    let mut copy: Vec<usize> = Vec::new();
    let mut i: usize = 0;
    while i < layers.len()
        invariant
            i <= layers@.len(),
            copy@ == layers@.subrange(0, i as int),
        decreases layers@.len() - i,
    {
        copy.push(layers[i]);
        i = i + 1;
    }
    copy
}

impl Clone for AdapterRegistry {
    fn clone(&self) -> (copy: Self)
        ensures
            same_entries(copy.entries(), self.entries()),
    {
        proof {
            use_type_invariant(self);
        }
        let mut adapters: Vec<AdapterConfig> = Vec::new();
        let mut i: usize = 0;
        while i < self.adapters.len()
            invariant
                i <= self.adapters@.len(),
                adapters@.len() == i,
                forall|k: int| 0 <= k < i ==> {
                    &&& (#[trigger] adapters@[k]).name@ == self.adapters@[k].name@
                    &&& adapters@[k].domain@ == self.adapters@[k].domain@
                    &&& adapters@[k].bottleneck_dim == self.adapters@[k].bottleneck_dim
                    &&& adapters@[k].target_layers@ == self.adapters@[k].target_layers@
                },
            decreases self.adapters@.len() - i,
        {
            let source = &self.adapters[i];
            adapters.push(
                AdapterConfig {
                    name: source.name.clone(),
                    domain: source.domain.clone(),
                    bottleneck_dim: source.bottleneck_dim,
                    target_layers: copy_layers(&source.target_layers),
                },
            );
            i = i + 1;
        }
        assert(sorted_by_name(adapters@)) by {
            assert forall|a: int, b: int| 0 <= a < b < adapters@.len() implies text_lt(
                (#[trigger] adapters@[a]).name@,
                (#[trigger] adapters@[b]).name@,
            ) by {
                assert(text_lt(self.adapters@[a].name@, self.adapters@[b].name@));
            }
        }
        AdapterRegistry { adapters }
    }
}

/// Inserting at the first position whose name does not sort before the new one is `insert_by_name`.
proof fn lemma_insert_by_name_at(entries: Seq<AdapterConfig>, config: AdapterConfig, i: int)
    requires
        sorted_by_name(entries),
        0 <= i <= entries.len(),
        forall|k: int| 0 <= k < i ==> text_lt((#[trigger] entries[k]).name@, config.name@),
        i < entries.len() ==> !text_lt(entries[i].name@, config.name@),
    ensures
        insert_by_name(entries, config) == if i < entries.len() && entries[i].name@ == config.name@ {
            entries.update(i, config)
        } else {
            entries.insert(i, config)
        },
    decreases i,
{
    if i == 0 {
        if entries.len() > 0 {
            if entries[0].name@ == config.name@ {
                assert(seq![config] + entries.drop_first() =~= entries.update(0, config));
            } else {
                lemma_text_lt_total(entries[0].name@, config.name@);
                assert(seq![config] + entries =~= entries.insert(0, config));
            }
        } else {
            assert(seq![config] =~= entries.insert(0, config));
        }
    } else {
        let rest = entries.drop_first();
        assert(sorted_by_name(rest)) by {
            assert forall|a: int, b: int| 0 <= a < b < rest.len() implies text_lt(
                (#[trigger] rest[a]).name@,
                (#[trigger] rest[b]).name@,
            ) by {
                assert(rest[a] == entries[a + 1] && rest[b] == entries[b + 1]);
            }
        }
        assert forall|k: int| 0 <= k < i - 1 implies text_lt((#[trigger] rest[k]).name@, config.name@) by {
            assert(rest[k] == entries[k + 1]);
        }
        assert(text_lt(entries[0].name@, config.name@));
        lemma_text_lt_asymmetric(entries[0].name@, config.name@);
        lemma_text_lt_irreflexive(config.name@);
        lemma_insert_by_name_at(rest, config, i - 1);
        if i < entries.len() && entries[i].name@ == config.name@ {
            assert(rest[i - 1] == entries[i]);
            assert(seq![entries[0]] + rest.update(i - 1, config) =~= entries.update(i, config));
        } else {
            if i < entries.len() {
                assert(rest[i - 1] == entries[i]);
            }
            assert(seq![entries[0]] + rest.insert(i - 1, config) =~= entries.insert(i, config));
        }
    }
}

/// `insert_by_name` keeps a name-sorted list sorted, and only holds names that were there or the new one.
proof fn lemma_insert_by_name_sorted(entries: Seq<AdapterConfig>, config: AdapterConfig)
    requires
        sorted_by_name(entries),
    ensures
        sorted_by_name(insert_by_name(entries, config)),
        forall|k: int| 0 <= k < insert_by_name(entries, config).len() ==> {
            ||| (#[trigger] insert_by_name(entries, config)[k]).name@ == config.name@
            ||| exists|m: int| 0 <= m < entries.len() && entries[m].name@ == insert_by_name(entries, config)[k].name@
        },
    decreases entries.len(),
{
    let result = insert_by_name(entries, config);
    if entries.len() == 0 {
    } else if entries[0].name@ == config.name@ {
        assert forall|a: int, b: int| 0 <= a < b < result.len() implies text_lt(
            (#[trigger] result[a]).name@,
            (#[trigger] result[b]).name@,
        ) by {
            if a == 0 {
                assert(result[b] == entries[b]);
            } else {
                assert(result[a] == entries[a] && result[b] == entries[b]);
            }
        }
        assert forall|k: int| 0 <= k < result.len() implies {
            ||| (#[trigger] result[k]).name@ == config.name@
            ||| exists|m: int| 0 <= m < entries.len() && entries[m].name@ == result[k].name@
        } by {
            if k > 0 {
                assert(result[k] == entries[k]);
            }
        }
    } else if text_lt(config.name@, entries[0].name@) {
        assert forall|a: int, b: int| 0 <= a < b < result.len() implies text_lt(
            (#[trigger] result[a]).name@,
            (#[trigger] result[b]).name@,
        ) by {
            if a == 0 {
                assert(result[b] == entries[b - 1]);
                if b - 1 > 0 {
                    lemma_text_lt_transitive(config.name@, entries[0].name@, entries[b - 1].name@);
                }
            } else {
                assert(result[a] == entries[a - 1] && result[b] == entries[b - 1]);
            }
        }
        assert forall|k: int| 0 <= k < result.len() implies {
            ||| (#[trigger] result[k]).name@ == config.name@
            ||| exists|m: int| 0 <= m < entries.len() && entries[m].name@ == result[k].name@
        } by {
            if k > 0 {
                assert(result[k] == entries[k - 1]);
            }
        }
    } else {
        let rest = entries.drop_first();
        assert(sorted_by_name(rest)) by {
            assert forall|a: int, b: int| 0 <= a < b < rest.len() implies text_lt(
                (#[trigger] rest[a]).name@,
                (#[trigger] rest[b]).name@,
            ) by {
                assert(rest[a] == entries[a + 1] && rest[b] == entries[b + 1]);
            }
        }
        lemma_insert_by_name_sorted(rest, config);
        let tail = insert_by_name(rest, config);
        lemma_text_lt_total(config.name@, entries[0].name@);
        assert forall|k: int| 0 <= k < result.len() implies {
            ||| (#[trigger] result[k]).name@ == config.name@
            ||| exists|m: int| 0 <= m < entries.len() && entries[m].name@ == result[k].name@
        } by {
            if k == 0 {
                assert(entries[0].name@ == result[0].name@);
            } else {
                assert(result[k] == tail[k - 1]);
                if tail[k - 1].name@ != config.name@ {
                    let m = choose|m: int| 0 <= m < rest.len() && rest[m].name@ == tail[k - 1].name@;
                    assert(entries[m + 1] == rest[m]);
                }
            }
        }
        assert forall|a: int, b: int| 0 <= a < b < result.len() implies text_lt(
            (#[trigger] result[a]).name@,
            (#[trigger] result[b]).name@,
        ) by {
            if a == 0 {
                assert(result[b] == tail[b - 1]);
                if tail[b - 1].name@ == config.name@ {
                } else {
                    let m = choose|m: int| 0 <= m < rest.len() && rest[m].name@ == tail[b - 1].name@;
                    assert(entries[m + 1] == rest[m]);
                }
            } else {
                assert(result[a] == tail[a - 1] && result[b] == tail[b - 1]);
            }
        }
    }
}

/// Supported adaptation strategies.
#[derive(Clone, Copy, Debug, PartialEq, Eq, Structural)]
pub enum AdaptationMode {
    ZeroShot,
    FewShotCalibration,
    AdapterTuning,
    FullFineTuning,
}

/// The name under which a mode is reported.
pub open spec fn mode_name(mode: AdaptationMode) -> Seq<char> {
    match mode {
        AdaptationMode::ZeroShot => "ZeroShot"@,
        AdaptationMode::FewShotCalibration => "FewShotCalibration"@,
        AdaptationMode::AdapterTuning => "AdapterTuning"@,
        AdaptationMode::FullFineTuning => "FullFineTuning"@,
    }
}

fn mode_label(mode: AdaptationMode) -> (label: &'static str)
    ensures
        label@ == mode_name(mode),
{
    match mode {
        AdaptationMode::ZeroShot => "ZeroShot",
        AdaptationMode::FewShotCalibration => "FewShotCalibration",
        AdaptationMode::AdapterTuning => "AdapterTuning",
        AdaptationMode::FullFineTuning => "FullFineTuning",
    }
}

/// Status returned after starting or simulating adaptation.
#[derive(Debug)]
pub struct AdaptationStatus {
    pub adaptation_id: uuid::Uuid,
    pub status: String,
    pub message: Option<String>,
}

impl AdaptationStatus {
    /// The sixteen bytes of the adaptation id.
    pub fn id_bytes(&self) -> (bytes: [u8; 16])
        ensures
            bytes@ == uuid_bytes(self.adaptation_id),
    {
        uuid_bytes_of(&self.adaptation_id)
    }
}

/// The name of the adapter that adapter tuning registers for a domain.
pub open spec fn tuned_adapter_name(domain: Seq<char>, adapter_name: Option<Seq<char>>) -> Seq<char> {
    match adapter_name {
        Some(name) => name,
        None => domain + "_adapter"@,
    }
}

/// Coordinates adapter preparation and calibration.
#[derive(Clone, Debug)]
pub struct AdaptationWorkflow {
    registry: AdapterRegistry,
}

impl AdaptationWorkflow {
    pub closed spec fn spec_registry(self) -> AdapterRegistry {
        self.registry
    }

    pub fn new(registry: AdapterRegistry) -> (workflow: Self)
        ensures
            workflow.spec_registry() == registry,
    {
        AdaptationWorkflow { registry }
    }

    pub fn registry(&self) -> (registry: &AdapterRegistry)
        ensures
            *registry == self.spec_registry(),
    {
        &self.registry
    }

    /// Accepts an adaptation run for `domain`. Adapter tuning registers an adapter config for the
    /// domain (named `adapter_name`, or `<domain>_adapter`) with default settings otherwise.
    pub fn start(
        &mut self,
        domain: &str,
        adapter_name: Option<&str>,
        mode: AdaptationMode,
        random_bytes: [u8; 16],
    ) -> (r: AionResult<AdaptationStatus>)
        ensures
            mode == AdaptationMode::AdapterTuning ==> exists|c: AdapterConfig|
                #![trigger insert_by_name(old(self).spec_registry().entries(), c)]
                {
                    &&& c.name@ == tuned_adapter_name(
                        domain@,
                        match adapter_name {
                            Some(n) => Some(n@),
                            None => None,
                        },
                    )
                    &&& c.domain@ == domain@
                    &&& c.bottleneck_dim == 64
                    &&& c.target_layers@ == Seq::<usize>::empty()
                    &&& final(self).spec_registry().entries() == insert_by_name(
                        old(self).spec_registry().entries(),
                        c,
                    )
                },
            mode != AdaptationMode::AdapterTuning ==> final(self).spec_registry() == old(
                self,
            ).spec_registry(),
            match r {
                Ok(status) => {
                    &&& status.status@ == "accepted"@
                    &&& status.message matches Some(m) && m@ == "adaptation workflow queued in "@
                        + mode_name(mode) + " mode"@
                    &&& uuid_bytes(status.adaptation_id) == random_uuid_bytes(random_bytes@)
                    &&& uuid_bytes(status.adaptation_id)[6] >> 4 == 4
                    &&& uuid_bytes(status.adaptation_id)[8] >> 6 == 2
                },
                Err(_) => false,
            },
    {
        if mode == AdaptationMode::AdapterTuning {
            let name = match adapter_name {
                Some(name) => owned(name),
                None => concat2(domain, "_adapter"),
            };
            let config = AdapterConfig {
                name,
                domain: owned(domain),
                bottleneck_dim: 64,
                target_layers: Vec::new(),
            };
            let ghost registered = config;
            self.registry.register(config);
            assert(registered.target_layers@ == Seq::<usize>::empty());
            assert(registered.name@ == tuned_adapter_name(
                domain@,
                match adapter_name {
                    Some(n) => Some(n@),
                    None => None,
                },
            ));
            assert(self.spec_registry().entries() == insert_by_name(
                old(self).spec_registry().entries(),
                registered,
            ));
        }
        proof {
            lemma_random_uuid_version(random_bytes@);
        }
        Ok(
            AdaptationStatus {
                adaptation_id: uuid_from_random_bytes(random_bytes),
                status: owned("accepted"),
                message: Some(concat3("adaptation workflow queued in ", mode_label(mode), " mode")),
            },
        )
    }
}

impl Default for AdaptationWorkflow {
    fn default() -> (workflow: Self)
        ensures
            workflow.spec_registry().entries() == Seq::<AdapterConfig>::empty(),
    {
        AdaptationWorkflow { registry: AdapterRegistry::new() }
    }
}

/// Registering a config makes it the one entry under its name and keeps every entry of another
/// name; the entries stay in name order.
pub proof fn lemma_register_then_lookup(entries: Seq<AdapterConfig>, config: AdapterConfig)
    requires
        sorted_by_name(entries),
    ensures
        sorted_by_name(insert_by_name(entries, config)),
        insert_by_name(entries, config).contains(config),
        forall|i: int|
            0 <= i < insert_by_name(entries, config).len() && (#[trigger] insert_by_name(
                entries,
                config,
            )[i]).name@ == config.name@ ==> insert_by_name(entries, config)[i] == config,
        forall|i: int|
            0 <= i < entries.len() && (#[trigger] entries[i]).name@ != config.name@
                ==> insert_by_name(entries, config).contains(entries[i]),
        forall|c: AdapterConfig|
            #[trigger] insert_by_name(entries, config).contains(c) ==> c == config
                || entries.contains(c),
    decreases entries.len(),
{
    lemma_insert_by_name_sorted(entries, config);
    let result = insert_by_name(entries, config);
    if entries.len() == 0 {
        assert(result[0] == config);
    } else if entries[0].name@ == config.name@ {
        assert(result[0] == config);
        assert forall|i: int| 0 <= i < result.len() && (#[trigger] result[i]).name@ == config.name@
            implies result[i] == config by {
            if i > 0 {
                assert(result[i] == entries[i]);
                assert(text_lt(entries[0].name@, entries[i].name@));
                lemma_text_lt_irreflexive(config.name@);
            }
        }
        assert forall|i: int| 0 <= i < entries.len() && (#[trigger] entries[i]).name@ != config.name@
            implies result.contains(entries[i]) by {
            assert(result[i] == entries[i]);
        }
        assert forall|c: AdapterConfig| #[trigger] result.contains(c) implies c == config
            || entries.contains(c) by {
            let k = choose|k: int| 0 <= k < result.len() && result[k] == c;
            if k > 0 {
                assert(entries[k] == c);
            }
        }
    } else if text_lt(config.name@, entries[0].name@) {
        assert(result[0] == config);
        assert forall|i: int| 0 <= i < result.len() && (#[trigger] result[i]).name@ == config.name@
            implies result[i] == config by {
            if i > 0 {
                assert(result[i] == entries[i - 1]);
                if i - 1 > 0 {
                    lemma_text_lt_transitive(config.name@, entries[0].name@, entries[i - 1].name@);
                }
                lemma_text_lt_irreflexive(config.name@);
            }
        }
        assert forall|i: int| 0 <= i < entries.len() && (#[trigger] entries[i]).name@ != config.name@
            implies result.contains(entries[i]) by {
            assert(result[i + 1] == entries[i]);
        }
        assert forall|c: AdapterConfig| #[trigger] result.contains(c) implies c == config
            || entries.contains(c) by {
            let k = choose|k: int| 0 <= k < result.len() && result[k] == c;
            if k > 0 {
                assert(entries[k - 1] == c);
            }
        }
    } else {
        let rest = entries.drop_first();
        assert(sorted_by_name(rest)) by {
            assert forall|a: int, b: int| 0 <= a < b < rest.len() implies text_lt(
                (#[trigger] rest[a]).name@,
                (#[trigger] rest[b]).name@,
            ) by {
                assert(rest[a] == entries[a + 1] && rest[b] == entries[b + 1]);
            }
        }
        lemma_register_then_lookup(rest, config);
        let tail = insert_by_name(rest, config);
        assert(result =~= seq![entries[0]] + tail);
        assert(tail.contains(config));
        let w = choose|w: int| 0 <= w < tail.len() && tail[w] == config;
        assert(result[w + 1] == config);
        assert forall|i: int| 0 <= i < result.len() && (#[trigger] result[i]).name@ == config.name@
            implies result[i] == config by {
            if i > 0 {
                assert(result[i] == tail[i - 1]);
            }
        }
        assert forall|i: int| 0 <= i < entries.len() && (#[trigger] entries[i]).name@ != config.name@
            implies result.contains(entries[i]) by {
            if i == 0 {
                assert(result[0] == entries[0]);
            } else {
                assert(rest[i - 1] == entries[i]);
                assert(tail.contains(rest[i - 1]));
                let k = choose|k: int| 0 <= k < tail.len() && tail[k] == rest[i - 1];
                assert(result[k + 1] == entries[i]);
            }
        }
        assert forall|c: AdapterConfig| #[trigger] result.contains(c) implies c == config
            || entries.contains(c) by {
            let k = choose|k: int| 0 <= k < result.len() && result[k] == c;
            if k == 0 {
                assert(entries[0] == c);
            } else {
                assert(tail[k - 1] == c);
                assert(tail.contains(c));
                if c != config {
                    assert(rest.contains(c));
                    let m = choose|m: int| 0 <= m < rest.len() && rest[m] == c;
                    assert(entries[m + 1] == c);
                }
            }
        }
    }
}

} // verus!
