use vstd::prelude::*;

use crate::error::{owned, AionError, AionResult};
use crate::missing::{fill_plan, policy_fill, Fill};

verus! {

/// Missing-value policy used before patching or model inference.
#[derive(Clone, Copy, Debug, PartialEq, Eq, Structural)]
pub enum MissingPolicy {
    /// Preserve missing values; downstream masks remain informative.
    Preserve,
    /// Replace missing values with zero.
    ZeroFill,
    /// Carry the last observed value forward.
    ForwardFill,
    /// Linearly interpolate interior gaps and forward/backward fill boundary gaps.
    LinearInterpolate,
}

impl Default for MissingPolicy {
    fn default() -> (policy: Self)
        ensures
            policy == MissingPolicy::Preserve,
    {
        MissingPolicy::Preserve
    }
}

/// Normalizer for already-scaled inputs: leaves values unchanged.
#[derive(Clone, Copy, Debug, Default)]
pub struct IdentityNormalizer;

/// Patch segmentation configuration.
#[derive(Clone, Copy, Debug, PartialEq, Eq, Structural)]
pub struct PatchConfig {
    pub patch_len: usize,
    pub stride: usize,
    pub drop_incomplete: bool,
    pub missing_policy: MissingPolicy,
}

impl Default for PatchConfig {
    fn default() -> (config: Self)
        ensures
            config == (PatchConfig {
                patch_len: 32,
                stride: 16,
                drop_incomplete: true,
                missing_policy: MissingPolicy::Preserve,
            }),
    {
        PatchConfig {
            patch_len: 32,
            stride: 16,
            drop_incomplete: true,
            missing_policy: MissingPolicy::Preserve,
        }
    }
}

/// One patch cut from a series: the values `start..end`, followed by `padding` unobserved slots.
#[derive(Clone, Copy, Debug, PartialEq, Eq, Structural)]
pub struct PatchWindow {
    pub start: usize,
    pub end: usize,
    pub padding: usize,
}

/// The `k`-th patch window over a series of length `len`.
pub open spec fn window_at(config: PatchConfig, len: int, k: int) -> PatchWindow {
    let start: int = k * config.stride;
    let end = if start + config.patch_len <= len {
        start + config.patch_len
    } else {
        len
    };
    PatchWindow {
        start: start as usize,
        end: end as usize,
        padding: if config.drop_incomplete {
            0
        } else {
            (config.patch_len - (end - start)) as usize
        },
    }
}

/// Whether the `k`-th window is cut: it starts inside the series and, when incomplete patches are
/// dropped, it is complete.
pub open spec fn window_taken(config: PatchConfig, len: int, k: int) -> bool {
    &&& k * config.stride < len
    &&& config.drop_incomplete ==> k * config.stride + config.patch_len <= len
}

/// A taken window lies inside the series.
proof fn lemma_window_in_bounds(config: PatchConfig, len: int, k: int)
    requires
        config.patch_len > 0,
        config.stride > 0,
        k >= 0,
        len <= usize::MAX,
        window_taken(config, len, k),
    ensures
        window_at(config, len, k).start <= window_at(config, len, k).end <= len,
{
    assert(k * config.stride >= 0) by (nonlinear_arith)
        requires
            k >= 0,
            config.stride > 0,
    ;
}

/// The number of windows cut from a series of `len` values: with incomplete patches dropped, one
/// per stride while a whole patch still fits; otherwise one per stride started inside the series.
pub open spec fn window_count(config: PatchConfig, len: int) -> int {
    if config.drop_incomplete {
        if config.patch_len <= len {
            (len - config.patch_len) / (config.stride as int) + 1
        } else {
            0
        }
    } else {
        (len + config.stride - 1) / (config.stride as int)
    }
}

/// For a positive step, `k` steps stay within `m` exactly when `k` is at most `m / s`.
proof fn lemma_steps_within(k: int, s: int, m: int)
    requires
        s > 0,
        k >= 0,
        m >= 0,
    ensures
        (k * s <= m) <==> k <= m / s,
{
    vstd::arithmetic::div_mod::lemma_fundamental_div_mod(m, s);
    vstd::arithmetic::div_mod::lemma_mod_pos_bound(m, s);
    let q = m / s;
    let r = m % s;
    if k <= q {
        assert(k * s <= m) by (nonlinear_arith)
            requires
                k <= q,
                s > 0,
                m == s * q + r,
                r >= 0,
        ;
    } else {
        assert(k * s > m) by (nonlinear_arith)
            requires
                k >= q + 1,
                s > 0,
                m == s * q + r,
                r < s,
        ;
    }
}

/// The `k`-th window is cut exactly when `k` is below the window count.
pub proof fn lemma_window_taken_below_count(config: PatchConfig, len: int, k: int)
    requires
        config.patch_len > 0,
        config.stride > 0,
        len >= 0,
        k >= 0,
    ensures
        window_taken(config, len, k) <==> k < window_count(config, len),
{
    let s = config.stride as int;
    let p = config.patch_len as int;
    assert(k * s >= 0) by (nonlinear_arith)
        requires
            k >= 0,
            s > 0,
    ;
    if config.drop_incomplete {
        if p <= len {
            lemma_steps_within(k, s, len - p);
        }
    } else {
        if len >= 1 {
            lemma_steps_within(k, s, len - 1);
            assert((len + s - 1) / s == (len - 1) / s + 1) by {
                vstd::arithmetic::div_mod::lemma_fundamental_div_mod(len - 1, s);
                vstd::arithmetic::div_mod::lemma_mod_pos_bound(len - 1, s);
                let q = (len - 1) / s;
                assert(len + s - 1 == (q + 1) * s + (len - 1) % s) by (nonlinear_arith)
                    requires
                        len - 1 == s * q + (len - 1) % s,
                ;
                vstd::arithmetic::div_mod::lemma_fundamental_div_mod_converse(
                    len + s - 1,
                    s,
                    (len - 1) / s + 1,
                    (len - 1) % s,
                );
            }
        } else {
            assert((s - 1) / s == 0) by {
                vstd::arithmetic::div_mod::lemma_fundamental_div_mod_converse(s - 1, s, 0, s - 1);
            }
        }
    }
}

/// The windows of a series number exactly `window_count`: any count `n` for which the first `n`
/// windows are cut and the next is not is that number.
pub proof fn lemma_window_count(config: PatchConfig, len: int, n: int)
    requires
        config.patch_len > 0,
        config.stride > 0,
        len >= 0,
        n >= 0,
        forall|k: int| 0 <= k < n ==> #[trigger] window_taken(config, len, k),
        !window_taken(config, len, n),
    ensures
        n == window_count(config, len),
{
    lemma_window_taken_below_count(config, len, n);
    if n > 0 {
        assert(window_taken(config, len, n - 1));
        lemma_window_taken_below_count(config, len, n - 1);
    } else {
        assert(window_count(config, len) >= 0) by {
            if config.drop_incomplete && config.patch_len <= len {
                vstd::arithmetic::div_mod::lemma_fundamental_div_mod(len - config.patch_len, config.stride as int);
                vstd::arithmetic::div_mod::lemma_mod_pos_bound(len - config.patch_len, config.stride as int);
                assert((len - config.patch_len) / (config.stride as int) >= 0) by (nonlinear_arith)
                    requires
                        len - config.patch_len >= 0,
                        config.stride > 0,
                ;
            } else if !config.drop_incomplete {
                assert((len + config.stride - 1) / (config.stride as int) >= 0) by (nonlinear_arith)
                    requires
                        len + config.stride - 1 >= 0,
                        config.stride > 0,
                ;
            }
        }
    }
}

/// Generates value patches for the continuous stream.
#[derive(Clone, Copy, Debug)]
pub struct PatchGenerator {
    config: PatchConfig,
}

impl PatchGenerator {
    pub closed spec fn spec_config(self) -> PatchConfig {
        self.config
    }

    #[verifier::type_invariant]
    spec fn well_formed(self) -> bool {
        self.config.patch_len > 0 && self.config.stride > 0
    }

    /// Accepts a configuration whose patch length and stride are positive.
    pub fn new(config: PatchConfig) -> (r: AionResult<Self>)
        ensures
            match r {
                Ok(generator) => config.patch_len > 0 && config.stride > 0
                    && generator.spec_config() == config,
                Err(AionError::Validation(message)) => if config.patch_len == 0 {
                    message@ == "patch_len must be greater than zero"@
                } else {
                    config.stride == 0 && message@ == "stride must be greater than zero"@
                },
                Err(_) => false,
            },
    {
        if config.patch_len == 0 {
            return Err(AionError::Validation(owned("patch_len must be greater than zero")));
        }
        if config.stride == 0 {
            return Err(AionError::Validation(owned("stride must be greater than zero")));
        }
        Ok(PatchGenerator { config })
    }

    pub fn config(&self) -> (config: &PatchConfig)
        ensures
            *config == self.spec_config(),
    {
        &self.config
    }

    /// The windows cut from a series of `len` values: starts advance by the stride from zero while
    /// they are inside the series; when incomplete patches are dropped, cutting stops at the first
    /// window that would run past the end.
    pub fn windows(&self, len: usize) -> (windows: Vec<PatchWindow>)
        ensures
            forall|k: int|
                0 <= k < windows@.len() ==> window_taken(self.spec_config(), len as int, k)
                    && #[trigger] windows@[k] == window_at(self.spec_config(), len as int, k),
            !window_taken(self.spec_config(), len as int, windows@.len() as int),
            windows@.len() == window_count(self.spec_config(), len as int),
    {
        proof {
            use_type_invariant(self);
        }
        let patch_len = self.config.patch_len;
        let stride = self.config.stride;
        let drop_incomplete = self.config.drop_incomplete;
        let mut windows: Vec<PatchWindow> = Vec::new();
        let mut start: usize = 0;
        assert(0 * stride == 0) by (nonlinear_arith);
        while start < len
            invariant_except_break
                start == windows@.len() * stride,
            invariant
                patch_len == self.spec_config().patch_len,
                stride == self.spec_config().stride,
                drop_incomplete == self.spec_config().drop_incomplete,
                patch_len > 0,
                stride > 0,
                forall|k: int|
                    0 <= k < windows@.len() ==> #[trigger] window_taken(self.spec_config(), len as int, k),
                forall|k: int|
                    0 <= k < windows@.len() ==> #[trigger] windows@[k] == window_at(
                        self.spec_config(),
                        len as int,
                        k,
                    ),
            ensures
                !window_taken(self.spec_config(), len as int, windows@.len() as int),
            decreases len - start,
        {
            let end = if patch_len <= len - start {
                start + patch_len
            } else {
                len
            };
            if drop_incomplete && end - start < patch_len {
                break;
            }
            let padding = if drop_incomplete {
                0
            } else {
                patch_len - (end - start)
            };
            let ghost count = windows@.len();
            let window = PatchWindow { start, end, padding };
            assert(window == window_at(self.spec_config(), len as int, count as int));
            assert(window_taken(self.spec_config(), len as int, count as int));
            let ghost prev = windows@;
            windows.push(window);
            proof {
                assert((count + 1) * stride == count * stride + stride) by (nonlinear_arith);
                assert forall|j: int| 0 <= j < windows@.len() implies #[trigger] window_taken(self.spec_config(), len as int, j) by {
                    if j < count {
                        assert(windows@[j] == prev[j]);
                    }
                }
                assert forall|j: int| 0 <= j < windows@.len() implies #[trigger] windows@[j] == window_at(self.spec_config(), len as int, j) by {
                    if j < count {
                        assert(windows@[j] == prev[j]);
                    }
                }
            }
            if stride >= len - start {
                break;
            }
            start = start + stride;
        }
        proof {
            lemma_window_count(self.spec_config(), len as int, windows@.len() as int);
        }
        windows
    }

    /// The patches of a series whose observed slots are marked in `observed`: each window, with
    /// the fill plan of the missing-value policy over the slots it covers.
    pub fn plans(&self, observed: &Vec<bool>) -> (plans: Vec<(PatchWindow, Vec<Fill>)>)
        ensures
            forall|k: int|
                0 <= k < plans@.len() ==> window_taken(self.spec_config(), observed@.len() as int, k)
                    && (#[trigger] plans@[k]).0 == window_at(
                    self.spec_config(),
                    observed@.len() as int,
                    k,
                ),
            !window_taken(self.spec_config(), observed@.len() as int, plans@.len() as int),
            plans@.len() == window_count(self.spec_config(), observed@.len() as int),
            forall|k: int|
                0 <= k < plans@.len() ==> (#[trigger] plans@[k]).1@.len() == plans@[k].0.end
                    - plans@[k].0.start,
            forall|k: int, j: int|
                0 <= k < plans@.len() && 0 <= j < plans@[k].1@.len() ==> #[trigger] plans@[k].1@[j]
                    == policy_fill(
                    self.spec_config().missing_policy,
                    observed@.subrange(plans@[k].0.start as int, plans@[k].0.end as int),
                    j,
                ),
    {
        proof {
            use_type_invariant(self);
        }
        let n = observed.len();
        let windows = self.windows(n);
        assert(n == observed@.len());
        assert forall|q: int| 0 <= q < windows@.len() implies #[trigger] window_taken(
            self.spec_config(),
            n as int,
            q,
        ) by {
            assert(windows@[q] == window_at(self.spec_config(), n as int, q));
        }
        let policy = self.config().missing_policy;
        let mut plans: Vec<(PatchWindow, Vec<Fill>)> = Vec::new();
        let mut k: usize = 0;
        while k < windows.len()
            invariant
                k <= windows@.len(),
                n == observed@.len(),
                self.spec_config().patch_len > 0,
                self.spec_config().stride > 0,
                n <= usize::MAX,
                policy == self.spec_config().missing_policy,
                forall|q: int| 0 <= q < windows@.len() ==> #[trigger] window_taken(self.spec_config(), n as int, q),
                forall|q: int|
                    0 <= q < windows@.len() ==> #[trigger] windows@[q] == window_at(self.spec_config(), n as int, q),
                !window_taken(self.spec_config(), n as int, windows@.len() as int),
                plans@.len() == k,
                forall|q: int| 0 <= q < k ==> (#[trigger] plans@[q]).0 == windows@[q],
                forall|q: int|
                    0 <= q < k ==> (#[trigger] plans@[q]).1@.len() == plans@[q].0.end - plans@[q].0.start,
                forall|q: int, j: int|
                    0 <= q < k && 0 <= j < plans@[q].1@.len() ==> #[trigger] plans@[q].1@[j]
                        == policy_fill(
                        policy,
                        observed@.subrange(plans@[q].0.start as int, plans@[q].0.end as int),
                        j,
                    ),
            decreases windows@.len() - k,
        {
            let window = windows[k];
            proof {
                assert(window_taken(self.spec_config(), n as int, k as int));
                assert(window == window_at(self.spec_config(), n as int, k as int));
                lemma_window_in_bounds(self.spec_config(), n as int, k as int);
            }
            let mut slots: Vec<bool> = Vec::new();
            let mut i: usize = window.start;
            while i < window.end
                invariant
                    window.start <= i <= window.end,
                    window.end <= observed@.len(),
                    slots@ == observed@.subrange(window.start as int, i as int),
                decreases window.end - i,
            {
                slots.push(observed[i]);
                i = i + 1;
            }
            let plan = fill_plan(policy, &slots);
            let ghost prev = plans@;
            plans.push((window, plan));
            proof {
                assert forall|q: int, j: int|
                    0 <= q < k + 1 && 0 <= j < plans@[q].1@.len() implies #[trigger] plans@[q].1@[j]
                        == policy_fill(
                        policy,
                        observed@.subrange(plans@[q].0.start as int, plans@[q].0.end as int),
                        j,
                    ) by {
                    if q < k {
                        assert(plans@[q] == prev[q]);
                    }
                }
            }
            k = k + 1;
        }
        plans
    }
}

} // verus!
