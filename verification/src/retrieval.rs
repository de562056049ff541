use vstd::prelude::*;
use vstd::string::*;

verus! {

/// Candidate source pool for retrieval.
#[derive(Clone, Copy, Debug, PartialEq, Eq, Structural)]
pub enum RetrievalSource {
    InEntity,
    SimilarEntities,
    DomainWide,
}

impl Default for RetrievalSource {
    fn default() -> (source: Self)
        ensures
            source == RetrievalSource::InEntity,
    {
        RetrievalSource::InEntity
    }
}

/// Similarity metric used to rank historical analog windows.
#[derive(Clone, Copy, Debug, PartialEq, Eq, Structural)]
pub enum SimilarityMetric {
    CenteredCosine,
    Euclidean,
}

impl Default for SimilarityMetric {
    fn default() -> (metric: Self)
        ensures
            metric == SimilarityMetric::CenteredCosine,
    {
        SimilarityMetric::CenteredCosine
    }
}

/// Errors of the retrieval index.
#[derive(Clone, Copy, Debug, PartialEq, Eq, Structural)]
pub enum RetrievalError {
    EmptyContext,
    InvalidWindow,
}

pub open spec fn retrieval_error_message(error: RetrievalError) -> Seq<char> {
    match error {
        RetrievalError::EmptyContext => "retrieval query context must not be empty"@,
        RetrievalError::InvalidWindow => "retrieval window length must be greater than zero"@,
    }
}

impl RetrievalError {
    /// The human-readable description of the error.
    pub fn message(&self) -> (message: &'static str)
        ensures
            message@ == retrieval_error_message(*self),
    {
        match self {
            RetrievalError::EmptyContext => "retrieval query context must not be empty",
            RetrievalError::InvalidWindow => "retrieval window length must be greater than zero",
        }
    }
}

/// The number of matches a query asks for when it does not say.
pub fn default_k() -> (k: usize)
    ensures
        k == 3,
{
    3
}

/// A query asks for at least one match.
pub fn effective_k(k: usize) -> (effective: usize)
    ensures
        effective == if k == 0 {
            1
        } else {
            k
        },
{
    if k == 0 {
        1
    } else {
        k
    }
}

/// The scope of a retrieval query: which stored windows it may match.
#[derive(Clone, Debug)]
pub struct QueryScope {
    pub source: RetrievalSource,
    pub tenant_id: Option<String>,
    pub domain: Option<String>,
    pub entity_id: Option<String>,
}

/// Where a stored window comes from.
#[derive(Clone, Debug)]
pub struct WindowScope {
    pub entity_id: String,
    pub tenant_id: Option<String>,
    pub domain: Option<String>,
}

/// Whether an optional query restriction admits an optional window attribute.
pub open spec fn restriction_admits(query: Option<String>, window: Option<String>) -> bool {
    match query {
        None => true,
        Some(q) => match window {
            Some(w) => w@ == q@,
            None => false,
        },
    }
}

/// Whether a stored window is within the scope of a query: same tenant and domain when the query
/// names them, and for in-entity retrieval, the query's entity.
pub open spec fn in_scope(window: WindowScope, query: QueryScope) -> bool {
    &&& restriction_admits(query.tenant_id, window.tenant_id)
    &&& restriction_admits(query.domain, window.domain)
    &&& match query.source {
        RetrievalSource::InEntity => match query.entity_id {
            Some(id) => window.entity_id@ == id@,
            None => false,
        },
        RetrievalSource::SimilarEntities | RetrievalSource::DomainWide => true,
    }
}

/// The conditions of a scope match spelled out: when the query names a tenant, the window has a
/// tenant and it is that one; when the query names a domain, the window has a domain and it is that
/// one; and in-entity retrieval needs the query to name an entity, which is the window's.
pub open spec fn scope_conditions(window: WindowScope, query: QueryScope) -> bool {
    &&& query.tenant_id is Some ==> window.tenant_id is Some && window.tenant_id.unwrap()@
        == query.tenant_id.unwrap()@
    &&& query.domain is Some ==> window.domain is Some && window.domain.unwrap()@
        == query.domain.unwrap()@
    &&& query.source is InEntity ==> query.entity_id is Some && window.entity_id@
        == query.entity_id.unwrap()@
}

/// A window is in a query's scope exactly when every condition of the match holds; in particular a
/// query that names a domain (or tenant) never matches a window that has none.
pub proof fn lemma_in_scope_conditions(window: WindowScope, query: QueryScope)
    ensures
        in_scope(window, query) <==> scope_conditions(window, query),
        query.domain is Some && window.domain is None ==> !in_scope(window, query),
        query.tenant_id is Some && window.tenant_id is None ==> !in_scope(window, query),
{
}

fn admits(query: &Option<String>, window: &Option<String>) -> (r: bool)
    ensures
        r == restriction_admits(*query, *window),
{
    match query {
        None => true,
        Some(q) => match window {
            Some(w) => *w == *q,
            None => false,
        },
    }
}

/// Whether a stored window is within the scope of a query.
pub fn matches_scope(window: &WindowScope, query: &QueryScope) -> (r: bool)
    ensures
        r == in_scope(*window, *query),
        r <==> scope_conditions(*window, *query),
{
    proof {
        lemma_in_scope_conditions(*window, *query);
    }
    if !admits(&query.tenant_id, &window.tenant_id) {
        return false;
    }
    if !admits(&query.domain, &window.domain) {
        return false;
    }
    match query.source {
        RetrievalSource::InEntity => match &query.entity_id {
            Some(id) => window.entity_id == *id,
            None => false,
        },
        RetrievalSource::SimilarEntities | RetrievalSource::DomainWide => true,
    }
}

/// A window indexed from a series: the context `start..outcome_start` and the outcome
/// `outcome_start..outcome_end`.
#[derive(Clone, Copy, Debug, PartialEq, Eq, Structural)]
pub struct SeriesWindow {
    pub start: usize,
    pub outcome_start: usize,
    pub outcome_end: usize,
}

/// The values a window needs after its start: the context and at least one outcome value.
pub open spec fn required_span(window_len: int, horizon: int) -> int {
    window_len + if horizon == 0 {
        1
    } else {
        horizon
    }
}

/// The window starting at `start`.
pub open spec fn series_window_at(len: int, window_len: int, horizon: int, start: int) -> SeriesWindow {
    SeriesWindow {
        start: start as usize,
        outcome_start: (start + window_len) as usize,
        outcome_end: if start + window_len + horizon <= len {
            (start + window_len + horizon) as usize
        } else {
            len as usize
        },
    }
}

/// The windows indexed from a series of `len` values: one for every start that leaves room for the
/// context and at least one outcome value, in order of start. A zero window length is refused.
pub fn series_windows(len: usize, window_len: usize, horizon: usize) -> (r: Result<
    Vec<SeriesWindow>,
    RetrievalError,
>)
    requires
        required_span(window_len as int, horizon as int) <= usize::MAX,
    ensures
        match r {
            Err(e) => window_len == 0 && e == RetrievalError::InvalidWindow,
            Ok(windows) => {
                &&& window_len > 0
                &&& windows@.len() == if len >= required_span(window_len as int, horizon as int) {
                    len - required_span(window_len as int, horizon as int) + 1
                } else {
                    0
                }
                &&& forall|k: int|
                    0 <= k < windows@.len() ==> #[trigger] windows@[k] == series_window_at(
                        len as int,
                        window_len as int,
                        horizon as int,
                        k,
                    )
            },
        },
{
    if window_len == 0 {
        return Err(RetrievalError::InvalidWindow);
    }
    let required = window_len + if horizon == 0 {
        1
    } else {
        horizon
    };
    let mut windows: Vec<SeriesWindow> = Vec::new();
    if len < required {
        return Ok(windows);
    }
    let max_start = len - required;
    let mut start: usize = 0;
    while start <= max_start
        invariant
            max_start == len - required,
            required == required_span(window_len as int, horizon as int),
            required <= len,
            window_len > 0,
            start <= max_start + 1,
            windows@.len() == start,
            forall|k: int|
                0 <= k < windows@.len() ==> #[trigger] windows@[k] == series_window_at(
                    len as int,
                    window_len as int,
                    horizon as int,
                    k,
                ),
        decreases max_start + 1 - start,
    {
        let outcome_start = start + window_len;
        let outcome_end = if outcome_start + horizon <= len {
            outcome_start + horizon
        } else {
            len
        };
        windows.push(SeriesWindow { start, outcome_start, outcome_end });
        start = start + 1;
    }
    Ok(windows)
}

} // verus!
