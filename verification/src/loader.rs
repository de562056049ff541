use vstd::prelude::*;
use vstd::string::*;

use crate::error::{concat3, AionError, AionResult};
use crate::text::{
    ascii_lower_text, ascii_lowercase, lemma_text_lt_asymmetric, lemma_text_lt_total,
    lemma_text_lt_transitive, starts_with, starts_with_text, text_less, text_lt, trim_start_matches,
    trim_start_matches_text, trim_text, trimmed,
};

verus! {

/// Supported corpus storage formats.
#[derive(Clone, Copy, Debug, PartialEq, Eq, Structural)]
pub enum DataFormat {
    Parquet,
    ArrowIpc,
    Csv,
    ZippedCsv,
    MetadataCatalog,
}

pub open spec fn format_name(format: DataFormat) -> Seq<char> {
    match format {
        DataFormat::Parquet => "Parquet"@,
        DataFormat::ArrowIpc => "ArrowIpc"@,
        DataFormat::Csv => "Csv"@,
        DataFormat::ZippedCsv => "ZippedCsv"@,
        DataFormat::MetadataCatalog => "MetadataCatalog"@,
    }
}

fn format_label(format: DataFormat) -> (label: &'static str)
    ensures
        label@ == format_name(format),
{
    match format {
        DataFormat::Parquet => "Parquet",
        DataFormat::ArrowIpc => "ArrowIpc",
        DataFormat::Csv => "Csv",
        DataFormat::ZippedCsv => "ZippedCsv",
        DataFormat::MetadataCatalog => "MetadataCatalog",
    }
}

/// The error for a format that a loader cannot read, at the path shown as `path`.
pub fn unsupported_format(format: DataFormat, path: &str) -> (error: AionError)
    ensures
        error matches AionError::Unsupported(message) && message@ == format_name(format)
            + " loading is not implemented yet for "@ + path@,
{
    AionError::Unsupported(concat3(format_label(format), " loading is not implemented yet for ", path))
}

/// Loader that refuses every storage backend.
#[derive(Clone, Copy, Debug, Default)]
pub struct UnsupportedDataLoader;

/// Local corpus loader with a concrete CSV implementation.
#[derive(Clone, Copy, Debug, Default)]
pub struct LocalDataLoader;

impl LocalDataLoader {
    /// The local loader reads CSV files only.
    pub fn supports(&self, format: DataFormat) -> (supported: bool)
        ensures
            supported == (format == DataFormat::Csv),
    {
        format == DataFormat::Csv
    }
}

/// How a header is matched: trimmed and ASCII-lowercased.
pub open spec fn normalized_header(header: Seq<char>) -> Seq<char> {
    ascii_lower_text(trim_text(header))
}

/// The position of the last header normalized to `name` (later headers of the same name win).
pub open spec fn header_position(normalized: Seq<Seq<char>>, name: Seq<char>) -> Option<int>
    decreases normalized.len(),
{
    if normalized.len() == 0 {
        None
    } else if normalized.last() == name {
        Some(normalized.len() - 1)
    } else {
        header_position(normalized.drop_last(), name)
    }
}

/// The position of the first of `names` that some header has.
pub open spec fn first_position(normalized: Seq<Seq<char>>, names: Seq<Seq<char>>) -> Option<int>
    decreases names.len(),
{
    if names.len() == 0 {
        None
    } else {
        match header_position(normalized, names[0]) {
            Some(i) => Some(i),
            None => first_position(normalized, names.drop_first()),
        }
    }
}

/// `name` is a selected column that some header has, and sorts before every other such column.
pub open spec fn least_present_selected(
    normalized: Seq<Seq<char>>,
    selected: Seq<Seq<char>>,
    name: Seq<char>,
) -> bool {
    &&& selected.contains(name)
    &&& header_position(normalized, name) is Some
    &&& forall|k: int|
        0 <= k < selected.len() && header_position(normalized, #[trigger] selected[k]) is Some
            ==> selected[k] == name || text_lt(name, selected[k])
}

/// The position of the value column when no conventional name is present: the header of the
/// alphabetically first selected column that exists.
pub open spec fn selected_value_position(normalized: Seq<Seq<char>>, selected: Seq<Seq<char>>) -> Option<
    int,
> {
    if exists|n: Seq<char>| least_present_selected(normalized, selected, n) {
        header_position(
            normalized,
            choose|n: Seq<char>| least_present_selected(normalized, selected, n),
        )
    } else {
        None
    }
}

pub open spec fn timestamp_names() -> Seq<Seq<char>> {
    seq!["timestamp"@, "time"@, "date"@, "datetime"@]
}

pub open spec fn entity_names() -> Seq<Seq<char>> {
    seq!["entity_id"@, "entity"@, "series_id"@, "id"@]
}

pub open spec fn variable_names() -> Seq<Seq<char>> {
    seq!["variable_name"@, "variable"@, "metric"@]
}

pub open spec fn target_names() -> Seq<Seq<char>> {
    seq!["target"@, "target_name"@]
}

pub open spec fn value_names() -> Seq<Seq<char>> {
    seq!["value"@, "target_value"@, "y"@]
}

/// Column positions resolved from a CSV header row.
#[derive(Clone, Debug)]
pub struct CsvSchema {
    pub timestamp: Option<usize>,
    pub entity_id: Option<usize>,
    pub variable_name: Option<usize>,
    pub target: Option<usize>,
    pub value: Option<usize>,
    pub covariates: Vec<(String, usize)>,
}

pub open spec fn as_position(p: Option<int>) -> Option<usize> {
    match p {
        Some(i) => Some(i as usize),
        None => None,
    }
}

/// Whether column `index` is a covariate: not one of the role columns, and either prefixed with
/// `covariate_` or selected.
pub open spec fn is_covariate_column(
    normalized: Seq<Seq<char>>,
    selected: Seq<Seq<char>>,
    roles: Seq<Option<usize>>,
    value: int,
    index: int,
) -> bool {
    &&& !roles.contains(Some(index as usize))
    &&& index != value
    &&& (starts_with_text(normalized[index], "covariate_"@) || selected.contains(normalized[index]))
}

/// The covariates among the first `n` headers: the trimmed header without its `covariate_` prefixes,
/// and its position.
pub open spec fn covariates_upto(
    headers: Seq<Seq<char>>,
    normalized: Seq<Seq<char>>,
    selected: Seq<Seq<char>>,
    roles: Seq<Option<usize>>,
    value: int,
    n: int,
) -> Seq<(Seq<char>, usize)>
    decreases n,
{
    if n <= 0 {
        Seq::empty()
    } else {
        let rest = covariates_upto(headers, normalized, selected, roles, value, n - 1);
        if is_covariate_column(normalized, selected, roles, value, n - 1) {
            rest.push(
                (trim_start_matches_text(trim_text(headers[n - 1]), "covariate_"@), (n - 1) as usize),
            )
        } else {
            rest
        }
    }
}

/// Every covariate is a column of the header row other than the value and role columns, marked by
/// its `covariate_` prefix or its selection, and covariates come in column order.
pub proof fn lemma_covariates_are_other_columns(
    headers: Seq<Seq<char>>,
    normalized: Seq<Seq<char>>,
    selected: Seq<Seq<char>>,
    roles: Seq<Option<usize>>,
    value: int,
    n: int,
)
    requires
        0 <= n <= usize::MAX + 1,
    ensures
        forall|i: int|
            0 <= i < covariates_upto(headers, normalized, selected, roles, value, n).len() ==> {
                let c = #[trigger] covariates_upto(headers, normalized, selected, roles, value, n)[i];
                &&& c.1 < n
                &&& is_covariate_column(normalized, selected, roles, value, c.1 as int)
            },
        forall|i: int, j: int|
            0 <= i < j < covariates_upto(headers, normalized, selected, roles, value, n).len() ==> (
            #[trigger] covariates_upto(headers, normalized, selected, roles, value, n)[i]).1 < (
            #[trigger] covariates_upto(headers, normalized, selected, roles, value, n)[j]).1,
    decreases n,
{
    if n > 0 {
        lemma_covariates_are_other_columns(headers, normalized, selected, roles, value, n - 1);
        let rest = covariates_upto(headers, normalized, selected, roles, value, n - 1);
        let all = covariates_upto(headers, normalized, selected, roles, value, n);
        if is_covariate_column(normalized, selected, roles, value, n - 1) {
            let c = (trim_start_matches_text(trim_text(headers[n - 1]), "covariate_"@), (n - 1) as usize);
            assert(all == rest.push(c));
            assert forall|i: int| 0 <= i < all.len() implies {
                let d = #[trigger] all[i];
                &&& d.1 < n
                &&& is_covariate_column(normalized, selected, roles, value, d.1 as int)
            } by {
                if i < rest.len() {
                    assert(all[i] == rest[i]);
                }
            }
            assert forall|i: int, j: int| 0 <= i < j < all.len() implies (#[trigger] all[i]).1 < (
            #[trigger] all[j]).1 by {
                assert(all[i] == rest[i]);
                if j < rest.len() {
                    assert(all[j] == rest[j]);
                }
            }
        } else {
            assert(all == rest);
        }
    }
}

pub open spec fn texts(strings: Seq<String>) -> Seq<Seq<char>> {
    strings.map_values(|s: String| s@)
}

pub open spec fn normalized_texts(strings: Seq<String>) -> Seq<Seq<char>> {
    strings.map_values(|s: String| normalized_header(s@))
}

fn normalize_all(strings: &Vec<String>) -> (normalized: Vec<String>)
    ensures
        texts(normalized@) == normalized_texts(strings@),
{
    let mut normalized: Vec<String> = Vec::new();
    let mut i: usize = 0;
    while i < strings.len()
        invariant
            i <= strings@.len(),
            texts(normalized@) == normalized_texts(strings@.subrange(0, i as int)),
        decreases strings@.len() - i,
    {
        let t = trimmed(strings[i].as_str());
        let lowered = ascii_lowercase(t.as_str());
        let ghost prev = normalized@;
        normalized.push(lowered);
        assert(texts(normalized@) =~= texts(prev).push(lowered@));
        assert(normalized_texts(strings@.subrange(0, i + 1)) =~= normalized_texts(
            strings@.subrange(0, i as int),
        ).push(normalized_header(strings@[i as int]@)));
        i = i + 1;
    }
    assert(strings@.subrange(0, strings@.len() as int) =~= strings@);
    normalized
}

/// The position of the last header normalized to `name`.
fn position_of(normalized: &Vec<String>, name: &str) -> (position: Option<usize>)
    ensures
        as_position(header_position(texts(normalized@), name@)) == position,
        header_position(texts(normalized@), name@) matches Some(i) ==> 0 <= i < normalized@.len(),
{
    let target = crate::error::owned(name);
    let mut i: usize = normalized.len();
    assert(texts(normalized@).subrange(0, i as int) =~= texts(normalized@));
    while i > 0
        invariant
            i <= normalized@.len(),
            target@ == name@,
            header_position(texts(normalized@), name@) == header_position(
                texts(normalized@).subrange(0, i as int),
                name@,
            ),
        decreases i,
    {
        assert(texts(normalized@).subrange(0, i as int).drop_last() =~= texts(normalized@).subrange(
            0,
            i - 1,
        ));
        if normalized[i - 1] == target {
            return Some(i - 1);
        }
        i = i - 1;
    }
    None
}

/// The position of the first of `names` that some header has (a lookup by a list of aliases).
pub fn first_index(normalized: &Vec<String>, names: &[&str]) -> (position: Option<usize>)
    ensures
        position == as_position(
            first_position(texts(normalized@), names@.map_values(|n: &str| n@)),
        ),
        first_position(texts(normalized@), names@.map_values(|n: &str| n@)) matches Some(i) ==> 0
            <= i < normalized@.len(),
{
    let ghost all = names@.map_values(|n: &str| n@);
    let mut k: usize = 0;
    assert(all.skip(0) =~= all);
    while k < names.len()
        invariant
            k <= names@.len(),
            all == names@.map_values(|n: &str| n@),
            first_position(texts(normalized@), all) == first_position(
                texts(normalized@),
                all.skip(k as int),
            ),
        decreases names@.len() - k,
    {
        assert(all.skip(k as int)[0] == names@[k as int]@);
        assert(all.skip(k as int).drop_first() =~= all.skip(k + 1));
        match position_of(normalized, names[k]) {
            Some(i) => {
                return Some(i);
            },
            None => {},
        }
        k = k + 1;
    }
    None
}

/// Among the selected columns, the position of the alphabetically first one that a header has.
fn selected_position(normalized: &Vec<String>, selected: &Vec<String>) -> (position: Option<usize>)
    ensures
        position == as_position(selected_value_position(texts(normalized@), texts(selected@))),
        selected_value_position(texts(normalized@), texts(selected@)) matches Some(i) ==> 0 <= i
            < normalized@.len(),
{
    let ghost norm = texts(normalized@);
    let ghost sel = texts(selected@);
    let mut best: Option<usize> = None;
    let mut k: usize = 0;
    while k < selected.len()
        invariant
            k <= selected@.len(),
            norm == texts(normalized@),
            sel == texts(selected@),
            match best {
                None => forall|q: int| 0 <= q < k ==> header_position(norm, #[trigger] sel[q]) is None,
                Some(b) => {
                    &&& b < k
                    &&& header_position(norm, sel[b as int]) is Some
                    &&& forall|q: int|
                        0 <= q < k && header_position(norm, #[trigger] sel[q]) is Some ==> sel[q]
                            == sel[b as int] || text_lt(sel[b as int], sel[q])
                },
            },
        decreases selected@.len() - k,
    {
        let present = position_of(normalized, selected[k].as_str());
        if present.is_some() {
            let better = match best {
                None => true,
                Some(b) => text_less(selected[k].as_str(), selected[b].as_str()),
            };
            if better {
                proof {
                    if let Some(b) = best {
                        assert forall|q: int|
                            0 <= q < k + 1 && header_position(norm, #[trigger] sel[q]) is Some
                                implies sel[q] == sel[k as int] || text_lt(sel[k as int], sel[q]) by {
                            if q < k {
                                if sel[q] != sel[b as int] {
                                    lemma_text_lt_transitive(sel[k as int], sel[b as int], sel[q]);
                                }
                            }
                        }
                    }
                }
                best = Some(k);
            } else {
                proof {
                    if let Some(b) = best {
                        if sel[k as int] != sel[b as int] {
                            lemma_text_lt_total(sel[k as int], sel[b as int]);
                        }
                    }
                }
            }
        }
        k = k + 1;
    }
    match best {
        None => {
            assert(!exists|n: Seq<char>| least_present_selected(norm, sel, n)) by {
                if exists|n: Seq<char>| least_present_selected(norm, sel, n) {
                    let n = choose|n: Seq<char>| least_present_selected(norm, sel, n);
                    let q = choose|q: int| 0 <= q < sel.len() && sel[q] == n;
                    assert(header_position(norm, sel[q]) is Some);
                }
            }
            None
        },
        Some(b) => {
            let ghost name = sel[b as int];
            assert(least_present_selected(norm, sel, name));
            let ghost chosen = choose|n: Seq<char>| least_present_selected(norm, sel, n);
            assert(chosen == name) by {
                let q = choose|q: int| 0 <= q < sel.len() && sel[q] == chosen;
                assert(header_position(norm, sel[q]) is Some);
                if chosen != name {
                    assert(text_lt(name, chosen));
                    assert(text_lt(chosen, name));
                    lemma_text_lt_asymmetric(name, chosen);
                }
            }
            position_of(normalized, selected[b].as_str())
        },
    }
}

fn covariate_excluded(roles: &[Option<usize>; 4], value: usize, index: usize) -> (r: bool)
    ensures
        r == (roles@.contains(Some(index)) || index == value),
{
    let mut k: usize = 0;
    while k < 4
        invariant
            k <= 4,
            roles@.len() == 4,
            forall|q: int| 0 <= q < k ==> roles@[q] != Some(index),
        decreases 4 - k,
    {
        if roles[k] == Some(index) {
            assert(roles@[k as int] == Some(index));
            return true;
        }
        k = k + 1;
    }
    index == value
}

/// Whether `text` is one of `items`.
fn contains_text(items: &Vec<String>, text: &String) -> (r: bool)
    ensures
        r == texts(items@).contains(text@),
{
    let mut k: usize = 0;
    while k < items.len()
        invariant
            k <= items@.len(),
            forall|q: int| 0 <= q < k ==> (#[trigger] items@[q])@ != text@,
        decreases items@.len() - k,
    {
        if items[k] == *text {
            assert(texts(items@)[k as int] == text@);
            return true;
        }
        k = k + 1;
    }
    assert forall|q: int| 0 <= q < texts(items@).len() implies texts(items@)[q] != text@ by {
        assert(texts(items@)[q] == items@[q]@);
    }
    false
}

/// The failure message when no value column can be found.
pub open spec fn missing_value_column_message() -> Seq<char> {
    "CSV requires a value column named value, target_value, y, or selected_columns entry"@
}

/// The value column of a header row: the first value alias present, else the alphabetically first
/// selected column present.
pub open spec fn value_position(headers: Seq<Seq<char>>, selected: Seq<Seq<char>>) -> Option<int> {
    let norm = headers.map_values(|h: Seq<char>| normalized_header(h));
    let sel = selected.map_values(|h: Seq<char>| normalized_header(h));
    match first_position(norm, value_names()) {
        Some(i) => Some(i),
        None => selected_value_position(norm, sel),
    }
}

/// What resolving a header row gives: the value column (a conventional name, else the
/// alphabetically first selected column present) or the missing-value-column error; the role
/// columns by their first alias present; and the covariate columns in column order.
pub open spec fn schema_result(headers: Seq<Seq<char>>, selected: Seq<Seq<char>>, r: AionResult<CsvSchema>) -> bool {
    let norm = headers.map_values(|h: Seq<char>| normalized_header(h));
    let sel = selected.map_values(|h: Seq<char>| normalized_header(h));
    let value = value_position(headers, selected);
    match r {
        Err(AionError::Validation(message)) => value is None && message@ == missing_value_column_message(),
        Err(_) => false,
        Ok(schema) => {
            let roles = seq![
                as_position(first_position(norm, timestamp_names())),
                as_position(first_position(norm, entity_names())),
                as_position(first_position(norm, variable_names())),
                as_position(first_position(norm, target_names())),
            ];
            &&& value matches Some(v)
            &&& schema.value == Some(v as usize)
            &&& schema.timestamp == roles[0]
            &&& schema.entity_id == roles[1]
            &&& schema.variable_name == roles[2]
            &&& schema.target == roles[3]
            &&& schema.covariates@.map_values(|c: (String, usize)| (c.0@, c.1)) == covariates_upto(
                headers,
                norm,
                sel,
                roles,
                v,
                headers.len() as int,
            )
        },
    }
}

impl CsvSchema {
    /// Resolves the role of each CSV column from the header row. Headers match case-insensitively
    /// after trimming, the last of equal headers winning; each role takes the first of its aliases
    /// present. The value column falls back to the alphabetically first selected column present, and
    /// its absence is an error. Remaining columns prefixed `covariate_`, or selected, are covariates.
    pub fn from_headers(headers: &Vec<String>, selected_columns: &Vec<String>) -> (r: AionResult<Self>)
        ensures
            schema_result(texts(headers@), texts(selected_columns@), r),
    {
        let r = Self::resolve_headers(headers, selected_columns);
        assert(normalized_texts(headers@) =~= texts(headers@).map_values(|h: Seq<char>| normalized_header(h)));
        assert(normalized_texts(selected_columns@) =~= texts(selected_columns@).map_values(
            |h: Seq<char>| normalized_header(h),
        ));
        r
    }

    fn resolve_headers(headers: &Vec<String>, selected_columns: &Vec<String>) -> (r: AionResult<Self>)
        ensures
            ({
                let norm = normalized_texts(headers@);
                let sel = normalized_texts(selected_columns@);
                let value = match first_position(norm, value_names()) {
                    Some(i) => Some(i),
                    None => selected_value_position(norm, sel),
                };
                match r {
                    Err(AionError::Validation(message)) => value is None && message@
                        == missing_value_column_message(),
                    Err(_) => false,
                    Ok(schema) => {
                        let roles = seq![
                            as_position(first_position(norm, timestamp_names())),
                            as_position(first_position(norm, entity_names())),
                            as_position(first_position(norm, variable_names())),
                            as_position(first_position(norm, target_names())),
                        ];
                        &&& value matches Some(v)
                        &&& schema.value == Some(v as usize)
                        &&& schema.timestamp == roles[0]
                        &&& schema.entity_id == roles[1]
                        &&& schema.variable_name == roles[2]
                        &&& schema.target == roles[3]
                        &&& schema.covariates@.map_values(|c: (String, usize)| (c.0@, c.1))
                            == covariates_upto(
                            texts(headers@),
                            norm,
                            sel,
                            roles,
                            v,
                            headers@.len() as int,
                        )
                    },
                }
            }),
    {
        let normalized = normalize_all(headers);
        let selected = normalize_all(selected_columns);
        proof {
            assert(texts(normalized@) == normalized_texts(headers@));
        }
        let timestamp_aliases = ["timestamp", "time", "date", "datetime"];
        let entity_aliases = ["entity_id", "entity", "series_id", "id"];
        let variable_aliases = ["variable_name", "variable", "metric"];
        let target_aliases = ["target", "target_name"];
        let value_aliases = ["value", "target_value", "y"];
        assert(timestamp_aliases@.map_values(|n: &str| n@) =~= timestamp_names());
        assert(entity_aliases@.map_values(|n: &str| n@) =~= entity_names());
        assert(variable_aliases@.map_values(|n: &str| n@) =~= variable_names());
        assert(target_aliases@.map_values(|n: &str| n@) =~= target_names());
        assert(value_aliases@.map_values(|n: &str| n@) =~= value_names());
        let timestamp = first_index(&normalized, &timestamp_aliases);
        let entity_id = first_index(&normalized, &entity_aliases);
        let variable_name = first_index(&normalized, &variable_aliases);
        let target = first_index(&normalized, &target_aliases);
        let value = match first_index(&normalized, &value_aliases) {
            Some(i) => i,
            None => match selected_position(&normalized, &selected) {
                Some(i) => i,
                None => {
                    return Err(
                        AionError::Validation(
                            crate::error::owned(
                                "CSV requires a value column named value, target_value, y, or selected_columns entry",
                            ),
                        ),
                    );
                },
            },
        };
        let roles = [timestamp, entity_id, variable_name, target];
        let mut covariates: Vec<(String, usize)> = Vec::new();
        let mut index: usize = 0;
        while index < headers.len()
            invariant
                index <= headers@.len(),
                normalized@.len() == headers@.len(),
                texts(normalized@) == normalized_texts(headers@),
                texts(selected@) == normalized_texts(selected_columns@),
                covariates@.map_values(|c: (String, usize)| (c.0@, c.1)) == covariates_upto(
                    texts(headers@),
                    texts(normalized@),
                    texts(selected@),
                    roles@,
                    value as int,
                    index as int,
                ),
            decreases headers@.len() - index,
        {
            let excluded = covariate_excluded(&roles, value, index);
            let ghost prev = covariates@;
            if !excluded {
                assert(texts(normalized@)[index as int] == normalized@[index as int]@);
                let prefixed = starts_with(normalized[index].as_str(), "covariate_");
                if prefixed || contains_text(&selected, &normalized[index]) {
                    let t = trimmed(headers[index].as_str());
                    proof {
                        reveal_strlit("covariate_");
                    }
                    let name = trim_start_matches(t.as_str(), "covariate_");
                    covariates.push((name, index));
                    assert(texts(headers@)[index as int] == headers@[index as int]@);
                    assert(covariates@.map_values(|c: (String, usize)| (c.0@, c.1)) =~= prev.map_values(
                        |c: (String, usize)| (c.0@, c.1),
                    ).push((name@, index)));
                }
            }
            index = index + 1;
        }
        Ok(
            CsvSchema {
                timestamp,
                entity_id,
                variable_name,
                target,
                value: Some(value),
                covariates,
            },
        )
    }
}

/// The header row that `csv::Reader::headers` reads from CSV bytes, each cell as text, or the
/// text of the error it stops with.
pub uninterp spec fn csv_headers(bytes: Seq<u8>) -> Result<Seq<Seq<char>>, Seq<char>>;

/// The records that `csv::Reader::records` reads from CSV bytes after their header row, each cell
/// as text, or the text of the first error it meets.
pub uninterp spec fn csv_records(bytes: Seq<u8>) -> Result<Seq<Seq<Seq<char>>>, Seq<char>>;

/// Calls `csv::Reader::from_reader` on the bytes, then `headers()`, turning every cell into a
/// `String` and an error into its message. The result depends on the bytes alone.
#[verifier::external_body]
fn read_csv_headers(bytes: &[u8]) -> (r: Result<Vec<String>, String>)
    ensures
        csv_headers(bytes@) == match r {
            Ok(h) => Ok(texts(h@)),
            Err(m) => Err(m@),
        },
{
    let mut reader = csv::Reader::from_reader(bytes);
    let headers = reader.headers().map_err(|e| e.to_string())?;
    Ok(headers.iter().map(str::to_string).collect())
}

/// Calls `csv::Reader::from_reader` on the bytes, then `records()`, turning every cell into a
/// `String` and the first error into its message. The result depends on the bytes alone.
#[verifier::external_body]
fn read_csv_records(bytes: &[u8]) -> (r: Result<Vec<Vec<String>>, String>)
    ensures
        csv_records(bytes@) == match r {
            Ok(rows) => Ok(rows@.map_values(|row: Vec<String>| texts(row@))),
            Err(m) => Err(m@),
        },
{
    csv::Reader::from_reader(bytes)
        .records()
        .map(|record| record.map(|r| r.iter().map(str::to_string).collect()))
        .collect::<Result<Vec<Vec<String>>, csv::Error>>()
        .map_err(|e| e.to_string())
}

/// Reads CSV bytes in the order a reader meets them: the header row, the schema resolved from it
/// against `selected_columns`, then the records. A header error fails with its message, then a
/// header row without a value column fails as `from_headers` does, then a record error fails with
/// its message.
pub fn load_csv_table(bytes: &[u8], selected_columns: &Vec<String>) -> (r: AionResult<
    (CsvSchema, Vec<Vec<String>>),
>)
    ensures
        match csv_headers(bytes@) {
            Err(m) => r matches Err(AionError::Validation(message)) && message@ == m,
            Ok(headers) => if value_position(headers, texts(selected_columns@)) is None {
                r matches Err(e) && schema_result(headers, texts(selected_columns@), Err(e))
            } else {
                match csv_records(bytes@) {
                    Err(m) => r matches Err(AionError::Validation(message)) && message@ == m,
                    Ok(rows) => r matches Ok(loaded) && schema_result(
                        headers,
                        texts(selected_columns@),
                        Ok(loaded.0),
                    ) && loaded.1@.map_values(|row: Vec<String>| texts(row@)) == rows,
                }
            },
        },
{
    match read_csv_headers(bytes) {
        Err(message) => Err(AionError::Validation(message)),
        Ok(headers) => match CsvSchema::from_headers(&headers, selected_columns) {
            Err(e) => Err(e),
            Ok(schema) => match read_csv_records(bytes) {
                Err(message) => Err(AionError::Validation(message)),
                Ok(rows) => Ok((schema, rows)),
            },
        },
    }
}

} // verus!
