//! The declarative metadata of one benchmark target, and the small
//! decisions the two benchmark modes derive from it: run counts, warmup
//! budget, concurrency, and the prepared requests of the web mode.

use crate::validate::{PreparedHttpRequest, SerializedValue};
use vstd::prelude::*;

verus! {

/// One file-copy directive: a file copied under its own path, or copied to
/// a different destination path.
#[derive(Debug, Clone)]
pub enum CopyValue {
    Primitive(String),
    Mapped(Vec<(String, String)>),
}

/// The metadata of a computation-mode target.
pub struct BenchmarkMetaData {
    pub language: String,
    pub mode: String,
    pub language_version: Vec<String>,
    pub language_version_regex: Option<Vec<(String, String)>>,
    pub extended_warmup: bool,
    pub runs: Option<usize>,
    pub copy: Option<Vec<CopyValue>>,
}

/// The metadata of a web-mode target.
pub struct WebBenchmarkMetaData {
    pub language: String,
    pub mode: String,
    pub language_version: Vec<String>,
    pub language_version_regex: Option<Vec<(String, String)>>,
    pub framework: String,
    pub framework_stdlib: bool,
    pub framework_website: String,
    pub framework_flavor: String,
    pub framework_version: Vec<String>,
    pub framework_version_regex: Option<Vec<(String, String)>>,
    pub extended_warmup: bool,
    pub concurrency: Option<usize>,
    pub copy: Option<Vec<CopyValue>>,
}

/// The default of a boolean metadata field that was not given.
pub fn default_as_false() -> (r: bool)
    ensures
        !r,
{
    false
}

/// Measured rounds of a computation run: one while validating, the
/// configured count otherwise, fifteen by default.
pub const DEFAULT_RUNS: usize = 15;

pub fn effective_runs(validate: bool, runs: Option<usize>) -> (r: usize)
    ensures
        r == (if validate {
            1usize
        } else {
            match runs {
                Some(n) => n,
                None => DEFAULT_RUNS,
            }
        }),
{
    if validate {
        1
    } else {
        match runs {
            Some(n) => n,
            None => DEFAULT_RUNS,
        }
    }
}

/// Warmup rounds before measuring: none while validating, three with
/// extended warmup, one otherwise.
pub fn effective_warmup(validate: bool, extended_warmup: bool) -> (r: usize)
    ensures
        r == (if validate {
            0usize
        } else if extended_warmup {
            3usize
        } else {
            1usize
        }),
{
    if validate {
        0
    } else if extended_warmup {
        3
    } else {
        1
    }
}

/// Concurrent workers of a web run, thirty-two unless overridden.
pub const DEFAULT_CONCURRENCY: usize = 32;

pub fn effective_concurrency(concurrency: Option<usize>) -> (r: usize)
    ensures
        r == (match concurrency {
            Some(c) => c,
            None => DEFAULT_CONCURRENCY,
        }),
{
    match concurrency {
        Some(c) => c,
        None => DEFAULT_CONCURRENCY,
    }
}

/// Every wanted version is already among the existing ones: the run may be
/// skipped.
pub fn all_versions_exist(wanted: &Vec<String>, existing: &Vec<String>) -> (r: bool)
    ensures
        r == forall|i: int|
            0 <= i < wanted@.len() ==> crate::text::str_views(existing@).contains(
                (#[trigger] wanted@[i])@,
            ),
{
    let mut i: usize = 0;
    while i < wanted.len()
        invariant
            i <= wanted@.len(),
            forall|j: int|
                0 <= j < i ==> crate::text::str_views(existing@).contains(
                    (#[trigger] wanted@[j])@,
                ),
        decreases wanted.len() - i,
    {
        if !crate::result_catalog::set_contains(existing, wanted[i].as_str()) {
            return false;
        }
        i += 1;
    }
    true
}

/// One element of the periodic-table data set the web targets serve.
pub struct PeriodicTableElement {
    pub name: String,
    pub number: u8,
    pub group: u8,
    pub shells: Vec<u8>,
}

/// The two requests one element contributes: its element fields and its
/// shells list.
pub open spec fn element_request_ok(
    key: Seq<char>,
    e: PeriodicTableElement,
    r: PreparedHttpRequest,
) -> bool {
    r.url@ == "http://localhost:3000/api/v1/periodic-table/element?symbol="@ + key
        && r.expected_response@.len() == 3 && r.expected_response@[0].0@ == "name"@ && (
    r.expected_response@[0].1 matches SerializedValue::StringValue(n) && n@ == e.name@)
        && r.expected_response@[1].0@ == "number"@ && (r.expected_response@[1].1
        matches SerializedValue::IntValue(v) && v == e.number as i32) && r.expected_response@[2].0@
        == "group"@ && (r.expected_response@[2].1 matches SerializedValue::IntValue(g) && g
        == e.group as i32)
}

pub open spec fn shells_request_ok(
    key: Seq<char>,
    e: PeriodicTableElement,
    r: PreparedHttpRequest,
) -> bool {
    r.url@ == "http://localhost:3000/api/v1/periodic-table/shells?symbol="@ + key
        && r.expected_response@.len() == 1 && r.expected_response@[0].0@ == "shells"@ && (
    r.expected_response@[0].1 matches SerializedValue::IntListValue(l) && l@.map_values(
        |x: i32| x as int,
    ) == e.shells@.map_values(|x: u8| x as int))
}

/// The prepared requests of a web run: for every element, one request for
/// its fields and, after all of those, one for its shells list.
pub fn build_requests(elements: &Vec<(String, PeriodicTableElement)>) -> (r: Vec<
    PreparedHttpRequest,
>)
    ensures
        r@.len() == 2 * elements@.len(),
        forall|i: int|
            0 <= i < elements@.len() ==> element_request_ok(
                (#[trigger] elements@[i]).0@,
                elements@[i].1,
                r@[i],
            ),
        forall|i: int|
            0 <= i < elements@.len() ==> shells_request_ok(
                (#[trigger] elements@[i]).0@,
                elements@[i].1,
                r@[elements@.len() + i],
            ),
{
    let mut out: Vec<PreparedHttpRequest> = Vec::new();
    let n = elements.len();
    let mut i: usize = 0;
    while i < n
        invariant
            i <= n,
            n == elements@.len(),
            out@.len() == i,
            forall|j: int|
                0 <= j < i ==> element_request_ok(
                    (#[trigger] elements@[j]).0@,
                    elements@[j].1,
                    out@[j],
                ),
        decreases n - i,
    {
        let key = &elements[i].0;
        let e = &elements[i].1;
        let mut url = String::from_str("http://localhost:3000/api/v1/periodic-table/element?symbol=");
        url.append(key.as_str());
        let mut expected: Vec<(String, SerializedValue)> = Vec::new();
        expected.push(
            (String::from_str("name"), SerializedValue::StringValue(e.name.clone())),
        );
        expected.push((String::from_str("number"), SerializedValue::IntValue(e.number as i32)));
        expected.push((String::from_str("group"), SerializedValue::IntValue(e.group as i32)));
        out.push(PreparedHttpRequest { url, expected_response: expected });
        i += 1;
    }
    let mut i2: usize = 0;
    while i2 < n
        invariant
            i2 <= n,
            n == elements@.len(),
            out@.len() == n + i2,
            forall|j: int|
                0 <= j < n ==> element_request_ok(
                    (#[trigger] elements@[j]).0@,
                    elements@[j].1,
                    out@[j],
                ),
            forall|j: int|
                0 <= j < i2 ==> shells_request_ok(
                    (#[trigger] elements@[j]).0@,
                    elements@[j].1,
                    out@[n + j],
                ),
        decreases n - i2,
    {
        let key = &elements[i2].0;
        let e = &elements[i2].1;
        let mut url = String::from_str("http://localhost:3000/api/v1/periodic-table/shells?symbol=");
        url.append(key.as_str());
        let mut shells: Vec<i32> = Vec::new();
        let mut k: usize = 0;
        while k < e.shells.len()
            invariant
                k <= e.shells@.len(),
                e == &elements@[i2 as int].1,
                shells@.len() == k,
                forall|m: int| 0 <= m < k ==> #[trigger] shells@[m] == e.shells@[m] as i32,
            decreases e.shells.len() - k,
        {
            shells.push(e.shells[k] as i32);
            k += 1;
        }
        proof {
            assert(shells@.map_values(|x: i32| x as int) =~= e.shells@.map_values(
                |x: u8| x as int,
            ));
        }
        let mut expected: Vec<(String, SerializedValue)> = Vec::new();
        expected.push((String::from_str("shells"), SerializedValue::IntListValue(shells)));
        out.push(PreparedHttpRequest { url, expected_response: expected });
        i2 += 1;
    }
    out
}

} // verus!
