//! Validation of a benchmarked target's JSON responses: each expected field
//! must be present with exactly the expected string, integer or
//! integer-list value.

use crate::text::{char_join, int_str};
use vstd::prelude::*;

verus! {

/// An expected field value: a string, an integer, or a list of integers
/// compared position by position.
#[derive(Debug, Clone)]
pub enum SerializedValue {
    StringValue(String),
    IntValue(i32),
    IntListValue(Vec<i32>),
}

/// How a `SerializedValue` prints: the bare string or number, a list in
/// brackets with comma-separated entries.
pub open spec fn serialized_render(v: SerializedValue) -> Seq<char> {
    match v {
        SerializedValue::StringValue(s) => s@,
        SerializedValue::IntValue(i) => int_str(i as int),
        SerializedValue::IntListValue(l) => seq!['['] + char_join(
            l@.map_values(|x: i32| int_str(x as int)),
            ", "@,
        ) + seq![']'],
    }
}

impl SerializedValue {
    /// The value as text, the way diagnostics print it.
    pub fn render(&self) -> (r: String)
        ensures
            r@ == serialized_render(*self),
    {
        match self {
            SerializedValue::StringValue(s) => s.clone(),
            SerializedValue::IntValue(i) => crate::text::i32_to_string(*i),
            SerializedValue::IntListValue(l) => {
                let mut out = String::from_str("[");
                let ghost entries = l@.map_values(|x: i32| int_str(x as int));
                let mut i: usize = 0;
                proof {
                    reveal_strlit("[");
                    reveal_strlit("]");
                    reveal_strlit(", ");
                    assert(out@ =~= seq!['['] + char_join(entries.take(0), ", "@));
                }
                while i < l.len()
                    invariant
                        i <= l@.len(),
                        entries == l@.map_values(|x: i32| int_str(x as int)),
                        out@ == seq!['['] + char_join(entries.take(i as int), ", "@),
                    decreases l.len() - i,
                {
                    if i > 0 {
                        out.append(", ");
                    }
                    let piece = crate::text::i32_to_string(l[i]);
                    out.append(piece.as_str());
                    proof {
                        reveal_strlit(", ");
                        assert(entries.take(i + 1).drop_last() =~~= entries.take(i as int));
                        assert(entries.take(i + 1).last() == entries[i as int]);
                    }
                    i += 1;
                }
                out.append("]");
                proof {
                    reveal_strlit("]");
                    assert(entries.take(l@.len() as int) =~~= entries);
                }
                out
            },
        }
    }
}

/// One request prepared for the load test: the URL to hit and the fields
/// its JSON response must carry.
#[derive(Clone)]
pub struct PreparedHttpRequest {
    pub url: String,
    pub expected_response: Vec<(String, SerializedValue)>,
}

/// The value of field `key` when `body` parses as a JSON object carrying a
/// string there.
pub uninterp spec fn json_str_field(body: Seq<char>, key: Seq<char>) -> Option<Seq<char>>;

/// The value of field `key` when `body` parses as a JSON object carrying an
/// integer there.
pub uninterp spec fn json_int_field(body: Seq<char>, key: Seq<char>) -> Option<int>;

/// The values of field `key` when `body` parses as a JSON object carrying
/// an array of integers there.
pub uninterp spec fn json_int_list_field(body: Seq<char>, key: Seq<char>) -> Option<Seq<int>>;

/// Relies on serde_json::from_str and serde_json::Value::get / Value::as_str:
/// the string at field `key`, or nothing if the body, the field or its type
/// does not fit.
#[verifier::external_body]
fn get_json_str_field(body: &str, key: &str) -> (r: Option<String>)
    ensures
        match r {
            Some(s) => json_str_field(body@, key@) == Some(s@),
            None => json_str_field(body@, key@) is None,
        },
{
    let v: serde_json::Value = serde_json::from_str(body).ok()?;
    Some(v.get(key)?.as_str()?.to_string())
}

/// Relies on serde_json::from_str and serde_json::Value::get / Value::as_i64:
/// the integer at field `key`, or nothing if the body, the field or its
/// type does not fit.
#[verifier::external_body]
fn get_json_int_field(body: &str, key: &str) -> (r: Option<i64>)
    ensures
        match r {
            Some(v) => json_int_field(body@, key@) == Some(v as int),
            None => json_int_field(body@, key@) is None,
        },
{
    let v: serde_json::Value = serde_json::from_str(body).ok()?;
    v.get(key)?.as_i64()
}

/// Relies on serde_json::from_str and serde_json::Value::get / as_array /
/// as_i64: the integers at field `key`, or nothing if the body, the field,
/// or any element's type does not fit.
#[verifier::external_body]
fn get_json_int_list_field(body: &str, key: &str) -> (r: Option<Vec<i64>>)
    ensures
        match r {
            Some(v) => json_int_list_field(body@, key@) == Some(
                v@.map_values(|x: i64| x as int),
            ),
            None => json_int_list_field(body@, key@) is None,
        },
{
    let v: serde_json::Value = serde_json::from_str(body).ok()?;
    let arr = v.get(key)?.as_array()?;
    let mut out = Vec::with_capacity(arr.len());
    for x in arr {
        out.push(x.as_i64()?);
    }
    Some(out)
}

/// The body carries `expected` at field `key`: string equality, integer
/// equality, or positional integer-list equality.
pub open spec fn field_matches(body: Seq<char>, key: Seq<char>, expected: SerializedValue) -> bool {
    match expected {
        SerializedValue::StringValue(s) => json_str_field(body, key) == Some(s@),
        SerializedValue::IntValue(i) => json_int_field(body, key) == Some(i as int),
        SerializedValue::IntListValue(l) => json_int_list_field(body, key) == Some(
            l@.map_values(|x: i32| x as int),
        ),
    }
}

/// The body carries every expected field with exactly the expected value.
pub open spec fn response_matches(body: Seq<char>, expected: Seq<(String, SerializedValue)>) -> bool {
    forall|i: int|
        0 <= i < expected.len() ==> field_matches(
            body,
            (#[trigger] expected[i]).0@,
            expected[i].1,
        )
}

/// Checks a response body against the expected fields: a missing field, a
/// wrong type or a differing value all count as a mismatch.
pub fn validate_response(body: &str, expected_response: &Vec<(String, SerializedValue)>) -> (r:
    bool)
    ensures
        r == response_matches(body@, expected_response@),
{
    let mut i: usize = 0;
    while i < expected_response.len()
        invariant
            i <= expected_response@.len(),
            forall|j: int|
                0 <= j < i ==> field_matches(
                    body@,
                    (#[trigger] expected_response@[j]).0@,
                    expected_response@[j].1,
                ),
        decreases expected_response.len() - i,
    {
        let entry = &expected_response[i];
        let key = &entry.0;
        let ghost ev = expected_response@[i as int].1;
        let ghost kv = expected_response@[i as int].0@;
        proof {
            assert(*entry == expected_response@[i as int]);
        }
        match &entry.1 {
            SerializedValue::StringValue(s) => {
                match get_json_str_field(body, key.as_str()) {
                    Some(actual) => {
                        if !crate::text::str_eq_str(actual.as_str(), s.as_str()) {
                            proof {
                                assert(json_str_field(body@, kv) == Some(actual@));
                                assert(!field_matches(body@, kv, ev));
                            }
                            return false;
                        }
                    },
                    None => {
                        proof {
                            assert(!field_matches(body@, kv, ev));
                        }
                        return false;
                    },
                }
            },
            SerializedValue::IntValue(v) => {
                match get_json_int_field(body, key.as_str()) {
                    Some(actual) => {
                        if actual != (*v as i64) {
                            proof {
                                assert(json_int_field(body@, kv) == Some(actual as int));
                                assert(!field_matches(body@, kv, ev));
                            }
                            return false;
                        }
                    },
                    None => {
                        proof {
                            assert(!field_matches(body@, kv, ev));
                        }
                        return false;
                    },
                }
            },
            SerializedValue::IntListValue(l) => {
                match get_json_int_list_field(body, key.as_str()) {
                    Some(actual) => {
                        if actual.len() != l.len() {
                            proof {
                                assert(json_int_list_field(body@, kv) == Some(
                                    actual@.map_values(|x: i64| x as int),
                                ));
                                assert(actual@.map_values(|x: i64| x as int).len() != l@
                                    .map_values(|x: i32| x as int).len());
                                assert(!field_matches(body@, kv, ev));
                            }
                            return false;
                        }
                        let mut k: usize = 0;
                        while k < l.len()
                            invariant
                                k <= l@.len(),
                                i < expected_response@.len(),
                                actual@.len() == l@.len(),
                                ev == expected_response@[i as int].1,
                                kv == expected_response@[i as int].0@,
                                ev matches SerializedValue::IntListValue(lv) && lv == *l,
                                json_int_list_field(body@, kv) == Some(
                                    actual@.map_values(|x: i64| x as int),
                                ),
                                forall|m: int| 0 <= m < k ==> #[trigger] actual@[m] == l@[
                                m] as i64,
                            decreases l.len() - k,
                        {
                            if actual[k] != (l[k] as i64) {
                                proof {
                                    assert(actual@.map_values(|x: i64| x as int)[k as int] != l@
                                        .map_values(|x: i32| x as int)[k as int]);
                                    assert(!field_matches(body@, kv, ev));
                                }
                                return false;
                            }
                            k += 1;
                        }
                        proof {
                            assert(actual@.map_values(|x: i64| x as int) =~= l@.map_values(
                                |x: i32| x as int,
                            ));
                        }
                    },
                    None => {
                        proof {
                            assert(!field_matches(body@, kv, ev));
                        }
                        return false;
                    },
                }
            },
        }
        proof {
            assert(field_matches(body@, kv, ev));
        }
        i += 1;
    }
    true
}

} // verus!
