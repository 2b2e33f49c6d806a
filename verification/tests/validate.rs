use sharkbench::validate::{validate_response, PreparedHttpRequest, SerializedValue};

fn hydrogen_expectation() -> Vec<(String, SerializedValue)> {
    vec![
        ("name".to_string(), SerializedValue::StringValue("Hydrogen".to_string())),
        ("number".to_string(), SerializedValue::IntValue(1)),
        ("group".to_string(), SerializedValue::IntValue(1)),
    ]
}

#[test]
fn accepts_the_exact_expected_body() {
    let body = "{\"name\":\"Hydrogen\",\"number\":1,\"group\":1}";
    assert!(validate_response(body, &hydrogen_expectation()));
}

#[test]
fn rejects_wrong_values_and_missing_fields() {
    let expected = hydrogen_expectation();
    assert!(!validate_response("{\"name\":\"Helium\",\"number\":1,\"group\":1}", &expected));
    assert!(!validate_response("{\"name\":\"Hydrogen\",\"number\":2,\"group\":1}", &expected));
    assert!(!validate_response("{\"name\":\"Hydrogen\",\"number\":1}", &expected));
    assert!(!validate_response("not json", &expected));
    assert!(!validate_response("{\"name\":7,\"number\":1,\"group\":1}", &expected));
}

#[test]
fn compares_integer_lists_position_by_position() {
    let expected = vec![("shells".to_string(), SerializedValue::IntListValue(vec![2, 8, 1]))];
    assert!(validate_response("{\"shells\":[2,8,1]}", &expected));
    assert!(!validate_response("{\"shells\":[2,1,8]}", &expected));
    assert!(!validate_response("{\"shells\":[2,8]}", &expected));
    assert!(!validate_response("{\"shells\":[2,8,\"x\"]}", &expected));
}

#[test]
fn renders_values_like_their_sources() {
    assert_eq!(SerializedValue::StringValue("Hydrogen".to_string()).render(), "Hydrogen");
    assert_eq!(SerializedValue::IntValue(-42).render(), "-42");
    assert_eq!(SerializedValue::IntListValue(vec![2, 8, 1]).render(), "[2, 8, 1]");
    assert_eq!(SerializedValue::IntListValue(vec![]).render(), "[]");
}

#[test]
fn prepared_requests_keep_their_expectations() {
    let request = PreparedHttpRequest {
        url: "http://localhost:3000/api/v1/periodic-table/element?symbol=H".to_string(),
        expected_response: hydrogen_expectation(),
    };
    assert_eq!(request.expected_response.len(), 3);
    assert!(validate_response("{\"name\":\"Hydrogen\",\"number\":1,\"group\":1}", &request.expected_response));
}
