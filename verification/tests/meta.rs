use sharkbench::meta::{
    build_requests, default_as_false, effective_concurrency, effective_runs, effective_warmup,
    PeriodicTableElement,
};
use sharkbench::validate::validate_response;

#[test]
fn defaults_are_the_originals() {
    assert!(!default_as_false());
    assert_eq!(effective_runs(false, None), 15);
    assert_eq!(effective_runs(false, Some(7)), 7);
    assert_eq!(effective_runs(true, Some(7)), 1);
    assert_eq!(effective_warmup(true, true), 0);
    assert_eq!(effective_warmup(false, true), 3);
    assert_eq!(effective_warmup(false, false), 1);
    assert_eq!(effective_concurrency(None), 32);
    assert_eq!(effective_concurrency(Some(64)), 64);
}

#[test]
fn builds_element_and_shells_requests() {
    let elements = vec![(
        "H".to_string(),
        PeriodicTableElement {
            name: "Hydrogen".to_string(),
            number: 1,
            group: 1,
            shells: vec![1],
        },
    )];
    let requests = build_requests(&elements);
    assert_eq!(requests.len(), 2);
    assert_eq!(
        requests[0].url,
        "http://localhost:3000/api/v1/periodic-table/element?symbol=H"
    );
    assert_eq!(
        requests[1].url,
        "http://localhost:3000/api/v1/periodic-table/shells?symbol=H"
    );
    assert!(validate_response(
        "{\"name\":\"Hydrogen\",\"number\":1,\"group\":1}",
        &requests[0].expected_response
    ));
    assert!(validate_response("{\"shells\":[1]}", &requests[1].expected_response));
    assert!(!validate_response("{\"shells\":[2]}", &requests[1].expected_response));
}
