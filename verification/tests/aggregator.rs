use aircraft_aggregator::AircraftData;
use aircraft_aggregator::AircraftProvider;
use aircraft_aggregator::AircraftMap;
use aircraft_aggregator::Error;
use aircraft_aggregator::Providers;
use aircraft_aggregator::StaticProvider;

fn record(altitude: Option<u32>, speed: Option<u32>) -> AircraftData {
    AircraftData { altitude, speed }
}

fn provider(name: &str, entries: &[(&str, AircraftData)]) -> StaticProvider {
    let mut data = AircraftMap::new();
    for (id, rec) in entries {
        data.insert(id.to_string(), *rec);
    }
    StaticProvider::succeeding(name.to_string(), data)
}

fn failing(name: &str, message: &str) -> StaticProvider {
    StaticProvider::failing(name.to_string(), Error::new(message.to_string()))
}

#[test]
fn merged_map_combines_providers() {
    // Provider A reports X1 with an altitude; provider B reports X1 with a
    // speed and Y2 with an altitude. The merged X1 record is B's record
    // combined over A's; Y2 comes through as-is.
    let a = provider("A", &[("X1", record(Some(100), None))]);
    let b = provider(
        "B",
        &[("X1", record(None, Some(200))), ("Y2", record(Some(50), None))],
    );

    let mut aggregator = Providers::new(vec![a, b]);
    aggregator.run();
    aggregator.request();
    assert!(aggregator.step());

    let map = aggregator
        .get_aircraft()
        .expect("a completed pass was pending")
        .expect("every provider succeeded");
    assert_eq!(map.len(), 2);
    assert_eq!(map.get(&"X1".to_string()), Some(record(Some(100), Some(200))));
    assert_eq!(map.get(&"Y2".to_string()), Some(record(Some(50), None)));
}

#[test]
fn failure_is_attributed_and_partial_map_discarded() {
    // Provider A succeeds, provider B fails with "timeout": the pass
    // reports ("B", "timeout") and A's records are discarded.
    let a = provider("A", &[("X1", record(Some(100), None))]);
    let b = failing("B", "timeout");

    let mut aggregator = Providers::new(vec![a, b]);
    aggregator.run();
    aggregator.request();
    assert!(aggregator.step());

    let outcome = aggregator
        .get_aircraft()
        .expect("a completed pass was pending");
    let (name, error) = outcome.expect_err("provider B fails");
    assert_eq!(name, "B");
    assert_eq!(error.message(), "timeout");
}

#[test]
fn first_failing_provider_is_named() {
    let a = failing("A", "no route");
    let b = provider("B", &[("X1", record(Some(1), None))]);

    let mut aggregator = Providers::new(vec![a, b]);
    aggregator.run();
    aggregator.request();
    assert!(aggregator.step());

    let outcome = aggregator
        .get_aircraft()
        .expect("a completed pass was pending");
    let (name, error) = outcome.expect_err("provider A fails");
    assert_eq!(name, "A");
    assert_eq!(error.message(), "no route");
}

#[test]
fn success_keys_are_the_union_of_provider_keys() {
    let a = provider("A", &[("K1", record(Some(1), None))]);
    let b = provider("B", &[("K2", record(Some(2), None))]);
    let c = provider(
        "C",
        &[("K1", record(None, Some(9))), ("K3", record(Some(3), None))],
    );

    let mut aggregator = Providers::new(vec![a, b, c]);
    aggregator.run();
    aggregator.request();
    assert!(aggregator.step());

    let map = aggregator
        .get_aircraft()
        .expect("a completed pass was pending")
        .expect("every provider succeeded");
    assert_eq!(map.len(), 3);
    assert!(map.get(&"K1".to_string()).is_some());
    assert!(map.get(&"K2".to_string()).is_some());
    assert!(map.get(&"K3".to_string()).is_some());
    assert_eq!(map.get(&"K1".to_string()), Some(record(Some(1), Some(9))));
}

#[test]
fn no_providers_yield_an_empty_map() {
    let mut aggregator = Providers::<StaticProvider>::new(Vec::new());
    aggregator.run();
    aggregator.request();
    assert!(aggregator.step());

    let map = aggregator
        .get_aircraft()
        .expect("a completed pass was pending")
        .expect("an empty pass succeeds");
    assert_eq!(map.len(), 0);
}

#[test]
fn duplicate_requests_run_one_pass() {
    let a = provider("A", &[("X1", record(Some(1), None))]);

    let mut aggregator = Providers::new(vec![a]);
    aggregator.run();
    aggregator.request();
    aggregator.request();
    assert!(aggregator.step());
    assert!(!aggregator.step());

    assert!(aggregator.get_aircraft().is_some());
    assert!(aggregator.get_aircraft().is_none());
}

#[test]
fn poll_before_any_completed_pass_finds_nothing() {
    let a = provider("A", &[]);
    let mut aggregator = Providers::new(vec![a]);
    aggregator.run();
    assert!(aggregator.get_aircraft().is_none());
    aggregator.request();
    // The request is pending but no background step has run yet.
    assert!(aggregator.get_aircraft().is_none());
}

#[test]
fn step_without_a_pending_request_does_nothing() {
    let a = provider("A", &[("X1", record(Some(1), None))]);
    let mut aggregator = Providers::new(vec![a]);
    aggregator.run();
    assert!(!aggregator.step());
    assert!(aggregator.get_aircraft().is_none());
}

#[test]
fn collect_aircraft_runs_a_pass_directly() {
    let a = provider("A", &[("X1", record(Some(100), None))]);
    let mut aggregator = Providers::new(vec![a]);
    let map = aggregator
        .collect_aircraft()
        .expect("the only provider succeeds");
    assert_eq!(map.len(), 1);
    assert_eq!(map.get(&"X1".to_string()), Some(record(Some(100), None)));
}

#[test]
fn provider_names_and_errors_carry_through() {
    let p = failing("Feed", "connection reset");
    assert_eq!(p.get_name(), "Feed");
    let e = Error::new("connection reset".to_string());
    assert_eq!(e.duplicate().message(), "connection reset");
    assert_eq!(e.message(), "connection reset");
}
