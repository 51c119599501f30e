use wiregraph::server::{route, split_request_url, Route};

/// The request's path and the first `since` value that reads as a number.
fn parse_path(url: &str) -> (Option<f64>, String) {
    let target = split_request_url(url);
    let since = target.since_values.iter().find_map(|v| v.parse::<f64>().ok());
    (since, target.path)
}

#[test]
fn parse_path_no_query() {
    let (since, path) = parse_path("/api/topology");
    assert_eq!(path, "/api/topology");
    assert!(since.is_none());
}

#[test]
fn parse_path_with_since() {
    let (since, path) = parse_path("/api/events?since=1710500000.5");
    assert_eq!(path, "/api/events");
    assert!((since.unwrap() - 1710500000.5).abs() < 0.001);
}

#[test]
fn parse_path_since_zero() {
    let (since, _) = parse_path("/api/events?since=0");
    assert!((since.unwrap()).abs() < 0.001);
}

#[test]
fn parse_path_since_among_other_params() {
    let (since, path) = parse_path("/api/events?foo=bar&since=42.0&baz=qux");
    assert_eq!(path, "/api/events");
    assert!((since.unwrap() - 42.0).abs() < 0.001);
}

#[test]
fn parse_path_no_since_param() {
    let (since, path) = parse_path("/api/events?foo=bar");
    assert_eq!(path, "/api/events");
    assert!(since.is_none());
}

#[test]
fn parse_path_invalid_since_value() {
    let (since, path) = parse_path("/api/events?since=notanumber");
    assert_eq!(path, "/api/events");
    assert!(since.is_none());
}

#[test]
fn parse_path_empty_since() {
    let (since, _) = parse_path("/api/events?since=");
    assert!(since.is_none());
}

#[test]
fn parse_path_root() {
    let (since, path) = parse_path("/");
    assert_eq!(path, "/");
    assert!(since.is_none());
}

#[test]
fn parse_path_empty_query() {
    let (since, path) = parse_path("/api/stats?");
    assert_eq!(path, "/api/stats");
    assert!(since.is_none());
}

#[test]
fn parse_path_negative_since() {
    let (since, _) = parse_path("/api/events?since=-1.0");
    assert!((since.unwrap() - (-1.0)).abs() < 0.001);
}

#[test]
fn parse_path_large_since() {
    let (since, _) = parse_path("/api/events?since=1710500000000.123");
    assert!(since.is_some());
}

#[test]
fn split_request_url_collects_every_since_value() {
    let t = split_request_url("/x?since=a&since=7&since&sincere=1&since=b=c&&?since=9");
    assert_eq!(t.path, "/x");
    assert_eq!(t.since_values, vec!["a".to_string(), "7".to_string(), "b=c".to_string()]);
    let (since, _) = parse_path("/x?since=a&since=7");
    assert_eq!(since, Some(7.0));
}

#[test]
fn split_request_url_path_stops_at_first_question_mark() {
    let t = split_request_url("/a?b?since=3&since=4");
    assert_eq!(t.path, "/a");
    // the key of the first parameter is "b?since"
    assert_eq!(t.since_values, vec!["4".to_string()]);
}

#[test]
fn route_chooses_endpoint() {
    assert_eq!(route("/api/topology"), Route::Topology);
    assert_eq!(route("/api/events"), Route::Events);
    assert_eq!(route("/api/stats"), Route::Stats);
    assert_eq!(route("/api/stats/"), Route::NotFound);
    assert_eq!(route("/"), Route::Dashboard);
    assert_eq!(route(""), Route::NotFound);
}
