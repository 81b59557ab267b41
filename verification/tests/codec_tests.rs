//! Tests of the persistence codec and the startup load policy.

use mockie::codec::{encode_routes, parse_routes};
use mockie::config::Config;
use mockie::registry::add_route;
use mockie::registry::AddRouteRequest;
use mockie::route::RouteConfig;
use mockie::storage::{initial_store, save_document, FileStorage};
use mockie::store::RouteStore;

fn route(method: &str, path: &str, status: u16, delay_ms: u64, response: &str) -> RouteConfig {
    RouteConfig::new(
        method.to_string(),
        path.to_string(),
        status,
        delay_ms,
        response.to_string(),
    )
}

#[test]
fn test_encode_exact_document() {
    let routes = vec![route("GET", "/a", 200, 0, "{}")];
    let doc = encode_routes(&routes);
    assert_eq!(
        doc,
        "[\n{\"method\": \"GET\", \"path\": \"/a\", \"status\": 200, \"delay_ms\": 0, \"response\": \"{}\"}\n]"
    );
}

#[test]
fn test_encode_empty() {
    let routes: Vec<RouteConfig> = Vec::new();
    assert_eq!(encode_routes(&routes), "[]");
}

#[test]
fn test_encode_escapes_quotes_and_backslashes() {
    let routes = vec![route("GET", "/a\"b\\c", 200, 0, "{\"k\":\"v\"}")];
    let doc = encode_routes(&routes);
    assert_eq!(
        doc,
        "[\n{\"method\": \"GET\", \"path\": \"/a\\\"b\\\\c\", \"status\": 200, \"delay_ms\": 0, \"response\": \"{\\\"k\\\":\\\"v\\\"}\"}\n]"
    );
}

#[test]
fn test_round_trip_two_routes() {
    let routes = vec![
        route("GET", "/ping", 200, 0, "{\"pong\":true}"),
        route("POST", "/we\"ird\\", 599, u64::MAX, "[1,2,3]"),
    ];
    let doc = encode_routes(&routes);
    let back = parse_routes(&doc).unwrap();
    assert_eq!(back.len(), 2);
    for (a, b) in routes.iter().zip(back.iter()) {
        assert_eq!(a.method, b.method);
        assert_eq!(a.path, b.path);
        assert_eq!(a.status, b.status);
        assert_eq!(a.delay_ms, b.delay_ms);
        assert_eq!(a.response, b.response);
    }
}

#[test]
fn test_parse_empty_and_malformed() {
    assert_eq!(parse_routes(&"".to_string()).unwrap().len(), 0);
    assert_eq!(parse_routes(&"[]".to_string()).unwrap().len(), 0);
    assert!(parse_routes(&"not json".to_string()).is_err());
    assert!(parse_routes(&"[\n{\"method\": \"GET\"}\n]".to_string()).is_err());
    assert!(parse_routes(&"{\"a\":1}".to_string()).is_err());
}

#[test]
fn test_save_then_load_store() {
    let mut store = RouteStore::new();
    let req = AddRouteRequest {
        method: "get".to_string(),
        path: "/r".to_string(),
        status: 418,
        delay_ms: 3,
        response: "{\"tea\":true}".to_string(),
    };
    add_route(&mut store, req).unwrap();
    let doc = save_document(&store);
    let loaded = initial_store(&doc);
    let got = loaded.get(&"GET".to_string(), &"/r".to_string()).unwrap();
    assert_eq!(got.status, 418);
    assert_eq!(got.delay_ms, 3);
    assert_eq!(got.response, "{\"tea\":true}");
    assert_eq!(loaded.len(), 1);
}

#[test]
fn test_load_degrades_to_empty_on_malformed() {
    let store = initial_store(&"{broken".to_string());
    assert_eq!(store.len(), 0);
    let store = initial_store(&"".to_string());
    assert_eq!(store.len(), 0);
}

#[test]
fn test_load_last_write_wins() {
    let doc = "[\n{\"method\": \"GET\", \"path\": \"/a\", \"status\": 200, \"delay_ms\": 0, \"response\": \"1\"},\n{\"method\": \"GET\", \"path\": \"/a\", \"status\": 500, \"delay_ms\": 0, \"response\": \"2\"}\n]";
    let store = initial_store(&doc.to_string());
    assert_eq!(store.len(), 1);
    let got = store.get(&"GET".to_string(), &"/a".to_string()).unwrap();
    assert_eq!(got.status, 500);
    assert_eq!(got.response, "2");
}

#[test]
fn test_file_storage_path() {
    let storage = FileStorage::new("test_routes.json".to_string());
    assert_eq!(storage.path().as_str(), "test_routes.json");
}

#[test]
fn test_config_defaults() {
    let config = Config::defaults();
    assert_eq!(config.server_port, 3000);
    assert_eq!(config.storage_file, "routes.json");
}
