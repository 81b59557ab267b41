//! Tests of route construction, validation, the store's upsert
//! semantics, and dispatch.

use mockie::default_status;
use mockie::dispatch::dispatch;
use mockie::error::AppError;
use mockie::registry::{add_route, list_routes, AddRouteRequest};
use mockie::route::RouteConfig;
use mockie::store::RouteStore;

fn req(method: &str, path: &str, status: u16, delay_ms: u64, response: &str) -> AddRouteRequest {
    AddRouteRequest {
        method: method.to_string(),
        path: path.to_string(),
        status,
        delay_ms,
        response: response.to_string(),
    }
}

#[test]
fn test_route_validation() {
    let valid_route = RouteConfig::new(
        "GET".to_string(),
        "/test".to_string(),
        200,
        0,
        "{\"ok\":true}".to_string(),
    );
    assert!(valid_route.validate().is_ok());

    let invalid_status = RouteConfig::new(
        "GET".to_string(),
        "/test".to_string(),
        999,
        0,
        "{\"ok\":true}".to_string(),
    );
    assert!(invalid_status.validate().is_err());
}

#[test]
fn test_default_status_is_200() {
    assert_eq!(default_status(), 200);
}

#[test]
fn test_method_is_upper_cased() {
    let route = RouteConfig::new(
        "get".to_string(),
        "/x".to_string(),
        200,
        0,
        "{}".to_string(),
    );
    assert_eq!(route.method, "GET");
}

#[test]
fn test_upsert_idempotent() {
    let mut store = RouteStore::new();
    add_route(&mut store, req("GET", "/a", 200, 0, "{\"n\":1}")).unwrap();
    let once = list_routes(&store);
    add_route(&mut store, req("GET", "/a", 200, 0, "{\"n\":1}")).unwrap();
    let twice = list_routes(&store);
    assert_eq!(once.len(), 1);
    assert_eq!(twice.len(), 1);
    assert_eq!(once[0].method, twice[0].method);
    assert_eq!(once[0].path, twice[0].path);
    assert_eq!(once[0].status, twice[0].status);
    assert_eq!(once[0].delay_ms, twice[0].delay_ms);
    let got = store.get(&"GET".to_string(), &"/a".to_string()).unwrap();
    assert_eq!(got.response, "{\"n\":1}");
}

#[test]
fn test_upsert_overwrite() {
    let mut store = RouteStore::new();
    add_route(&mut store, req("GET", "/a", 200, 0, "{\"v\":1}")).unwrap();
    add_route(&mut store, req("GET", "/a", 503, 7, "{\"v\":2}")).unwrap();
    let listed = list_routes(&store);
    assert_eq!(listed.len(), 1);
    assert_eq!(listed[0].status, 503);
    assert_eq!(listed[0].delay_ms, 7);
    let got = store.get(&"GET".to_string(), &"/a".to_string()).unwrap();
    assert_eq!(got.response, "{\"v\":2}");
}

#[test]
fn test_validation_statuses() {
    for bad in [0u16, 600, 700, 999, u16::MAX] {
        let mut store = RouteStore::new();
        let r = add_route(&mut store, req("GET", "/x", bad, 0, "{}"));
        assert!(r.is_err());
        assert_eq!(store.len(), 0);
        match r.unwrap_err() {
            AppError::SerdeError(m) => {
                assert_eq!(m, "Status must be between 100 and 599")
            }
            _ => panic!("wrong error variant"),
        }
    }
    for good in [100u16, 200, 404, 599] {
        let mut store = RouteStore::new();
        assert!(add_route(&mut store, req("GET", "/x", good, 0, "{}")).is_ok());
        assert_eq!(store.len(), 1);
    }
}

#[test]
fn test_validation_empty_fields() {
    let mut store = RouteStore::new();
    match add_route(&mut store, req("", "/x", 200, 0, "{}")) {
        Err(AppError::SerdeError(m)) => assert_eq!(m, "Method cannot be empty"),
        _ => panic!("expected a validation error"),
    }
    match add_route(&mut store, req("GET", "", 200, 0, "{}")) {
        Err(AppError::SerdeError(m)) => assert_eq!(m, "Path cannot be empty"),
        _ => panic!("expected a validation error"),
    }
    assert_eq!(store.len(), 0);
}

#[test]
fn test_dispatch_match_and_miss() {
    let mut store = RouteStore::new();
    add_route(&mut store, req("GET", "/users", 201, 5, "{\"users\":[]}")).unwrap();
    let (status, delay, body) = dispatch(&store, &"GET".to_string(), &"/users".to_string());
    assert_eq!(status, 201);
    assert_eq!(delay, 5);
    assert_eq!(body, "{\"users\":[]}");

    let (status, delay, body) = dispatch(&store, &"POST".to_string(), &"/users".to_string());
    assert_eq!(status, 404);
    assert_eq!(delay, 0);
    assert_eq!(
        body,
        "{\"error\":\"Mock endpoint not found\",\"path\":\"/users\"}"
    );
}

#[test]
fn test_dispatch_returns_configured_delay() {
    let mut store = RouteStore::new();
    add_route(&mut store, req("GET", "/slow", 200, 250, "{}")).unwrap();
    add_route(&mut store, req("GET", "/fast", 200, 0, "{}")).unwrap();
    let (_, slow_delay, _) = dispatch(&store, &"GET".to_string(), &"/slow".to_string());
    let (_, fast_delay, _) = dispatch(&store, &"GET".to_string(), &"/fast".to_string());
    assert_eq!(slow_delay, 250);
    assert_eq!(fast_delay, 0);
}

#[test]
fn test_example_ping() {
    let mut store = RouteStore::new();
    add_route(&mut store, req("GET", "/ping", 200, 0, "{\"pong\":true}")).unwrap();
    let (status, _, body) = dispatch(&store, &"GET".to_string(), &"/ping".to_string());
    assert_eq!(status, 200);
    assert_eq!(body, "{\"pong\":true}");

    let (status, _, body) = dispatch(&store, &"GET".to_string(), &"/missing".to_string());
    assert_eq!(status, 404);
    assert_eq!(
        body,
        "{\"error\":\"Mock endpoint not found\",\"path\":\"/missing\"}"
    );

    let r = add_route(&mut store, req("GET", "/x", 700, 0, "{}"));
    assert!(r.is_err());
    assert_eq!(r.unwrap_err().status_code(), 400);
    let (status, _, _) = dispatch(&store, &"GET".to_string(), &"/x".to_string());
    assert_eq!(status, 404);
}

#[test]
fn test_lower_case_method_matches_upper_case_request() {
    let mut store = RouteStore::new();
    add_route(&mut store, req("get", "/u", 200, 0, "{}")).unwrap();
    let (status, _, body) = dispatch(&store, &"GET".to_string(), &"/u".to_string());
    assert_eq!(status, 200);
    assert_eq!(body, "{}");
}

#[test]
fn test_list_routes_shows_all() {
    let mut store = RouteStore::new();
    add_route(&mut store, req("GET", "/a", 200, 0, "{}")).unwrap();
    add_route(&mut store, req("POST", "/b", 201, 2, "{}")).unwrap();
    let listed = list_routes(&store);
    assert_eq!(listed.len(), 2);
    assert!(listed
        .iter()
        .any(|r| r.method == "GET" && r.path == "/a" && r.status == 200));
    assert!(listed
        .iter()
        .any(|r| r.method == "POST" && r.path == "/b" && r.status == 201 && r.delay_ms == 2));
}

#[test]
fn test_error_mapping() {
    assert_eq!(AppError::Io("boom".to_string()).status_code(), 500);
    assert_eq!(AppError::Json("bad".to_string()).status_code(), 400);
    assert_eq!(AppError::RouteNotFound("/a".to_string()).status_code(), 404);
    assert_eq!(AppError::SerdeError("s".to_string()).status_code(), 400);
    assert_eq!(AppError::Internal("i".to_string()).status_code(), 500);
    assert_eq!(
        AppError::RouteNotFound("/a".to_string()).message(),
        "Route not found: /a"
    );
    assert_eq!(AppError::Internal("oops".to_string()).message(), "oops");
}
