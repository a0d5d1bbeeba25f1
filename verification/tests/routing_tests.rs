use old_web_framework::Request;
use old_web_framework::config::{MethodMap, RegexPath, Route};
use old_web_framework::http::Method;
use old_web_framework::routing::Router;

fn request(method: Method, path: &str) -> Request {
    Request { id: 1, method, path: path.to_string(), path_params: vec![] }
}

fn single_route_map(handler: u64) -> MethodMap<u64, u64> {
    let mut map = MethodMap::empty();
    map.insert(Method::Get, Route { handler, middleware: None });
    map
}

#[test]
fn pattern_captures_single_group() {
    let router = Router::Pattern(vec![RegexPath {
        pattern: "^/hello/([a-zA-Z]{1,30})$".to_string(),
        routes: single_route_map(7),
    }]);
    let req = request(Method::Get, "/hello/world");
    let (req, body, bundle, map) = router.route(&"/hello/world".to_string(), req, Some(42u32), ());
    assert_eq!(body, Some(42u32));
    assert_eq!(bundle, ());
    assert_eq!(req.path_params, vec!["world".to_string()]);
    let map = map.expect("pattern should match");
    let route = map.get(Method::Get).expect("GET should be claimed");
    assert_eq!(route.handler, 7);
}

#[test]
fn pattern_rejects_unmatched_path() {
    let router: Router<u64, u64> = Router::Pattern(vec![RegexPath {
        pattern: "^/hello/([a-zA-Z]{1,30})$".to_string(),
        routes: single_route_map(7),
    }]);
    let req = request(Method::Get, "/hello/123");
    let (req, _, _, map) = router.route(&"/hello/123".to_string(), req, None::<u8>, ());
    assert!(map.is_none());
    assert!(req.path_params.is_empty());
}

#[test]
fn five_letter_pattern_route() {
    let router: Router<u64, u64> = Router::Pattern(vec![RegexPath {
        pattern: "^/([a-zA-Z]{5})$".to_string(),
        routes: single_route_map(5),
    }]);

    let req = request(Method::Get, "/hello");
    let (req, _, _, map) = router.route(&"/hello".to_string(), req, None::<u8>, ());
    assert!(map.is_some());
    assert_eq!(req.path_params, vec!["hello".to_string()]);

    let req = request(Method::Get, "/bye");
    let (req, _, _, map) = router.route(&"/bye".to_string(), req, None::<u8>, ());
    assert!(map.is_none());
    assert!(req.path_params.is_empty());
}

#[test]
fn pattern_first_match_wins() {
    let router: Router<u64, u64> = Router::Pattern(vec![
        RegexPath { pattern: "^/(a.*)$".to_string(), routes: single_route_map(1) },
        RegexPath { pattern: "^/(ab.*)$".to_string(), routes: single_route_map(2) },
    ]);
    let req = request(Method::Get, "/abc");
    let (req, _, _, map) = router.route(&"/abc".to_string(), req, None::<u8>, ());
    assert_eq!(req.path_params, vec!["abc".to_string()]);
    let map = map.expect("first pattern should match");
    assert_eq!(map.get(Method::Get).unwrap().handler, 1);
}

#[test]
fn pattern_captures_groups_in_order() {
    let router: Router<u64, u64> = Router::Pattern(vec![RegexPath {
        pattern: "^/([a-z]+)/([0-9]+)$".to_string(),
        routes: single_route_map(3),
    }]);
    let req = request(Method::Get, "/items/42");
    let (req, _, _, map) = router.route(&"/items/42".to_string(), req, None::<u8>, ());
    assert!(map.is_some());
    assert_eq!(req.path_params, vec!["items".to_string(), "42".to_string()]);
}

#[test]
fn exact_router_hit_and_miss() {
    let router: Router<u64, u64> =
        Router::Exact(vec![("/x".to_string(), single_route_map(9))]);

    let req = request(Method::Get, "/x");
    let (req, _, _, map) = router.route(&"/x".to_string(), req, None::<u8>, ());
    assert!(req.path_params.is_empty());
    let map = map.expect("exact path should match");
    assert_eq!(map.get(Method::Get).unwrap().handler, 9);

    let req = request(Method::Get, "/y");
    let (_, _, _, map) = router.route(&"/y".to_string(), req, None::<u8>, ());
    assert!(map.is_none());
}

#[test]
fn duplicated_router_routes_alike() {
    let router: Router<u64, u64> = Router::Pattern(vec![RegexPath {
        pattern: "^/([a-z]+)$".to_string(),
        routes: single_route_map(7),
    }]);
    let copy = router.duplicate();

    let (req_a, _, _, map_a) =
        router.route(&"/abc".to_string(), request(Method::Get, "/abc"), None::<u8>, ());
    let (req_b, _, _, map_b) =
        copy.route(&"/abc".to_string(), request(Method::Get, "/abc"), None::<u8>, ());

    assert_eq!(req_a.path_params, req_b.path_params);
    assert_eq!(
        map_a.unwrap().get(Method::Get).unwrap().handler,
        map_b.unwrap().get(Method::Get).unwrap().handler,
    );
}

#[test]
fn router_threads_body_and_bundle_through() {
    let router: Router<u64, u64> =
        Router::Exact(vec![("/x".to_string(), single_route_map(9))]);
    let req = request(Method::Post, "/nope");
    let (req, body, bundle, map) =
        router.route(&"/nope".to_string(), req, Some("payload".to_string()), 11u8);
    assert!(map.is_none());
    assert_eq!(body, Some("payload".to_string()));
    assert_eq!(bundle, 11u8);
    assert_eq!(req.id, 1);
    assert_eq!(req.path, "/nope");
}
