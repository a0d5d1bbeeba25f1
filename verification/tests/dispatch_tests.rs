use old_web_framework::Request;
use old_web_framework::config::{MethodMap, OldWebFrameworkConfig, RegexPath, Route};
use old_web_framework::dispatch::{DispatchOutcome, dispatch};
use old_web_framework::http::{Method, Response};
use old_web_framework::pipeline::NextCall;
use old_web_framework::routing::Router;

fn request(method: Method, path: &str) -> Request {
    Request { id: 1, method, path: path.to_string(), path_params: vec![] }
}

fn map_of(entries: Vec<(Method, Route<u64, u64>)>) -> MethodMap<u64, u64> {
    let mut map = MethodMap::empty();
    for (method, route) in entries {
        map.insert(method, route);
    }
    map
}

fn config_of(
    routers: Vec<Router<u64, u64>>,
    middleware: Vec<u64>,
) -> OldWebFrameworkConfig<u64, u64> {
    OldWebFrameworkConfig { routers, middleware, listen_addr: "127.0.0.1:3001".to_string() }
}

fn expect_respond(outcome: DispatchOutcome<u64, u64>) -> Response {
    match outcome {
        DispatchOutcome::Respond(resp) => resp,
        DispatchOutcome::Execute(_) => panic!("expected a core response"),
    }
}

#[test]
fn unrouted_path_is_404() {
    let config = config_of(vec![], vec![]);
    let (_, _, _, outcome) = dispatch(&config, request(Method::Get, "/missing"), None::<u8>, ());
    let resp = expect_respond(outcome);
    assert_eq!(resp.status, 404);
    assert_eq!(resp.body, "not found\n");

    let config = config_of(
        vec![Router::Exact(vec![(
            "/x".to_string(),
            map_of(vec![(Method::Get, Route { handler: 1, middleware: None })]),
        )])],
        vec![],
    );
    let (_, _, _, outcome) = dispatch(&config, request(Method::Get, "/other"), None::<u8>, ());
    let resp = expect_respond(outcome);
    assert_eq!(resp.status, 404);
    assert_eq!(resp.body, "not found\n");
}

#[test]
fn wrong_method_is_405() {
    let config = config_of(
        vec![Router::Exact(vec![(
            "/x".to_string(),
            map_of(vec![(Method::Get, Route { handler: 1, middleware: None })]),
        )])],
        vec![],
    );
    let (_, _, _, outcome) = dispatch(&config, request(Method::Post, "/x"), None::<u8>, ());
    let resp = expect_respond(outcome);
    assert_eq!(resp.status, 405);
    assert_eq!(resp.body, "method not allowed\n");
}

#[test]
fn merge_first_claim_wins() {
    let router_a = Router::Exact(vec![(
        "/x".to_string(),
        map_of(vec![(Method::Get, Route { handler: 1, middleware: None })]),
    )]);
    let router_b = Router::Exact(vec![(
        "/x".to_string(),
        map_of(vec![
            (Method::Get, Route { handler: 2, middleware: None }),
            (Method::Post, Route { handler: 3, middleware: None }),
        ]),
    )]);
    let config = config_of(vec![router_a, router_b], vec![]);

    let (_, _, _, outcome) = dispatch(&config, request(Method::Get, "/x"), None::<u8>, ());
    match outcome {
        DispatchOutcome::Execute(ex) => match ex.next() {
            NextCall::Handler(h) => assert_eq!(h, 1),
            _ => panic!("expected the handler, the global chain is empty"),
        },
        DispatchOutcome::Respond(_) => panic!("GET /x should be routed"),
    }

    let (_, _, _, outcome) = dispatch(&config, request(Method::Post, "/x"), None::<u8>, ());
    match outcome {
        DispatchOutcome::Execute(ex) => match ex.next() {
            NextCall::Handler(h) => assert_eq!(h, 3),
            _ => panic!("expected the handler, the global chain is empty"),
        },
        DispatchOutcome::Respond(_) => panic!("POST /x should be routed"),
    }
}

#[test]
fn empty_override_runs_no_middleware() {
    let config = config_of(
        vec![Router::Exact(vec![(
            "/x".to_string(),
            map_of(vec![(Method::Get, Route { handler: 1, middleware: Some(vec![]) })]),
        )])],
        vec![10, 11],
    );
    let (_, _, _, outcome) = dispatch(&config, request(Method::Get, "/x"), None::<u8>, ());
    match outcome {
        DispatchOutcome::Execute(ex) => match ex.next() {
            NextCall::Handler(h) => assert_eq!(h, 1),
            NextCall::Middleware(_) => panic!("empty override must run zero middleware"),
            NextCall::Complete => panic!("fresh run cannot be complete"),
        },
        DispatchOutcome::Respond(_) => panic!("GET /x should be routed"),
    }
}

#[test]
fn absent_override_runs_global_chain() {
    let config = config_of(
        vec![Router::Exact(vec![(
            "/x".to_string(),
            map_of(vec![(Method::Get, Route { handler: 1, middleware: None })]),
        )])],
        vec![10, 11],
    );
    let (_, _, _, outcome) = dispatch(&config, request(Method::Get, "/x"), None::<u8>, ());
    match outcome {
        DispatchOutcome::Execute(ex) => match ex.next() {
            NextCall::Middleware(step) => assert_eq!(step, 10),
            _ => panic!("the global chain should run first"),
        },
        DispatchOutcome::Respond(_) => panic!("GET /x should be routed"),
    }
}

#[test]
fn route_override_replaces_global_chain() {
    let config = config_of(
        vec![Router::Exact(vec![(
            "/x".to_string(),
            map_of(vec![(Method::Get, Route { handler: 1, middleware: Some(vec![20]) })]),
        )])],
        vec![10, 11],
    );
    let (_, _, _, outcome) = dispatch(&config, request(Method::Get, "/x"), None::<u8>, ());
    match outcome {
        DispatchOutcome::Execute(ex) => match ex.next() {
            NextCall::Middleware(step) => assert_eq!(step, 20),
            _ => panic!("the override chain should run first"),
        },
        DispatchOutcome::Respond(_) => panic!("GET /x should be routed"),
    }
}

#[test]
fn dispatch_threads_params_and_body() {
    let config = config_of(
        vec![Router::Pattern(vec![RegexPath {
            pattern: "^/hello/([a-zA-Z]{1,30})$".to_string(),
            routes: map_of(vec![(Method::Get, Route { handler: 4, middleware: None })]),
        }])],
        vec![],
    );
    let (req, body, bundle, outcome) =
        dispatch(&config, request(Method::Get, "/hello/world"), Some(9u8), "bundle");
    assert_eq!(req.path_params, vec!["world".to_string()]);
    assert_eq!(body, Some(9u8));
    assert_eq!(bundle, "bundle");
    assert!(matches!(outcome, DispatchOutcome::Execute(_)));
}

#[test]
fn insert_replaces_route_for_same_method() {
    let mut map: MethodMap<u64, u64> = MethodMap::empty();
    map.insert(Method::Get, Route { handler: 1, middleware: None });
    map.insert(Method::Get, Route { handler: 2, middleware: None });
    assert_eq!(map.get(Method::Get).unwrap().handler, 2);
    assert!(map.get(Method::Post).is_none());
}

#[test]
fn pattern_route_with_wrong_method_is_405() {
    let config = config_of(
        vec![Router::Pattern(vec![RegexPath {
            pattern: "^/hello/([a-zA-Z]{1,30})$".to_string(),
            routes: map_of(vec![(Method::Get, Route { handler: 4, middleware: None })]),
        }])],
        vec![],
    );
    let (_, _, _, outcome) = dispatch(&config, request(Method::Post, "/hello/world"), None::<u8>, ());
    let resp = expect_respond(outcome);
    assert_eq!(resp.status, 405);
    assert_eq!(resp.body, "method not allowed\n");
}

#[test]
fn duplicated_config_dispatches_alike() {
    let config = config_of(
        vec![Router::Pattern(vec![RegexPath {
            pattern: "^/hello/([a-zA-Z]{1,30})$".to_string(),
            routes: map_of(vec![(Method::Get, Route { handler: 4, middleware: None })]),
        }])],
        vec![10],
    );
    let copy = config.duplicate();
    assert_eq!(copy.listen_addr, "127.0.0.1:3001");

    let (req_a, _, _, outcome_a) =
        dispatch(&config, request(Method::Get, "/hello/world"), None::<u8>, ());
    let (req_b, _, _, outcome_b) =
        dispatch(&copy, request(Method::Get, "/hello/world"), None::<u8>, ());
    assert_eq!(req_a.path_params, req_b.path_params);
    match (outcome_a, outcome_b) {
        (DispatchOutcome::Execute(ex_a), DispatchOutcome::Execute(ex_b)) => {
            match (ex_a.next(), ex_b.next()) {
                (NextCall::Middleware(sa), NextCall::Middleware(sb)) => assert_eq!(sa, sb),
                _ => panic!("both runs should start with the global chain"),
            }
        }
        _ => panic!("both configurations should route the request"),
    }

    let (_, _, _, outcome) = dispatch(&copy, request(Method::Get, "/hello/123"), None::<u8>, ());
    let resp = expect_respond(outcome);
    assert_eq!(resp.status, 404);
}

#[test]
fn core_response_bodies_are_fixed() {
    let resp = Response::internal_error();
    assert_eq!(resp.status, 500);
    assert_eq!(resp.body, "internal server error\n");

    let resp = Response::not_found();
    assert_eq!(resp.status, 404);
    assert_eq!(resp.body, "not found\n");

    let resp = Response::method_not_allowed();
    assert_eq!(resp.status, 405);
    assert_eq!(resp.body, "method not allowed\n");
}
