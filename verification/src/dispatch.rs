use vstd::prelude::*;

verus! {

use crate::Request;
use crate::config::{
    MethodMap,
    OldWebFrameworkConfig,
    Route,
    copy_vec,
    lemma_seq_get_equiv,
    route_eq,
    seq_get,
};
use crate::http::{Method, Response};
use crate::pipeline::ChainExec;
use crate::routing::{Router, lemma_router_equiv_behavior, router_equiv};

/// Some configured router has a route table for the path.
pub open spec fn any_router_matches<H, M>(routers: Seq<Router<H, M>>, path: Seq<char>) -> bool {
    exists|i: int| 0 <= i < routers.len() && (#[trigger] routers[i]).spec_matches(path)
}

/// The route that serves method `m` on `path`: the contribution of the
/// first router, in configured order, that matches the path and claims the
/// method. An earlier router's claim shadows every later one's.
pub open spec fn serving_route<H, M>(
    routers: Seq<Router<H, M>>,
    path: Seq<char>,
    m: Method,
) -> Option<Route<H, M>>
    decreases routers.len(),
{
    if routers.len() == 0 {
        None
    } else if routers[0].spec_matches(path) && routers[0].spec_match_map(path).spec_contains(m) {
        Some(routers[0].spec_match_map(path).spec_get(m))
    } else {
        serving_route(routers.drop_first(), path, m)
    }
}

/// The request's path parameters after every router ran in configured
/// order, each matching pattern router replacing them in turn.
pub open spec fn params_after_routers<H, M>(
    routers: Seq<Router<H, M>>,
    path: Seq<char>,
    params: Seq<Seq<char>>,
) -> Seq<Seq<char>>
    decreases routers.len(),
{
    if routers.len() == 0 {
        params
    } else {
        params_after_routers(
            routers.drop_first(),
            path,
            routers[0].spec_params_after(path, params),
        )
    }
}

/// Method-map merge law: when two routers both match a path, a method the
/// first router claims is served by the first router's route — an earlier
/// claim shadows a later one — while a method only the second router claims
/// is served by the second router's route; a method neither claims is not
/// served at all.
pub proof fn lemma_merge_first_claim_wins<H, M>(
    routers: Seq<Router<H, M>>,
    path: Seq<char>,
    m: Method,
)
    requires
        routers.len() == 2,
        routers[0].spec_matches(path),
        routers[1].spec_matches(path),
    ensures
        routers[0].spec_match_map(path).spec_contains(m) ==> serving_route(routers, path, m)
            == Some(routers[0].spec_match_map(path).spec_get(m)),
        !routers[0].spec_match_map(path).spec_contains(m) && routers[1].spec_match_map(
            path,
        ).spec_contains(m) ==> serving_route(routers, path, m) == Some(
            routers[1].spec_match_map(path).spec_get(m),
        ),
        !routers[0].spec_match_map(path).spec_contains(m) && !routers[1].spec_match_map(
            path,
        ).spec_contains(m) ==> serving_route(routers, path, m) is None,
{
    reveal_with_fuel(serving_route, 3);
    assert(routers.drop_first()[0] == routers[1]);
    assert(routers.drop_first().drop_first() =~= Seq::<Router<H, M>>::empty());
}

/// Configuration duplication law: a configuration whose routers are
/// pointwise equivalent to another's dispatches alike — the same paths
/// match, every method is served by an equivalent route, and path
/// parameters are rewritten identically. Together with
/// `OldWebFrameworkConfig::duplicate` this makes per-connection copies of
/// the configuration safe.
pub proof fn lemma_config_equiv_dispatch<H, M>(
    a: Seq<Router<H, M>>,
    b: Seq<Router<H, M>>,
    path: Seq<char>,
    m: Method,
    params: Seq<Seq<char>>,
)
    requires
        a.len() == b.len(),
        forall|i: int| 0 <= i < a.len() ==> router_equiv(&a[i], &(#[trigger] b[i])),
        forall|i: int| 0 <= i < a.len() ==> (#[trigger] a[i]).wf(),
    ensures
        any_router_matches(b, path) == any_router_matches(a, path),
        serving_route(b, path, m) is Some <==> serving_route(a, path, m) is Some,
        serving_route(a, path, m) is Some ==> route_eq(
            serving_route(b, path, m)->0,
            serving_route(a, path, m)->0,
        ),
        params_after_routers(b, path, params) == params_after_routers(a, path, params),
    decreases a.len(),
{
    if any_router_matches(a, path) {
        let i = choose|i: int| 0 <= i < a.len() && (#[trigger] a[i]).spec_matches(path);
        lemma_router_equiv_behavior(&a[i], &b[i], path, params);
        assert(b[i].spec_matches(path));
    }
    if any_router_matches(b, path) {
        let i = choose|i: int| 0 <= i < b.len() && (#[trigger] b[i]).spec_matches(path);
        lemma_router_equiv_behavior(&a[i], &b[i], path, params);
        assert(a[i].spec_matches(path));
    }
    if a.len() > 0 {
        lemma_router_equiv_behavior(&a[0], &b[0], path, params);
        if a[0].spec_matches(path) {
            lemma_seq_get_equiv(b[0].spec_match_map(path)@, a[0].spec_match_map(path)@, m);
        }
        assert(a.drop_first().len() == b.drop_first().len());
        assert forall|i: int| 0 <= i < a.drop_first().len() implies router_equiv(
            &a.drop_first()[i],
            &(#[trigger] b.drop_first()[i]),
        ) && a.drop_first()[i].wf() by {
            assert(a.drop_first()[i] == a[i + 1]);
            assert(b.drop_first()[i] == b[i + 1]);
        }
        lemma_config_equiv_dispatch(
            a.drop_first(),
            b.drop_first(),
            path,
            m,
            a[0].spec_params_after(path, params),
        );
    }
}

/// What the dispatch pipeline decided for one request: one of the core's
/// own replies (no route, no method), or the resolved middleware chain and
/// handler, ready to run.
pub enum DispatchOutcome<H, M> {
    Respond(Response),
    Execute(ChainExec<H, M>),
}

/// Run every router in configured order over the request, merge their
/// method-map contributions first-claim-wins, and resolve the effective
/// middleware chain: the matched route's own chain when it has one, the
/// server-level global chain otherwise.
pub fn dispatch<H: Copy, M: Copy, Bd, B>(
    config: &OldWebFrameworkConfig<H, M>,
    request: Request,
    body: Bd,
    bundle: B,
) -> (r: (Request, Bd, B, DispatchOutcome<H, M>))
    requires
        config.wf(),
    ensures
        r.1 == body,
        r.2 == bundle,
        r.0.id == request.id,
        r.0.method == request.method,
        r.0.path == request.path,
        r.0.path_params.deep_view() == params_after_routers(
            config.routers@,
            request.path@,
            request.path_params.deep_view(),
        ),
        !any_router_matches(config.routers@, request.path@) ==> (r.3 matches
            DispatchOutcome::Respond(resp) && resp.status == 404 && resp.body@ == "not found\n"@),
        any_router_matches(config.routers@, request.path@) && serving_route(
            config.routers@,
            request.path@,
            request.method,
        ) is None ==> (r.3 matches DispatchOutcome::Respond(resp) && resp.status == 405
            && resp.body@ == "method not allowed\n"@),
        serving_route(config.routers@, request.path@, request.method) matches Some(route) ==> (r.3
            matches DispatchOutcome::Execute(ex) && ex.spec_handler() == route.handler
            && ex.spec_pos() == 0 && !ex.spec_done() && (route.middleware matches Some(chain)
            ==> ex.spec_chain() == chain@) && (route.middleware is None ==> ex.spec_chain()
            == config.middleware@)),
{
    let ghost routers = config.routers@;
    let ghost path_v = request.path@;
    let ghost req0 = request;
    let ghost body0 = body;
    let ghost bundle0 = bundle;
    let path = request.path.as_str().to_string();
    let mut request = request;
    let mut body = body;
    let mut bundle = bundle;
    let mut merged: Option<MethodMap<H, M>> = None;
    let n = config.routers.len();
    proof {
        assert(routers.skip(0) =~= routers);
    }
    let mut i: usize = 0;
    while i < n
        invariant
            config.wf(),
            routers == config.routers@,
            n == routers.len(),
            i <= n,
            path@ == path_v,
            body == body0,
            bundle == bundle0,
            request.id == req0.id,
            request.method == req0.method,
            request.path == req0.path,
            path_v == req0.path@,
            params_after_routers(routers, path_v, req0.path_params.deep_view())
                == params_after_routers(
                routers.skip(i as int),
                path_v,
                request.path_params.deep_view(),
            ),
            merged is None <==> (forall|j: int|
                0 <= j < i ==> !(#[trigger] routers[j]).spec_matches(path_v)),
            merged is Some ==> merged->0.wf(),
            forall|m: Method|
                merged is Some && #[trigger] seq_get(merged->0@, m) is Some ==> serving_route(
                    routers,
                    path_v,
                    m,
                ) is Some && route_eq(
                    seq_get(merged->0@, m)->0,
                    serving_route(routers, path_v, m)->0,
                ),
            forall|m: Method|
                (merged is None || seq_get(merged->0@, m) is None) ==> #[trigger] serving_route(
                    routers,
                    path_v,
                    m,
                ) == serving_route(routers.skip(i as int), path_v, m),
        decreases n - i,
    {
        proof {
            assert(routers.skip(i as int)[0] == routers[i as int]);
            assert(routers.skip(i as int).drop_first() =~= routers.skip(i as int + 1));
        }
        let router = &config.routers[i];
        let out = router.route(&path, request, body, bundle);
        request = out.0;
        body = out.1;
        bundle = out.2;
        let ghost head = routers[i as int];
        match out.3 {
            None => {
                proof {
                    assert(!head.spec_matches(path_v));
                    assert forall|m: Method|
                        (merged is None || seq_get(merged->0@, m) is None) implies
                        #[trigger] serving_route(routers, path_v, m) == serving_route(
                        routers.skip(i as int + 1),
                        path_v,
                        m,
                    ) by {
                        assert(serving_route(routers.skip(i as int), path_v, m) == serving_route(
                            routers.skip(i as int + 1),
                            path_v,
                            m,
                        ));
                    }
                }
            },
            Some(mm) => {
                proof {
                    assert(head.spec_matches(path_v));
                    assert forall|m: Method| true implies (#[trigger] seq_get(mm@, m) is Some
                        <==> head.spec_match_map(path_v).spec_contains(m)) && (seq_get(mm@, m)
                        is Some ==> route_eq(
                        seq_get(mm@, m)->0,
                        head.spec_match_map(path_v).spec_get(m),
                    )) by {
                        lemma_seq_get_equiv(mm@, head.spec_match_map(path_v)@, m);
                    }
                }
                match merged {
                    None => {
                        proof {
                            assert forall|m: Method| #[trigger] seq_get(mm@, m)
                                is Some implies serving_route(routers, path_v, m) is Some
                                && route_eq(
                                seq_get(mm@, m)->0,
                                serving_route(routers, path_v, m)->0,
                            ) by {
                                assert(serving_route(routers, path_v, m) == serving_route(
                                    routers.skip(i as int),
                                    path_v,
                                    m,
                                ));
                                assert(serving_route(routers.skip(i as int), path_v, m) == Some(
                                    head.spec_match_map(path_v).spec_get(m),
                                ));
                            }
                            assert forall|m: Method| seq_get(mm@, m) is None implies
                                #[trigger] serving_route(routers, path_v, m) == serving_route(
                                routers.skip(i as int + 1),
                                path_v,
                                m,
                            ) by {
                                assert(serving_route(routers.skip(i as int), path_v, m)
                                    == serving_route(routers.skip(i as int + 1), path_v, m));
                            }
                        }
                        merged = Some(mm);
                    },
                    Some(ref mut acc) => {
                        let ghost acc0 = *acc;
                        acc.merge_absent(mm);
                        proof {
                            assert forall|m: Method| #[trigger] seq_get(acc@, m)
                                is Some implies serving_route(routers, path_v, m) is Some
                                && route_eq(
                                seq_get(acc@, m)->0,
                                serving_route(routers, path_v, m)->0,
                            ) by {
                                if seq_get(acc0@, m) is Some {
                                    assert(seq_get(acc@, m) == seq_get(acc0@, m));
                                } else {
                                    assert(seq_get(mm@, m) is Some);
                                    assert(seq_get(acc@, m) == seq_get(mm@, m));
                                    assert(serving_route(routers, path_v, m) == serving_route(
                                        routers.skip(i as int),
                                        path_v,
                                        m,
                                    ));
                                    assert(serving_route(routers.skip(i as int), path_v, m)
                                        == Some(head.spec_match_map(path_v).spec_get(m)));
                                }
                            }
                            assert forall|m: Method| seq_get(acc@, m) is None implies
                                #[trigger] serving_route(routers, path_v, m) == serving_route(
                                routers.skip(i as int + 1),
                                path_v,
                                m,
                            ) by {
                                assert(seq_get(acc0@, m) is None);
                                assert(seq_get(mm@, m) is None);
                                assert(serving_route(routers, path_v, m) == serving_route(
                                    routers.skip(i as int),
                                    path_v,
                                    m,
                                ));
                                assert(serving_route(routers.skip(i as int), path_v, m)
                                    == serving_route(routers.skip(i as int + 1), path_v, m));
                            }
                        }
                    },
                }
            },
        }
        i += 1;
    }
    proof {
        assert(routers.skip(n as int) =~= Seq::<Router<H, M>>::empty());
        assert(params_after_routers(
            Seq::<Router<H, M>>::empty(),
            path_v,
            request.path_params.deep_view(),
        ) == request.path_params.deep_view());
    }
    let merged = match merged {
        None => {
            proof {
                assert forall|m: Method| true implies #[trigger] serving_route(
                    routers,
                    path_v,
                    m,
                ) is None by {
                    assert(serving_route(routers, path_v, m) == serving_route(
                        routers.skip(n as int),
                        path_v,
                        m,
                    ));
                }
            }
            return (request, body, bundle, DispatchOutcome::Respond(Response::not_found()));
        },
        Some(mm) => mm,
    };
    let found = merged.get(request.method);
    match found {
        None => {
            proof {
                assert(serving_route(routers, path_v, req0.method) == serving_route(
                    routers.skip(n as int),
                    path_v,
                    req0.method,
                ));
            }
            (request, body, bundle, DispatchOutcome::Respond(Response::method_not_allowed()))
        },
        Some(route) => {
            let handler = route.handler;
            let chain: Vec<M> = match &route.middleware {
                Some(c) => copy_vec(c),
                None => copy_vec(&config.middleware),
            };
            let ex = ChainExec::new(handler, chain);
            (request, body, bundle, DispatchOutcome::Execute(ex))
        },
    }
}

} // verus!
