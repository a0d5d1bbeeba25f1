use vstd::prelude::*;

verus! {

use crate::Request;
use crate::config::{MethodMap, RegexPath, entries_equiv};

/// The capture groups that a regular-expression pattern yields on a path:
/// `None` when the pattern does not match the path (or does not compile),
/// `Some` of the groups, in order, group 1 first and the whole match
/// excluded, when it does. A pure function of the two strings.
pub uninterp spec fn captures_of(pattern: Seq<char>, path: Seq<char>) -> Option<Seq<Seq<char>>>;

/// Relies on regex::Regex::captures, on the regex compiled from `pattern` by
/// regex::Regex::new: whether a pattern matches a path, and what its capture
/// groups hold, is a function of the pattern and path strings alone. Groups
/// come back in order, 1-indexed, the whole match (group 0) excluded; a
/// group that took part in no match comes back as the empty string. A
/// pattern that does not compile matches no path.
#[verifier::external_body]
fn regex_captures(pattern: &String, path: &String) -> (r: Option<Vec<String>>)
    ensures
        r is Some <==> captures_of(pattern@, path@) is Some,
        r is Some ==> r->0.deep_view() == captures_of(pattern@, path@)->0,
{
    let re = match regex::Regex::new(pattern) {
        Ok(re) => re,
        Err(_) => return None,
    };
    let caps = re.captures(path)?;
    let mut groups = Vec::new();
    for i in 1..caps.len() {
        groups.push(caps.get(i).map_or("", |g| g.as_str()).to_string());
    }
    Some(groups)
}

/// The position of the first pattern in the list that matches the path;
/// meaningful only when some pattern matches.
pub open spec fn first_pattern_match<H, M>(pats: Seq<RegexPath<H, M>>, path: Seq<char>) -> int
    decreases pats.len(),
{
    if pats.len() == 0 {
        0
    } else if captures_of(pats[0].pattern@, path) is Some {
        0
    } else {
        1 + first_pattern_match(pats.drop_first(), path)
    }
}

/// When pattern `i` matches and none before it does, `i` is the first match.
pub proof fn lemma_first_pattern_match_at<H, M>(
    pats: Seq<RegexPath<H, M>>,
    path: Seq<char>,
    i: int,
)
    requires
        0 <= i < pats.len(),
        captures_of(pats[i].pattern@, path) is Some,
        forall|j: int| 0 <= j < i ==> captures_of((#[trigger] pats[j]).pattern@, path) is None,
    ensures
        first_pattern_match(pats, path) == i,
    decreases i,
{
    if i > 0 {
        assert(pats.drop_first()[i - 1] == pats[i]);
        assert(forall|j: int|
            0 <= j < i - 1 ==> (#[trigger] pats.drop_first()[j]) == pats[j + 1]);
        lemma_first_pattern_match_at(pats.drop_first(), path, i - 1);
    }
}

/// A pluggable router strategy, the closed set of the two canonical
/// variants: an exact-path table with unique path keys, and an ordered
/// pattern list evaluated front to back, first match wins.
pub enum Router<H, M> {
    Exact(Vec<(String, MethodMap<H, M>)>),
    Pattern(Vec<RegexPath<H, M>>),
}

impl<H, M> Router<H, M> {
    /// Exact tables hold each path at most once; every stored method map has
    /// unique method keys.
    pub open spec fn wf(&self) -> bool {
        match self {
            Router::Exact(table) => (forall|i: int, j: int|
                0 <= i < j < table@.len() ==> (#[trigger] table@[i]).0@ != (
                #[trigger] table@[j]).0@) && (forall|i: int|
                0 <= i < table@.len() ==> (#[trigger] table@[i]).1.wf()),
            Router::Pattern(pats) => forall|i: int|
                0 <= i < pats@.len() ==> (#[trigger] pats@[i]).routes.wf(),
        }
    }

    /// Check the invariants of a router built outside verified code: unique
    /// paths in an exact table, unique method keys in every stored map.
    pub fn wf_check(&self) -> (r: bool)
        ensures
            r == self.wf(),
    {
        match self {
            Router::Exact(table) => {
                let n = table.len();
                let mut i: usize = 0;
                while i < n
                    invariant
                        self is Exact,
                        table == self->Exact_0,
                        n == table@.len(),
                        i <= n,
                        forall|a: int, b: int|
                            0 <= a < b < n && a < i ==> (#[trigger] table@[a]).0@ != (
                            #[trigger] table@[b]).0@,
                        forall|a: int| 0 <= a < i ==> (#[trigger] table@[a]).1.wf(),
                    decreases n - i,
                {
                    if !table[i].1.wf_check() {
                        return false;
                    }
                    let mut j: usize = i + 1;
                    while j < n
                        invariant
                            self is Exact,
                            table == self->Exact_0,
                            n == table@.len(),
                            i < n,
                            i < j <= n,
                            forall|b: int| i < b < j ==> (#[trigger] table@[b]).0@ != table@[i as int].0@,
                        decreases n - j,
                    {
                        if table[i].0 == table[j].0 {
                            return false;
                        }
                        j += 1;
                    }
                    i += 1;
                }
                true
            },
            Router::Pattern(pats) => {
                let n = pats.len();
                let mut i: usize = 0;
                while i < n
                    invariant
                        self is Pattern,
                        pats == self->Pattern_0,
                        n == pats@.len(),
                        i <= n,
                        forall|a: int| 0 <= a < i ==> (#[trigger] pats@[a]).routes.wf(),
                    decreases n - i,
                {
                    if !pats[i].routes.wf_check() {
                        return false;
                    }
                    i += 1;
                }
                true
            },
        }
    }

    /// Whether this strategy has a route table for the path, whatever the
    /// request's method.
    pub open spec fn spec_matches(&self, path: Seq<char>) -> bool {
        match self {
            Router::Exact(table) => exists|i: int|
                0 <= i < table@.len() && (#[trigger] table@[i]).0@ == path,
            Router::Pattern(pats) => exists|i: int|
                0 <= i < pats@.len() && captures_of((#[trigger] pats@[i]).pattern@, path) is Some,
        }
    }

    /// The method map this strategy contributes for the path: the table
    /// entry for an exact hit, the first matching pattern's map otherwise.
    pub open spec fn spec_match_map(&self, path: Seq<char>) -> MethodMap<H, M>
        recommends
            self.spec_matches(path),
    {
        match self {
            Router::Exact(table) => table@[choose|i: int|
                0 <= i < table@.len() && (#[trigger] table@[i]).0@ == path].1,
            Router::Pattern(pats) => pats@[first_pattern_match(pats@, path)].routes,
        }
    }

    /// The path parameters after this strategy ran: replaced by the first
    /// matching pattern's capture groups, untouched otherwise.
    pub open spec fn spec_params_after(&self, path: Seq<char>, params: Seq<Seq<char>>) -> Seq<
        Seq<char>,
    > {
        match self {
            Router::Exact(_) => params,
            Router::Pattern(pats) => if self.spec_matches(path) {
                captures_of(pats@[first_pattern_match(pats@, path)].pattern@, path)->0
            } else {
                params
            },
        }
    }
}

/// Pointwise structural agreement of two routers: the same variant, the
/// same path or pattern texts in the same order, and equivalent stored
/// method maps.
pub open spec fn router_equiv<H, M>(a: &Router<H, M>, b: &Router<H, M>) -> bool {
    match (a, b) {
        (Router::Exact(ta), Router::Exact(tb)) => ta@.len() == tb@.len() && (forall|i: int|
            0 <= i < ta@.len() ==> (#[trigger] ta@[i]).0@ == tb@[i].0@ && entries_equiv(
                ta@[i].1@,
                tb@[i].1@,
            )),
        (Router::Pattern(pa), Router::Pattern(pb)) => pa@.len() == pb@.len() && (forall|i: int|
            0 <= i < pa@.len() ==> (#[trigger] pa@[i]).pattern@ == pb@[i].pattern@
                && entries_equiv(pa@[i].routes@, pb@[i].routes@)),
        _ => false,
    }
}

/// Equal pattern texts find their first match at the same position.
proof fn lemma_first_match_congruence<H, M>(
    pa: Seq<RegexPath<H, M>>,
    pb: Seq<RegexPath<H, M>>,
    path: Seq<char>,
)
    requires
        pa.len() == pb.len(),
        forall|i: int| 0 <= i < pa.len() ==> (#[trigger] pa[i]).pattern@ == pb[i].pattern@,
    ensures
        first_pattern_match(pa, path) == first_pattern_match(pb, path),
    decreases pa.len(),
{
    if pa.len() > 0 {
        assert(forall|i: int|
            0 <= i < pa.drop_first().len() ==> (#[trigger] pa.drop_first()[i]) == pa[i + 1]
                && pb.drop_first()[i] == pb[i + 1]);
        lemma_first_match_congruence(pa.drop_first(), pb.drop_first(), path);
    }
}

/// Safe-duplication law: structurally equivalent routers route alike — they
/// are well-formed together, match exactly the same paths, contribute
/// equivalent method maps, and rewrite path parameters identically.
pub proof fn lemma_router_equiv_behavior<H, M>(
    a: &Router<H, M>,
    b: &Router<H, M>,
    path: Seq<char>,
    params: Seq<Seq<char>>,
)
    requires
        router_equiv(a, b),
    ensures
        b.wf() == a.wf(),
        b.spec_matches(path) == a.spec_matches(path),
        a.wf() && a.spec_matches(path) ==> entries_equiv(
            b.spec_match_map(path)@,
            a.spec_match_map(path)@,
        ),
        b.spec_params_after(path, params) == a.spec_params_after(path, params),
{
    match (a, b) {
        (Router::Exact(ta), Router::Exact(tb)) => {
            if a.wf() {
                assert forall|i: int, j: int| 0 <= i < j < tb@.len() implies (#[trigger] tb@[i]).0@
                    != (#[trigger] tb@[j]).0@ by {
                    assert(ta@[i].0@ != ta@[j].0@);
                }
                assert forall|i: int| 0 <= i < tb@.len() implies (#[trigger] tb@[i]).1.wf() by {
                    assert(ta@[i].1.wf());
                    crate::config::lemma_entries_equiv_wf(&ta@[i].1, &tb@[i].1);
                }
                assert(b.wf());
            }
            if b.wf() {
                assert forall|i: int, j: int| 0 <= i < j < ta@.len() implies (#[trigger] ta@[i]).0@
                    != (#[trigger] ta@[j]).0@ by {
                    assert(tb@[i].0@ != tb@[j].0@);
                }
                assert forall|i: int| 0 <= i < ta@.len() implies (#[trigger] ta@[i]).1.wf() by {
                    assert(tb@[i].1.wf());
                    crate::config::lemma_entries_equiv_wf(&ta@[i].1, &tb@[i].1);
                }
                assert(a.wf());
            }
            if a.spec_matches(path) {
                let i = choose|i: int| 0 <= i < ta@.len() && (#[trigger] ta@[i]).0@ == path;
                assert(tb@[i].0@ == path);
                assert(b.spec_matches(path));
            }
            if b.spec_matches(path) {
                let i = choose|i: int| 0 <= i < tb@.len() && (#[trigger] tb@[i]).0@ == path;
                assert(ta@[i].0@ == path);
                assert(a.spec_matches(path));
            }
            if a.wf() && a.spec_matches(path) {
                let ka = choose|i: int| 0 <= i < ta@.len() && (#[trigger] ta@[i]).0@ == path;
                let kb = choose|i: int| 0 <= i < tb@.len() && (#[trigger] tb@[i]).0@ == path;
                assert(tb@[ka].0@ == path);
                assert(0 <= kb < tb@.len() && tb@[kb].0@ == path);
                assert(ta@[kb].0@ == path);
                assert(ka == kb);
                crate::config::lemma_entries_equiv_symmetric(ta@[ka].1@, tb@[ka].1@);
            }
        },
        (Router::Pattern(pa), Router::Pattern(pb)) => {
            assert forall|i: int| 0 <= i < pa@.len() implies captures_of(
                (#[trigger] pa@[i]).pattern@,
                path,
            ) == captures_of(pb@[i].pattern@, path) by {
                assert(pa@[i].pattern@ == pb@[i].pattern@);
            }
            if a.wf() {
                assert forall|i: int| 0 <= i < pb@.len() implies (#[trigger] pb@[i]).routes.wf() by {
                    assert(pa@[i].routes.wf());
                    crate::config::lemma_entries_equiv_wf(&pa@[i].routes, &pb@[i].routes);
                }
                assert(b.wf());
            }
            if b.wf() {
                assert forall|i: int| 0 <= i < pa@.len() implies (#[trigger] pa@[i]).routes.wf() by {
                    assert(pb@[i].routes.wf());
                    crate::config::lemma_entries_equiv_wf(&pa@[i].routes, &pb@[i].routes);
                }
                assert(a.wf());
            }
            if a.spec_matches(path) {
                let i = choose|i: int|
                    0 <= i < pa@.len() && captures_of((#[trigger] pa@[i]).pattern@, path) is Some;
                assert(captures_of(pb@[i].pattern@, path) is Some);
                assert(b.spec_matches(path));
            }
            if b.spec_matches(path) {
                let i = choose|i: int|
                    0 <= i < pb@.len() && captures_of((#[trigger] pb@[i]).pattern@, path) is Some;
                assert(captures_of(pa@[i].pattern@, path) is Some);
                assert(a.spec_matches(path));
            }
            lemma_first_match_congruence(pa@, pb@, path);
            if a.spec_matches(path) {
                let k = first_pattern_match(pa@, path);
                lemma_first_pattern_exists(pa@, path);
                assert(pa@[k].pattern@ == pb@[k].pattern@);
                crate::config::lemma_entries_equiv_symmetric(pa@[k].routes@, pb@[k].routes@);
            }
        },
        _ => {},
    }
}

/// When some pattern matches, the first match lies in range and matches.
pub proof fn lemma_first_pattern_exists<H, M>(pats: Seq<RegexPath<H, M>>, path: Seq<char>)
    requires
        exists|i: int|
            0 <= i < pats.len() && captures_of((#[trigger] pats[i]).pattern@, path) is Some,
    ensures
        0 <= first_pattern_match(pats, path) < pats.len(),
        captures_of(pats[first_pattern_match(pats, path)].pattern@, path) is Some,
    decreases pats.len(),
{
    if pats.len() > 0 && !(captures_of(pats[0].pattern@, path) is Some) {
        let i = choose|i: int|
            0 <= i < pats.len() && captures_of((#[trigger] pats[i]).pattern@, path) is Some;
        assert(pats.drop_first()[i - 1] == pats[i]);
        lemma_first_pattern_exists(pats.drop_first(), path);
    }
}

impl<H: Copy, M: Copy> Router<H, M> {
    /// Duplicate this strategy for reuse on another connection or request:
    /// an equivalent value sharing no state with the original, so the two
    /// route alike (see `lemma_router_equiv_behavior`).
    pub fn duplicate(&self) -> (r: Router<H, M>)
        ensures
            router_equiv(self, &r),
    {
        match self {
            Router::Exact(table) => {
                let n = table.len();
                let mut out: Vec<(String, MethodMap<H, M>)> = Vec::new();
                let mut i: usize = 0;
                while i < n
                    invariant
                        self is Exact,
                        table == self->Exact_0,
                        n == table@.len(),
                        i <= n,
                        out@.len() == i,
                        forall|k: int|
                            0 <= k < i ==> (#[trigger] out@[k]).0@ == table@[k].0@
                                && entries_equiv(table@[k].1@, out@[k].1@),
                    decreases n - i,
                {
                    let path = table[i].0.as_str().to_string();
                    let map = table[i].1.duplicate();
                    out.push((path, map));
                    i += 1;
                }
                Router::Exact(out)
            },
            Router::Pattern(pats) => {
                let n = pats.len();
                let mut out: Vec<RegexPath<H, M>> = Vec::new();
                let mut i: usize = 0;
                while i < n
                    invariant
                        self is Pattern,
                        pats == self->Pattern_0,
                        n == pats@.len(),
                        i <= n,
                        out@.len() == i,
                        forall|k: int|
                            0 <= k < i ==> (#[trigger] out@[k]).pattern@ == pats@[k].pattern@
                                && entries_equiv(pats@[k].routes@, out@[k].routes@),
                    decreases n - i,
                {
                    let pattern = pats[i].pattern.as_str().to_string();
                    let routes = pats[i].routes.duplicate();
                    out.push(RegexPath { pattern, routes });
                    i += 1;
                }
                Router::Pattern(out)
            },
        }
    }

    /// Evaluate this strategy on one request. The request, body and bundle
    /// pass through; only a successful pattern match rewrites the request's
    /// path parameters. The returned map, when present, is the strategy's
    /// contribution for this path.
    pub fn route<Bd, B>(&self, path: &String, request: Request, body: Bd, bundle: B) -> (r: (
        Request,
        Bd,
        B,
        Option<MethodMap<H, M>>,
    ))
        requires
            self.wf(),
        ensures
            r.1 == body,
            r.2 == bundle,
            r.0.id == request.id,
            r.0.method == request.method,
            r.0.path == request.path,
            r.3 is Some <==> self.spec_matches(path@),
            r.3 is Some ==> entries_equiv(r.3->0@, self.spec_match_map(path@)@) && r.3->0.wf(),
            r.0.path_params.deep_view() == self.spec_params_after(
                path@,
                request.path_params.deep_view(),
            ),
    {
        match self {
            Router::Exact(table) => {
                let n = table.len();
                let mut i: usize = 0;
                while i < n
                    invariant
                        self.wf(),
                        self is Exact,
                        table == self->Exact_0,
                        n == table@.len(),
                        i <= n,
                        forall|j: int| 0 <= j < i ==> (#[trigger] table@[j]).0@ != path@,
                    decreases n - i,
                {
                    if table[i].0 == *path {
                        let map = table[i].1.duplicate();
                        proof {
                            let k = choose|k: int|
                                0 <= k < table@.len() && (#[trigger] table@[k]).0@ == path@;
                            assert(table@[i as int].0@ == path@);
                            assert(0 <= k < table@.len() && table@[k].0@ == path@);
                            assert(k == i as int);
                        }
                        return (request, body, bundle, Some(map));
                    }
                    i += 1;
                }
                (request, body, bundle, None)
            },
            Router::Pattern(pats) => {
                let n = pats.len();
                let mut i: usize = 0;
                while i < n
                    invariant
                        self.wf(),
                        self is Pattern,
                        pats == self->Pattern_0,
                        n == pats@.len(),
                        i <= n,
                        forall|j: int|
                            0 <= j < i ==> captures_of(
                                (#[trigger] pats@[j]).pattern@,
                                path@,
                            ) is None,
                    decreases n - i,
                {
                    let groups = regex_captures(&pats[i].pattern, path);
                    match groups {
                        Some(groups) => {
                            proof {
                                lemma_first_pattern_match_at(pats@, path@, i as int);
                            }
                            let map = pats[i].routes.duplicate();
                            let mut request = request;
                            request.path_params = groups;
                            return (request, body, bundle, Some(map));
                        },
                        None => {
                            i += 1;
                        },
                    }
                }
                (request, body, bundle, None)
            },
        }
    }
}

} // verus!
