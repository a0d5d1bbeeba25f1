use vstd::prelude::*;

verus! {

use crate::http::Method;
use crate::routing::Router;

/// One route: the handler that serves it and an optional middleware-chain
/// override. An explicitly empty override (`Some` of an empty chain) runs no
/// middleware at all; an absent override (`None`) defers to the server-level
/// global chain.
pub struct Route<H, M> {
    pub handler: H,
    pub middleware: Option<Vec<M>>,
}

/// Two routes agree: same handler, and middleware overrides that are both
/// absent or both present with the same steps.
pub open spec fn route_eq<H, M>(a: Route<H, M>, b: Route<H, M>) -> bool {
    &&& a.handler == b.handler
    &&& (a.middleware is Some <==> b.middleware is Some)
    &&& (a.middleware is Some ==> a.middleware->0@ == b.middleware->0@)
}

/// The route stored for `m` in an entry sequence: the first entry whose
/// method is `m`, if any.
pub open spec fn seq_get<H, M>(s: Seq<(Method, Route<H, M>)>, m: Method) -> Option<Route<H, M>>
    decreases s.len(),
{
    if s.len() == 0 {
        None
    } else if s[0].0 == m {
        Some(s[0].1)
    } else {
        seq_get(s.drop_first(), m)
    }
}

/// Entry sequences that agree pointwise: same methods in the same order,
/// equal routes in the sense of `route_eq`.
pub open spec fn entries_equiv<H, M>(
    a: Seq<(Method, Route<H, M>)>,
    b: Seq<(Method, Route<H, M>)>,
) -> bool {
    &&& a.len() == b.len()
    &&& forall|i: int|
        0 <= i < a.len() ==> (#[trigger] a[i]).0 == b[i].0 && route_eq(a[i].1, b[i].1)
}

/// A mapping from HTTP method to route, with unique method keys: the result
/// of a successful router match, and the value that router contributions are
/// merged into.
pub struct MethodMap<H, M> {
    entries: Vec<(Method, Route<H, M>)>,
}

impl<H, M> View for MethodMap<H, M> {
    type V = Seq<(Method, Route<H, M>)>;

    closed spec fn view(&self) -> Seq<(Method, Route<H, M>)> {
        self.entries@
    }
}

impl<H, M> MethodMap<H, M> {
    /// Method keys are unique.
    pub open spec fn wf(&self) -> bool {
        forall|i: int, j: int|
            0 <= i < j < self@.len() ==> (#[trigger] self@[i]).0 != (#[trigger] self@[j]).0
    }

    pub open spec fn spec_contains(&self, m: Method) -> bool {
        seq_get(self@, m) is Some
    }

    pub open spec fn spec_get(&self, m: Method) -> Route<H, M>
        recommends
            self.spec_contains(m),
    {
        seq_get(self@, m)->0
    }

    pub fn empty() -> (r: MethodMap<H, M>)
        ensures
            r@.len() == 0,
            r.wf(),
            forall|m: Method| !r.spec_contains(m),
    {
        MethodMap { entries: Vec::new() }
    }

    /// Check the unique-key invariant of a map built outside verified code.
    pub fn wf_check(&self) -> (r: bool)
        ensures
            r == self.wf(),
    {
        let n = self.entries.len();
        let mut i: usize = 0;
        while i < n
            invariant
                n == self.entries.len(),
                i <= n,
                self@ == self.entries@,
                forall|a: int, b: int|
                    0 <= a < b < n && a < i ==> (#[trigger] self@[a]).0 != (#[trigger] self@[b]).0,
            decreases n - i,
        {
            let mut j: usize = i + 1;
            while j < n
                invariant
                    n == self.entries.len(),
                    i < n,
                    i < j <= n,
                    self@ == self.entries@,
                    forall|b: int| i < b < j ==> (#[trigger] self@[b]).0 != self@[i as int].0,
                decreases n - j,
            {
                if self.entries[i].0 == self.entries[j].0 {
                    return false;
                }
                j += 1;
            }
            i += 1;
        }
        true
    }

    pub fn contains(&self, m: Method) -> (r: bool)
        ensures
            r == self.spec_contains(m),
    {
        let n = self.entries.len();
        let mut i: usize = 0;
        while i < n
            invariant
                n == self.entries.len(),
                i <= n,
                self@ == self.entries@,
                forall|j: int| 0 <= j < i ==> (#[trigger] self@[j]).0 != m,
            decreases n - i,
        {
            if self.entries[i].0 == m {
                proof {
                    lemma_seq_get_skip(self@, m, i as int);
                    assert(seq_get(self@.skip(i as int), m) is Some);
                }
                return true;
            }
            i += 1;
        }
        proof {
            lemma_seq_get_skip(self@, m, n as int);
            assert(self@.skip(n as int) =~= Seq::empty());
        }
        false
    }

    /// Look the method up; the returned route is the stored one.
    pub fn get(&self, m: Method) -> (r: Option<&Route<H, M>>)
        ensures
            r is Some <==> self.spec_contains(m),
            r is Some ==> *r->0 == self.spec_get(m),
    {
        let n = self.entries.len();
        let mut i: usize = 0;
        while i < n
            invariant
                n == self.entries.len(),
                i <= n,
                self@ == self.entries@,
                forall|j: int| 0 <= j < i ==> (#[trigger] self@[j]).0 != m,
            decreases n - i,
        {
            if self.entries[i].0 == m {
                proof {
                    lemma_seq_get_skip(self@, m, i as int);
                    assert(seq_get(self@.skip(i as int), m) == Some(self@[i as int].1));
                }
                return Some(&self.entries[i].1);
            }
            i += 1;
        }
        proof {
            lemma_seq_get_skip(self@, m, n as int);
            assert(self@.skip(n as int) =~= Seq::empty());
        }
        None
    }

    /// Insert a route for a method, replacing any route already stored for
    /// it, as the configuration-building step of the caller expects.
    pub fn insert(&mut self, m: Method, route: Route<H, M>)
        requires
            old(self).wf(),
        ensures
            final(self).wf(),
            final(self).spec_contains(m),
            final(self).spec_get(m) == route,
            forall|m2: Method|
                m2 != m ==> (#[trigger] final(self).spec_contains(m2) <==> old(self).spec_contains(m2)),
            forall|m2: Method|
                m2 != m && old(self).spec_contains(m2) ==> #[trigger] final(self).spec_get(m2)
                    == old(self).spec_get(m2),
    {
        let n = self.entries.len();
        let mut i: usize = 0;
        while i < n
            invariant
                old(self).wf(),
                n == self.entries.len(),
                i <= n,
                self@ == self.entries@,
                *self == *old(self),
                forall|j: int| 0 <= j < i ==> (#[trigger] self@[j]).0 != m,
            decreases n - i,
        {
            if self.entries[i].0 == m {
                self.entries.set(i, (m, route));
                proof {
                    lemma_seq_get_update(old(self)@, i as int, (m, route));
                    assert forall|m2: Method| m2 != m implies (#[trigger] seq_get(self@, m2))
                        == seq_get(old(self)@, m2) by {
                        lemma_seq_get_update(old(self)@, i as int, (m, route));
                    }
                }
                return ;
            }
            i += 1;
        }
        self.entries.push((m, route));
        proof {
            assert forall|m2: Method| true implies #[trigger] seq_get(self@, m2) == (if seq_get(
                old(self)@,
                m2,
            ) is Some {
                seq_get(old(self)@, m2)
            } else if m == m2 {
                Some(route)
            } else {
                None
            }) by {
                lemma_seq_get_push(old(self)@, (m, route), m2);
            }
            lemma_seq_get_skip(old(self)@, m, n as int);
            assert(old(self)@.skip(n as int) =~= Seq::empty());
        }
    }

    /// Merge another map into this one: a method already present keeps its
    /// route, a method only the other map holds is adopted with the other
    /// map's route. First claim wins.
    pub fn merge_absent(&mut self, other: MethodMap<H, M>)
        requires
            old(self).wf(),
            other.wf(),
        ensures
            final(self).wf(),
            forall|m: Method|
                #[trigger] seq_get(old(self)@, m) is Some ==> seq_get(final(self)@, m) == seq_get(
                    old(self)@,
                    m,
                ),
            forall|m: Method|
                seq_get(old(self)@, m) is None && #[trigger] seq_get(other@, m) is Some
                    ==> seq_get(final(self)@, m) == seq_get(other@, m),
            forall|m: Method|
                #[trigger] seq_get(final(self)@, m) is Some ==> seq_get(old(self)@, m) is Some
                    || seq_get(other@, m) is Some,
    {
        let ghost orig = other@;
        let mut rest = other;
        while rest.entries.len() > 0
            invariant
                self.wf(),
                self@ == self.entries@,
                rest@ == rest.entries@,
                rest@.len() <= orig.len(),
                rest@ == orig.take(rest@.len() as int),
                forall|i: int, j: int|
                    0 <= i < j < orig.len() ==> (#[trigger] orig[i]).0 != (#[trigger] orig[j]).0,
                forall|m: Method|
                    #[trigger] seq_get(old(self)@, m) is Some ==> seq_get(self@, m) == seq_get(
                        old(self)@,
                        m,
                    ),
                forall|m: Method|
                    #[trigger] seq_get(self@, m) is Some && seq_get(old(self)@, m) is None
                        ==> seq_get(orig, m) is Some && seq_get(rest@, m) is None && seq_get(
                        self@,
                        m,
                    ) == seq_get(orig, m),
                forall|m: Method|
                    seq_get(old(self)@, m) is None && #[trigger] seq_get(orig, m) is Some
                        && seq_get(rest@, m) is None ==> seq_get(self@, m) is Some,
            decreases rest@.len(),
        {
            let ghost k = rest@.len() as int;
            let ghost before = rest@;
            let (m, route) = rest.entries.pop().unwrap();
            proof {
                assert(orig.take(k)[k - 1] == orig[k - 1]);
                lemma_seq_get_take_last(orig, k, m);
                assert(before =~= rest@.push((m, route)));
                assert forall|m2: Method| m2 != m implies #[trigger] seq_get(rest@, m2) == seq_get(
                    before,
                    m2,
                ) by {
                    lemma_seq_get_push(rest@, (m, route), m2);
                }
                assert(seq_get(rest@, m) is None);
                assert(seq_get(before, m) is Some) by {
                    lemma_seq_get_push(rest@, (m, route), m);
                }
            }
            let already = self.contains(m);
            if !already {
                let ghost pre = *self;
                self.entries.push((m, route));
                proof {
                    assert forall|m2: Method| true implies #[trigger] seq_get(self@, m2) == (
                    if seq_get(pre@, m2) is Some {
                        seq_get(pre@, m2)
                    } else if m == m2 {
                        Some(route)
                    } else {
                        None
                    }) by {
                        lemma_seq_get_push(pre@, (m, route), m2);
                    }
                    assert forall|i: int, j: int|
                        0 <= i < j < self@.len() implies (#[trigger] self@[i]).0 != (
                    #[trigger] self@[j]).0 by {
                        if j == self@.len() - 1 {
                            lemma_seq_get_skip(pre@, pre@[i].0, i);
                            assert(seq_get(pre@.skip(i), pre@[i].0) is Some);
                        }
                    }
                    assert(self.spec_get(m) == route && route == seq_get(orig, m)->0);
                }
            } else {
                proof {
                    // The popped method was already present: it must come
                    // from the caller's map, since the processed part of
                    // `other` never held it before this step.
                    if !old(self).spec_contains(m) {
                        assert(seq_get(before, m) is None);
                        assert(false);
                    }
                }
            }
        }
        proof {
            assert(rest@ =~= Seq::<(Method, Route<H, M>)>::empty());
            assert forall|m: Method|
                seq_get(old(self)@, m) is None && #[trigger] seq_get(orig, m)
                    is Some implies seq_get(self@, m) == seq_get(orig, m) by {
                assert(seq_get(rest@, m) is None);
            }
        }
    }
}

/// `seq_get` looks past a prefix that does not hold the method.
pub proof fn lemma_seq_get_skip<H, M>(s: Seq<(Method, Route<H, M>)>, m: Method, i: int)
    requires
        0 <= i <= s.len(),
        forall|j: int| 0 <= j < i ==> (#[trigger] s[j]).0 != m,
    ensures
        seq_get(s, m) == seq_get(s.skip(i), m),
    decreases i,
{
    if i > 0 {
        assert(s.drop_first() =~= s.skip(1));
        assert(s.skip(1).skip(i - 1) =~= s.skip(i));
        lemma_seq_get_skip(s.drop_first(), m, i - 1);
    } else {
        assert(s.skip(0) =~= s);
    }
}

/// Appending an entry changes `seq_get` only for a method not yet present.
pub proof fn lemma_seq_get_push<H, M>(
    s: Seq<(Method, Route<H, M>)>,
    x: (Method, Route<H, M>),
    m: Method,
)
    ensures
        seq_get(s.push(x), m) == (if seq_get(s, m) is Some {
            seq_get(s, m)
        } else if x.0 == m {
            Some(x.1)
        } else {
            None
        }),
    decreases s.len(),
{
    if s.len() == 0 {
        assert(seq_get(s, m) is None);
        assert(s.push(x)[0] == x);
        if x.0 == m {
            assert(seq_get(s.push(x), m) == Some(x.1));
        } else {
            assert(s.push(x).drop_first() =~= Seq::<(Method, Route<H, M>)>::empty());
            assert(seq_get(s.push(x), m) == seq_get(s.push(x).drop_first(), m));
            assert(seq_get(s.push(x), m) is None);
        }
    } else {
        assert(s.push(x)[0] == s[0]);
        lemma_seq_get_push(s.drop_first(), x, m);
        if s[0].0 == m {
            assert(seq_get(s.push(x), m) == Some(s[0].1));
            assert(seq_get(s, m) == Some(s[0].1));
        } else {
            assert(s.push(x).drop_first() =~= s.drop_first().push(x));
            assert(seq_get(s.push(x), m) == seq_get(s.drop_first().push(x), m));
            assert(seq_get(s, m) == seq_get(s.drop_first(), m));
        }
    }
}

/// Updating the first entry that holds a method replaces exactly that
/// method's route.
pub proof fn lemma_seq_get_update<H, M>(
    s: Seq<(Method, Route<H, M>)>,
    i: int,
    x: (Method, Route<H, M>),
)
    requires
        0 <= i < s.len(),
        forall|j: int| 0 <= j < i ==> (#[trigger] s[j]).0 != x.0,
        s[i].0 == x.0,
    ensures
        seq_get(s.update(i, x), x.0) == Some(x.1),
        forall|m: Method| m != x.0 ==> #[trigger] seq_get(s.update(i, x), m) == seq_get(s, m),
    decreases i,
{
    let t = s.update(i, x);
    if i == 0 {
        assert(t[0] == x);
        assert(t.drop_first() =~= s.drop_first());
        assert forall|m: Method| m != x.0 implies #[trigger] seq_get(t, m) == seq_get(s, m) by {
            assert(s[0].0 == x.0);
            assert(seq_get(t, m) == seq_get(t.drop_first(), m));
            assert(seq_get(s, m) == seq_get(s.drop_first(), m));
        }
    } else {
        assert(t[0] == s[0]);
        assert(s[0].0 != x.0);
        assert(t.drop_first() =~= s.drop_first().update(i - 1, x));
        lemma_seq_get_update(s.drop_first(), i - 1, x);
        assert(seq_get(t, x.0) == seq_get(s.drop_first().update(i - 1, x), x.0));
        assert forall|m: Method| m != x.0 implies #[trigger] seq_get(t, m) == seq_get(s, m) by {
            if s[0].0 != m {
                assert(seq_get(t, m) == seq_get(s.drop_first().update(i - 1, x), m));
                assert(seq_get(s.drop_first().update(i - 1, x), m) == seq_get(s.drop_first(), m));
                assert(seq_get(s, m) == seq_get(s.drop_first(), m));
            }
        }
    }
}

/// In a unique-key sequence, the last entry of a prefix is found by
/// `seq_get` over the whole sequence.
pub proof fn lemma_seq_get_take_last<H, M>(s: Seq<(Method, Route<H, M>)>, k: int, m: Method)
    requires
        0 < k <= s.len(),
        forall|i: int, j: int| 0 <= i < j < s.len() ==> (#[trigger] s[i]).0 != (#[trigger] s[j]).0,
        s.take(k)[k - 1].0 == m,
    ensures
        seq_get(s, m) == Some(s[k - 1].1),
        seq_get(s.take(k).drop_last(), m) is None,
        s.take(k).drop_last() =~= s.take(k - 1),
        seq_get(s.take(k), m) == Some(s[k - 1].1),
{
    assert(s.take(k)[k - 1] == s[k - 1]);
    assert(forall|j: int| 0 <= j < k - 1 ==> (#[trigger] s[j]).0 != m);
    lemma_seq_get_skip(s, m, k - 1);
    assert(s.skip(k - 1)[0] == s[k - 1]);
    assert(seq_get(s.skip(k - 1), m) == Some(s[k - 1].1));
    assert(s.take(k).drop_last() =~= s.take(k - 1));
    assert(forall|j: int| 0 <= j < k - 1 ==> (#[trigger] s.take(k - 1)[j]).0 != m);
    lemma_seq_get_skip(s.take(k - 1), m, k - 1);
    assert(s.take(k - 1).skip(k - 1) =~= Seq::empty());
    assert(forall|j: int| 0 <= j < k - 1 ==> (#[trigger] s.take(k)[j]).0 != m);
    lemma_seq_get_skip(s.take(k), m, k - 1);
    assert(s.take(k).skip(k - 1)[0] == s[k - 1]);
    assert(seq_get(s.take(k).skip(k - 1), m) == Some(s[k - 1].1));
}

/// Entry-sequence equivalence is symmetric.
pub proof fn lemma_entries_equiv_symmetric<H, M>(
    a: Seq<(Method, Route<H, M>)>,
    b: Seq<(Method, Route<H, M>)>,
)
    requires
        entries_equiv(a, b),
    ensures
        entries_equiv(b, a),
{
    assert forall|i: int| 0 <= i < b.len() implies (#[trigger] b[i]).0 == a[i].0 && route_eq(
        b[i].1,
        a[i].1,
    ) by {
        assert(a[i].0 == b[i].0 && route_eq(a[i].1, b[i].1));
    }
}

/// Pointwise-equivalent entry sequences agree on key uniqueness.
pub proof fn lemma_entries_equiv_wf<H, M>(a: &MethodMap<H, M>, b: &MethodMap<H, M>)
    requires
        entries_equiv(a@, b@),
    ensures
        a.wf() == b.wf(),
{
    assert forall|i: int| 0 <= i < a@.len() implies (#[trigger] a@[i]).0 == b@[i].0 by {}
    if a.wf() {
        assert forall|i: int, j: int| 0 <= i < j < b@.len() implies (#[trigger] b@[i]).0 != (
        #[trigger] b@[j]).0 by {
            assert(a@[i].0 != a@[j].0);
        }
    }
    if b.wf() {
        assert forall|i: int, j: int| 0 <= i < j < a@.len() implies (#[trigger] a@[i]).0 != (
        #[trigger] a@[j]).0 by {
            assert(b@[i].0 != b@[j].0);
        }
    }
}

/// Pointwise-equivalent entry sequences answer `seq_get` equivalently.
pub proof fn lemma_seq_get_equiv<H, M>(
    a: Seq<(Method, Route<H, M>)>,
    b: Seq<(Method, Route<H, M>)>,
    m: Method,
)
    requires
        entries_equiv(a, b),
    ensures
        seq_get(a, m) is Some <==> seq_get(b, m) is Some,
        seq_get(a, m) is Some ==> route_eq(seq_get(a, m)->0, seq_get(b, m)->0),
    decreases a.len(),
{
    if a.len() > 0 {
        assert(a[0].0 == b[0].0 && route_eq(a[0].1, b[0].1));
        assert(entries_equiv(a.drop_first(), b.drop_first()));
        lemma_seq_get_equiv(a.drop_first(), b.drop_first(), m);
    }
}

/// An element-for-element copy of a vector of plain values.
pub fn copy_vec<T: Copy>(v: &Vec<T>) -> (r: Vec<T>)
    ensures
        r@ == v@,
{
    let mut r: Vec<T> = Vec::new();
    let n = v.len();
    let mut i: usize = 0;
    while i < n
        invariant
            n == v@.len(),
            i <= n,
            r@ =~= v@.take(i as int),
        decreases n - i,
    {
        r.push(v[i]);
        i += 1;
    }
    proof {
        assert(r@ =~= v@);
    }
    r
}

/// A copy of a route: the same handler, and the same middleware override
/// step for step.
pub fn copy_route<H: Copy, M: Copy>(r: &Route<H, M>) -> (out: Route<H, M>)
    ensures
        route_eq(out, *r),
{
    match &r.middleware {
        None => Route { handler: r.handler, middleware: None },
        Some(chain) => Route { handler: r.handler, middleware: Some(copy_vec(chain)) },
    }
}

impl<H: Copy, M: Copy> MethodMap<H, M> {
    /// An entry-for-entry copy, equivalent to the original.
    pub fn duplicate(&self) -> (r: MethodMap<H, M>)
        ensures
            entries_equiv(r@, self@),
            self.wf() ==> r.wf(),
    {
        let mut entries: Vec<(Method, Route<H, M>)> = Vec::new();
        let n = self.entries.len();
        let mut i: usize = 0;
        while i < n
            invariant
                n == self@.len(),
                self@ == self.entries@,
                i <= n,
                entries@.len() == i,
                forall|k: int|
                    0 <= k < i ==> (#[trigger] entries@[k]).0 == self@[k].0 && route_eq(
                        entries@[k].1,
                        self@[k].1,
                    ),
            decreases n - i,
        {
            let route = copy_route(&self.entries[i].1);
            entries.push((self.entries[i].0, route));
            i += 1;
        }
        MethodMap { entries }
    }
}

/// A pattern route: the pattern text evaluated against the request path, and
/// the method map served when the pattern matches. The pattern is compiled
/// by the matching step itself; a pattern that does not compile matches no
/// path.
pub struct RegexPath<H, M> {
    pub pattern: String,
    pub routes: MethodMap<H, M>,
}

/// The immutable server configuration: router strategies in evaluation
/// order, the server-level global middleware chain, and the listen address
/// in textual form for the server shell to bind.
pub struct OldWebFrameworkConfig<H, M> {
    pub routers: Vec<Router<H, M>>,
    pub middleware: Vec<M>,
    pub listen_addr: String,
}

impl<H, M> OldWebFrameworkConfig<H, M> {
    pub open spec fn wf(&self) -> bool {
        forall|i: int| 0 <= i < self.routers@.len() ==> (#[trigger] self.routers@[i]).wf()
    }

    /// Duplicate the configuration for a new connection: equivalent
    /// routers, the same global chain and listen address, sharing no state
    /// with the original (see `lemma_config_equiv_dispatch` for the
    /// guarantee that the copy dispatches alike).
    pub fn duplicate(&self) -> (r: OldWebFrameworkConfig<H, M>)
        where
            H: Copy,
            M: Copy,
        ensures
            r.routers@.len() == self.routers@.len(),
            forall|i: int|
                0 <= i < self.routers@.len() ==> crate::routing::router_equiv(
                    &self.routers@[i],
                    &(#[trigger] r.routers@[i]),
                ),
            r.middleware@ == self.middleware@,
            r.listen_addr@ == self.listen_addr@,
            self.wf() ==> r.wf(),
    {
        let n = self.routers.len();
        let mut routers: Vec<Router<H, M>> = Vec::new();
        let mut i: usize = 0;
        while i < n
            invariant
                n == self.routers@.len(),
                i <= n,
                routers@.len() == i,
                forall|k: int|
                    0 <= k < i ==> crate::routing::router_equiv(
                        &self.routers@[k],
                        &(#[trigger] routers@[k]),
                    ),
            decreases n - i,
        {
            let copy = self.routers[i].duplicate();
            routers.push(copy);
            i += 1;
        }
        let r = OldWebFrameworkConfig {
            routers,
            middleware: copy_vec(&self.middleware),
            listen_addr: self.listen_addr.as_str().to_string(),
        };
        proof {
            if self.wf() {
                assert forall|k: int| 0 <= k < r.routers@.len() implies (
                #[trigger] r.routers@[k]).wf() by {
                    crate::routing::lemma_router_equiv_behavior(
                        &self.routers@[k],
                        &r.routers@[k],
                        Seq::empty(),
                        Seq::empty(),
                    );
                }
            }
        }
        r
    }

    /// Check the invariants of a configuration built outside verified code:
    /// every router strategy well-formed.
    pub fn wf_check(&self) -> (r: bool)
        ensures
            r == self.wf(),
    {
        let n = self.routers.len();
        let mut i: usize = 0;
        while i < n
            invariant
                n == self.routers@.len(),
                i <= n,
                forall|j: int| 0 <= j < i ==> (#[trigger] self.routers@[j]).wf(),
            decreases n - i,
        {
            if !self.routers[i].wf_check() {
                return false;
            }
            i += 1;
        }
        true
    }
}

} // verus!
