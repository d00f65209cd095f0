//! The route table: compiled patterns, each with its per-method handlers,
//! resolved against incoming requests in registration order.

use vstd::prelude::*;

use crate::compile::{pair_firsts, pair_seconds, Path, RouterError};
use crate::context::{pair_lookup, Context, VAR_SCOPE};
use crate::status::Status;
use crate::matching::{is_split, toks_match};
use crate::method::Method;
use crate::path::{standardize_path, standardized};
use crate::pattern::{tok_views, TokView};

verus! {

/// One registration unit: the methods it serves and its handler.
#[derive(Clone)]
pub struct Gate<H> {
    /// The methods this gate answers.
    pub methods: Vec<Method>,
    /// The handler run for those methods.
    pub handler: H,
}

/// A registered route: a compiled pattern and its gates, in registration
/// order. A later gate for the same method wins.
#[derive(Clone)]
pub struct RouteEntry<H> {
    /// The compiled pattern.
    pub pattern: Path,
    /// The registrations made against this pattern.
    pub gates: Vec<Gate<H>>,
}

/// A route table: entries in registration order. The first entry whose
/// pattern matches a path decides the route, whatever comes later.
#[derive(Clone)]
pub struct RouteTable<H> {
    /// The registered routes.
    pub entries: Vec<RouteEntry<H>>,
}

/// What resolving a request yields: a handler with the captured
/// variables, a path nobody registered, or a path whose entry serves
/// other methods (carrying exactly the methods it serves).
pub enum RouteOutcome<'a, H> {
    Matched(&'a H, Vec<(String, String)>),
    PathNotFound,
    MethodNotAllowed(Vec<Method>),
}

/// A token with its capture name erased: what two templates must share to
/// count as the same route shape.
pub open spec fn erase_name(tok: TokView) -> TokView {
    match tok {
        TokView::Lit(cs) => TokView::Lit(cs),
        TokView::Seg(_) => TokView::Seg(Seq::empty()),
        TokView::Tail(_) => TokView::Tail(Seq::empty()),
    }
}

/// The shape of a pattern: its literals and capture kinds, names erased.
pub open spec fn shape_of(toks: Seq<TokView>) -> Seq<TokView> {
    toks.map_values(|t: TokView| erase_name(t))
}

/// Whether a path matches a compiled pattern.
pub open spec fn pattern_matches(p: &Path, path: Seq<char>) -> bool {
    match p {
        Path::Static(s) => path == s@,
        Path::Dynamic(d) => toks_match(d.toks_view(), path),
    }
}

/// Whether two compiled patterns describe the same route shape.
pub open spec fn same_shape(a: &Path, b: &Path) -> bool {
    match (a, b) {
        (Path::Static(s1), Path::Static(s2)) => s1@ == s2@,
        (Path::Dynamic(d1), Path::Dynamic(d2)) => shape_of(d1.toks_view()) == shape_of(
            d2.toks_view(),
        ),
        _ => false,
    }
}

/// Whether two compiled patterns are the same, names included.
pub open spec fn same_pattern(a: &Path, b: &Path) -> bool {
    match (a, b) {
        (Path::Static(s1), Path::Static(s2)) => s1@ == s2@,
        (Path::Dynamic(d1), Path::Dynamic(d2)) => d1.toks_view() == d2.toks_view(),
        _ => false,
    }
}

/// The handler of the latest gate that serves `m`, if any.
pub open spec fn gate_handler<H>(gates: Seq<Gate<H>>, m: Method) -> Option<H>
    decreases gates.len(),
{
    if gates.len() == 0 {
        None
    } else if gates.last().methods@.contains(m) {
        Some(gates.last().handler)
    } else {
        gate_handler(gates.drop_last(), m)
    }
}

/// Whether any gate serves `m`.
pub open spec fn method_in_gates<H>(gates: Seq<Gate<H>>, m: Method) -> bool {
    exists|i: int| 0 <= i < gates.len() && (#[trigger] gates[i]).methods@.contains(m)
}

/// Whether registering the template `t` against `p` would be a duplicate
/// route: the same shape under different capture names.
pub open spec fn shape_conflict(p: &Path, t: Seq<char>) -> bool {
    match p {
        Path::Dynamic(d) => shape_of(d.toks_view()) == shape_of(crate::pattern::template_toks(t))
            && d.toks_view() != crate::pattern::template_toks(t),
        Path::Static(_) => false,
    }
}

/// The position of the first entry whose pattern matches `p` (or the
/// number of entries when none does).
pub open spec fn match_index<H>(es: Seq<RouteEntry<H>>, p: Seq<char>) -> int
    decreases es.len(),
{
    if es.len() == 0 {
        0
    } else if pattern_matches(&es[0].pattern, p) {
        0
    } else {
        1 + match_index(es.drop_first(), p)
    }
}

/// All patterns of the table are well formed.
pub open spec fn table_wf<H>(es: Seq<RouteEntry<H>>) -> bool {
    forall|i: int| 0 <= i < es.len() ==> (#[trigger] es[i]).pattern.wf()
}

proof fn lemma_match_index_at<H>(es: Seq<RouteEntry<H>>, p: Seq<char>, i: int)
    requires
        0 <= i <= es.len(),
        forall|k: int| 0 <= k < i ==> !pattern_matches(&(#[trigger] es[k]).pattern, p),
        i < es.len() ==> pattern_matches(&es[i].pattern, p),
    ensures
        match_index(es, p) == i,
    decreases i,
{
    if i == 0 {
        if es.len() > 0 && !pattern_matches(&es[0].pattern, p) {
            // only reachable when the table is empty
            assert(es.len() == 0 || pattern_matches(&es[0].pattern, p));
        }
    } else {
        assert(!pattern_matches(&es[0].pattern, p));
        let d = es.drop_first();
        assert forall|k: int| 0 <= k < i - 1 implies !pattern_matches(
            &(#[trigger] d[k]).pattern,
            p,
        ) by {
            assert(d[k] == es[k + 1]);
        }
        if i - 1 < d.len() {
            assert(d[i - 1] == es[i]);
        }
        lemma_match_index_at(d, p, i - 1);
    }
}

proof fn lemma_gate_handler_none<H>(gates: Seq<Gate<H>>, m: Method)
    ensures
        gate_handler(gates, m) is None <==> !method_in_gates(gates, m),
    decreases gates.len(),
{
    if gates.len() > 0 {
        lemma_gate_handler_none(gates.drop_last(), m);
        let d = gates.drop_last();
        if gate_handler(gates, m) is None {
            assert forall|i: int|
                0 <= i < gates.len() implies !(#[trigger] gates[i]).methods@.contains(m) by {
                if i < gates.len() - 1 {
                    assert(d[i] == gates[i]);
                }
            }
        } else {
            if !gates.last().methods@.contains(m) {
                assert(method_in_gates(d, m));
                let i = choose|i: int| 0 <= i < d.len() && (#[trigger] d[i]).methods@.contains(m);
                assert(gates[i] == d[i]);
                assert(method_in_gates(gates, m));
            } else {
                assert(gates[gates.len() - 1].methods@.contains(m));
            }
        }
    }
}

/// Whether `ms` holds `m`.
fn methods_contain(ms: &Vec<Method>, m: Method) -> (r: bool)
    ensures
        r == ms@.contains(m),
{
    let n = ms.len();
    let mut i: usize = 0;
    while i < n
        invariant
            0 <= i <= n == ms@.len(),
            forall|k: int| 0 <= k < i ==> ms@[k] != m,
        decreases n - i,
    {
        if ms[i] == m {
            return true;
        }
        i = i + 1;
    }
    proof {
        if ms@.contains(m) {
            let k = choose|k: int| 0 <= k < ms@.len() && ms@[k] == m;
            assert(ms@[k] != m);
        }
    }
    false
}

impl<H> RouteTable<H> {
    /// An empty route table.
    pub fn new() -> (r: RouteTable<H>)
        ensures
            r.entries@.len() == 0,
    {
        RouteTable { entries: Vec::new() }
    }

    /// The table's well-formedness: every registered pattern is as
    /// `Path::parse` built it.
    pub open spec fn wf(&self) -> bool {
        table_wf(self.entries@)
    }

    /// Registers a template for a set of methods. The template is
    /// compiled; a fresh shape appends an entry, the identical pattern
    /// appends a gate to its entry (so that a later registration for the
    /// same method wins), and a pattern of the same shape but different
    /// capture names is refused as a duplicate route.
    pub fn register(&mut self, template: &str, methods: Vec<Method>, handler: H) -> (r: Result<
        (),
        RouterError,
    >)
        requires
            old(self).wf(),
        ensures
            table_wf(final(self).entries@),
            ({
                let names = crate::pattern::cap_names(
                    crate::pattern::template_toks(standardized(template@)),
                );
                match r {
                    Ok(()) => {
                        let es = final(self).entries@;
                        let old_es = old(self).entries@;
                        &&& names.no_duplicates()
                        &&& forall|i: int| 0 <= i < names.len() ==> (#[trigger] names[i]).len() > 0
                        &&& {
                            ||| (es.len() == old_es.len() + 1 && es.take(old_es.len() as int)
                                == old_es && es.last().pattern.raw_view() == standardized(
                                template@,
                            ) && es.last().gates@.len() == 1 && es.last().gates@[0].methods@
                                == methods@ && es.last().gates@[0].handler == handler && (forall|
                                j: int,
                            |
                                0 <= j < old_es.len() ==> !same_shape(
                                    &(#[trigger] old_es[j]).pattern,
                                    &es.last().pattern,
                                )))
                            ||| (exists|j: int|
                                0 <= j < es.len() && es.len() == old_es.len() && (
                                #[trigger] es[j]).gates@ == old_es[j].gates@.push(
                                    Gate { methods: methods, handler: handler },
                                ) && same_pattern(&es[j].pattern, &old_es[j].pattern) && (forall|
                                    k: int,
                                |
                                    0 <= k < es.len() && k != j ==> #[trigger] es[k]
                                        == old_es[k]))
                        }
                    },
                    Err(RouterError::MissingVariable(_)) => *final(self) == *old(self) && exists|
                        i: int,
                    | 0 <= i < names.len() && (#[trigger] names[i]).len() == 0,
                    Err(RouterError::DuplicateVariable(_, _)) => *final(self) == *old(self)
                        && !names.no_duplicates(),
                    Err(RouterError::ConflictPath(ex, fresh)) => *final(self) == *old(self)
                        && fresh@ == standardized(template@) && exists|j: int|
                        0 <= j < old(self).entries@.len() && shape_conflict(
                            &(#[trigger] old(self).entries@[j]).pattern,
                            standardized(template@),
                        ) && old(self).entries@[j].pattern.raw_view() == ex@,
                }
            }),
    {
        let pat = match Path::parse(template) {
            Ok(p) => p,
            Err(e) => {
                return Err(e);
            },
        };
        let n = self.entries.len();
        let mut i: usize = 0;
        while i < n
            invariant
                0 <= i <= n == self.entries@.len(),
                self == old(self),
                table_wf(self.entries@),
                pat.wf(),
                pat.raw_view() == standardized(template@),
                ({
                    let names = crate::pattern::cap_names(
                        crate::pattern::template_toks(standardized(template@)),
                    );
                    names.no_duplicates() && (forall|k: int|
                        0 <= k < names.len() ==> (#[trigger] names[k]).len() > 0)
                }),
                forall|k: int|
                    0 <= k < i ==> !same_shape(&(#[trigger] self.entries@[k]).pattern, &pat),
            decreases n - i,
        {
            let (shape_eq, full_eq) = pattern_cmp(&self.entries[i].pattern, &pat);
            if shape_eq {
                if full_eq {
                    let ghost old_es = self.entries@;
                    let gate = Gate { methods, handler };
                    let mut entry = self.entries.remove(i);
                    let ghost old_gates = entry.gates@;
                    entry.gates.push(gate);
                    self.entries.insert(i, entry);
                    proof {
                        let es = self.entries@;
                        assert(es =~= old_es.update(i as int, es[i as int]));
                        assert(es[i as int].gates@ == old_es[i as int].gates@.push(
                            Gate { methods: methods, handler: handler },
                        ));
                        assert(same_pattern(&es[i as int].pattern, &old_es[i as int].pattern));
                        assert forall|k: int|
                            0 <= k < es.len() && k != i as int implies #[trigger] es[k]
                            == old_es[k] by {
                        }
                        assert forall|k: int|
                            0 <= k < es.len() implies (#[trigger] es[k]).pattern.wf() by {
                            if k != i as int {
                                assert(es[k] == old_es[k]);
                            } else {
                                assert(es[k].pattern == old_es[k].pattern);
                            }
                        }
                    }
                    return Ok(());
                } else {
                    let existing = self.entries[i].pattern.raw().to_owned();
                    let fresh = pat.raw().to_owned();
                    return Err(RouterError::ConflictPath(existing, fresh));
                }
            }
            i = i + 1;
        }
        let ghost old_es = self.entries@;
        let entry = RouteEntry { pattern: pat, gates: vec![Gate { methods, handler }] };
        self.entries.push(entry);
        proof {
            assert forall|k: int|
                0 <= k < self.entries@.len() implies (#[trigger] self.entries@[k]).pattern.wf() by {
                if k < old_es.len() {
                    assert(self.entries@[k] == old_es[k]);
                }
            }
            assert(self.entries@.take(old_es.len() as int) =~= old_es);
        }
        Ok(())
    }

    /// Resolves a request: the first registered pattern that matches the
    /// standardized path decides; within it, the latest gate for the
    /// method supplies the handler; a matching pattern without the method
    /// reports the methods it does serve; no match at all is a missing
    /// path.
    pub fn resolve(&self, method: Method, path: &str) -> (r: RouteOutcome<'_, H>)
        requires
            self.wf(),
        ensures
            ({
                let p = standardized(path@);
                let es = self.entries@;
                let mi = match_index(es, p);
                match r {
                    RouteOutcome::PathNotFound => mi == es.len(),
                    RouteOutcome::Matched(h, caps) => {
                        &&& mi < es.len()
                        &&& gate_handler(es[mi].gates@, method) == Some(*h)
                        &&& match es[mi].pattern {
                            Path::Static(_) => caps@.len() == 0,
                            Path::Dynamic(d) => pair_firsts(caps.deep_view()) == d.vars.deep_view()
                                && is_split(d.toks_view(), p, pair_seconds(caps.deep_view())),
                        }
                    },
                    RouteOutcome::MethodNotAllowed(ms) => {
                        &&& mi < es.len()
                        &&& gate_handler(es[mi].gates@, method) is None
                        &&& ms@.no_duplicates()
                        &&& forall|m: Method|
                            ms@.contains(m) <==> method_in_gates(es[mi].gates@, m)
                    },
                }
            }),
    {
        let std_path = standardize_path(path);
        let ghost p = std_path@;
        let n = self.entries.len();
        let mut i: usize = 0;
        while i < n
            invariant
                0 <= i <= n == self.entries@.len(),
                self.wf(),
                p == standardized(path@),
                p == std_path@,
                forall|k: int|
                    0 <= k < i ==> !pattern_matches(&(#[trigger] self.entries@[k]).pattern, p),
            decreases n - i,
        {
            let entry = &self.entries[i];
            proof {
                assert(entry.pattern.wf());
            }
            match entry.pattern.matches(std_path.as_str()) {
                Some(caps) => {
                    proof {
                        assert(pattern_matches(&entry.pattern, p));
                        lemma_match_index_at(self.entries@, p, i as int);
                    }
                    match find_gate_handler(&entry.gates, method) {
                        Some(h) => {
                            return RouteOutcome::Matched(h, caps);
                        },
                        None => {
                            proof {
                                lemma_gate_handler_none(entry.gates@, method);
                            }
                            let ms = allowed_methods(&entry.gates);
                            return RouteOutcome::MethodNotAllowed(ms);
                        },
                    }
                },
                None => {
                    proof {
                        assert(!pattern_matches(&entry.pattern, p));
                    }
                },
            }
            i = i + 1;
        }
        proof {
            lemma_match_index_at(self.entries@, p, n as int);
        }
        RouteOutcome::PathNotFound
    }
}

/// A request handler bound to a route: the endpoint the router selects
/// once pattern and method agree.
pub trait Handler<S> {
    /// Handles the request whose captured variables already sit in the
    /// context's store.
    fn call(&self, ctx: &mut Context<S>) -> Result<(), Status>;
}

/// How a capture write changes a context: the variable scope now reads
/// the pairs (a later pair winning), and nothing else moved.
pub open spec fn captures_stored<S>(
    pre: Context<S>,
    post: Context<S>,
    pairs: Seq<(Seq<char>, Seq<char>)>,
) -> bool {
    &&& post.request == pre.request
    &&& post.response == pre.response
    &&& post.state == pre.state
    &&& forall|k: Seq<char>|
        post.loaded(VAR_SCOPE, k) == (match pair_lookup(pairs, k) {
            Some(v) => Some(v),
            None => pre.loaded(VAR_SCOPE, k),
        })
    &&& forall|sc: u64, k: Seq<char>|
        sc != VAR_SCOPE ==> post.loaded(sc, k) == pre.loaded(sc, k)
}

/// The capture pairs a matched pattern yields for a path: none for a
/// static pattern; for a dynamic one, the pattern's variable names paired
/// with values that split the path.
pub open spec fn captures_match(p: &Path, path: Seq<char>, pairs: Seq<(Seq<char>, Seq<char>)>) -> bool {
    match p {
        Path::Static(_) => pairs.len() == 0,
        Path::Dynamic(d) => pair_firsts(pairs) == d.vars.deep_view() && is_split(
            d.toks_view(),
            path,
            pair_seconds(pairs),
        ),
    }
}

/// Writes captured path variables into the variable scope of the store,
/// in order, so that for each name the last pair wins; nothing else
/// changes.
pub fn store_captures<S>(ctx: &mut Context<S>, caps: &Vec<(String, String)>)
    ensures
        captures_stored(*old(ctx), *final(ctx), caps.deep_view()),
{
    let ghost ps = caps.deep_view();
    let n = caps.len();
    let mut i: usize = 0;
    proof {
        assert(ps.take(0) =~= Seq::<(Seq<char>, Seq<char>)>::empty());
        assert(ps.len() == caps@.len());
    }
    while i < n
        invariant
            0 <= i <= n == caps@.len(),
            caps.deep_view() == ps,
            ps.len() == n,
            ctx.request == old(ctx).request,
            ctx.response == old(ctx).response,
            ctx.state == old(ctx).state,
            forall|k: Seq<char>|
                ctx.loaded(VAR_SCOPE, k) == (match pair_lookup(ps.take(i as int), k) {
                    Some(v) => Some(v),
                    None => old(ctx).loaded(VAR_SCOPE, k),
                }),
            forall|sc: u64, k: Seq<char>|
                sc != VAR_SCOPE ==> ctx.loaded(sc, k) == old(ctx).loaded(sc, k),
        decreases n - i,
    {
        let name = caps[i].0.clone();
        let value = caps[i].1.clone();
        let ghost kv = name@;
        let ghost before = *ctx;
        ctx.store_scoped(VAR_SCOPE, name, value);
        proof {
            assert(ps[i as int] == caps.deep_view()[i as int]);
            assert(ps[i as int].0 == kv && ps[i as int].1 == value@);
            assert(ps.take(i + 1).last() == ps[i as int]);
            assert(ps.take(i + 1).drop_last() =~= ps.take(i as int));
            assert forall|k: Seq<char>|
                ctx.loaded(VAR_SCOPE, k) == (match pair_lookup(ps.take(i + 1), k) {
                    Some(v) => Some(v),
                    None => old(ctx).loaded(VAR_SCOPE, k),
                }) by {
                if k == kv {
                } else {
                    assert(before.loaded(VAR_SCOPE, k) == ctx.loaded(VAR_SCOPE, k));
                }
            }
        }
        i = i + 1;
    }
    proof {
        assert(ps.take(n as int) =~= ps);
    }
}

impl<H> RouteTable<H> {
    /// Resolves the context's request and prepares the dispatch: on a
    /// match, the captured variables are written into the variable scope
    /// of the store (so the handler finds them there) and the selected
    /// handler is returned; an unknown path is a 404 status and a known
    /// path without the method a 405 status, both leaving the context
    /// untouched.
    pub fn route_request<S>(&self, ctx: &mut Context<S>) -> (r: Result<&H, Status>)
        requires
            self.wf(),
        ensures
            ({
                let p = standardized(old(ctx).request.path@);
                let es = self.entries@;
                let mi = match_index(es, p);
                match r {
                    Ok(h) => {
                        &&& mi < es.len()
                        &&& gate_handler(es[mi].gates@, old(ctx).request.method) == Some(*h)
                        &&& exists|pairs: Seq<(Seq<char>, Seq<char>)>|
                            #[trigger] captures_match(&es[mi].pattern, p, pairs)
                                && captures_stored(*old(ctx), *final(ctx), pairs)
                    },
                    Err(e) => {
                        &&& *final(ctx) == *old(ctx)
                        &&& (mi == es.len() ==> e.code == 404 && e.expose)
                        &&& (mi < es.len() ==> gate_handler(es[mi].gates@, old(ctx).request.method)
                            is None && e.code == 405 && e.expose)
                    },
                }
            }),
    {
        let method = ctx.request.method;
        let path = ctx.request.path.clone();
        match self.resolve(method, path.as_str()) {
            RouteOutcome::PathNotFound => Err(
                Status::new(404, String::from_str("Not Found"), true),
            ),
            RouteOutcome::MethodNotAllowed(_) => Err(
                Status::new(405, String::from_str("Method Not Allowed"), true),
            ),
            RouteOutcome::Matched(h, caps) => {
                store_captures(ctx, &caps);
                proof {
                    let p = standardized(old(ctx).request.path@);
                    let es = self.entries@;
                    let mi = match_index(es, p);
                    assert(captures_match(&es[mi].pattern, p, caps.deep_view()));
                }
                Ok(h)
            },
        }
    }

    /// Resolves the context's request and runs the selected handler,
    /// after writing the captured path variables into the store (see
    /// `route_request`, which carries the matched-case contract). An
    /// unknown path is a 404 status, a known path without the method a
    /// 405 status, both leaving the context untouched.
    pub fn dispatch<S>(&self, ctx: &mut Context<S>) -> (r: Result<(), Status>) where H: Handler<S>
        requires
            self.wf(),
        ensures
            ({
                let p = standardized(old(ctx).request.path@);
                let es = self.entries@;
                let mi = match_index(es, p);
                &&& (mi == es.len() ==> (match r {
                    Err(e) => e.code == 404 && e.expose,
                    Ok(_) => false,
                }) && *final(ctx) == *old(ctx))
                &&& (mi < es.len() && gate_handler(es[mi].gates@, old(ctx).request.method) is None
                    ==> (match r {
                    Err(e) => e.code == 405 && e.expose,
                    Ok(_) => false,
                }) && *final(ctx) == *old(ctx))
            }),
    {
        match self.route_request(ctx) {
            Ok(h) => h.call(ctx),
            Err(e) => Err(e),
        }
    }
}

/// Compares two compiled patterns: whether they share a shape, and
/// whether they are identical (names included).
fn pattern_cmp(a: &Path, b: &Path) -> (r: (bool, bool))
    ensures
        r.0 == same_shape(a, b),
        r.1 == same_pattern(a, b),
{
    match (a, b) {
        (Path::Static(s1), Path::Static(s2)) => {
            let e = crate::compile::eq_str(s1.as_str(), s2.as_str());
            (e, e)
        },
        (Path::Dynamic(d1), Path::Dynamic(d2)) => toks_cmp(&d1.toks, &d2.toks),
        _ => (false, false),
    }
}

/// Compares two token vectors: whether their shapes agree, and whether
/// they agree with names included.
fn toks_cmp(a: &Vec<crate::pattern::Tok>, b: &Vec<crate::pattern::Tok>) -> (r: (bool, bool))
    ensures
        r.0 == (shape_of(tok_views(a@)) == shape_of(tok_views(b@))),
        r.1 == (tok_views(a@) == tok_views(b@)),
{
    let ghost va = tok_views(a@);
    let ghost vb = tok_views(b@);
    let n = a.len();
    let m = b.len();
    if n != m {
        proof {
            assert(shape_of(va).len() == va.len());
            assert(shape_of(vb).len() == vb.len());
        }
        return (false, false);
    }
    let mut full = true;
    let ghost mut diff_at: int = 0;
    let mut i: usize = 0;
    while i < n
        invariant
            0 <= i <= n == a@.len(),
            n == m == b@.len(),
            va == tok_views(a@),
            vb == tok_views(b@),
            forall|k: int| 0 <= k < i ==> erase_name(#[trigger] va[k]) == erase_name(vb[k]),
            full ==> forall|k: int| 0 <= k < i ==> #[trigger] va[k] == vb[k],
            !full ==> 0 <= diff_at < i && va[diff_at] != vb[diff_at],
        decreases n - i,
    {
        let same: bool = match (&a[i], &b[i]) {
            (crate::pattern::Tok::Lit(x), crate::pattern::Tok::Lit(y)) => {
                let e = crate::compile::eq_str(x.as_str(), y.as_str());
                if !e {
                    proof {
                        assert(va[i as int] != vb[i as int]);
                        assert(erase_name(va[i as int]) != erase_name(vb[i as int]));
                        assert(shape_of(va)[i as int] == erase_name(va[i as int]));
                        assert(shape_of(vb)[i as int] == erase_name(vb[i as int]));
                        if shape_of(va) == shape_of(vb) {
                            assert(shape_of(va)[i as int] == shape_of(vb)[i as int]);
                        }
                        if va == vb {
                            assert(va[i as int] == vb[i as int]);
                        }
                    }
                    return (false, false);
                }
                true
            },
            (crate::pattern::Tok::Seg(x), crate::pattern::Tok::Seg(y)) => {
                crate::compile::eq_str(x.as_str(), y.as_str())
            },
            (crate::pattern::Tok::Tail(x), crate::pattern::Tok::Tail(y)) => {
                crate::compile::eq_str(x.as_str(), y.as_str())
            },
            _ => {
                proof {
                    assert(va[i as int] != vb[i as int]);
                    assert(erase_name(va[i as int]) != erase_name(vb[i as int]));
                    assert(shape_of(va)[i as int] == erase_name(va[i as int]));
                    assert(shape_of(vb)[i as int] == erase_name(vb[i as int]));
                    if shape_of(va) == shape_of(vb) {
                        assert(shape_of(va)[i as int] == shape_of(vb)[i as int]);
                    }
                    if va == vb {
                        assert(va[i as int] == vb[i as int]);
                    }
                }
                return (false, false);
            },
        };
        proof {
            assert(erase_name(va[i as int]) == erase_name(vb[i as int]));
            assert(same == (va[i as int] == vb[i as int]));
        }
        if !same {
            proof {
                diff_at = i as int;
            }
            full = false;
        }
        i = i + 1;
    }
    proof {
        assert(shape_of(va) =~= shape_of(vb));
        if full {
            assert(va =~= vb);
        } else {
            if va == vb {
                assert(va[diff_at] == vb[diff_at]);
            }
        }
    }
    (true, full)
}

/// The handler of the latest gate serving `method`, if any.
fn find_gate_handler<H>(gates: &Vec<Gate<H>>, method: Method) -> (r: Option<&H>)
    ensures
        match r {
            Some(h) => gate_handler(gates@, method) == Some(*h),
            None => gate_handler(gates@, method) is None,
        },
{
    let n = gates.len();
    let mut i: usize = n;
    proof {
        assert(gates@.take(n as int) =~= gates@);
    }
    while i > 0
        invariant
            0 <= i <= n == gates@.len(),
            gate_handler(gates@, method) == gate_handler(gates@.take(i as int), method),
        decreases i,
    {
        i = i - 1;
        if methods_contain(&gates[i].methods, method) {
            proof {
                assert(gates@.take(i + 1).last() == gates@[i as int]);
            }
            return Some(&gates[i].handler);
        }
        proof {
            assert(gates@.take(i + 1).last() == gates@[i as int]);
            assert(gates@.take(i + 1).drop_last() =~= gates@.take(i as int));
        }
    }
    proof {
        assert(gates@.take(0) =~= Seq::<Gate<H>>::empty());
    }
    None
}

/// The methods served by any gate, without duplicates.
fn allowed_methods<H>(gates: &Vec<Gate<H>>) -> (r: Vec<Method>)
    ensures
        r@.no_duplicates(),
        forall|m: Method| r@.contains(m) <==> method_in_gates(gates@, m),
{
    let mut ms: Vec<Method> = Vec::new();
    let n = gates.len();
    let mut i: usize = 0;
    while i < n
        invariant
            0 <= i <= n == gates@.len(),
            ms@.no_duplicates(),
            forall|m: Method|
                ms@.contains(m) <==> exists|k: int|
                    0 <= k < i && (#[trigger] gates@[k]).methods@.contains(m),
        decreases n - i,
    {
        let gm = &gates[i].methods;
        let glen = gm.len();
        let mut j: usize = 0;
        while j < glen
            invariant
                0 <= j <= glen == gm@.len(),
                gm@ == gates@[i as int].methods@,
                0 <= i < gates@.len(),
                ms@.no_duplicates(),
                forall|m: Method|
                    ms@.contains(m) <==> (exists|k: int|
                        0 <= k < i && (#[trigger] gates@[k]).methods@.contains(m)) || (exists|
                        l: int,
                    | 0 <= l < j && gm@[l] == m),
            decreases glen - j,
        {
            let m = gm[j];
            let ghost oldms = ms@;
            let already = methods_contain(&ms, m);
            if !already {
                ms.push(m);
                proof {
                    lemma_push_no_dup(oldms, m);
                }
            }
            proof {
                assert(gm@[j as int] == m);
                assert forall|x: Method| ms@.contains(x) implies ((exists|k: int|
                    0 <= k < i && (#[trigger] gates@[k]).methods@.contains(x)) || (exists|l: int|
                    0 <= l < j + 1 && gm@[l] == x)) by {
                    if oldms.contains(x) {
                        if exists|l: int| 0 <= l < j && gm@[l] == x {
                            let l = choose|l: int| 0 <= l < j && gm@[l] == x;
                            assert(0 <= l < j + 1 && gm@[l] == x);
                        }
                    } else {
                        assert(x == m);
                        assert(0 <= j < j + 1 && gm@[j as int] == x);
                    }
                }
                assert forall|x: Method|
                    ((exists|k: int| 0 <= k < i && (#[trigger] gates@[k]).methods@.contains(x)) || (
                    exists|l: int| 0 <= l < j + 1 && gm@[l] == x)) implies ms@.contains(x) by {
                    if exists|k: int| 0 <= k < i && (#[trigger] gates@[k]).methods@.contains(x) {
                        assert(oldms.contains(x));
                        if !already {
                            assert(ms@ == oldms.push(m));
                            let k2 = choose|k2: int| 0 <= k2 < oldms.len() && oldms[k2] == x;
                            assert(ms@[k2] == x);
                        }
                    } else {
                        let l = choose|l: int| 0 <= l < j + 1 && gm@[l] == x;
                        if l < j {
                            assert(oldms.contains(x));
                            if !already {
                                let k2 = choose|k2: int| 0 <= k2 < oldms.len() && oldms[k2] == x;
                                assert(ms@ == oldms.push(m));
                                assert(ms@[k2] == x);
                            }
                        } else {
                            assert(x == m);
                            if already {
                                assert(oldms.contains(m));
                            } else {
                                assert(ms@ == oldms.push(m));
                                assert(ms@[ms@.len() - 1] == m);
                            }
                        }
                    }
                }
            }
            j = j + 1;
        }
        proof {
            assert forall|x: Method| ms@.contains(x) implies (exists|k: int|
                0 <= k < i + 1 && (#[trigger] gates@[k]).methods@.contains(x)) by {
                if exists|k: int| 0 <= k < i && (#[trigger] gates@[k]).methods@.contains(x) {
                    let k = choose|k: int|
                        0 <= k < i && (#[trigger] gates@[k]).methods@.contains(x);
                    assert(0 <= k < i + 1 && gates@[k].methods@.contains(x));
                } else {
                    assert(gates@[i as int].methods@.contains(x));
                }
            }
            assert forall|x: Method|
                (exists|k: int| 0 <= k < i + 1 && (#[trigger] gates@[k]).methods@.contains(x))
                implies ms@.contains(x) by {
                let k = choose|k: int|
                    0 <= k < i + 1 && (#[trigger] gates@[k]).methods@.contains(x);
                if k < i {
                } else {
                    assert(gm@.contains(x));
                    let l = choose|l: int| 0 <= l < gm@.len() && gm@[l] == x;
                }
            }
        }
        i = i + 1;
    }
    ms
}

/// Pushing a fresh element keeps a method list duplicate-free.
proof fn lemma_push_no_dup(s: Seq<Method>, x: Method)
    requires
        s.no_duplicates(),
        !s.contains(x),
    ensures
        s.push(x).no_duplicates(),
{
    assert forall|i: int, j: int|
        0 <= i < j < s.push(x).len() implies s.push(x)[i] != s.push(x)[j] by {
        if j < s.len() {
        } else {
            assert(s.push(x)[j] == x);
            assert(s.push(x)[i] == s[i]);
            if s[i] == x {
                assert(s.contains(x));
            }
        }
    }
}

/// The route table wrapped as a middleware: the endpoint at the inside
/// of the onion. It never calls the continuation; it resolves and
/// dispatches.
pub struct RouterEndpoint<H> {
    table: RouteTable<H>,
}

impl<H> RouterEndpoint<H> {
    #[verifier::type_invariant]
    spec fn inv(&self) -> bool {
        self.table.wf()
    }

    /// Wraps a route table whose patterns were built by registration.
    pub fn new(table: RouteTable<H>) -> (r: RouterEndpoint<H>)
        requires
            table.wf(),
    {
        RouterEndpoint { table }
    }
}

impl<S, H: Handler<S>> crate::chain::Middleware<S> for RouterEndpoint<H> {
    fn handle(
        &self,
        ctx: &mut Context<S>,
        _next: &mut crate::chain::Next<'_, Self>,
    ) -> Result<(), Status> {
        proof {
            use_type_invariant(&*self);
        }
        self.table.dispatch(ctx)
    }
}

} // verus!
