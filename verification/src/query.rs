//! Query-string handling: a middleware that parses the request's query
//! string into the scoped store, and accessors to read it back.

use vstd::prelude::*;

use crate::chain::{Middleware, Next};
use crate::context::{pair_lookup, Context};
use crate::status::Status;

verus! {

/// The scope tag under which the query middleware stores its pairs.
pub const QUERY_SCOPE: u64 = 1;

/// The name/value pairs that decoding a query string produces. The
/// result depends on the query text alone.
pub uninterp spec fn form_pairs_of(q: Seq<char>) -> Seq<(Seq<char>, Seq<char>)>;

/// Relies on url::form_urlencoded::parse: splits the query on `&` into
/// pairs and each pair on the first `=`, percent-decodes names and
/// values, turning `+` into a space; an empty query yields no pairs.
#[verifier::external_body]
fn parse_form(query: &str) -> (r: Vec<(String, String)>)
    ensures
        r.deep_view() == form_pairs_of(query@),
        query@.len() == 0 ==> r.deep_view().len() == 0,
{
    url::form_urlencoded::parse(query.as_bytes()).into_owned().collect()
}

/// Writes the decoded pairs of the request's query string into the
/// query scope of the store, in order, so that for each name the last
/// pair of the query wins; nothing else changes.
pub fn store_query_pairs<S>(ctx: &mut Context<S>)
    ensures
        final(ctx).request == old(ctx).request,
        final(ctx).response == old(ctx).response,
        final(ctx).state == old(ctx).state,
        forall|k: Seq<char>|
            final(ctx).loaded(QUERY_SCOPE, k) == (match pair_lookup(
                form_pairs_of(old(ctx).request.query@),
                k,
            ) {
                Some(v) => Some(v),
                None => old(ctx).loaded(QUERY_SCOPE, k),
            }),
        forall|sc: u64, k: Seq<char>|
            sc != QUERY_SCOPE ==> final(ctx).loaded(sc, k) == old(ctx).loaded(sc, k),
{
    let ghost q = ctx.request.query@;
    let pairs = parse_form(ctx.request.query.as_str());
    let ghost ps = form_pairs_of(q);
    let n = pairs.len();
    let mut i: usize = 0;
    proof {
        assert(ps.take(0) =~= Seq::<(Seq<char>, Seq<char>)>::empty());
        assert(pairs.deep_view().len() == pairs@.len());
    }
    while i < n
        invariant
            0 <= i <= n == pairs@.len(),
            pairs.deep_view() == ps,
            ps.len() == n,
            ctx.request == old(ctx).request,
            ctx.response == old(ctx).response,
            ctx.state == old(ctx).state,
            forall|k: Seq<char>|
                ctx.loaded(QUERY_SCOPE, k) == (match pair_lookup(ps.take(i as int), k) {
                    Some(v) => Some(v),
                    None => old(ctx).loaded(QUERY_SCOPE, k),
                }),
            forall|sc: u64, k: Seq<char>|
                sc != QUERY_SCOPE ==> ctx.loaded(sc, k) == old(ctx).loaded(sc, k),
        decreases n - i,
    {
        let key = pairs[i].0.clone();
        let value = pairs[i].1.clone();
        let ghost kv = key@;
        let ghost vv = value@;
        let ghost before = *ctx;
        ctx.store_scoped(QUERY_SCOPE, key, value);
        proof {
            assert(ps[i as int] == pairs.deep_view()[i as int]);
            assert(ps[i as int].0 == kv && ps[i as int].1 == vv);
            assert(ps.take(i + 1).last() == ps[i as int]);
            assert(ps.take(i + 1).drop_last() =~= ps.take(i as int));
            assert forall|k: Seq<char>|
                ctx.loaded(QUERY_SCOPE, k) == (match pair_lookup(ps.take(i + 1), k) {
                    Some(v) => Some(v),
                    None => old(ctx).loaded(QUERY_SCOPE, k),
                }) by {
                if k == kv {
                } else {
                    assert(before.loaded(QUERY_SCOPE, k) == ctx.loaded(QUERY_SCOPE, k));
                }
            }
        }
        i = i + 1;
    }
    proof {
        assert(ps.take(n as int) =~= ps);
    }
}

/// A middleware that parses the query string into the store, then runs
/// the rest of the chain.
pub fn query_parser<S, M: Middleware<S>>(ctx: &mut Context<S>, next: &mut Next<'_, M>) -> (r:
    Result<(), Status>)
    ensures
        final(next).spent(),
{
    store_query_pairs(ctx);
    next.call(ctx)
}

/// Reading query variables back out of the store.
pub trait Query {
    /// The decoded value of a query variable, or a 400 status when the
    /// request carries none of that name.
    fn must_query(&self, name: &str) -> Result<String, Status>;

    /// The decoded value of a query variable, if the request carries one.
    fn query(&self, name: &str) -> Option<String>;
}

impl<S> Context<S> {
    /// The decoded value of a query variable, if `query_parser` stored
    /// one for this name.
    pub fn query(&self, name: &str) -> (r: Option<String>)
        ensures
            match r {
                Some(v) => self.loaded(QUERY_SCOPE, name@) == Some(v@),
                None => self.loaded(QUERY_SCOPE, name@) is None,
            },
    {
        self.load_scoped(QUERY_SCOPE, name)
    }

    /// The decoded value of a query variable; a missing one is a 400
    /// status whose message may be shown to the caller.
    pub fn must_query(&self, name: &str) -> (r: Result<String, Status>)
        ensures
            match r {
                Ok(v) => self.loaded(QUERY_SCOPE, name@) == Some(v@),
                Err(e) => self.loaded(QUERY_SCOPE, name@) is None && e.code == 400 && e.expose,
            },
    {
        match self.load_scoped(QUERY_SCOPE, name) {
            Some(v) => Ok(v),
            None => {
                let mut msg = String::new();
                msg.append("query `");
                msg.append(name);
                msg.append("` is required");
                Err(Status::new(400, msg, true))
            },
        }
    }
}

impl<S> Query for Context<S> {
    fn must_query(&self, name: &str) -> Result<String, Status> {
        Context::must_query(self, name)
    }

    fn query(&self, name: &str) -> Option<String> {
        Context::query(self, name)
    }
}

} // verus!
