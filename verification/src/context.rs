//! Per-request state: the request, the response being built, and a
//! scoped key/value store through which middleware hand values downstream.

use vstd::prelude::*;

use crate::compile::eq_str;
use crate::method::Method;

verus! {

/// The scope tag under which the router stores captured path variables.
pub const VAR_SCOPE: u64 = 0;

/// An HTTP request as the core consumes it: the transport layer parses
/// the wire format and hands these plain values over.
#[derive(Clone)]
pub struct Request {
    /// The request method.
    pub method: Method,
    /// The request path, as sent.
    pub path: String,
    /// The raw query string (without the leading question mark).
    pub query: String,
    /// The request headers.
    pub headers: Vec<(String, String)>,
    /// The request body.
    pub body: String,
}

impl Request {
    /// An empty GET request for the root path.
    pub fn new() -> (r: Request)
        ensures
            r.method == Method::Get,
            r.path@ == "/"@,
            r.query@.len() == 0,
            r.headers@.len() == 0,
            r.body@.len() == 0,
    {
        Request {
            method: Method::Get,
            path: String::from_str("/"),
            query: String::new(),
            headers: Vec::new(),
            body: String::new(),
        }
    }
}

/// The response being built across the middleware chain.
#[derive(Clone)]
pub struct Response {
    /// The status code to send.
    pub status: u16,
    /// The response headers.
    pub headers: Vec<(String, String)>,
    /// The response body.
    pub body: String,
}

impl Response {
    /// A fresh empty response with status 200.
    pub fn new() -> (r: Response)
        ensures
            r.status == 200,
            r.headers@.len() == 0,
            r.body@.len() == 0,
    {
        Response { status: 200, headers: Vec::new(), body: String::new() }
    }
}

/// One entry of the scoped store.
#[derive(Clone)]
pub struct StoreEntry {
    /// The compile-time scope tag of the writer.
    pub scope: u64,
    /// The key within that scope.
    pub key: String,
    /// The stored value.
    pub value: String,
}

/// The value of the latest entry for a scope and key, if any.
pub open spec fn store_find(entries: Seq<StoreEntry>, scope: u64, key: Seq<char>) -> Option<Seq<char>>
    decreases entries.len(),
{
    if entries.len() == 0 {
        None
    } else if entries.last().scope == scope && entries.last().key@ == key {
        Some(entries.last().value@)
    } else {
        store_find(entries.drop_last(), scope, key)
    }
}

/// The value of the last pair with the given name, if any: how a list
/// of name/value pairs reads when later pairs win.
pub open spec fn pair_lookup(pairs: Seq<(Seq<char>, Seq<char>)>, name: Seq<char>) -> Option<
    Seq<char>,
>
    decreases pairs.len(),
{
    if pairs.len() == 0 {
        None
    } else if pairs.last().0 == name {
        Some(pairs.last().1)
    } else {
        pair_lookup(pairs.drop_last(), name)
    }
}

/// The per-request context: request, response, scoped store, and the
/// application's shared state.
pub struct Context<S> {
    /// The incoming request.
    pub request: Request,
    /// The response under construction.
    pub response: Response,
    /// The scoped store: entries in write order, the latest one wins.
    pub store: Vec<StoreEntry>,
    /// The application state this request sees.
    pub state: S,
}

impl<S> Context<S> {
    /// What the store holds for a scope and key: the latest value written
    /// there, if any.
    pub open spec fn loaded(&self, scope: u64, key: Seq<char>) -> Option<Seq<char>> {
        store_find(self.store@, scope, key)
    }

    /// A fresh context around a request, with an empty response and an
    /// empty store.
    pub fn new(request: Request, state: S) -> (r: Context<S>)
        ensures
            r.request == request,
            r.state == state,
            r.response.status == 200,
            r.response.headers@.len() == 0,
            r.response.body@.len() == 0,
            forall|sc: u64, k: Seq<char>| r.loaded(sc, k) is None,
    {
        let r = Context { request, response: Response::new(), store: Vec::new(), state };
        proof {
            assert forall|sc: u64, k: Seq<char>| r.loaded(sc, k) is None by {
                assert(r.store@.len() == 0);
            }
        }
        r
    }

    /// Writes a value under a scope and key; later loads of that pair see
    /// it, everything else is untouched.
    pub fn store_scoped(&mut self, scope: u64, key: String, value: String)
        ensures
            final(self).request == old(self).request,
            final(self).response == old(self).response,
            final(self).state == old(self).state,
            forall|sc: u64, k: Seq<char>|
                final(self).loaded(sc, k) == (if sc == scope && k == key@ {
                    Some(value@)
                } else {
                    old(self).loaded(sc, k)
                }),
    {
        let ghost old_store = self.store@;
        let ghost kv = key@;
        let ghost vv = value@;
        self.store.push(StoreEntry { scope, key, value });
        proof {
            assert forall|sc: u64, k: Seq<char>|
                final(self).loaded(sc, k) == (if sc == scope && k == kv {
                    Some(vv)
                } else {
                    store_find(old_store, sc, k)
                }) by {
                assert(self.store@.last().scope == scope);
                assert(self.store@.last().key@ == kv);
                assert(self.store@.last().value@ == vv);
                assert(self.store@.drop_last() =~= old_store);
            }
        }
    }

    /// Reads the value last stored under a scope and key, if any.
    pub fn load_scoped(&self, scope: u64, key: &str) -> (r: Option<String>)
        ensures
            match r {
                Some(v) => self.loaded(scope, key@) == Some(v@),
                None => self.loaded(scope, key@) is None,
            },
    {
        let n = self.store.len();
        let mut i: usize = n;
        proof {
            assert(self.store@.take(n as int) =~= self.store@);
        }
        while i > 0
            invariant
                0 <= i <= n == self.store@.len(),
                store_find(self.store@, scope, key@) == store_find(
                    self.store@.take(i as int),
                    scope,
                    key@,
                ),
            decreases i,
        {
            i = i - 1;
            let e = &self.store[i];
            proof {
                assert(self.store@.take(i + 1).last() == self.store@[i as int]);
                assert(self.store@.take(i + 1).drop_last() =~= self.store@.take(i as int));
            }
            if e.scope == scope && eq_str(e.key.as_str(), key) {
                return Some(e.value.clone());
            }
        }
        proof {
            assert(self.store@.take(0) =~= Seq::<StoreEntry>::empty());
        }
        None
    }
}

} // verus!
