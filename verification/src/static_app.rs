//! A minimal application shell: middleware registered one by one into a
//! chain that a transport layer can drive per request.

use vstd::prelude::*;

use crate::chain::{run_chain, Middleware};
use crate::context::Context;
use crate::status::Status;

verus! {

/// A chain of middleware built at startup and immutable afterwards.
#[derive(Clone)]
pub struct StaticApp<M> {
    /// The registered middleware, outermost first.
    pub chain: Vec<M>,
}

impl<M> StaticApp<M> {
    /// An app with no middleware: it completes every request untouched.
    pub fn new() -> (r: StaticApp<M>)
        ensures
            r.chain@.len() == 0,
    {
        StaticApp { chain: Vec::new() }
    }

    /// Appends a middleware; it runs after (inside) everything registered
    /// earlier.
    pub fn register(self, middleware: M) -> (r: StaticApp<M>)
        ensures
            r.chain@ == self.chain@.push(middleware),
    {
        let mut chain = self.chain;
        chain.push(middleware);
        StaticApp { chain }
    }

    /// Drives the chain over one request context.
    pub fn run<S>(&self, ctx: &mut Context<S>) -> (r: Result<(), Status>) where M: Middleware<S>
        ensures
            self.chain@.len() == 0 ==> r is Ok && *final(ctx) == *old(ctx),
    {
        run_chain(&self.chain, ctx)
    }

    /// Relies on Box::leak: pins the finished app for the lifetime of the
    /// process, so that concurrent request tasks can share it.
    #[verifier::external_body]
    pub fn leak(self) -> (r: &'static StaticApp<M>)
        ensures
            *r == self,
    {
        Box::leak(Box::new(self))
    }
}

} // verus!
