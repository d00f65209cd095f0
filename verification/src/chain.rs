//! The middleware engine: an ordered chain of middleware run in the
//! onion order, each unit wrapping the rest of the chain behind a
//! single-use continuation.

use vstd::prelude::*;

use crate::context::Context;
use crate::status::Status;

verus! {

/// The status code used when a continuation is invoked twice.
pub const DOUBLE_CONTINUATION: u16 = 500;

/// One middleware unit: it may work on the context, call `next` to run
/// the rest of the chain, and work again when that returns.
pub trait Middleware<S>: Sized {
    /// Handles the request, delegating downstream through `next` at most
    /// once.
    fn handle(&self, ctx: &mut Context<S>, next: &mut Next<'_, Self>) -> Result<(), Status>;
}

/// The continuation handed to a middleware: the remainder of the chain
/// from `index` on, armed to run exactly once.
pub struct Next<'a, M> {
    chain: &'a Vec<M>,
    index: usize,
    used: bool,
}

impl<'a, M> Next<'a, M> {
    /// Whether this continuation has already been invoked.
    pub closed spec fn spent(&self) -> bool {
        self.used
    }

    /// Whether this continuation stands past the end of the chain:
    /// invoking it completes at once, a terminal no-op.
    pub closed spec fn at_end(&self) -> bool {
        self.index >= self.chain@.len()
    }

    /// Runs the rest of the chain. A second invocation fails
    /// deterministically with an internal status and leaves the context
    /// untouched, rather than re-running downstream middleware.
    pub fn call<S>(&mut self, ctx: &mut Context<S>) -> (r: Result<(), Status>) where
        M: Middleware<S>,

        ensures
            final(self).spent(),
            final(self).at_end() == old(self).at_end(),
            old(self).spent() ==> (match r {
                Err(e) => e.code == DOUBLE_CONTINUATION && !e.expose,
                Ok(_) => false,
            }) && *final(ctx) == *old(ctx),
            !old(self).spent() && old(self).at_end() ==> r is Ok && *final(ctx) == *old(ctx),
    {
        if self.used {
            return Err(
                Status::new(
                    DOUBLE_CONTINUATION,
                    String::from_str("continuation invoked twice"),
                    false,
                ),
            );
        }
        self.used = true;
        run_from(self.chain, self.index, ctx)
    }
}

/// Runs the chain from `index` on: past the end, completion is a no-op;
/// otherwise the middleware there runs with a fresh continuation for the
/// remainder.
pub fn run_from<S, M: Middleware<S>>(chain: &Vec<M>, index: usize, ctx: &mut Context<S>) -> (r:
    Result<(), Status>)
    ensures
        index >= chain@.len() ==> r is Ok && *final(ctx) == *old(ctx),
{
    if index >= chain.len() {
        return Ok(());
    }
    let mut next = Next { chain, index: index + 1, used: false };
    chain[index].handle(ctx, &mut next)
}

/// Drives a whole chain over a context: an empty chain completes at once
/// and changes nothing.
pub fn run_chain<S, M: Middleware<S>>(chain: &Vec<M>, ctx: &mut Context<S>) -> (r: Result<
    (),
    Status,
>)
    ensures
        chain@.len() == 0 ==> r is Ok && *final(ctx) == *old(ctx),
{
    run_from(chain, 0, ctx)
}

} // verus!
