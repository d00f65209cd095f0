//! The application: a middleware chain, a status handler, and shared
//! state, driven once per request.

use vstd::prelude::*;

use crate::chain::{run_chain, Middleware};
use crate::context::{Context, Request, Response};
use crate::status::Status;

verus! {

/// Turns a status that escaped the whole chain into the final response.
pub trait StatusHandler<S>: Sized {
    /// Finalizes the response for `status`; its own failure makes the
    /// application fall back to a fixed internal error response.
    fn handle_status(&self, ctx: &mut Context<S>, status: Status) -> Result<(), Status>;
}

/// The default status handling: the response takes the status code, and
/// the message as body only when it is safe to expose; an internal
/// message is masked by a generic one.
#[derive(Clone)]
pub struct DefaultStatusHandler;

/// Writes `status` into the response: its code always, its message as
/// the body only when marked exposable, a generic body otherwise.
pub fn apply_status<S>(ctx: &mut Context<S>, status: Status)
    ensures
        final(ctx).request == old(ctx).request,
        final(ctx).state == old(ctx).state,
        final(ctx).store == old(ctx).store,
        final(ctx).response.status == status.code,
        final(ctx).response.headers == old(ctx).response.headers,
        status.expose ==> final(ctx).response.body@ == status.message@,
        !status.expose ==> final(ctx).response.body@ == "Internal Server Error"@,
{
    ctx.response.status = status.code;
    if status.expose {
        ctx.response.body = status.message;
    } else {
        ctx.response.body = String::from_str("Internal Server Error");
    }
}

impl<S> StatusHandler<S> for DefaultStatusHandler {
    fn handle_status(&self, ctx: &mut Context<S>, status: Status) -> Result<(), Status> {
        apply_status(ctx, status);
        Ok(())
    }
}

/// An application: the middleware chain in registration order, the
/// status handler, and the state every request shares.
#[derive(Clone)]
pub struct App<S, M, SH> {
    /// The middleware, outermost first.
    pub chain: Vec<M>,
    /// Turns an escaped status into a response.
    pub status_handler: SH,
    /// The shared application state; each request receives a clone.
    pub state: S,
}

impl<S, M> App<S, M, DefaultStatusHandler> {
    /// An application over a chain and state, with the default status
    /// handling.
    pub fn new(chain: Vec<M>, state: S) -> (r: App<S, M, DefaultStatusHandler>)
        ensures
            r.chain == chain,
            r.state == state,
    {
        App { chain, status_handler: DefaultStatusHandler, state }
    }
}

/// Decides the final response from a finished request: when the request
/// ended well (the chain completed, or the status handler recovered),
/// the context's response is sent as it stands; when even the status
/// handler failed, a fixed internal-error response is sent instead, so
/// that no request ends without a response.
pub fn finish_response<S>(ctx: Context<S>, handled: Result<(), Status>) -> (r: Response)
    ensures
        handled is Ok ==> r == ctx.response,
        handled is Err ==> r.status == 500 && r.headers@.len() == 0 && r.body@
            == "Internal Server Error"@,
{
    match handled {
        Ok(()) => {
            let Context { response, .. } = ctx;
            response
        },
        Err(_) => {
            let mut resp = Response::new();
            resp.status = 500;
            resp.body = String::from_str("Internal Server Error");
            resp
        },
    }
}

impl<S, M, SH> App<S, M, SH> {
    /// Replaces the status handler.
    pub fn handle_status<SH2>(self, handler: SH2) -> (r: App<S, M, SH2>)
        ensures
            r.chain == self.chain,
            r.state == self.state,
            r.status_handler == handler,
    {
        App { chain: self.chain, status_handler: handler, state: self.state }
    }

    /// Serves one request: a fresh context is driven through the chain;
    /// an escaped status goes through the status handler exactly once,
    /// and the outcome is settled by `finish_response`: the context's
    /// response when the request ended well, the fixed internal-error
    /// response when even the status handler failed. An empty chain
    /// completes at once with the fresh response.
    pub fn serve(&self, request: Request) -> (r: Response) where
        S: Clone,
        M: Middleware<S>,
        SH: StatusHandler<S>,

        ensures
            self.chain@.len() == 0 ==> r.status == 200 && r.body@.len() == 0 && r.headers@.len()
                == 0,
    {
        let state = self.state.clone();
        let mut ctx = Context::new(request, state);
        let handled = match run_chain(&self.chain, &mut ctx) {
            Ok(()) => Ok(()),
            Err(status) => self.status_handler.handle_status(&mut ctx, status),
        };
        finish_response(ctx, handled)
    }
}

} // verus!
