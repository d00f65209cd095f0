use roa::app::{apply_status, finish_response, App, StatusHandler};
use roa::chain::{Middleware, Next};
use roa::context::{Context, Request, VAR_SCOPE};
use roa::method::Method;
use roa::router::{Handler, RouteTable, RouterEndpoint};
use roa::status::Status;

struct EchoVar;

impl Handler<()> for EchoVar {
    fn call(&self, ctx: &mut Context<()>) -> Result<(), Status> {
        match ctx.load_scoped(VAR_SCOPE, "id") {
            Some(v) => {
                ctx.response.body = v;
                Ok(())
            },
            None => Err(Status::new(500, String::from("variable missing"), false)),
        }
    }
}

fn posts_app() -> App<(), RouterEndpoint<EchoVar>, roa::app::DefaultStatusHandler> {
    let mut table: RouteTable<EchoVar> = RouteTable::new();
    table.register("/posts/:id/", vec![Method::Get], EchoVar).unwrap();
    App::new(vec![RouterEndpoint::new(table)], ())
}

fn request(method: Method, path: &str) -> Request {
    let mut req = Request::new();
    req.method = method;
    req.path = String::from(path);
    req
}

#[test]
fn end_to_end_get_captures_variable() {
    let app = posts_app();
    let resp = app.serve(request(Method::Get, "/posts/42/"));
    assert_eq!(resp.status, 200);
    assert_eq!(resp.body, "42");
}

#[test]
fn end_to_end_wrong_method_is_405() {
    let app = posts_app();
    let resp = app.serve(request(Method::Post, "/posts/42/"));
    assert_eq!(resp.status, 405);
}

#[test]
fn end_to_end_unknown_path_is_404() {
    let app = posts_app();
    let resp = app.serve(request(Method::Get, "/unknown/"));
    assert_eq!(resp.status, 404);
}

#[test]
fn status_messages_are_masked_unless_exposable() {
    let mut ctx: Context<()> = Context::new(Request::new(), ());
    apply_status(&mut ctx, Status::new(418, String::from("teapot"), true));
    assert_eq!(ctx.response.status, 418);
    assert_eq!(ctx.response.body, "teapot");
    apply_status(&mut ctx, Status::new(500, String::from("secret detail"), false));
    assert_eq!(ctx.response.status, 500);
    assert_eq!(ctx.response.body, "Internal Server Error");
}

#[test]
fn empty_chain_serves_fresh_response() {
    let app: App<(), RouterEndpoint<EchoVar>, _> = App::new(Vec::new(), ());
    let resp = app.serve(request(Method::Get, "/"));
    assert_eq!(resp.status, 200);
    assert_eq!(resp.body, "");
}

#[test]
fn scoped_store_keeps_scopes_apart() {
    let mut ctx: Context<()> = Context::new(Request::new(), ());
    ctx.store_scoped(0, String::from("k"), String::from("a"));
    ctx.store_scoped(1, String::from("k"), String::from("b"));
    assert_eq!(ctx.load_scoped(0, "k"), Some(String::from("a")));
    assert_eq!(ctx.load_scoped(1, "k"), Some(String::from("b")));
    assert_eq!(ctx.load_scoped(2, "k"), None);
    // a later write to the same scope and key wins
    ctx.store_scoped(0, String::from("k"), String::from("c"));
    assert_eq!(ctx.load_scoped(0, "k"), Some(String::from("c")));
}

struct AlwaysFail;

impl Middleware<()> for AlwaysFail {
    fn handle(&self, _ctx: &mut Context<()>, _next: &mut Next<'_, Self>) -> Result<(), Status> {
        Err(Status::new(503, String::from("refused"), true))
    }
}

struct FailingStatusHandler;

impl StatusHandler<()> for FailingStatusHandler {
    fn handle_status(&self, _ctx: &mut Context<()>, status: Status) -> Result<(), Status> {
        Err(status)
    }
}

#[test]
fn route_request_stores_captures_before_the_handler() {
    let mut table: RouteTable<EchoVar> = RouteTable::new();
    table.register("/posts/:id/", vec![Method::Get], EchoVar).unwrap();
    let mut ctx: Context<()> = Context::new(request(Method::Get, "/posts/42/"), ());
    match table.route_request(&mut ctx) {
        Ok(_) => assert_eq!(ctx.load_scoped(VAR_SCOPE, "id"), Some(String::from("42"))),
        Err(_) => panic!("expected a match"),
    }
}

#[test]
fn finish_response_settles_both_outcomes() {
    let mut ctx: Context<()> = Context::new(Request::new(), ());
    ctx.response.body = String::from("payload");
    let resp = finish_response(ctx, Ok(()));
    assert_eq!(resp.status, 200);
    assert_eq!(resp.body, "payload");

    let ctx2: Context<()> = Context::new(Request::new(), ());
    let resp2 = finish_response(ctx2, Err(Status::new(503, String::from("again"), true)));
    assert_eq!(resp2.status, 500);
    assert_eq!(resp2.body, "Internal Server Error");
}

#[test]
fn failing_status_handler_still_yields_a_response() {
    let app = App::new(vec![AlwaysFail], ()).handle_status(FailingStatusHandler);
    let resp = app.serve(Request::new());
    assert_eq!(resp.status, 500);
    assert_eq!(resp.body, "Internal Server Error");
}
