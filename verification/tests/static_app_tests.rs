use roa::chain::{Middleware, Next};
use roa::context::{Context, Request};
use roa::static_app::StaticApp;
use roa::status::Status;

struct Tag;

impl Middleware<u32> for Tag {
    fn handle(&self, ctx: &mut Context<u32>, next: &mut Next<'_, Self>) -> Result<(), Status> {
        ctx.state += 1;
        next.call(ctx)
    }
}

#[test]
fn test() {
    let x: i32 = 1;
    let _a: Box<dyn Fn() -> i32> = Box::new(|| x);
}

#[test]
fn register_appends_and_run_drives() {
    let app = StaticApp::new().register(Tag).register(Tag);
    assert_eq!(app.chain.len(), 2);
    let mut ctx: Context<u32> = Context::new(Request::new(), 0);
    let r = app.run(&mut ctx);
    assert!(r.is_ok());
    assert_eq!(ctx.state, 2);
}

#[test]
fn leak_pins_the_app() {
    let app: &'static StaticApp<Tag> = StaticApp::new().register(Tag).leak();
    let mut ctx: Context<u32> = Context::new(Request::new(), 0);
    assert!(app.run(&mut ctx).is_ok());
    assert_eq!(ctx.state, 1);
}
