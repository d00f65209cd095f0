use roa::context::{Context, Request};
use roa::query::{store_query_pairs, Query, QUERY_SCOPE};

fn ctx_with_query(q: &str) -> Context<()> {
    let mut req = Request::new();
    req.query = String::from(q);
    let mut ctx = Context::new(req, ());
    store_query_pairs(&mut ctx);
    ctx
}

#[test]
fn query() {
    // miss key
    let ctx = ctx_with_query("");
    assert!(ctx.query("name").is_none());

    // string value
    let ctx = ctx_with_query("name=Hexilee");
    assert_eq!(ctx.must_query("name").unwrap(), "Hexilee");
}

#[test]
fn query_parse() {
    // invalid int value
    let ctx = ctx_with_query("age=Hexilee");
    assert!(ctx.must_query("age").unwrap().parse::<u64>().is_err());

    let ctx = ctx_with_query("age=120");
    assert_eq!(120, ctx.must_query("age").unwrap().parse::<u64>().unwrap());
}

#[test]
fn query_action() {
    let ctx = ctx_with_query("name=Hexilee&lang=rust");
    assert_eq!(ctx.must_query("name").unwrap(), "Hexilee");
    assert_eq!(ctx.must_query("lang").unwrap(), "rust");
}

#[test]
fn missing_query_is_a_400() {
    let ctx = ctx_with_query("name=Hexilee");
    match ctx.must_query("age") {
        Err(e) => {
            assert_eq!(e.code, 400);
            assert!(e.expose);
            assert_eq!(e.message, "query `age` is required");
        },
        Ok(_) => panic!("expected a missing-query error"),
    }
}

#[test]
fn query_decoding_and_last_pair_wins() {
    let ctx = ctx_with_query("a=x%20y&b=1+2&a=last");
    assert_eq!(ctx.query("a").unwrap(), "last");
    assert_eq!(ctx.query("b").unwrap(), "1 2");
    // pairs land in the query scope only
    assert_eq!(ctx.load_scoped(QUERY_SCOPE, "b"), Some(String::from("1 2")));
    assert_eq!(ctx.load_scoped(0, "b"), None);
}
