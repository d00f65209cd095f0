use roa::compile::RouterError;
use roa::method::Method;
use roa::router::{RouteOutcome, RouteTable};

#[test]
fn registration_order_decides() {
    // a dynamic pattern registered first wins over a later static one
    let mut table: RouteTable<u32> = RouteTable::new();
    table.register("/user/:id/", vec![Method::Get], 1).unwrap();
    table.register("/user/static/", vec![Method::Get], 2).unwrap();
    match table.resolve(Method::Get, "/user/static/") {
        RouteOutcome::Matched(h, caps) => {
            assert_eq!(*h, 1);
            assert_eq!(caps, vec![(String::from("id"), String::from("static"))]);
        },
        _ => panic!("expected a match"),
    }
}

#[test]
fn method_not_allowed_reports_registered_methods() {
    let mut table: RouteTable<u32> = RouteTable::new();
    table.register("/posts/:id/", vec![Method::Get, Method::Put], 7).unwrap();
    match table.resolve(Method::Post, "/posts/5/") {
        RouteOutcome::MethodNotAllowed(ms) => {
            assert_eq!(ms.len(), 2);
            assert!(ms.contains(&Method::Get));
            assert!(ms.contains(&Method::Put));
        },
        _ => panic!("expected method-not-allowed, not path-not-found"),
    }
    assert!(matches!(table.resolve(Method::Get, "/nope/"), RouteOutcome::PathNotFound));
}

#[test]
fn later_registration_for_same_method_wins() {
    let mut table: RouteTable<u32> = RouteTable::new();
    table.register("/x/", vec![Method::Get], 1).unwrap();
    table.register("/x/", vec![Method::Get], 2).unwrap();
    match table.resolve(Method::Get, "/x/") {
        RouteOutcome::Matched(h, _) => assert_eq!(*h, 2),
        _ => panic!("expected a match"),
    }
}

#[test]
fn same_shape_different_names_is_a_conflict() {
    let mut table: RouteTable<u32> = RouteTable::new();
    table.register("/user/:id/", vec![Method::Get], 1).unwrap();
    match table.register("/user/:name/", vec![Method::Post], 2) {
        Err(RouterError::ConflictPath(a, b)) => {
            assert_eq!(a, "/user/:id/");
            assert_eq!(b, "/user/:name/");
        },
        _ => panic!("expected a route conflict"),
    }
}

#[test]
fn register_rejects_bad_templates() {
    let mut table: RouteTable<u32> = RouteTable::new();
    assert!(matches!(
        table.register("/x/:/", vec![Method::Get], 1),
        Err(RouterError::MissingVariable(_))
    ));
    assert!(matches!(
        table.register("/:a/:a/", vec![Method::Get], 1),
        Err(RouterError::DuplicateVariable(_, _))
    ));
}

#[test]
fn paths_are_standardized_before_matching() {
    let mut table: RouteTable<u32> = RouteTable::new();
    table.register("user/:id", vec![Method::Get], 3).unwrap();
    match table.resolve(Method::Get, "/user/42") {
        RouteOutcome::Matched(h, caps) => {
            assert_eq!(*h, 3);
            assert_eq!(caps, vec![(String::from("id"), String::from("42"))]);
        },
        _ => panic!("expected a match"),
    }
}
