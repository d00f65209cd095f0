use roa::compile::{Path, RouterError};
use roa::path::{join_path, standardize_path};

fn caps_of(p: &Path, path: &str) -> Option<Vec<(String, String)>> {
    p.matches(path)
}

#[test]
fn standardize_adds_separators() {
    assert_eq!(standardize_path("a/b"), "/a/b/");
    assert_eq!(standardize_path("/a/b"), "/a/b/");
    assert_eq!(standardize_path("a/b///"), "/a/b/");
    assert_eq!(standardize_path(""), "//");
    assert_eq!(standardize_path("/"), "//");
}

#[test]
fn join_path_trims_and_joins() {
    assert_eq!(join_path(&["usr", "/include/"]), "usr/include");
    assert_eq!(join_path(&["/a/", "/b/", "c"]), "a/b/c");
    assert_eq!(join_path(&[]), "");
}

#[test]
fn static_pattern_matches_by_equality() {
    let p = Path::parse("/user/post").unwrap();
    assert!(matches!(p, Path::Static(_)));
    assert_eq!(p.raw(), "/user/post/");
    assert_eq!(caps_of(&p, "/user/post/"), Some(vec![]));
    assert_eq!(caps_of(&p, "/user/other/"), None);
    assert_eq!(caps_of(&p, "/user/post"), None);
}

#[test]
fn variable_pattern_captures_segment() {
    let p = Path::parse("/user/:id").unwrap();
    assert!(matches!(p, Path::Dynamic(_)));
    let caps = caps_of(&p, "/user/1/").unwrap();
    assert_eq!(caps, vec![(String::from("id"), String::from("1"))]);
    let caps = caps_of(&p, "/user/65535/").unwrap();
    assert_eq!(caps, vec![(String::from("id"), String::from("65535"))]);
    // an embedded separator at the captured position does not match
    assert_eq!(caps_of(&p, "/user/a/b/"), None);
    // an empty segment does not match
    assert_eq!(caps_of(&p, "/user//"), None);
}

#[test]
fn multiple_variables_capture_each_segment() {
    let p = Path::parse("/:year/:month/:day").unwrap();
    let caps = caps_of(&p, "/2000/01/01/").unwrap();
    assert_eq!(
        caps,
        vec![
            (String::from("year"), String::from("2000")),
            (String::from("month"), String::from("01")),
            (String::from("day"), String::from("01")),
        ]
    );
    assert_eq!(caps_of(&p, "/2000/01/"), None);
}

#[test]
fn wildcard_captures_anything() {
    let p = Path::parse("/srv/static/*{path}").unwrap();
    let caps = caps_of(&p, "/srv/static/app/index.html/").unwrap();
    assert_eq!(caps, vec![(String::from("path"), String::from("app/index.html"))]);
    let caps = caps_of(&p, "/srv/static/../../index.html/").unwrap();
    assert_eq!(caps, vec![(String::from("path"), String::from("../../index.html"))]);
    // empty wildcard value
    let caps = caps_of(&p, "/srv/static//").unwrap();
    assert_eq!(caps, vec![(String::from("path"), String::from(""))]);
}

#[test]
fn wildcard_inside_segment() {
    let p = Path::parse("/usr/include/*{dir}/*{file}.h").unwrap();
    let caps = caps_of(&p, "/usr/include/boost/boost.h/").unwrap();
    assert_eq!(
        caps,
        vec![
            (String::from("dir"), String::from("boost")),
            (String::from("file"), String::from("boost")),
        ]
    );
}

#[test]
fn segment_not_of_variable_form_is_literal() {
    // `:i-d` holds a non-word character, so it matches itself literally
    let p = Path::parse("/:i-d/").unwrap();
    assert!(matches!(p, Path::Static(_)));
    assert_eq!(caps_of(&p, "/:i-d/"), Some(vec![]));
    assert_eq!(caps_of(&p, "/x/"), None);
}

#[test]
fn missing_variable_name_is_refused() {
    assert!(matches!(Path::parse("/:/"), Err(RouterError::MissingVariable(_))));
    assert!(matches!(Path::parse("*{}"), Err(RouterError::MissingVariable(_))));
}

#[test]
fn duplicate_variable_names_are_refused() {
    // segment + segment
    match Path::parse("/:id/:id/") {
        Err(RouterError::DuplicateVariable(pat, var)) => {
            assert_eq!(pat, "/:id/:id/");
            assert_eq!(var, "id");
        },
        other => panic!("expected a duplicate-variable error, got {:?}", other.is_ok()),
    }
    // wildcard + wildcard
    assert!(matches!(Path::parse("*{id}-*{id}"), Err(RouterError::DuplicateVariable(_, _))));
    // mixed
    assert!(matches!(Path::parse("/:id/*{id}"), Err(RouterError::DuplicateVariable(_, _))));
}

#[test]
fn variables_recorded_in_order() {
    let p = Path::parse("/a/:x/*{y}/").unwrap();
    match p {
        Path::Dynamic(d) => {
            assert_eq!(d.vars, vec![String::from("x"), String::from("y")]);
            assert_eq!(d.raw, "/a/:x/*{y}/");
        },
        Path::Static(_) => panic!("expected a dynamic pattern"),
    }
}
