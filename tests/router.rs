use ohkami::fang::{Chain, ChainStage, FangSide, Fangs};
use ohkami::method::Method;
use ohkami::router::{RouteError, Router};

fn captured(path: &str, caps: &[(Vec<u8>, ohkami::request::Slice)]) -> Vec<(String, String)> {
    caps.iter()
        .map(|(n, s)| {
            (
                String::from_utf8(n.clone()).unwrap(),
                path[s.start..s.end].to_owned(),
            )
        })
        .collect()
}

#[test]
fn static_route_is_found() {
    let mut r = Router::new();
    r.register(Method::GET, "/hello.htm", 1).unwrap();
    let (h, caps) = r.search(Method::GET, b"/hello.htm").unwrap();
    assert_eq!(h, 1);
    assert!(caps.is_empty());
    assert_eq!(r.search(Method::GET, b"/nope").err(), Some(RouteError::NotFound));
}

#[test]
fn parameter_captures_segment() {
    let mut r = Router::new();
    r.register(Method::GET, "/users/:id", 7).unwrap();
    let (h, caps) = r.search(Method::GET, b"/users/42").unwrap();
    assert_eq!(h, 7);
    assert_eq!(captured("/users/42", &caps), vec![("id".to_owned(), "42".to_owned())]);
    assert_eq!(r.search(Method::GET, b"/users/").err(), Some(RouteError::NotFound));
}

#[test]
fn wrong_method_lists_allowed() {
    let mut r = Router::new();
    r.register(Method::GET, "/hello.htm", 1).unwrap();
    r.register(Method::DELETE, "/hello.htm", 2).unwrap();
    assert_eq!(
        r.search(Method::PUT, b"/hello.htm").err(),
        Some(RouteError::MethodNotAllowed(vec![Method::GET, Method::DELETE]))
    );
}

#[test]
fn duplicate_and_invalid_routes() {
    let mut r = Router::new();
    r.register(Method::GET, "/a/:x", 1).unwrap();
    assert_eq!(r.register(Method::GET, "/a/:y", 2), Err(RouteError::DuplicateRoute));
    assert_eq!(r.register(Method::POST, "/a/:y", 3), Ok(()));
    assert_eq!(r.register(Method::GET, "a", 4), Err(RouteError::InvalidRoute));
    assert_eq!(r.register(Method::GET, "/*rest/more", 4), Err(RouteError::InvalidRoute));
    assert_eq!(r.register(Method::GET, "/:", 4), Err(RouteError::InvalidRoute));
}

#[test]
fn literal_beats_parameter_beats_catch_all() {
    let mut r = Router::new();
    r.register(Method::GET, "/files/*rest", 3).unwrap();
    r.register(Method::GET, "/files/:name", 2).unwrap();
    r.register(Method::GET, "/files/me", 1).unwrap();
    assert_eq!(r.search(Method::GET, b"/files/me").unwrap().0, 1);
    assert_eq!(r.search(Method::GET, b"/files/you").unwrap().0, 2);
    assert_eq!(r.search(Method::GET, b"/files/a/b/c").err(), Some(RouteError::NotFound));
    assert_eq!(r.search(Method::GET, b"/files/").unwrap().0, 3);
}

#[test]
fn catch_all_takes_the_rest() {
    let mut r = Router::new();
    r.register(Method::GET, "/files/*rest", 3).unwrap();
    let (h, caps) = r.search(Method::GET, b"/files/a/b/c").unwrap();
    assert_eq!(h, 3);
    assert_eq!(captured("/files/a/b/c", &caps), vec![("rest".to_owned(), "a/b/c".to_owned())]);
}

#[test]
fn root_route() {
    let mut r = Router::new();
    r.register(Method::GET, "/", 9).unwrap();
    assert_eq!(r.search(Method::GET, b"/").unwrap().0, 9);
    assert_eq!(r.search(Method::GET, b"").err(), Some(RouteError::NotFound));
}

#[test]
fn fangs_chain_by_prefix_in_order() {
    let mut f = Fangs::new();
    f.add("/", 0);
    f.add("/api", 1);
    f.add("/admin", 2);
    f.add("/api/users", 3);
    let c = f.chain("/api/users/:id", 9);
    assert_eq!(c.fangs, vec![0, 1, 3]);
    assert_eq!(c.handler, 9);
    assert_eq!(f.chain("/other", 4).fangs, vec![0]);
}

#[test]
fn registered_pattern_is_found_by_a_concrete_path() {
    let mut r = Router::new();
    r.register(Method::POST, "/a/:b/c/*d", 5).unwrap();
    assert_eq!(r.search(Method::POST, b"/a/x/c/y/z").unwrap().0, 5);
    assert_eq!(r.search(Method::POST, b"/a/x/q/y").err(), Some(RouteError::NotFound));
}

#[test]
fn chains_split_into_front_and_back_fangs() {
    let chain = Chain { fangs: vec![0, 2, 1, 3], handler: 7 };
    let sides = vec![FangSide::Front, FangSide::Back, FangSide::Back, FangSide::Front];
    let (fronts, backs) = chain.split(&sides);
    assert_eq!(fronts, vec![0, 3]);
    assert_eq!(backs, vec![2, 1]);
}

#[test]
fn registering_adds_nothing_else() {
    let mut r = Router::new();
    r.register(Method::GET, "/users/:id", 1).unwrap();
    r.register(Method::GET, "/users/me", 2).unwrap();
    assert_eq!(r.search(Method::GET, b"/users/me").unwrap().0, 2);
    assert_eq!(r.search(Method::GET, b"/users/42").unwrap().0, 1);
    assert_eq!(r.search(Method::POST, b"/users/42").err(), Some(RouteError::MethodNotAllowed(vec![Method::GET])));
    assert_eq!(r.search(Method::GET, b"/users").err(), Some(RouteError::NotFound));
    assert_eq!(r.search(Method::GET, b"/").err(), Some(RouteError::NotFound));
    assert_eq!(r.search(Method::GET, b"/users/42/x").err(), Some(RouteError::NotFound));
}

#[test]
fn chain_stages_run_fronts_then_handler_then_backs() {
    let mut stage = ChainStage::start(2);
    let mut seen = Vec::new();
    while stage != ChainStage::Done {
        seen.push(stage);
        stage = stage.next(false, 2, 1);
    }
    assert_eq!(
        seen,
        vec![ChainStage::Front(0), ChainStage::Front(1), ChainStage::Handler, ChainStage::Back(0)]
    );
    assert_eq!(ChainStage::Front(0).next(true, 2, 1), ChainStage::Back(0));
    assert_eq!(ChainStage::Front(1).next(true, 2, 0), ChainStage::Done);
    assert_eq!(ChainStage::start(0), ChainStage::Handler);
}
