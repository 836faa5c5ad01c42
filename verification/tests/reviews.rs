use git_hud::reviews::{aggregate_reviews, parse_requests, review_requests, review_stats, Json};

fn s(text: &str) -> Json {
    Json::Str(text.to_string())
}

fn obj(members: Vec<(&str, Json)>) -> Json {
    Json::Object(members.into_iter().map(|(k, v)| (k.to_string(), v)).collect())
}

fn review(login: &str, state: &str) -> Json {
    obj(vec![("author", obj(vec![("login", s(login))])), ("state", s(state))])
}

#[test]
fn aggregates_reviews_per_login() {
    let json = Json::Array(vec![
        obj(vec![(
            "reviews",
            Json::Array(vec![review("alice", "APPROVED"), review("bob", "COMMENTED")]),
        )]),
        obj(vec![("reviews", Json::Array(vec![review("alice", "CHANGES_REQUESTED")]))]),
    ]);
    let out = aggregate_reviews(&json);
    assert_eq!(out.len(), 2);
    // Sorted by review count desc → alice (2) first.
    assert_eq!(out[0].login, "alice");
    assert_eq!(out[0].reviews, 2);
    assert_eq!(out[0].approvals, 1);
    assert_eq!(out[1].login, "bob");
    assert_eq!(out[1].reviews, 1);
    assert_eq!(out[1].approvals, 0);
    // Every review is counted once.
    assert_eq!(out.iter().map(|s| s.reviews).sum::<u32>(), 3);
}

#[test]
fn parses_review_requests() {
    let json = Json::Array(vec![obj(vec![
        ("number", Json::Number(Some(12))),
        ("title", s("Fix auth")),
        ("url", s("https://github.com/o/r/pull/12")),
    ])]);
    let out = parse_requests(&json);
    assert_eq!(out.len(), 1);
    assert_eq!(out[0].number, 12);
    assert_eq!(out[0].title, "Fix auth");
}

#[test]
fn approvals_ignore_ascii_case_and_skip_anonymous_reviews() {
    let json = Json::Array(vec![obj(vec![(
        "reviews",
        Json::Array(vec![
            review("carol", "approved"),
            review("", "APPROVED"),
            obj(vec![("state", s("APPROVED"))]),
            review("carol", "Approved "),
        ]),
    )])]);
    let out = aggregate_reviews(&json);
    assert_eq!(out.len(), 1);
    assert_eq!(out[0].login, "carol");
    assert_eq!(out[0].reviews, 2);
    assert_eq!(out[0].approvals, 1);
}

#[test]
fn equal_review_counts_keep_first_seen_order() {
    let json = Json::Array(vec![obj(vec![(
        "reviews",
        Json::Array(vec![review("zed", "COMMENTED"), review("amy", "COMMENTED")]),
    )])]);
    let out = aggregate_reviews(&json);
    assert_eq!(out[0].login, "zed");
    assert_eq!(out[1].login, "amy");
}

#[test]
fn malformed_review_payloads_give_nothing() {
    assert!(review_stats(None).is_empty());
    assert!(review_stats(Some(r#"{"reviews": []}"#.to_string())).is_empty());
    assert!(review_stats(Some("not json".to_string())).is_empty());
    let no_reviews = Json::Array(vec![obj(vec![("reviews", s("none"))]), Json::Null]);
    assert!(aggregate_reviews(&no_reviews).is_empty());
}

#[test]
fn requests_skip_entries_without_a_number() {
    let json = Json::Array(vec![
        obj(vec![("title", s("no number"))]),
        obj(vec![("number", Json::Number(None)), ("title", s("negative"))]),
        obj(vec![("number", Json::Number(Some(4_294_967_303)))]),
    ]);
    let out = parse_requests(&json);
    assert_eq!(out.len(), 1);
    // Numbers are kept modulo 2^32.
    assert_eq!(out[0].number, 7);
    assert_eq!(out[0].title, "");
    assert_eq!(out[0].url, "");
    assert!(review_requests(None).is_empty());
    assert!(review_requests(Some(r#""oops""#.to_string())).is_empty());
    assert!(review_requests(Some("[{".to_string())).is_empty());
}

#[test]
fn object_lookup_takes_named_member() {
    let v = obj(vec![("a", s("x")), ("b", Json::Bool(true))]);
    assert!(v.get("b").is_some());
    assert!(v.get("c").is_none());
    assert_eq!(v.get("a").and_then(|x| x.as_str()).map(|x| x.as_str()), Some("x"));
    assert!(s("a").get("a").is_none());
}

#[test]
fn review_stats_read_gh_output() {
    let raw = r#"[
        { "reviews": [
            { "author": { "login": "alice" }, "state": "APPROVED" },
            { "author": { "login": "bob" },   "state": "COMMENTED" }
        ]},
        { "reviews": [
            { "author": { "login": "alice" }, "state": "CHANGES_REQUESTED" }
        ]}
    ]"#;
    let out = review_stats(Some(raw.to_string()));
    assert_eq!(out.len(), 2);
    assert_eq!(out[0].login, "alice");
    assert_eq!((out[0].reviews, out[0].approvals), (2, 1));
    assert_eq!(out[1].login, "bob");
    assert_eq!((out[1].reviews, out[1].approvals), (1, 0));
}

#[test]
fn review_requests_read_gh_output() {
    let raw = r#"[
        { "number": 12, "title": "Fix auth", "url": "https://github.com/o/r/pull/12" },
        { "number": -3, "title": "negative" },
        { "number": 1.5, "title": "fraction" }
    ]"#;
    let out = review_requests(Some(raw.to_string()));
    assert_eq!(out.len(), 1);
    assert_eq!(out[0].number, 12);
    assert_eq!(out[0].title, "Fix auth");
    assert_eq!(out[0].url, "https://github.com/o/r/pull/12");
}
