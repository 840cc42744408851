use operator::github::{
    comments_args, graphql_args, thread_info_query, empty_thread_info, gh_status_from, post_comment_args, reply_args, split_owner_name, string_of,
    thread_info_from, thread_mutation, GhStatus, ReviewThread,
};

#[test]
fn gh_status_follows_the_two_probes() {
    assert_eq!(gh_status_from(false, false), GhStatus::NotInstalled);
    assert_eq!(gh_status_from(false, true), GhStatus::NotInstalled);
    assert_eq!(gh_status_from(true, false), GhStatus::NotAuthenticated);
    assert_eq!(gh_status_from(true, true), GhStatus::Available);
}

#[test]
fn owner_and_name_split_at_the_first_slash() {
    assert_eq!(split_owner_name("octo/repo"), Some(("octo".to_string(), "repo".to_string())));
    assert_eq!(split_owner_name("a/b/c"), Some(("a".to_string(), "b/c".to_string())));
    assert_eq!(split_owner_name("/x"), Some(("".to_string(), "x".to_string())));
    assert_eq!(split_owner_name("noslash"), None);
    assert_eq!(split_owner_name(""), None);
}

#[test]
fn string_of_keeps_the_characters() {
    assert_eq!(string_of(&['h', 'é', '!']), "hé!");
    assert_eq!(string_of(&[]), "");
}

#[test]
fn post_comment_args_for_a_single_line() {
    let a = post_comment_args("o", "r", 12, "looks good", "abc123", "src/x.rs", 40, "RIGHT", None, Some("LEFT"));
    assert_eq!(
        a,
        vec![
            "api",
            "repos/o/r/pulls/12/comments",
            "-X",
            "POST",
            "-f",
            "body=looks good",
            "-f",
            "commit_id=abc123",
            "-f",
            "path=src/x.rs",
            "-F",
            "line=40",
            "-f",
            "side=RIGHT",
        ]
    );
}

#[test]
fn post_comment_args_for_a_range() {
    let a = post_comment_args("o", "r", 7, "b", "s", "p", 20, "RIGHT", Some(18), Some("LEFT"));
    assert_eq!(a.len(), 18);
    assert_eq!(&a[14..], &["-F", "start_line=18", "-f", "start_side=LEFT"]);
    let b = post_comment_args("o", "r", 7, "b", "s", "p", 20, "RIGHT", Some(18), None);
    assert_eq!(&b[14..], &["-F", "start_line=18"]);
}

#[test]
fn reply_args_name_the_comment() {
    assert_eq!(
        reply_args("octo", "repo", 3, 991, "thanks"),
        vec!["api", "repos/octo/repo/pulls/3/comments/991/replies", "-X", "POST", "-f", "body=thanks"]
    );
}

#[test]
fn thread_mutations_resolve_and_unresolve() {
    assert_eq!(
        thread_mutation("T_1", true),
        "mutation { resolveReviewThread(input: { threadId: \"T_1\" }) { thread { id } } }"
    );
    assert_eq!(
        thread_mutation("T_1", false),
        "mutation { unresolveReviewThread(input: { threadId: \"T_1\" }) { thread { id } } }"
    );
}

#[test]
fn thread_info_indexes_threads_by_first_comment() {
    let threads = vec![
        ReviewThread { id: "A".to_string(), is_resolved: true, first_comment_id: Some(10) },
        ReviewThread { id: "B".to_string(), is_resolved: false, first_comment_id: Some(20) },
        ReviewThread { id: "C".to_string(), is_resolved: true, first_comment_id: None },
        ReviewThread { id: "D".to_string(), is_resolved: true, first_comment_id: Some(20) },
    ];
    let t = thread_info_from(&threads);
    assert_eq!(t.resolved_ids.len(), 2);
    assert!(t.resolved_ids.contains(&10));
    assert!(t.resolved_ids.contains(&20));
    assert_eq!(t.thread_node_ids.len(), 2);
    assert_eq!(t.thread_node_ids.get(&10).map(|s| s.as_str()), Some("A"));
    assert_eq!(t.thread_node_ids.get(&20).map(|s| s.as_str()), Some("D"));
    let e = empty_thread_info();
    assert!(e.resolved_ids.is_empty() && e.thread_node_ids.is_empty());
}

#[test]
fn comment_listing_and_graphql_arguments() {
    assert_eq!(comments_args("o", "r", 5), vec!["api", "repos/o/r/pulls/5/comments", "--paginate"]);
    assert_eq!(graphql_args("query { x }"), vec!["api", "graphql", "-f", "query=query { x }"]);
    let q = thread_info_query("octo", "repo", 42);
    assert!(q.starts_with("query {\n  repository(owner: \"octo\", name: \"repo\") {\n    pullRequest(number: 42) {\n      reviewThreads(first: 100) {"));
    assert!(q.ends_with("databaseId\n            }\n          }\n        }\n      }\n    }\n  }\n}"));
}
