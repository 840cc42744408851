//! Pull request data from the GitHub CLI: the CLI's status, PR and review
//! comment records, review-thread bookkeeping, and the argument lists of
//! the API calls.
use vstd::prelude::*;
use std::collections::{HashMap, HashSet};
use crate::text::{push_decimal, decimal, str_chars};

verus! {

/// Whether the `gh` command line tool can be used.
#[derive(Clone, Copy, PartialEq, Eq, Debug, Structural)]
pub enum GhStatus {
    /// Not checked yet.
    Unknown,
    NotInstalled,
    NotAuthenticated,
    Available,
}

/// The CLI's status from its two probes: `gh --version` and `gh auth status`.
pub fn gh_status_from(version_ok: bool, auth_ok: bool) -> (s: GhStatus)
    ensures
        s == if !version_ok {
            GhStatus::NotInstalled
        } else if !auth_ok {
            GhStatus::NotAuthenticated
        } else {
            GhStatus::Available
        },
{
    if !version_ok {
        GhStatus::NotInstalled
    } else if !auth_ok {
        GhStatus::NotAuthenticated
    } else {
        GhStatus::Available
    }
}

/// A pull request.
pub struct PrInfo {
    pub number: u64,
    pub title: String,
    pub state: String,
    pub base_ref_name: String,
    pub head_ref_name: String,
    pub url: String,
    /// Lines added, as GitHub counts them.
    pub additions: u64,
    /// Lines deleted, as GitHub counts them.
    pub deletions: u64,
    /// Files changed, as GitHub counts them.
    pub changed_files: u64,
}

/// A GitHub user.
pub struct GhUser {
    pub login: String,
}

/// An inline review comment.
pub struct PrReviewComment {
    pub id: u64,
    pub body: String,
    pub path: String,
    pub line: Option<u32>,
    pub start_line: Option<u32>,
    pub side: Option<String>,
    pub start_side: Option<String>,
    pub user: GhUser,
    pub created_at: String,
    pub in_reply_to_id: Option<u64>,
}

/// Review-thread state: the resolved threads (by their first comment's
/// id) and each thread's node id (for resolving and unresolving).
pub struct ThreadInfo {
    pub resolved_ids: HashSet<u64>,
    pub thread_node_ids: HashMap<u64, String>,
}

/// A review thread as the GraphQL reply describes it.
pub struct ReviewThread {
    pub id: String,
    pub is_resolved: bool,
    /// The database id of the thread's first comment, when there is one.
    pub first_comment_id: Option<u64>,
}

/// The thread node ids of the first `k` threads, by first comment id
/// (a later thread wins).
pub open spec fn node_ids_upto(ts: Seq<ReviewThread>, k: int) -> Map<u64, Seq<char>>
    decreases k,
{
    if k <= 0 {
        Map::empty()
    } else {
        let m = node_ids_upto(ts, k - 1);
        match ts[k - 1].first_comment_id {
            Some(id) => m.insert(id, ts[k - 1].id@),
            None => m,
        }
    }
}

/// The first comment ids of the resolved threads among the first `k`.
pub open spec fn resolved_upto(ts: Seq<ReviewThread>, k: int) -> Set<u64>
    decreases k,
{
    if k <= 0 {
        Set::empty()
    } else {
        let s = resolved_upto(ts, k - 1);
        match ts[k - 1].first_comment_id {
            Some(id) => if ts[k - 1].is_resolved { s.insert(id) } else { s },
            None => s,
        }
    }
}

/// The empty thread state (what a failed query gives).
pub fn empty_thread_info() -> (t: ThreadInfo)
    ensures
        t.resolved_ids@ == Set::<u64>::empty(),
        t.thread_node_ids@.len() == 0,
{
    let t = ThreadInfo { resolved_ids: HashSet::new(), thread_node_ids: HashMap::new() };
    assert(t.thread_node_ids@ == Map::<u64, String>::empty());
    t
}

/// The thread state of the review threads of a PR.
pub fn thread_info_from(threads: &Vec<ReviewThread>) -> (t: ThreadInfo)
    ensures
        t.resolved_ids@ == resolved_upto(threads@, threads@.len() as int),
        t.thread_node_ids@.map_values(|s: String| s@) == node_ids_upto(threads@, threads@.len() as int),
{
    let mut resolved: HashSet<u64> = HashSet::new();
    let mut ids: HashMap<u64, String> = HashMap::new();
    let mut i: usize = 0;
    assert(ids@.map_values(|s: String| s@) =~= Map::<u64, Seq<char>>::empty());
    while i < threads.len()
        invariant
            0 <= i <= threads.len(),
            resolved@ == resolved_upto(threads@, i as int),
            ids@.map_values(|s: String| s@) == node_ids_upto(threads@, i as int),
        decreases threads.len() - i,
    {
        let th = &threads[i];
        match th.first_comment_id {
            Some(id) => {
                let ghost before = ids@;
                ids.insert(id, th.id.clone());
                assert(ids@.map_values(|s: String| s@) =~= before.map_values(|s: String| s@).insert(id, th.id@));
                if th.is_resolved {
                    resolved.insert(id);
                }
            },
            None => {},
        }
        i += 1;
    }
    ThreadInfo { resolved_ids: resolved, thread_node_ids: ids }
}


/// The index of the first `/` of `s`, if any.
pub open spec fn first_slash(s: Seq<char>, from: int) -> Option<int>
    decreases s.len() - from,
{
    if from < 0 || from >= s.len() {
        None
    } else if s[from] == '/' {
        Some(from)
    } else {
        first_slash(s, from + 1)
    }
}

/// `owner/name` split at its first `/` (the name keeps any later ones).
pub open spec fn owner_name_spec(s: Seq<char>) -> Option<(Seq<char>, Seq<char>)> {
    match first_slash(s, 0) {
        Some(i) => Some((s.subrange(0, i), s.subrange(i + 1, s.len() as int))),
        None => None,
    }
}

/// A string of the given characters.
pub fn string_of(cs: &[char]) -> (r: String)
    ensures
        r@ == cs@,
{
    let mut r = String::new();
    let mut i: usize = 0;
    while i < cs.len()
        invariant
            0 <= i <= cs.len(),
            r@ == cs@.subrange(0, i as int),
        decreases cs.len() - i,
    {
        let piece = char_str(cs[i]);
        r.append(piece.as_str());
        i += 1;
        assert(r@ =~= cs@.subrange(0, i as int));
    }
    r
}

/// A one-character string.
///
/// Calls `char::to_string`.
#[verifier::external_body]
fn char_str(c: char) -> (r: String)
    ensures
        r@ == seq![c],
{
    c.to_string()
}

/// Splits `owner/name` (what `gh repo view` reports) into its two parts.
pub fn split_owner_name(name_with_owner: &str) -> (r: Option<(String, String)>)
    ensures
        match (r, owner_name_spec(name_with_owner@)) {
            (Some((o, n)), Some((so, sn))) => o@ == so && n@ == sn,
            (None, None) => true,
            _ => false,
        },
{
    let cs = str_chars(name_with_owner);
    let mut i: usize = 0;
    while i < cs.len()
        invariant
            0 <= i <= cs.len(),
            cs@ == name_with_owner@,
            first_slash(cs@, 0) == first_slash(cs@, i as int),
        decreases cs.len() - i,
    {
        if cs[i] == '/' {
            let owner = string_of(vstd::slice::slice_subrange(cs.as_slice(), 0, i));
            let name = string_of(vstd::slice::slice_subrange(cs.as_slice(), i + 1, cs.len()));
            return Some((owner, name));
        }
        i += 1;
    }
    None
}


/// `a` followed by `b`.
fn cat(a: &str, b: &str) -> (r: String)
    ensures
        r@ == a@ + b@,
{
    let mut r = a.to_owned();
    r.append(b);
    r
}

/// `a` followed by the decimal digits of `n`.
fn cat_dec(a: &str, n: u64) -> (r: String)
    ensures
        r@ == a@ + decimal(n as nat),
{
    let mut r = a.to_owned();
    push_decimal(&mut r, n);
    r
}

pub open spec fn strs_view(v: Seq<String>) -> Seq<Seq<char>> {
    v.map_values(|s: String| s@)
}

/// The API path of a PR's review comments.
pub open spec fn comments_path(owner: Seq<char>, repo: Seq<char>, pr: nat) -> Seq<char> {
    "repos/"@ + owner + "/"@ + repo + "/pulls/"@ + decimal(pr) + "/comments"@
}

fn comments_path_str(owner: &str, repo: &str, pr: u64) -> (r: String)
    ensures
        r@ == comments_path(owner@, repo@, pr as nat),
{
    let mut r = "repos/".to_owned();
    r.append(owner);
    r.append("/");
    r.append(repo);
    r.append("/pulls/");
    push_decimal(&mut r, pr);
    r.append("/comments");
    r
}

/// The `gh` arguments that post an inline review comment (a range when
/// `start_line` is given).
pub open spec fn post_comment_args_spec(
    owner: Seq<char>,
    repo: Seq<char>,
    pr: nat,
    body: Seq<char>,
    sha: Seq<char>,
    path: Seq<char>,
    line: nat,
    side: Seq<char>,
    start_line: Option<nat>,
    start_side: Option<Seq<char>>,
) -> Seq<Seq<char>> {
    seq![
        "api"@,
        comments_path(owner, repo, pr),
        "-X"@,
        "POST"@,
        "-f"@,
        "body="@ + body,
        "-f"@,
        "commit_id="@ + sha,
        "-f"@,
        "path="@ + path,
        "-F"@,
        "line="@ + decimal(line),
        "-f"@,
        "side="@ + side,
    ] + match start_line {
        Some(sl) => seq!["-F"@, "start_line="@ + decimal(sl)] + match start_side {
            Some(ss) => seq!["-f"@, "start_side="@ + ss],
            None => Seq::empty(),
        },
        None => Seq::empty(),
    }
}

/// The `gh` arguments that post an inline review comment.
pub fn post_comment_args(
    owner: &str,
    repo: &str,
    pr_number: u64,
    body: &str,
    commit_sha: &str,
    path: &str,
    line: u32,
    side: &str,
    start_line: Option<u32>,
    start_side: Option<&str>,
) -> (r: Vec<String>)
    ensures
        strs_view(r@) == post_comment_args_spec(
            owner@,
            repo@,
            pr_number as nat,
            body@,
            commit_sha@,
            path@,
            line as nat,
            side@,
            match start_line {
                Some(l) => Some(l as nat),
                None => None,
            },
            match start_side {
                Some(s) => Some(s@),
                None => None,
            },
        ),
{
    let mut a: Vec<String> = Vec::new();
    a.push("api".to_owned());
    a.push(comments_path_str(owner, repo, pr_number));
    a.push("-X".to_owned());
    a.push("POST".to_owned());
    a.push("-f".to_owned());
    a.push(cat("body=", body));
    a.push("-f".to_owned());
    a.push(cat("commit_id=", commit_sha));
    a.push("-f".to_owned());
    a.push(cat("path=", path));
    a.push("-F".to_owned());
    a.push(cat_dec("line=", line as u64));
    a.push("-f".to_owned());
    a.push(cat("side=", side));
    let ghost base = strs_view(a@);
    match start_line {
        Some(sl) => {
            a.push("-F".to_owned());
            a.push(cat_dec("start_line=", sl as u64));
            match start_side {
                Some(ss) => {
                    a.push("-f".to_owned());
                    a.push(cat("start_side=", ss));
                },
                None => {},
            }
        },
        None => {},
    }
    assert(strs_view(a@) =~= post_comment_args_spec(
        owner@,
        repo@,
        pr_number as nat,
        body@,
        commit_sha@,
        path@,
        line as nat,
        side@,
        match start_line {
            Some(l) => Some(l as nat),
            None => None,
        },
        match start_side {
            Some(s) => Some(s@),
            None => None,
        },
    ));
    a
}

/// The `gh` arguments that reply to a review comment.
pub fn reply_args(owner: &str, repo: &str, pr_number: u64, comment_id: u64, body: &str) -> (r: Vec<String>)
    ensures
        strs_view(r@) == seq![
            "api"@,
            comments_path(owner@, repo@, pr_number as nat) + "/"@ + decimal(comment_id as nat) + "/replies"@,
            "-X"@,
            "POST"@,
            "-f"@,
            "body="@ + body@,
        ],
{
    let mut path = comments_path_str(owner, repo, pr_number);
    path.append("/");
    push_decimal(&mut path, comment_id);
    path.append("/replies");
    let mut a: Vec<String> = Vec::new();
    a.push("api".to_owned());
    a.push(path);
    a.push("-X".to_owned());
    a.push("POST".to_owned());
    a.push("-f".to_owned());
    a.push(cat("body=", body));
    assert(strs_view(a@) =~= seq![
        "api"@,
        comments_path(owner@, repo@, pr_number as nat) + "/"@ + decimal(comment_id as nat) + "/replies"@,
        "-X"@,
        "POST"@,
        "-f"@,
        "body="@ + body@,
    ]);
    a
}

/// The `gh` arguments that list a PR's review comments (all pages).
pub fn comments_args(owner: &str, repo: &str, pr_number: u64) -> (r: Vec<String>)
    ensures
        strs_view(r@) == seq!["api"@, comments_path(owner@, repo@, pr_number as nat), "--paginate"@],
{
    let mut a: Vec<String> = Vec::new();
    a.push("api".to_owned());
    a.push(comments_path_str(owner, repo, pr_number));
    a.push("--paginate".to_owned());
    assert(strs_view(a@) =~= seq!["api"@, comments_path(owner@, repo@, pr_number as nat), "--paginate"@]);
    a
}

/// The `gh` arguments that run a GraphQL query.
pub fn graphql_args(query: &str) -> (r: Vec<String>)
    ensures
        strs_view(r@) == seq!["api"@, "graphql"@, "-f"@, "query="@ + query@],
{
    let mut a: Vec<String> = Vec::new();
    a.push("api".to_owned());
    a.push("graphql".to_owned());
    a.push("-f".to_owned());
    a.push(cat("query=", query));
    assert(strs_view(a@) =~= seq!["api"@, "graphql"@, "-f"@, "query="@ + query@]);
    a
}

/// The end of the review-thread query, after the PR number.
pub open spec fn thread_query_tail() -> Seq<char> {
    ") {\n      reviewThreads(first: 100) {\n        nodes {\n          id\n          isResolved\n          comments(first: 1) {\n            nodes {\n              databaseId\n            }\n          }\n        }\n      }\n    }\n  }\n}"@
}

/// The GraphQL query for a PR's review threads: each thread's node id,
/// whether it is resolved, and its first comment's database id.
pub fn thread_info_query(owner: &str, repo: &str, pr_number: u64) -> (r: String)
    ensures
        r@ == "query {\n  repository(owner: \""@ + owner@ + "\", name: \""@ + repo@ + "\") {\n    pullRequest(number: "@
            + decimal(pr_number as nat) + thread_query_tail(),
{
    let mut q = "query {\n  repository(owner: \"".to_owned();
    q.append(owner);
    q.append("\", name: \"");
    q.append(repo);
    q.append("\") {\n    pullRequest(number: ");
    push_decimal(&mut q, pr_number);
    q.append(") {\n      reviewThreads(first: 100) {\n        nodes {\n          id\n          isResolved\n          comments(first: 1) {\n            nodes {\n              databaseId\n            }\n          }\n        }\n      }\n    }\n  }\n}");
    q
}

/// The GraphQL mutation that resolves (or unresolves) a review thread.
pub fn thread_mutation(thread_node_id: &str, resolve: bool) -> (r: String)
    ensures
        r@ == (if resolve { "mutation { resolveReviewThread(input: { threadId: \""@ } else {
            "mutation { unresolveReviewThread(input: { threadId: \""@
        }) + thread_node_id@ + "\" }) { thread { id } } }"@,
{
    let mut q = if resolve {
        "mutation { resolveReviewThread(input: { threadId: \"".to_owned()
    } else {
        "mutation { unresolveReviewThread(input: { threadId: \"".to_owned()
    };
    q.append(thread_node_id);
    q.append("\" }) { thread { id } } }");
    q
}

} // verus!
