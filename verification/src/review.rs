//! Writing review comments and replies, and resolving threads, on the
//! pull-request panel: what each step changes and what request it hands to
//! the caller to send.
use vstd::prelude::*;
use crate::github::PrReviewComment;
use crate::panels::{CommentSide, PrDiffPanel};

verus! {

/// A new inline comment to post.
pub struct CommentRequest {
    pub work_dir: String,
    pub pr_number: u64,
    pub body: String,
    pub commit_sha: String,
    pub path: String,
    /// The last line the comment covers.
    pub line: u32,
    pub side: String,
    /// The first line, for a comment on several lines.
    pub start_line: Option<u32>,
    pub start_side: Option<String>,
}

/// A reply to post.
pub struct ReplyRequest {
    pub work_dir: String,
    pub pr_number: u64,
    pub comment_id: u64,
    pub body: String,
}

/// A thread to resolve or unresolve.
pub struct ResolveRequest {
    pub work_dir: String,
    pub thread_node_id: String,
    /// Whether to resolve (else unresolve).
    pub resolve: bool,
}

impl PrDiffPanel {
    /// Starts writing a comment on lines `start_line..=end_line` of `path`.
    pub fn start_comment(&mut self, path: String, start_line: u32, end_line: u32, side: CommentSide)
        ensures
            (*final(self)) == (PrDiffPanel { active_comment_line: Some((path, start_line, end_line, side)), ..*old(self) }),
    {
        self.active_comment_line = Some((path, start_line, end_line, side));
    }

    /// Drops the comment being written.
    pub fn cancel_comment(&mut self)
        ensures
            (*final(self)) == (PrDiffPanel { active_comment_line: None, ..*old(self) }),
    {
        self.active_comment_line = None;
    }

    /// Submitting a comment: when the panel has a working directory, a
    /// pull request, a line range and the head commit `head_sha`, the
    /// request to post (on the range's last line, with its first line for
    /// a range of several lines) and the panel marked as submitting;
    /// otherwise nothing.
    pub fn comment_request(&mut self, body: String, head_sha: Option<String>) -> (r: Option<CommentRequest>)
        ensures
            (old(self).work_dir is None || old(self).pr_info is None || old(self).active_comment_line is None
                || head_sha is None) ==> r is None && *final(self) == *old(self),
            (old(self).work_dir is Some && old(self).pr_info is Some && old(self).active_comment_line is Some
                && head_sha is Some) ==> {
                let (path, a, b, side) = old(self).active_comment_line->0;
                let side_s = if side == CommentSide::Left { "LEFT"@ } else { "RIGHT"@ };
                &&& (*final(self)) == (PrDiffPanel { submitting_comment: true, ..*old(self) })
                &&& r matches Some(q) && {
                    &&& q.work_dir@ == old(self).work_dir->0@
                    &&& q.pr_number == old(self).pr_info->0.number
                    &&& q.body@ == body@
                    &&& q.commit_sha@ == head_sha->0@
                    &&& q.path@ == path@
                    &&& q.line == (if a > b { a } else { b })
                    &&& q.side@ == side_s
                    &&& q.start_line == (if a != b { Some(if a < b { a } else { b }) } else { None })
                    &&& (if a != b { q.start_side matches Some(s) && s@ == side_s } else { q.start_side is None })
                }
            },
    {
        let work_dir = match &self.work_dir {
            Some(w) => w.clone(),
            None => {
                return None;
            },
        };
        let pr_number = match &self.pr_info {
            Some(p) => p.number,
            None => {
                return None;
            },
        };
        let (path, a, b, side) = match &self.active_comment_line {
            Some(x) => (x.0.clone(), x.1, x.2, x.3),
            None => {
                return None;
            },
        };
        let commit_sha = match head_sha {
            Some(s) => s,
            None => {
                return None;
            },
        };
        let side_str = side.api_str().to_owned();
        let multi = a != b;
        let start = if a < b { a } else { b };
        let end = if a > b { a } else { b };
        self.submitting_comment = true;
        Some(
            CommentRequest {
                work_dir,
                pr_number,
                body,
                commit_sha,
                path,
                line: end,
                side: side_str.clone(),
                start_line: if multi { Some(start) } else { None },
                start_side: if multi { Some(side_str) } else { None },
            },
        )
    }

    /// The answer to a posted comment: the new comment joins the list and
    /// the form closes; after a failure the form stays open for a retry.
    pub fn comment_posted(&mut self, result: Result<PrReviewComment, String>)
        ensures
            match result {
                Ok(c) => (*final(self)) == (PrDiffPanel {
                    submitting_comment: false,
                    pr_comments: final(self).pr_comments,
                    active_comment_line: None,
                    ..*old(self)
                }) && final(self).pr_comments@ == old(self).pr_comments@.push(c),
                Err(_) => (*final(self)) == (PrDiffPanel { submitting_comment: false, ..*old(self) }),
            },
    {
        self.submitting_comment = false;
        match result {
            Ok(c) => {
                self.pr_comments.push(c);
                self.active_comment_line = None;
            },
            Err(_) => {},
        }
    }

    /// Starts a reply to comment `comment_id` (at index `comment_idx`).
    pub fn start_reply(&mut self, comment_id: u64, comment_idx: usize)
        ensures
            (*final(self)) == (PrDiffPanel { reply_to: Some((comment_id, comment_idx)), ..*old(self) }),
    {
        self.reply_to = Some((comment_id, comment_idx));
    }

    /// Drops the reply being written.
    pub fn cancel_reply(&mut self)
        ensures
            (*final(self)) == (PrDiffPanel { reply_to: None, ..*old(self) }),
    {
        self.reply_to = None;
    }

    /// Submitting a reply: when the panel has a working directory, a pull
    /// request and a comment to reply to, the request to post and the panel
    /// marked as submitting; otherwise nothing.
    pub fn reply_request(&mut self, body: String) -> (r: Option<ReplyRequest>)
        ensures
            (old(self).work_dir is None || old(self).pr_info is None || old(self).reply_to is None) ==> r is None
                && *final(self) == *old(self),
            (old(self).work_dir is Some && old(self).pr_info is Some && old(self).reply_to is Some) ==> {
                &&& (*final(self)) == (PrDiffPanel { submitting_reply: true, ..*old(self) })
                &&& r matches Some(q) && {
                    &&& q.work_dir@ == old(self).work_dir->0@
                    &&& q.pr_number == old(self).pr_info->0.number
                    &&& (match old(self).reply_to {
                        Some((id, _)) => q.comment_id == id,
                        None => false,
                    })
                    &&& q.body@ == body@
                }
            },
    {
        let work_dir = match &self.work_dir {
            Some(w) => w.clone(),
            None => {
                return None;
            },
        };
        let pr_number = match &self.pr_info {
            Some(p) => p.number,
            None => {
                return None;
            },
        };
        let comment_id = match self.reply_to {
            Some((id, _)) => id,
            None => {
                return None;
            },
        };
        self.submitting_reply = true;
        Some(ReplyRequest { work_dir, pr_number, comment_id, body })
    }

    /// The answer to a posted reply: the reply joins the list and the form
    /// closes; after a failure the form stays open for a retry.
    pub fn reply_posted(&mut self, result: Result<PrReviewComment, String>)
        ensures
            match result {
                Ok(c) => (*final(self)) == (PrDiffPanel {
                    submitting_reply: false,
                    pr_comments: final(self).pr_comments,
                    reply_to: None,
                    ..*old(self)
                }) && final(self).pr_comments@ == old(self).pr_comments@.push(c),
                Err(_) => (*final(self)) == (PrDiffPanel { submitting_reply: false, ..*old(self) }),
            },
    {
        self.submitting_reply = false;
        match result {
            Ok(c) => {
                self.pr_comments.push(c);
                self.reply_to = None;
            },
            Err(_) => {},
        }
    }

    /// Resolving or unresolving the thread of comment `comment_id`: when
    /// the panel has a working directory and the thread's node id, the
    /// thread flips at once (a resolved one is no longer shown expanded)
    /// and the request to send comes back; otherwise nothing.
    pub fn toggle_resolve_thread(&mut self, comment_id: u64) -> (r: Option<ResolveRequest>)
        ensures
            (old(self).work_dir is None || !old(self).thread_node_ids@.contains_key(comment_id)) ==> r is None
                && *final(self) == *old(self),
            (old(self).work_dir is Some && old(self).thread_node_ids@.contains_key(comment_id)) ==> {
                let was = old(self).resolved_thread_ids@.contains(comment_id);
                &&& r matches Some(q) && {
                    &&& q.work_dir@ == old(self).work_dir->0@
                    &&& q.thread_node_id@ == old(self).thread_node_ids@[comment_id]@
                    &&& q.resolve == !was
                }
                &&& final(self).resolved_thread_ids@ == (if was {
                    old(self).resolved_thread_ids@.remove(comment_id)
                } else {
                    old(self).resolved_thread_ids@.insert(comment_id)
                })
                &&& final(self).expanded_resolved@ == (if was {
                    old(self).expanded_resolved@
                } else {
                    old(self).expanded_resolved@.remove(comment_id)
                })
                &&& (*final(self)) == (PrDiffPanel {
                    resolved_thread_ids: final(self).resolved_thread_ids,
                    expanded_resolved: final(self).expanded_resolved,
                    ..*old(self)
                })
            },
    {
        let work_dir = match &self.work_dir {
            Some(w) => w.clone(),
            None => {
                return None;
            },
        };
        let node_id = match self.thread_node_ids.get(&comment_id) {
            Some(n) => n.clone(),
            None => {
                return None;
            },
        };
        let was = self.resolved_thread_ids.contains(&comment_id);
        if was {
            self.resolved_thread_ids.remove(&comment_id);
        } else {
            self.resolved_thread_ids.insert(comment_id);
            self.expanded_resolved.remove(&comment_id);
        }
        Some(ResolveRequest { work_dir, thread_node_id: node_id, resolve: !was })
    }

    /// A resolve request failed: the thread flips back.
    pub fn resolve_failed(&mut self, comment_id: u64, was_resolved: bool)
        ensures
            final(self).resolved_thread_ids@ == (if was_resolved {
                old(self).resolved_thread_ids@.insert(comment_id)
            } else {
                old(self).resolved_thread_ids@.remove(comment_id)
            }),
            (*final(self)) == (PrDiffPanel { resolved_thread_ids: final(self).resolved_thread_ids, ..*old(self) }),
    {
        if was_resolved {
            self.resolved_thread_ids.insert(comment_id);
        } else {
            self.resolved_thread_ids.remove(&comment_id);
        }
    }
}

} // verus!
