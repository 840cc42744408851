//! Prompts copied from pull-request review comments: the file and lines a
//! comment is on with the code they hold, and the comment threads.
use vstd::prelude::*;
use crate::diff::{DiffFile, DiffHunk, DiffLine, LineView, hunks_view, hunk_view};
use crate::github::PrReviewComment;
use crate::panels::PrDiffPanel;
use crate::text::{decimal, push_decimal, str_eq, str_trim_end, trim_end_spec};

verus! {

/// The lines of the hunks, hunk after hunk.
pub open spec fn lines_in(hs: Seq<Seq<LineView>>) -> Seq<LineView>
    decreases hs.len(),
{
    if hs.len() == 0 {
        seq![]
    } else {
        lines_in(hs.drop_last()) + hs.last()
    }
}

/// The diff lines of every file at `path`, file after file.
pub open spec fn path_lines(files: Seq<DiffFile>, path: Seq<char>) -> Seq<LineView>
    decreases files.len(),
{
    if files.len() == 0 {
        seq![]
    } else {
        path_lines(files.drop_last(), path) + if files.last().path@ == path {
            lines_in(hunks_view(&files.last()))
        } else {
            seq![]
        }
    }
}

/// The line number a prompt reads for a diff line: the old one for a
/// comment on the left side, else the new one (or the old one without it).
pub open spec fn prompt_lineno(l: LineView, left: bool) -> Option<u32> {
    if left {
        l.old_lineno
    } else {
        match l.new_lineno {
            Some(n) => Some(n),
            None => l.old_lineno,
        }
    }
}

/// The trimmed text of the lines numbered `start..=end`.
pub open spec fn code_lines(ls: Seq<LineView>, start: u32, end: u32, left: bool) -> Seq<Seq<char>>
    decreases ls.len(),
{
    if ls.len() == 0 {
        seq![]
    } else {
        let prev = code_lines(ls.drop_last(), start, end, left);
        match prompt_lineno(ls.last(), left) {
            Some(n) => if start <= n <= end {
                prev.push(trim_end_spec(ls.last().content))
            } else {
                prev
            },
            None => prev,
        }
    }
}

/// Texts joined with `sep` between them.
pub open spec fn joined(ts: Seq<Seq<char>>, sep: Seq<char>) -> Seq<char>
    decreases ts.len(),
{
    if ts.len() == 0 {
        seq![]
    } else if ts.len() == 1 {
        ts[0]
    } else {
        joined(ts.drop_last(), sep) + sep + ts.last()
    }
}

/// The first line a comment covers: its start line, else its line, else 0.
pub open spec fn comment_start(c: PrReviewComment) -> u32 {
    match c.start_line {
        Some(s) => s,
        None => match c.line {
            Some(l) => l,
            None => 0,
        },
    }
}

/// The last line a comment covers: its line, else its first line.
pub open spec fn comment_end(c: PrReviewComment) -> u32 {
    match c.line {
        Some(l) => l,
        None => comment_start(c),
    }
}

/// Whether a comment is on the left (old) side.
pub open spec fn on_left(c: PrReviewComment) -> bool {
    c.side matches Some(s) && s@ == "LEFT"@
}

/// "line N", or "lines A-B" for a range.
pub open spec fn line_label(start: u32, end: u32) -> Seq<char> {
    if start == end {
        "line "@ + decimal(end as nat)
    } else {
        "lines "@ + decimal(start as nat) + "-"@ + decimal(end as nat)
    }
}

/// The header of a prompt about comment `c`: where it is, and the code on
/// those lines in a fenced block (none when no diff line is there).
pub open spec fn prompt_header(files: Seq<DiffFile>, c: PrReviewComment) -> Seq<char> {
    let start = comment_start(c);
    let end = comment_end(c);
    let code = code_lines(path_lines(files, c.path@), start, end, on_left(c));
    let block = if code.len() == 0 {
        ""@
    } else {
        "\n```\n"@ + joined(code, "\n"@) + "\n```\n"@
    };
    "Address this PR comment in "@ + c.path@ + " ("@ + line_label(start, end) + "):"@ + block
}

/// Appends the code lines of the hunks' lines (see [`code_lines`]).
fn collect_code(hunks: &Vec<DiffHunk>, start: u32, end: u32, left: bool, out: &mut Vec<String>)
    ensures
        ({
            let hs = hunks@.map_values(|h: DiffHunk| hunk_view(h));
            forall|pre: Seq<LineView>| old(out)@.map_values(|s: String| s@) == code_lines(pre, start, end, left)
                ==> final(out)@.map_values(|s: String| s@) == code_lines(pre + lines_in(hs), start, end, left)
        }),
{
    let ghost hs = hunks@.map_values(|h: DiffHunk| hunk_view(h));
    let ghost o0 = old(out)@.map_values(|s: String| s@);
    let ghost mut done: Seq<LineView> = seq![];
    assert(hs.take(0) =~= Seq::<Seq<LineView>>::empty());
    let mut h: usize = 0;
    while h < hunks.len()
        invariant
            0 <= h <= hunks@.len(),
            hs == hunks@.map_values(|h: DiffHunk| hunk_view(h)),
            o0 == old(out)@.map_values(|s: String| s@),
            done == lines_in(hs.take(h as int)),
            forall|pre: Seq<LineView>| o0 == code_lines(pre, start, end, left)
                ==> out@.map_values(|s: String| s@) == code_lines(pre + done, start, end, left),
        decreases hunks@.len() - h,
    {
        let lines = &hunks[h].lines;
        let ghost hv = hunk_view(hunks[h as int]);
        let mut j: usize = 0;
        let ghost d0 = done;
        while j < lines.len()
            invariant
                0 <= j <= lines@.len(),
                h < hunks@.len(),
                *lines == hunks@[h as int].lines,
                hv == hunk_view(hunks@[h as int]),
                o0 == old(out)@.map_values(|s: String| s@),
                d0 == lines_in(hs.take(h as int)),
                done == d0 + hv.take(j as int),
                forall|pre: Seq<LineView>| o0 == code_lines(pre, start, end, left)
                    ==> out@.map_values(|s: String| s@) == code_lines(pre + done, start, end, left),
            decreases lines@.len() - j,
        {
            let l = &lines[j];
            let ghost lv = l@;
            assert(hv[j as int] == lv);
            let ln = if left {
                l.old_lineno
            } else {
                match l.new_lineno {
                    Some(n) => Some(n),
                    None => l.old_lineno,
                }
            };
            let ghost before = out@.map_values(|s: String| s@);
            let ghost nd = done.push(lv);
            assert forall|pre: Seq<LineView>| #![auto] (pre + nd).drop_last() =~= pre + done by {}
            match ln {
                Some(n) => {
                    if start <= n && n <= end {
                        let t = str_trim_end(l.content.as_str()).to_owned();
                        out.push(t);
                        assert(out@.map_values(|s: String| s@) =~= before.push(trim_end_spec(lv.content)));
                    }
                },
                None => {},
            }
            proof {
                assert forall|pre: Seq<LineView>| o0 == code_lines(pre, start, end, left) implies out@.map_values(
                    |s: String| s@,
                ) == code_lines(pre + nd, start, end, left) by {
                    assert((pre + nd).drop_last() =~= pre + done);
                    assert((pre + nd).last() == lv);
                }
                done = nd;
                assert(hv.take(j + 1) =~= hv.take(j as int).push(lv));
            }
            j += 1;
        }
        proof {
            assert(hv.take(j as int) =~= hv);
            assert(hs.take(h + 1).drop_last() =~= hs.take(h as int));
            assert(hs.take(h + 1).last() == hv);
        }
        h += 1;
    }
    assert(hs.take(h as int) =~= hs);
}

/// Texts joined with line feeds.
fn join_nl_strings(ts: &Vec<String>) -> (r: String)
    ensures
        r@ == joined(ts@.map_values(|s: String| s@), "\n"@),
{
    let ghost tv = ts@.map_values(|s: String| s@);
    let mut r = String::new();
    let mut i: usize = 0;
    assert(tv.take(0) =~= Seq::<Seq<char>>::empty());
    while i < ts.len()
        invariant
            0 <= i <= ts@.len(),
            tv == ts@.map_values(|s: String| s@),
            r@ == joined(tv.take(i as int), "\n"@),
        decreases ts@.len() - i,
    {
        assert(tv.take(i + 1).drop_last() =~= tv.take(i as int));
        if i > 0 {
            r.append("\n");
        }
        r.append(ts[i].as_str());
        proof {
            if i == 0 {
                assert(tv.take(1) =~= seq![tv[0]]);
            }
        }
        i += 1;
    }
    assert(tv.take(i as int) =~= tv);
    r
}

impl PrDiffPanel {
    /// The header of a prompt about a review comment: the file and lines it
    /// is on, and the diff's code on those lines (see [`prompt_header`]).
    pub fn build_prompt_header(&self, comment: &PrReviewComment) -> (r: String)
        ensures
            r@ == prompt_header(self.diff_files@, *comment),
    {
        let start = match comment.start_line {
            Some(s) => s,
            None => match comment.line {
                Some(l) => l,
                None => 0,
            },
        };
        let end = match comment.line {
            Some(l) => l,
            None => start,
        };
        let left = match &comment.side {
            Some(s) => str_eq(s.as_str(), "LEFT"),
            None => false,
        };
        let mut code: Vec<String> = Vec::new();
        let ghost files = self.diff_files@;
        let mut i: usize = 0;
        assert(files.take(0) =~= Seq::<DiffFile>::empty());
        while i < self.diff_files.len()
            invariant
                0 <= i <= files.len(),
                files == self.diff_files@,
                code@.map_values(|s: String| s@) == code_lines(path_lines(files.take(i as int), comment.path@), start, end, left),
            decreases files.len() - i,
        {
            let f = &self.diff_files[i];
            let ghost pre = path_lines(files.take(i as int), comment.path@);
            proof {
                assert(files.take(i + 1).drop_last() =~= files.take(i as int));
                assert(files.take(i + 1).last() == *f);
            }
            if str_eq(f.path.as_str(), comment.path.as_str()) {
                collect_code(&f.hunks, start, end, left, &mut code);
                assert(hunks_view(f) == f.hunks@.map_values(|h: DiffHunk| hunk_view(h)));
            } else {
                assert(pre + Seq::<LineView>::empty() =~= pre);
            }
            i += 1;
        }
        assert(files.take(i as int) =~= files);
        let ghost code_v = code@.map_values(|s: String| s@);
        let mut r = "Address this PR comment in ".to_owned();
        r.append(comment.path.as_str());
        r.append(" (");
        let ghost head = r@;
        if start == end {
            r.append("line ");
            push_decimal(&mut r, end as u64);
        } else {
            r.append("lines ");
            push_decimal(&mut r, start as u64);
            r.append("-");
            push_decimal(&mut r, end as u64);
        }
        assert(r@ =~= head + line_label(start, end));
        r.append("):");
        let ghost upto = r@;
        if code.len() > 0 {
            r.append("\n```\n");
            let body = join_nl_strings(&code);
            r.append(body.as_str());
            r.append("\n```\n");
            assert(r@ =~= upto + ("\n```\n"@ + joined(code_v, "\n"@) + "\n```\n"@));
        } else {
            proof {
                reveal_strlit("");
            }
            assert(r@ =~= upto + ""@);
        }
        assert(r@ =~= prompt_header(self.diff_files@, *comment));
        r
    }
}

/// A comment as a prompt line: "@author: body".
pub open spec fn said(author: Seq<char>, body: Seq<char>) -> Seq<char> {
    "@"@ + author + ": "@ + body
}

impl PrDiffPanel {
    /// A prompt for one comment: the header, then "@author: body".
    pub fn build_single_comment_prompt(&self, comment: &PrReviewComment, body: &str, author: &str) -> (r: String)
        ensures
            r@ == prompt_header(self.diff_files@, *comment) + "\n"@ + said(author@, body@),
    {
        let mut r = self.build_prompt_header(comment);
        r.append("\n@");
        r.append(author);
        r.append(": ");
        r.append(body);
        proof {
            reveal_strlit("\n@");
            reveal_strlit("\n");
            reveal_strlit("@");
        }
        assert(r@ =~= prompt_header(self.diff_files@, *comment) + "\n"@ + said(author@, body@));
        r
    }
}

/// The author and body of a comment.
pub open spec fn voice(c: PrReviewComment) -> (Seq<char>, Seq<char>) {
    (c.user.login@, c.body@)
}

/// The thread under a comment: the comment, then each reply indented.
pub open spec fn thread_text(first: (Seq<char>, Seq<char>), replies: Seq<(Seq<char>, Seq<char>)>) -> Seq<char>
    decreases replies.len(),
{
    if replies.len() == 0 {
        said(first.0, first.1)
    } else {
        thread_text(first, replies.drop_last()) + "\n  "@ + said(replies.last().0, replies.last().1)
    }
}

/// The authors and bodies of replies.
pub open spec fn voices(replies: Seq<&PrReviewComment>) -> Seq<(Seq<char>, Seq<char>)> {
    Seq::new(replies.len(), |i: int| voice(*replies[i]))
}

impl PrDiffPanel {
    /// A prompt for a whole thread: the header, then the comment and its
    /// replies (see [`thread_text`]).
    pub fn build_thread_prompt(&self, comment: &PrReviewComment, replies: &Vec<&PrReviewComment>) -> (r: String)
        ensures
            r@ == prompt_header(self.diff_files@, *comment) + "\n"@ + thread_text(voice(*comment), voices(replies@)),
    {
        let header = self.build_prompt_header(comment);
        let mut thread = "@".to_owned();
        thread.append(comment.user.login.as_str());
        thread.append(": ");
        thread.append(comment.body.as_str());
        assert(thread@ =~= said(comment.user.login@, comment.body@));
        let ghost vs = voices(replies@);
        let mut i: usize = 0;
        assert(vs.take(0) =~= Seq::<(Seq<char>, Seq<char>)>::empty());
        while i < replies.len()
            invariant
                0 <= i <= replies@.len(),
                vs == voices(replies@),
                thread@ == thread_text(voice(*comment), vs.take(i as int)),
            decreases replies@.len() - i,
        {
            assert(vs.take(i + 1).drop_last() =~= vs.take(i as int));
            let ghost before = thread@;
            let c = replies[i];
            thread.append("\n  @");
            thread.append(c.user.login.as_str());
            thread.append(": ");
            thread.append(c.body.as_str());
            assert(vs.take(i + 1).last() == voice(*c));
            proof {
                reveal_strlit("\n  @");
                reveal_strlit("\n  ");
                reveal_strlit("@");
            }
            assert(thread@ =~= before + "\n  "@ + said(c.user.login@, c.body@));
            i += 1;
        }
        assert(vs.take(i as int) =~= vs);
        let mut r = header;
        r.append("\n");
        r.append(thread.as_str());
        assert(r@ =~= prompt_header(self.diff_files@, *comment) + "\n"@ + thread_text(voice(*comment), voices(replies@)));
        r
    }
}

/// The replies to comment `id`, in order.
pub open spec fn replies_to(cs: Seq<PrReviewComment>, id: u64) -> Seq<PrReviewComment> {
    cs.filter(|c: PrReviewComment| c.in_reply_to_id == Some(id))
}

/// The thread prompts of the unresolved top-level comments among the first
/// `k`.
pub open spec fn unresolved_sections(files: Seq<DiffFile>, cs: Seq<PrReviewComment>, resolved: Set<u64>, k: int) -> Seq<Seq<char>>
    decreases k,
{
    if k <= 0 {
        seq![]
    } else {
        let prev = unresolved_sections(files, cs, resolved, k - 1);
        let c = cs[k - 1];
        if c.in_reply_to_id is None && !resolved.contains(c.id) {
            let rs = replies_to(cs, c.id);
            prev.push(prompt_header(files, c) + "\n"@ + thread_text(voice(c), Seq::new(rs.len(), |i: int| voice(rs[i]))))
        } else {
            prev
        }
    }
}

/// The prompt for every unresolved thread: a count line, then the thread
/// prompts separated by rules; empty when there is none.
pub open spec fn all_unresolved(files: Seq<DiffFile>, cs: Seq<PrReviewComment>, resolved: Set<u64>) -> Seq<char> {
    let ss = unresolved_sections(files, cs, resolved, cs.len() as int);
    if ss.len() == 0 {
        ""@
    } else {
        "Address these "@ + decimal(ss.len()) + " unresolved PR comment"@ + (if ss.len() == 1 { ""@ } else { "s"@ }) + ":\n"@
            + joined(ss, "\n\n---\n\n"@)
    }
}

impl PrDiffPanel {
    /// The replies to comment `id`, in order.
    fn replies_of(&self, id: u64) -> (r: Vec<&PrReviewComment>)
        ensures
            voices(r@) == ({
                let rs = replies_to(self.pr_comments@, id);
                Seq::new(rs.len(), |i: int| voice(rs[i]))
            }),
    {
        let ghost cs = self.pr_comments@;
        let ghost f = |c: PrReviewComment| c.in_reply_to_id == Some(id);
        let mut r: Vec<&PrReviewComment> = Vec::new();
        let mut i: usize = 0;
        proof {
            reveal(Seq::filter);
            assert(cs.take(0) =~= Seq::<PrReviewComment>::empty());
        }
        assert(voices(r@) =~= Seq::<(Seq<char>, Seq<char>)>::empty());
        while i < self.pr_comments.len()
            invariant
                0 <= i <= cs.len(),
                cs == self.pr_comments@,
                f == (|c: PrReviewComment| c.in_reply_to_id == Some(id)),
                voices(r@) == ({
                    let rs = cs.take(i as int).filter(f);
                    Seq::new(rs.len(), |j: int| voice(rs[j]))
                }),
            decreases cs.len() - i,
        {
            let c = &self.pr_comments[i];
            let ghost before = voices(r@);
            proof {
                reveal(Seq::filter);
                assert(cs.take(i + 1).drop_last() =~= cs.take(i as int));
                assert(cs.take(i + 1).last() == *c);
            }
            if c.in_reply_to_id == Some(id) {
                r.push(c);
                let ghost rs = cs.take(i + 1).filter(f);
                let ghost ors = cs.take(i as int).filter(f);
                assert(rs == ors.push(*c));
                assert(voices(r@) =~= before.push(voice(*c)));
                assert(Seq::new(rs.len(), |j: int| voice(rs[j])) =~= Seq::new(ors.len(), |j: int| voice(ors[j])).push(voice(*c)));
            } else {
                assert(cs.take(i + 1).filter(f) == cs.take(i as int).filter(f));
            }
            i += 1;
        }
        assert(cs.take(i as int) =~= cs);
        r
    }

    /// One prompt for every unresolved review thread (see [`all_unresolved`]).
    pub fn build_all_unresolved_prompt(&self) -> (r: String)
        ensures
            r@ == all_unresolved(self.diff_files@, self.pr_comments@, self.resolved_thread_ids@),
    {
        let ghost cs = self.pr_comments@;
        let mut sections: Vec<String> = Vec::new();
        let mut i: usize = 0;
        while i < self.pr_comments.len()
            invariant
                0 <= i <= cs.len(),
                cs == self.pr_comments@,
                sections@.map_values(|s: String| s@) == unresolved_sections(self.diff_files@, cs, self.resolved_thread_ids@, i as int),
            decreases cs.len() - i,
        {
            let c = &self.pr_comments[i];
            let ghost before = sections@.map_values(|s: String| s@);
            if c.in_reply_to_id.is_none() && !self.resolved_thread_ids.contains(&c.id) {
                let replies = self.replies_of(c.id);
                let t = self.build_thread_prompt(c, &replies);
                sections.push(t);
                assert(sections@.map_values(|s: String| s@) =~= before.push(t@));
            }
            i += 1;
        }
        let n = sections.len();
        if n == 0 {
            proof {
                reveal_strlit("");
            }
            return String::new();
        }
        let mut r = "Address these ".to_owned();
        push_decimal(&mut r, n as u64);
        r.append(" unresolved PR comment");
        let ghost pre = r@;
        if n == 1 {
            r.append(":\n");
            proof {
                reveal_strlit("");
            }
            assert(r@ =~= pre + ""@ + ":\n"@);
        } else {
            r.append("s:\n");
            proof {
                reveal_strlit("s:\n");
                reveal_strlit("s");
                reveal_strlit(":\n");
            }
            assert(r@ =~= pre + "s"@ + ":\n"@);
        }
        let ghost mid = r@;
        let ghost sv = sections@.map_values(|s: String| s@);
        let mut k: usize = 0;
        assert(sv.take(0) =~= Seq::<Seq<char>>::empty());
        while k < sections.len()
            invariant
                0 <= k <= sections@.len(),
                sv == sections@.map_values(|s: String| s@),
                r@ == mid + joined(sv.take(k as int), "\n\n---\n\n"@),
            decreases sections@.len() - k,
        {
            assert(sv.take(k + 1).drop_last() =~= sv.take(k as int));
            let ghost before = r@;
            if k > 0 {
                r.append("\n\n---\n\n");
            }
            r.append(sections[k].as_str());
            proof {
                if k == 0 {
                    assert(sv.take(1) =~= seq![sv[0]]);
                    assert(r@ =~= mid + sv[0]);
                } else {
                    assert(r@ =~= mid + joined(sv.take(k as int), "\n\n---\n\n"@) + "\n\n---\n\n"@ + sv[k as int]);
                }
            }
            k += 1;
        }
        assert(sv.take(k as int) =~= sv);
        assert(r@ =~= all_unresolved(self.diff_files@, self.pr_comments@, self.resolved_thread_ids@));
        r
    }
}

} // verus!
