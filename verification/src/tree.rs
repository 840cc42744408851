//! The changed files of a diff as a directory tree: each path split at its
//! slashes, files under the directories they sit in, in the order the
//! files and directories first appear.
use vstd::prelude::*;
use crate::diff::{DiffFile, FileStatus};
use crate::text::str_chars;
use vstd::string::StrSliceExecFns;

verus! {

/// A node of the file tree.
pub enum TreeNode {
    Dir { name: String, full_path: String, children: Vec<TreeNode> },
    File { name: String, file_idx: usize, status: FileStatus },
}

/// A node of the file tree, as values.
pub enum TreeView {
    Dir { name: Seq<char>, full_path: Seq<char>, children: Seq<TreeView> },
    File { name: Seq<char>, file_idx: usize, status: FileStatus },
}

/// A node as values.
pub open spec fn node_view(n: TreeNode) -> TreeView
    decreases n,
{
    match n {
        TreeNode::Dir { name, full_path, children } => TreeView::Dir {
            name: name@,
            full_path: full_path@,
            children: nodes_seq(children@),
        },
        TreeNode::File { name, file_idx, status } => TreeView::File { name: name@, file_idx, status },
    }
}

/// Nodes as values, one after the other.
pub open spec fn nodes_seq(s: Seq<TreeNode>) -> Seq<TreeView>
    decreases s,
{
    if s.len() == 0 {
        seq![]
    } else {
        nodes_seq(s.drop_last()).push(node_view(s.last()))
    }
}

/// Nodes as values.
pub open spec fn nodes_view(v: Seq<TreeNode>) -> Seq<TreeView> {
    Seq::new(v.len(), |i: int| node_view(v[i]))
}

/// Viewing nodes one after the other views each.
proof fn lemma_nodes_seq(s: Seq<TreeNode>)
    ensures
        nodes_seq(s) == nodes_view(s),
    decreases s.len(),
{
    if s.len() > 0 {
        lemma_nodes_seq(s.drop_last());
        assert(nodes_view(s.drop_last()).push(node_view(s.last())) =~= nodes_view(s));
    } else {
        assert(nodes_view(s) =~= Seq::<TreeView>::empty());
    }
}

/// `cs` split at every slash (the pieces of `str::split('/')`).
pub open spec fn split_slash(cs: Seq<char>) -> Seq<Seq<char>>
    decreases cs.len(),
{
    if cs.len() == 0 {
        seq![seq![]]
    } else {
        let prev = split_slash(cs.drop_last());
        if cs.last() == '/' {
            prev.push(seq![])
        } else {
            prev.update(prev.len() - 1, prev.last().push(cs.last()))
        }
    }
}

proof fn lemma_split_slash_len(cs: Seq<char>)
    ensures
        split_slash(cs).len() >= 1,
    decreases cs.len(),
{
    if cs.len() > 0 {
        lemma_split_slash_len(cs.drop_last());
    }
}

/// Index of the first directory named `name`.
pub open spec fn first_dir(nodes: Seq<TreeView>, name: Seq<char>) -> Option<int>
    decreases nodes.len(),
{
    if nodes.len() == 0 {
        None
    } else {
        match first_dir(nodes.drop_last(), name) {
            Some(i) => Some(i),
            None => match nodes.last() {
                TreeView::Dir { name: n, .. } => if n == name {
                    Some(nodes.len() - 1)
                } else {
                    None
                },
                _ => None,
            },
        }
    }
}

/// The path of directory `dir` under `parent` (the parent's path, a
/// slash, the name; just the name at the top).
pub open spec fn child_path(parent: Seq<char>, dir: Seq<char>) -> Seq<char> {
    if parent.len() == 0 {
        dir
    } else {
        parent + "/"@ + dir
    }
}

/// The nodes with file `idx` inserted along the path pieces `parts`, under
/// the directory at `parent`: the last piece is the file; each other piece
/// is a directory, the first one of that name at its level, or a new one
/// added at the end.
pub open spec fn tree_insert(nodes: Seq<TreeView>, parts: Seq<Seq<char>>, idx: usize, status: FileStatus, parent: Seq<char>) -> Seq<TreeView>
    decreases parts.len(),
{
    if parts.len() == 0 {
        nodes
    } else if parts.len() == 1 {
        nodes.push(TreeView::File { name: parts[0], file_idx: idx, status })
    } else {
        let dir = parts[0];
        let full = child_path(parent, dir);
        match first_dir(nodes, dir) {
            Some(pos) => match nodes[pos] {
                TreeView::Dir { name, full_path, children } => nodes.update(
                    pos,
                    TreeView::Dir { name, full_path, children: tree_insert(children, parts.skip(1), idx, status, full) },
                ),
                _ => nodes,
            },
            None => nodes.push(
                TreeView::Dir { name: dir, full_path: full, children: tree_insert(seq![], parts.skip(1), idx, status, full) },
            ),
        }
    }
}

/// The tree of the first `k` files.
pub open spec fn tree_of(files: Seq<DiffFile>, k: int) -> Seq<TreeView>
    decreases k,
{
    if k <= 0 {
        seq![]
    } else {
        tree_insert(tree_of(files, k - 1), split_slash(files[k - 1].path@), (k - 1) as usize, files[k - 1].status, seq![])
    }
}

/// Splits a path at its slashes.
pub fn split_path(path: &str) -> (r: Vec<String>)
    ensures
        r@.map_values(|s: String| s@) == split_slash(path@),
{
    let cs = str_chars(path);
    let n = cs.len();
    let mut r: Vec<String> = Vec::new();
    let mut start: usize = 0;
    let mut i: usize = 0;
    assert(path@.take(0) =~= Seq::<char>::empty());
    assert(path@.subrange(0, 0) =~= Seq::<char>::empty());
    assert(r@.map_values(|s: String| s@).push(path@.subrange(0, 0)) =~= split_slash(path@.take(0)));
    while i < n
        invariant
            cs@ == path@,
            n == cs@.len(),
            0 <= start <= i <= n,
            r@.map_values(|s: String| s@).push(path@.subrange(start as int, i as int)) == split_slash(path@.take(i as int)),
        decreases n - i,
    {
        let ghost pre = r@.map_values(|s: String| s@);
        assert(path@.take(i + 1).drop_last() =~= path@.take(i as int));
        assert(path@.take(i + 1).last() == cs@[i as int]);
        proof {
            lemma_split_slash_len(path@.take(i as int));
        }
        if cs[i] == '/' {
            let piece = path.substring_char(start, i).to_owned();
            r.push(piece);
            assert(r@.map_values(|s: String| s@) =~= pre.push(path@.subrange(start as int, i as int)));
            assert(path@.subrange(i + 1, i + 1) =~= Seq::<char>::empty());
            start = i + 1;
        } else {
            assert(path@.subrange(start as int, i + 1) =~= path@.subrange(start as int, i as int).push(cs@[i as int]));
            assert(pre.push(path@.subrange(start as int, i + 1)) =~= pre.push(path@.subrange(start as int, i as int)).update(
                pre.len() as int,
                path@.subrange(start as int, i as int).push(cs@[i as int]),
            ));
        }
        i += 1;
    }
    let last = path.substring_char(start, n).to_owned();
    let ghost pre = r@.map_values(|s: String| s@);
    r.push(last);
    assert(r@.map_values(|s: String| s@) =~= pre.push(path@.subrange(start as int, n as int)));
    assert(path@.take(n as int) =~= path@);
    r
}

/// The first directory named `name` among the nodes.
fn find_dir(nodes: &Vec<TreeNode>, name: &String) -> (r: Option<usize>)
    ensures
        match r {
            Some(i) => i < nodes@.len() && first_dir(nodes_view(nodes@), name@) == Some(i as int),
            None => first_dir(nodes_view(nodes@), name@) is None,
        },
{
    let ghost nv = nodes_view(nodes@);
    let mut i: usize = 0;
    assert(nv.take(0) =~= Seq::<TreeView>::empty());
    while i < nodes.len()
        invariant
            0 <= i <= nodes@.len(),
            nv == nodes_view(nodes@),
            first_dir(nv.take(i as int), name@) is None,
        decreases nodes@.len() - i,
    {
        assert(nv.take(i + 1).drop_last() =~= nv.take(i as int));
        assert(nv.take(i + 1).last() == node_view(nodes@[i as int]));
        let hit = match &nodes[i] {
            TreeNode::Dir { name: n, .. } => crate::text::str_eq(n.as_str(), name.as_str()),
            TreeNode::File { .. } => false,
        };
        if hit {
            proof {
                lemma_first_dir_prefix(nv, i as int + 1, name@);
            }
            return Some(i);
        }
        i += 1;
    }
    assert(nv.take(i as int) =~= nv);
    None
}

/// A first match within a prefix is the first match.
proof fn lemma_first_dir_prefix(nv: Seq<TreeView>, k: int, name: Seq<char>)
    requires
        0 <= k <= nv.len(),
        first_dir(nv.take(k), name) is Some,
    ensures
        first_dir(nv, name) == first_dir(nv.take(k), name),
    decreases nv.len() - k,
{
    if k < nv.len() {
        assert(nv.take(k + 1).drop_last() =~= nv.take(k));
        lemma_first_dir_prefix(nv, k + 1, name);
    } else {
        assert(nv.take(k) =~= nv);
    }
}

/// Inserts file `idx` into the tree along `parts[from..]` (see
/// [`tree_insert`]).
pub fn insert_into_tree(nodes: &mut Vec<TreeNode>, parts: &Vec<String>, from: usize, file_idx: usize, status: FileStatus, parent_path: String)
    requires
        from <= parts@.len(),
    ensures
        nodes_view(final(nodes)@) == tree_insert(
            nodes_view(old(nodes)@),
            parts@.map_values(|s: String| s@).skip(from as int),
            file_idx,
            status,
            parent_path@,
        ),
    decreases parts@.len() - from,
{
    let ghost ps = parts@.map_values(|s: String| s@).skip(from as int);
    let ghost nv = nodes_view(nodes@);
    let count = parts.len() - from;
    if count == 0 {
        return;
    }
    if count == 1 {
        let name = parts[from].clone();
        assert(ps[0] == name@);
        nodes.push(TreeNode::File { name, file_idx, status });
        assert(nodes_view(nodes@) =~= nv.push(TreeView::File { name: ps[0], file_idx, status }));
        return;
    }
    let dir = parts[from].clone();
    assert(ps[0] == dir@);
    assert(ps.skip(1) =~= parts@.map_values(|s: String| s@).skip(from + 1));
    let full_path = if parent_path.as_str().unicode_len() == 0 {
        dir.clone()
    } else {
        let mut p = parent_path.clone();
        p.append("/");
        p.append(dir.as_str());
        p
    };
    assert(full_path@ == child_path(parent_path@, dir@));
    match find_dir(nodes, &dir) {
        Some(pos) => {
            let node = nodes.remove(pos);
            let ghost rest = nodes@;
            assert(node_view(node) == nv[pos as int]);
            match node {
                TreeNode::Dir { name, full_path: fp, mut children } => {
                    proof {
                        lemma_nodes_seq(children@);
                    }
                    insert_into_tree(&mut children, parts, from + 1, file_idx, status, full_path);
                    proof {
                        lemma_nodes_seq(children@);
                    }
                    let nd = TreeNode::Dir { name, full_path: fp, children };
                    nodes.insert(pos, nd);
                    assert(nodes_view(nodes@) =~= nv.update(pos as int, node_view(nd)));
                },
                TreeNode::File { name, file_idx: fi, status: st } => {
                    nodes.insert(pos, TreeNode::File { name, file_idx: fi, status: st });
                    assert(nodes_view(nodes@) =~= nv);
                },
            }
        },
        None => {
            let mut children: Vec<TreeNode> = Vec::new();
            assert(nodes_view(children@) =~= Seq::<TreeView>::empty());
            insert_into_tree(&mut children, parts, from + 1, file_idx, status, full_path.clone());
            proof {
                lemma_nodes_seq(children@);
            }
            let nd = TreeNode::Dir { name: dir, full_path, children };
            nodes.push(nd);
            assert(nodes_view(nodes@) =~= nv.push(node_view(nd)));
        },
    }
}

/// The changed files as a tree (see [`tree_of`]).
pub fn build_file_tree(files: &Vec<DiffFile>) -> (r: Vec<TreeNode>)
    ensures
        nodes_view(r@) == tree_of(files@, files@.len() as int),
{
    let mut root: Vec<TreeNode> = Vec::new();
    let mut i: usize = 0;
    assert(nodes_view(root@) =~= Seq::<TreeView>::empty());
    while i < files.len()
        invariant
            0 <= i <= files@.len(),
            nodes_view(root@) == tree_of(files@, i as int),
        decreases files@.len() - i,
    {
        let parts = split_path(files[i].path.as_str());
        assert(parts@.map_values(|s: String| s@).skip(0) =~= parts@.map_values(|s: String| s@));
        insert_into_tree(&mut root, &parts, 0, i, files[i].status, String::new());
        i += 1;
    }
    root
}

} // verus!
