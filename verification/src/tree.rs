//! Directory trees, and the files in them.
//!
//! Nothing here runs. A tree says what the listings of a directory and of the
//! directories below it hold. `files_under` gives the paths of its regular
//! files in the order of a depth-first walk, and the proofs show that in a
//! tree as a file system holds it, where the children of a directory have
//! different names without a `/`, every regular file has one path there and
//! no directory has any.

use crate::collect::{join, Listed, Task};
use vstd::prelude::*;

verus! {

/// A child of a directory: a regular file, or a directory with its own
/// children in the order in which they are listed.
pub enum Node {
    File { name: Seq<char> },
    Dir { name: Seq<char>, children: Seq<Node> },
}

impl Node {
    /// The name under which the node is listed.
    pub open spec fn name(self) -> Seq<char> {
        match self {
            Node::File { name } => name,
            Node::Dir { name, .. } => name,
        }
    }

    /// The children of a directory; a file has none.
    pub open spec fn children(self) -> Seq<Node> {
        match self {
            Node::File { .. } => Seq::empty(),
            Node::Dir { children, .. } => children,
        }
    }

    /// The line that a listing holds for the node.
    pub open spec fn line(self) -> Listed {
        Listed { name: self.name(), is_dir: self is Dir }
    }
}

/// The listing of a directory with the children `nodes`.
pub open spec fn lines(nodes: Seq<Node>) -> Seq<Listed> {
    Seq::new(nodes.len(), |i: int| nodes[i].line())
}

/// The paths of the regular files at and below `node`, which lies in the
/// directory `dir`.
pub open spec fn files_of(dir: Seq<char>, node: Node) -> Seq<Seq<char>>
    decreases node,
{
    match node {
        Node::File { name } => seq![join(dir, name)],
        Node::Dir { name, children } => files_under(join(dir, name), children),
    }
}

/// The paths of the regular files below the directory `dir` with the children
/// `nodes`, depth first: the files of the first child, then those of the
/// second, and so on.
pub open spec fn files_under(dir: Seq<char>, nodes: Seq<Node>) -> Seq<Seq<char>>
    decreases nodes,
{
    if nodes.len() == 0 {
        Seq::empty()
    } else {
        files_of(dir, nodes[0]) + files_under(dir, nodes.drop_first())
    }
}

/// Whether `name` can be the name of a child: it is not empty and holds no
/// `/`.
pub open spec fn valid_name(name: Seq<char>) -> bool {
    name.len() > 0 && forall|i: int| 0 <= i < name.len() ==> name[i] != '/'
}

/// Whether `nodes` can be the children of a directory: every name is valid,
/// no two children have the same name, and the same holds of the children of
/// each directory among them.
pub open spec fn well_formed(nodes: Seq<Node>) -> bool
    decreases nodes,
{
    &&& forall|i: int| 0 <= i < nodes.len() ==> valid_name(#[trigger] nodes[i].name())
    &&& forall|i: int, j: int|
        #![trigger nodes[i].name(), nodes[j].name()]
        0 <= i < j < nodes.len() ==> nodes[i].name() != nodes[j].name()
    &&& forall|i: int|
        0 <= i < nodes.len() && (#[trigger] nodes[i]) is Dir ==> well_formed(nodes[i]->children)
}

/// Every node at and below `node`, which lies in the directory `dir`, with
/// its path: the node itself, then what lies below it.
pub open spec fn nodes_of(dir: Seq<char>, node: Node) -> Seq<Task>
    decreases node,
{
    match node {
        Node::File { name } => seq![Task { path: join(dir, name), is_dir: false }],
        Node::Dir { name, children } => seq![Task { path: join(dir, name), is_dir: true }]
            + nodes_under(join(dir, name), children),
    }
}

/// Every node below the directory `dir` with the children `nodes`, with its
/// path.
pub open spec fn nodes_under(dir: Seq<char>, nodes: Seq<Node>) -> Seq<Task>
    decreases nodes,
{
    if nodes.len() == 0 {
        Seq::empty()
    } else {
        nodes_of(dir, nodes[0]) + nodes_under(dir, nodes.drop_first())
    }
}

/// The paths of those of `tasks` that are regular files, in order.
pub open spec fn file_paths(tasks: Seq<Task>) -> Seq<Seq<char>>
    decreases tasks.len(),
{
    if tasks.len() == 0 {
        Seq::empty()
    } else if tasks[0].is_dir {
        file_paths(tasks.drop_first())
    } else {
        seq![tasks[0].path] + file_paths(tasks.drop_first())
    }
}

/// Whether no two of `tasks` have the same path.
pub open spec fn distinct_paths(tasks: Seq<Task>) -> bool {
    forall|i: int, j: int|
        #![trigger tasks[i], tasks[j]]
        0 <= i < j < tasks.len() ==> tasks[i].path != tasks[j].path
}

/// Whether `path` is `start` or lies below it.
spec fn begins(path: Seq<char>, start: Seq<char>) -> bool {
    path == start || (path.len() > start.len() && path.take(start.len() as int) == start
        && path[start.len() as int] == '/')
}

proof fn lemma_file_paths_concat(first: Seq<Task>, second: Seq<Task>)
    ensures
        file_paths(first + second) == file_paths(first) + file_paths(second),
    decreases first.len(),
{
    if first.len() > 0 {
        assert((first + second).drop_first() =~= first.drop_first() + second);
        lemma_file_paths_concat(first.drop_first(), second);
    }
}

proof fn lemma_files_of_node(dir: Seq<char>, node: Node)
    ensures
        files_of(dir, node) == file_paths(nodes_of(dir, node)),
    decreases node,
{
    match node {
        Node::File { name } => {
            assert(file_paths(nodes_of(dir, node)) =~= seq![join(dir, name)]) by {
                reveal_with_fuel(file_paths, 2);
            }
        },
        Node::Dir { name, children } => {
            let own = seq![Task { path: join(dir, name), is_dir: true }];
            let below = nodes_under(join(dir, name), children);
            lemma_files_are_file_nodes(join(dir, name), children);
            assert((own + below).drop_first() =~= below);
        },
    }
}

/// The files below a directory are its nodes that are regular files, in
/// order: one path for each, whatever the tree is.
pub proof fn lemma_files_are_file_nodes(dir: Seq<char>, nodes: Seq<Node>)
    ensures
        files_under(dir, nodes) == file_paths(nodes_under(dir, nodes)),
    decreases nodes,
{
    if nodes.len() > 0 {
        lemma_files_of_node(dir, nodes[0]);
        lemma_files_are_file_nodes(dir, nodes.drop_first());
        lemma_file_paths_concat(nodes_of(dir, nodes[0]), nodes_under(dir, nodes.drop_first()));
    }
}

proof fn lemma_file_paths_from(tasks: Seq<Task>, k: int) -> (j: int)
    requires
        0 <= k < file_paths(tasks).len(),
    ensures
        0 <= j < tasks.len(),
        !tasks[j].is_dir,
        tasks[j].path == file_paths(tasks)[k],
    decreases tasks.len(),
{
    if !tasks[0].is_dir && k == 0 {
        0
    } else if tasks[0].is_dir {
        lemma_file_paths_from(tasks.drop_first(), k) + 1
    } else {
        lemma_file_paths_from(tasks.drop_first(), k - 1) + 1
    }
}

proof fn lemma_file_paths_has(tasks: Seq<Task>, j: int) -> (k: int)
    requires
        0 <= j < tasks.len(),
        !tasks[j].is_dir,
    ensures
        0 <= k < file_paths(tasks).len(),
        file_paths(tasks)[k] == tasks[j].path,
    decreases tasks.len(),
{
    if j == 0 {
        0
    } else {
        let k = lemma_file_paths_has(tasks.drop_first(), j - 1);
        if tasks[0].is_dir {
            k
        } else {
            k + 1
        }
    }
}

proof fn lemma_file_paths_distinct(tasks: Seq<Task>)
    requires
        distinct_paths(tasks),
    ensures
        file_paths(tasks).no_duplicates(),
    decreases tasks.len(),
{
    if tasks.len() > 0 {
        let rest = tasks.drop_first();
        assert(distinct_paths(rest));
        lemma_file_paths_distinct(rest);
        if !tasks[0].is_dir {
            // The first path is that of the first task, and every other one is
            // that of a later task.
            let paths = file_paths(tasks);
            assert forall|i: int, j: int|
                0 <= i < paths.len() && 0 <= j < paths.len() && i != j implies paths[i]
                != paths[j] by {
                if i == 0 {
                    lemma_file_paths_from(rest, j - 1);
                } else if j == 0 {
                    lemma_file_paths_from(rest, i - 1);
                }
            }
        }
    }
}

proof fn lemma_well_formed_rest(nodes: Seq<Node>)
    requires
        well_formed(nodes),
        nodes.len() > 0,
    ensures
        well_formed(nodes.drop_first()),
        valid_name(nodes[0].name()),
        nodes[0] is Dir ==> well_formed(nodes[0]->children),
{
    let rest = nodes.drop_first();
    assert(forall|i: int| 0 <= i < rest.len() ==> rest[i] == nodes[i + 1]);
}

/// What lies at or below a child of a directory lies below the directory.
proof fn lemma_begins_deeper(path: Seq<char>, dir: Seq<char>, name: Seq<char>)
    requires
        dir.len() > 0,
        begins(path, join(dir, name)),
    ensures
        begins(path, dir),
        path.len() > dir.len(),
{
    let child = join(dir, name);
    assert(child.take(dir.len() as int) =~= dir);
    if path != child {
        assert(path.take(dir.len() as int) =~= path.take(child.len() as int).take(
            dir.len() as int,
        ));
        assert(path[dir.len() as int] == path.take(child.len() as int)[dir.len() as int]);
    }
}

/// Two children of one directory that both hold `path`, at or below them, are
/// one child.
proof fn lemma_siblings_apart(dir: Seq<char>, first: Seq<char>, second: Seq<char>, path: Seq<char>)
    requires
        valid_name(first),
        valid_name(second),
        begins(path, join(dir, first)),
        begins(path, join(dir, second)),
    ensures
        first == second,
{
    let a = join(dir, first);
    let b = join(dir, second);
    let lead = a.len() - first.len();
    assert(b.skip(lead) =~= second);
    // Where one of the two is shorter, `path` goes on with a `/` after it,
    // and the longer one has a character of its name there.
    if a.len() < b.len() {
        assert(b[a.len() as int] == second[a.len() - lead]);
    } else if b.len() < a.len() {
        assert(a[b.len() as int] == first[b.len() - lead]);
    }
}

proof fn lemma_begins_of(dir: Seq<char>, node: Node, k: int)
    requires
        valid_name(node.name()),
        node is Dir ==> well_formed(node->children),
        0 <= k < nodes_of(dir, node).len(),
    ensures
        begins(nodes_of(dir, node)[k].path, join(dir, node.name())),
        k > 0 ==> nodes_of(dir, node)[k].path.len() > join(dir, node.name()).len(),
    decreases node, 0int,
{
    match node {
        Node::File { name } => {},
        Node::Dir { name, children } => {
            if k > 0 {
                let own = join(dir, name);
                let below = nodes_under(own, children);
                let i = lemma_begins_under(own, children, k - 1);
                lemma_begins_deeper(below[k - 1].path, own, children[i].name());
            }
        },
    }
}

proof fn lemma_begins_under(dir: Seq<char>, nodes: Seq<Node>, k: int) -> (i: int)
    requires
        well_formed(nodes),
        0 <= k < nodes_under(dir, nodes).len(),
    ensures
        0 <= i < nodes.len(),
        begins(nodes_under(dir, nodes)[k].path, join(dir, nodes[i].name())),
    decreases nodes, 1int,
{
    lemma_well_formed_rest(nodes);
    let first = nodes_of(dir, nodes[0]);
    let rest = nodes.drop_first();
    if k < first.len() {
        lemma_begins_of(dir, nodes[0], k);
        0
    } else {
        let i = lemma_begins_under(dir, rest, k - first.len());
        i + 1
    }
}

proof fn lemma_distinct_of(dir: Seq<char>, node: Node)
    requires
        valid_name(node.name()),
        node is Dir ==> well_formed(node->children),
    ensures
        distinct_paths(nodes_of(dir, node)),
    decreases node, 0int,
{
    match node {
        Node::File { name } => {},
        Node::Dir { name, children } => {
            let tasks = nodes_of(dir, node);
            let below = nodes_under(join(dir, name), children);
            lemma_distinct_under(join(dir, name), children);
            assert forall|i: int, j: int| 0 <= i < j < tasks.len() implies tasks[i].path
                != tasks[j].path by {
                if i == 0 {
                    lemma_begins_of(dir, node, j);
                }
            }
        },
    }
}

proof fn lemma_distinct_under(dir: Seq<char>, nodes: Seq<Node>)
    requires
        well_formed(nodes),
    ensures
        distinct_paths(nodes_under(dir, nodes)),
    decreases nodes, 1int,
{
    if nodes.len() > 0 {
        lemma_well_formed_rest(nodes);
        let first = nodes_of(dir, nodes[0]);
        let rest = nodes.drop_first();
        let others = nodes_under(dir, rest);
        let tasks = nodes_under(dir, nodes);
        lemma_distinct_of(dir, nodes[0]);
        lemma_distinct_under(dir, rest);
        assert forall|i: int, j: int| 0 <= i < j < tasks.len() implies tasks[i].path
            != tasks[j].path by {
            if i < first.len() <= j {
                // One lies at or below the first child, the other at or below
                // a later one.
                lemma_begins_of(dir, nodes[0], i);
                let m = lemma_begins_under(dir, rest, j - first.len());
                if tasks[i].path == tasks[j].path {
                    lemma_siblings_apart(dir, nodes[0].name(), nodes[m + 1].name(), tasks[i].path);
                }
            }
        }
    }
}

/// In a well-formed tree no two nodes have the same path. So among the paths
/// of the files below a directory none occurs twice, and the path of a node
/// is among them exactly when the node is a regular file: that of a
/// directory never is.
pub proof fn lemma_files_found_once(dir: Seq<char>, nodes: Seq<Node>)
    requires
        well_formed(nodes),
    ensures
        files_under(dir, nodes) == file_paths(nodes_under(dir, nodes)),
        distinct_paths(nodes_under(dir, nodes)),
        files_under(dir, nodes).no_duplicates(),
        forall|k: int|
            0 <= k < nodes_under(dir, nodes).len() ==> (files_under(dir, nodes).contains(
                (#[trigger] nodes_under(dir, nodes)[k]).path,
            ) <==> !nodes_under(dir, nodes)[k].is_dir),
{
    let tasks = nodes_under(dir, nodes);
    let files = files_under(dir, nodes);
    lemma_files_are_file_nodes(dir, nodes);
    lemma_distinct_under(dir, nodes);
    lemma_file_paths_distinct(tasks);
    assert forall|k: int| 0 <= k < tasks.len() implies (files.contains((#[trigger] tasks[k]).path)
        <==> !tasks[k].is_dir) by {
        if !tasks[k].is_dir {
            lemma_file_paths_has(tasks, k);
        }
        if files.contains(tasks[k].path) {
            let at = choose|at: int| 0 <= at < files.len() && files[at] == tasks[k].path;
            lemma_file_paths_from(tasks, at);
        }
    }
}

} // verus!
