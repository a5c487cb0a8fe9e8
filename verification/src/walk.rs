//! A collector at work on a directory tree.
//!
//! Nothing here runs. `walk` drives the collector's two steps, `settle` and
//! `expand`, over a tree: it answers each request for a listing with the
//! children of the directory asked for. The proofs show that it ends with the
//! files of the tree and nothing pending.

use crate::collect::{expand, join, settle, stacked, start, task_for, Progress, Task};
use crate::tree::{
    file_paths, files_of, files_under, lemma_files_are_file_nodes, lemma_files_found_once, lines,
    nodes_under, well_formed, Node,
};
use vstd::prelude::*;

verus! {

/// The number of nodes at and below `node`.
pub open spec fn size_of(node: Node) -> nat
    decreases node,
{
    match node {
        Node::File { .. } => 1,
        Node::Dir { children, .. } => 1 + size_under(children),
    }
}

/// The number of nodes below a directory with the children `nodes`.
pub open spec fn size_under(nodes: Seq<Node>) -> nat
    decreases nodes,
{
    if nodes.len() == 0 {
        0
    } else {
        size_of(nodes[0]) + size_under(nodes.drop_first())
    }
}

/// A node together with the path of the directory that holds it.
pub struct Placed {
    pub dir: Seq<char>,
    pub node: Node,
}

/// The task that the walk has for a node.
pub open spec fn task_of(placed: Placed) -> Task {
    task_for(placed.dir, placed.node.line())
}

/// The tasks that the walk has for the nodes of `forest`.
pub open spec fn tasks_of(forest: Seq<Placed>) -> Seq<Task> {
    Seq::new(forest.len(), |i: int| task_of(forest[i]))
}

/// The children `nodes` of the directory `dir`, stacked so that the first
/// child is on top.
pub open spec fn placed_stack(dir: Seq<char>, nodes: Seq<Node>) -> Seq<Placed> {
    Seq::new(nodes.len(), |k: int| Placed { dir, node: nodes[nodes.len() - 1 - k] })
}

/// The root of a tree whose top directory has the children `root`, as the
/// one node that a walk starts with.
pub open spec fn root_forest(root: Seq<Node>) -> Seq<Placed> {
    seq![Placed { dir: Seq::empty(), node: Node::Dir { name: Seq::empty(), children: root } }]
}

/// The number of nodes at and below the nodes of `forest`.
pub open spec fn forest_size(forest: Seq<Placed>) -> nat
    decreases forest.len(),
{
    if forest.len() == 0 {
        0
    } else {
        forest_size(forest.drop_last()) + size_of(forest.last().node)
    }
}

/// `forest` without the files on top of it.
pub open spec fn trim(forest: Seq<Placed>) -> Seq<Placed>
    decreases forest.len(),
{
    if forest.len() > 0 && forest.last().node is File {
        trim(forest.drop_last())
    } else {
        forest
    }
}

/// `forest` after the directory on top of it has been listed: its children
/// take its place.
pub open spec fn listed(forest: Seq<Placed>) -> Seq<Placed>
    recommends
        forest.len() > 0,
{
    let top = forest.last();
    forest.drop_last() + placed_stack(join(top.dir, top.node.name()), top.node.children())
}

proof fn lemma_forest_size_concat(first: Seq<Placed>, second: Seq<Placed>)
    ensures
        forest_size(first + second) == forest_size(first) + forest_size(second),
    decreases second.len(),
{
    if second.len() > 0 {
        assert((first + second).drop_last() =~= first + second.drop_last());
        lemma_forest_size_concat(first, second.drop_last());
    }
}

proof fn lemma_forest_size_stack(dir: Seq<char>, nodes: Seq<Node>)
    ensures
        forest_size(placed_stack(dir, nodes)) == size_under(nodes),
    decreases nodes.len(),
{
    if nodes.len() > 0 {
        let rest = nodes.drop_first();
        let top = seq![Placed { dir, node: nodes[0] }];
        assert(placed_stack(dir, nodes) =~= placed_stack(dir, rest) + top);
        lemma_forest_size_concat(placed_stack(dir, rest), top);
        assert(forest_size(top) == size_of(nodes[0])) by {
            reveal_with_fuel(forest_size, 2);
        }
        lemma_forest_size_stack(dir, rest);
    }
}

proof fn lemma_forest_size_trim(forest: Seq<Placed>)
    ensures
        forest_size(trim(forest)) <= forest_size(forest),
        trim(forest).len() > 0 ==> trim(forest).last().node is Dir,
    decreases forest.len(),
{
    if forest.len() > 0 && forest.last().node is File {
        lemma_forest_size_trim(forest.drop_last());
    }
}

proof fn lemma_forest_size_listed(forest: Seq<Placed>)
    requires
        forest.len() > 0,
        forest.last().node is Dir,
    ensures
        forest_size(listed(forest)) < forest_size(forest),
{
    let top = forest.last();
    let dir = join(top.dir, top.node.name());
    lemma_forest_size_concat(forest.drop_last(), placed_stack(dir, top.node.children()));
    lemma_forest_size_stack(dir, top.node.children());
}

/// A whole walk over `forest`, starting from `progress`: record the files on
/// top, supply the listing of the directory that is then on top, and so on
/// until nothing is left.
pub open spec fn walk(progress: Progress, forest: Seq<Placed>) -> Progress
    decreases forest_size(forest),
    via walk_ends
{
    let ready = trim(forest);
    if ready.len() == 0 {
        settle(progress)
    } else {
        walk(expand(settle(progress), lines(ready.last().node.children())), listed(ready))
    }
}

#[via_fn]
proof fn walk_ends(progress: Progress, forest: Seq<Placed>) {
    lemma_forest_size_trim(forest);
    if trim(forest).len() > 0 {
        lemma_forest_size_listed(trim(forest));
    }
}

/// The paths of the regular files at and below the nodes of `forest`, in the
/// order in which a walk meets them: those of the top node first.
pub open spec fn files_in(forest: Seq<Placed>) -> Seq<Seq<char>>
    decreases forest.len(),
{
    if forest.len() == 0 {
        Seq::empty()
    } else {
        files_of(forest.last().dir, forest.last().node) + files_in(forest.drop_last())
    }
}

proof fn lemma_files_in_stack(below: Seq<Placed>, dir: Seq<char>, nodes: Seq<Node>)
    ensures
        files_in(below + placed_stack(dir, nodes)) == files_under(dir, nodes) + files_in(below),
    decreases nodes.len(),
{
    if nodes.len() > 0 {
        // The first child is on top: its files come first.
        let forest = below + placed_stack(dir, nodes);
        let rest = nodes.drop_first();
        assert(forest.drop_last() =~= below + placed_stack(dir, rest));
        lemma_files_in_stack(below, dir, rest);
    }
}

proof fn lemma_settle(progress: Progress, forest: Seq<Placed>)
    requires
        progress.pending == tasks_of(forest),
    ensures
        settle(progress).pending == tasks_of(trim(forest)),
        settle(progress).found + files_in(trim(forest)) == progress.found + files_in(forest),
    decreases forest.len(),
{
    if forest.len() > 0 && forest.last().node is File {
        let next = Progress {
            pending: progress.pending.drop_last(),
            found: progress.found.push(progress.pending.last().path),
        };
        assert(next.pending =~= tasks_of(forest.drop_last()));
        lemma_settle(next, forest.drop_last());
    }
}

proof fn lemma_expand(progress: Progress, forest: Seq<Placed>)
    requires
        progress.pending == tasks_of(forest),
        forest.len() > 0,
        forest.last().node is Dir,
    ensures
        expand(progress, lines(forest.last().node.children())).pending == tasks_of(
            listed(forest),
        ),
        expand(progress, lines(forest.last().node.children())).found == progress.found,
        files_in(listed(forest)) == files_in(forest),
{
    let top = forest.last();
    let dir = join(top.dir, top.node.name());
    let children = top.node.children();
    assert(tasks_of(forest.drop_last()) + tasks_of(placed_stack(dir, children)) =~= tasks_of(
        listed(forest),
    ));
    lemma_files_in_stack(forest.drop_last(), dir, children);
}

proof fn lemma_walk(progress: Progress, forest: Seq<Placed>)
    requires
        progress.pending == tasks_of(forest),
    ensures
        walk(progress, forest) == (Progress {
            pending: Seq::empty(),
            found: progress.found + files_in(forest),
        }),
    decreases forest_size(forest),
{
    let ready = trim(forest);
    lemma_settle(progress, forest);
    lemma_forest_size_trim(forest);
    if ready.len() == 0 {
        assert(settle(progress).pending =~= Seq::<Task>::empty());
    } else {
        lemma_forest_size_listed(ready);
        lemma_expand(settle(progress), ready);
        lemma_walk(expand(settle(progress), lines(ready.last().node.children())), listed(ready));
    }
}

/// What a collector finds in the tree whose top directory has the children
/// `root`, when it starts anew and is given the listing of each directory it
/// asks for.
pub open spec fn collect(root: Seq<Node>) -> Seq<Seq<char>> {
    walk(start(), root_forest(root)).found
}

/// Collecting a tree leaves nothing pending and gives the paths of its
/// regular files, depth first, one for each node that is a regular file,
/// whatever the tree is.
pub proof fn lemma_collect_finds_files(root: Seq<Node>)
    ensures
        walk(start(), root_forest(root)).pending == Seq::<Task>::empty(),
        collect(root) == files_under(Seq::empty(), root),
        collect(root) == file_paths(nodes_under(Seq::empty(), root)),
{
    lemma_files_are_file_nodes(Seq::empty(), root);
    let forest = root_forest(root);
    assert(start().pending =~= tasks_of(forest));
    lemma_walk(start(), forest);
    assert(files_in(forest) =~= files_under(Seq::empty(), root)) by {
        reveal_with_fuel(files_in, 2);
    }
}

/// Collecting a well-formed tree gives each regular file once and no
/// directory: no path is found twice, and the path of a node of the tree is
/// found exactly when the node is a regular file.
pub proof fn lemma_collect_once(root: Seq<Node>)
    requires
        well_formed(root),
    ensures
        collect(root).no_duplicates(),
        forall|k: int|
            0 <= k < nodes_under(Seq::empty(), root).len() ==> (collect(root).contains(
                (#[trigger] nodes_under(Seq::empty(), root)[k]).path,
            ) <==> !nodes_under(Seq::empty(), root)[k].is_dir),
{
    lemma_collect_finds_files(root);
    lemma_files_found_once(Seq::empty(), root);
}

} // verus!
