//! What holds of every walk, and of a walk over a table that does not change.

use crate::descent::{descent_within, finite_descent};
use crate::laws::no_self_loops;
use crate::node::Tree;
use crate::record::{child_records, has_pid, lemma_child_record_index, recorded_name, Record};
use crate::tree::{expands, grown_from, is_process_tree};
use crate::walk::{awaited, begun, fed, leaf, settled, with_child, FrameView, WalkView};
use vstd::prelude::*;

verus! {

/// The pid and the name of the root of a walk.
pub open spec fn root_of(walk: WalkView) -> Option<(u32, Seq<char>)> {
    if walk.frames.len() > 0 {
        Some((walk.frames[0].node.pid, walk.frames[0].node.name))
    } else {
        match walk.done {
            Some(tree) => Some((tree.pid, tree.name)),
            None => None,
        }
    }
}

/// Whether a node of the path agrees with the table while the walk is below
/// it: its children so far are what the first of its child records grow
/// into, the node `above` stands for the next of them, and the rest is still
/// to do.
pub open spec fn waits_for(frame: FrameView, above: Tree, table: Seq<Record>) -> bool {
    let heads = child_records(table, frame.node.pid);
    let grown = frame.node.children;
    &&& grown.len() < heads.len()
    &&& grown_from(grown, heads.take(grown.len() as int), table)
    &&& above.pid == heads[grown.len() as int].pid
    &&& above.name == heads[grown.len() as int].name
    &&& frame.pending == heads.skip(grown.len() as int + 1)
}

/// Whether a node agrees with the table while the walk moves on from it: its
/// children so far are what the first of its child records grow into, and
/// the rest is still to do.
pub open spec fn in_progress(frame: FrameView, table: Seq<Record>) -> bool {
    let heads = child_records(table, frame.node.pid);
    let grown = frame.node.children;
    &&& grown.len() <= heads.len()
    &&& grown_from(grown, heads.take(grown.len() as int), table)
    &&& frame.pending == heads.skip(grown.len() as int)
}

/// Whether every node of the path but the last agrees with the table.
pub open spec fn path_agrees(frames: Seq<FrameView>, table: Seq<Record>) -> bool {
    forall|k: int|
        0 <= k < frames.len() - 1 ==> waits_for(#[trigger] frames[k], frames[k + 1].node, table)
}

/// Whether a walk agrees with the table: it is a state of a walk that has
/// seen this table, and no other, at every node so far.
pub open spec fn agrees(walk: WalkView, table: Seq<Record>) -> bool {
    &&& path_agrees(walk.frames, table)
    &&& walk.frames.len() > 0 ==> {
        &&& walk.frames.last().node.children.len() == 0
        &&& walk.frames.last().pending.len() == 0
    }
    &&& walk.done matches Some(tree) ==> expands(tree, table)
}

/// Whether a walk is one from `pid` that agrees with the table, root name
/// included.
pub open spec fn follows(walk: WalkView, table: Seq<Record>, pid: u32) -> bool {
    &&& agrees(walk, table)
    &&& root_of(walk) matches Some(root) && root.0 == pid && recorded_name(table, pid) == Some(
        root.1,
    )
}

/// Moving on keeps the root.
proof fn lemma_settled_keeps_root(frames: Seq<FrameView>, done: Option<Tree>)
    requires
        frames.len() > 0,
    ensures
        root_of(settled(frames, done)) == Some((frames[0].node.pid, frames[0].node.name)),
    decreases frames.len(),
{
    let top = frames.last();
    let under = frames.drop_last();
    if top.pending.len() == 0 && under.len() > 0 {
        let parent = under.last();
        lemma_settled_keeps_root(
            under.drop_last().push(
                FrameView { node: with_child(parent.node, top.node), pending: parent.pending },
            ),
            done,
        );
    }
}

/// Whatever the snapshots hold, a walk keeps the pid and the name of its
/// root.
pub proof fn law_fed_keeps_root(walk: WalkView, snapshot: Seq<Record>)
    ensures
        root_of(fed(walk, snapshot)) == root_of(walk),
{
    if walk.frames.len() > 0 {
        let top = walk.frames.last();
        lemma_settled_keeps_root(
            walk.frames.drop_last().push(
                FrameView { node: top.node, pending: child_records(snapshot, top.node.pid) },
            ),
            walk.done,
        );
    }
}

/// Moving on from a node that agrees with the table gives a walk that agrees
/// with it.
proof fn lemma_settled_agrees(frames: Seq<FrameView>, done: Option<Tree>, table: Seq<Record>)
    requires
        path_agrees(frames, table),
        frames.len() > 0 ==> in_progress(frames.last(), table),
        done matches Some(tree) ==> expands(tree, table),
    ensures
        agrees(settled(frames, done), table),
    decreases frames.len(),
{
    if frames.len() > 0 {
        let top = frames.last();
        let under = frames.drop_last();
        let heads = child_records(table, top.node.pid);
        let grown = top.node.children;
        if top.pending.len() > 0 {
            let stays = FrameView { node: top.node, pending: top.pending.drop_first() };
            assert(stays.pending =~= heads.skip(grown.len() as int + 1));
        } else if under.len() > 0 {
            let parent = under.last();
            let more = FrameView { node: with_child(parent.node, top.node), pending: parent.pending };
            let next = under.drop_last().push(more);
            lemma_settled_agrees(next, done, table);
        }
    }
}

/// A walk that agrees with a table still agrees with it after a snapshot
/// that is this table.
pub proof fn law_fed_agrees(walk: WalkView, table: Seq<Record>)
    requires
        agrees(walk, table),
    ensures
        agrees(fed(walk, table), table),
{
    if walk.frames.len() > 0 {
        let top = walk.frames.last();
        let heads = child_records(table, top.node.pid);
        let asked = FrameView { node: top.node, pending: heads };
        let next = walk.frames.drop_last().push(asked);
        assert(heads.skip(0) =~= heads);
        lemma_settled_agrees(next, walk.done, table);
    }
}

/// A walk begins in agreement with the table that gave its root its name.
pub proof fn law_begun_follows(table: Seq<Record>, pid: u32)
    requires
        has_pid(table, pid),
    ensures
        follows(begun(pid, recorded_name(table, pid).unwrap()), table, pid),
{
}

/// Over a table that does not change, a walk stays the walk from its pid
/// that agrees with the table.
pub proof fn law_fed_follows(walk: WalkView, table: Seq<Record>, pid: u32)
    requires
        follows(walk, table, pid),
    ensures
        follows(fed(walk, table), table, pid),
{
    law_fed_agrees(walk, table);
    law_fed_keeps_root(walk, table);
}

/// Over a table that does not change, a walk that has ended holds the
/// process tree of its pid: the tree that one look at the table gives.
pub proof fn law_ended_walk_is_process_tree(walk: WalkView, table: Seq<Record>, pid: u32)
    requires
        follows(walk, table, pid),
        awaited(walk) is None,
    ensures
        walk.done matches Some(tree) && is_process_tree(tree, table, pid),
{
}

/// Whether a node of the path has no child with its own pid, below it or
/// still to do.
pub open spec fn frame_free_of_self_loops(frame: FrameView) -> bool {
    &&& no_self_loops(frame.node)
    &&& forall|i: int| 0 <= i < frame.pending.len() ==> (#[trigger] frame.pending[i]).pid != frame.node.pid
}

/// Whether no node of the path has a child with its own pid: below it, still
/// to do, or next on the path.
pub open spec fn path_free_of_self_loops(frames: Seq<FrameView>) -> bool {
    forall|k: int|
        0 <= k < frames.len() ==> {
            &&& frame_free_of_self_loops(#[trigger] frames[k])
            &&& k + 1 < frames.len() ==> frames[k + 1].node.pid != frames[k].node.pid
        }
}

/// Whether no node of the walk has, or is about to get, a child with its own
/// pid.
pub open spec fn free_of_self_loops(walk: WalkView) -> bool {
    &&& path_free_of_self_loops(walk.frames)
    &&& walk.done matches Some(tree) ==> no_self_loops(tree)
}

/// Moving on gives no node a child with its own pid.
proof fn lemma_settled_free_of_self_loops(frames: Seq<FrameView>, done: Option<Tree>)
    requires
        path_free_of_self_loops(frames),
        done matches Some(tree) ==> no_self_loops(tree),
    ensures
        free_of_self_loops(settled(frames, done)),
    decreases frames.len(),
{
    if frames.len() > 0 {
        let top = frames.last();
        let under = frames.drop_last();
        if top.pending.len() == 0 && under.len() > 0 {
            let parent = under.last();
            let more = FrameView { node: with_child(parent.node, top.node), pending: parent.pending };
            let next = under.drop_last().push(more);
            lemma_settled_free_of_self_loops(next, done);
        }
    }
}

/// Whatever the snapshots hold, no node of a walk gets a child with its own
/// pid.
pub proof fn law_fed_free_of_self_loops(walk: WalkView, snapshot: Seq<Record>)
    requires
        free_of_self_loops(walk),
    ensures
        free_of_self_loops(fed(walk, snapshot)),
{
    if walk.frames.len() > 0 {
        let top = walk.frames.last();
        let heads = child_records(snapshot, top.node.pid);
        let asked = FrameView { node: top.node, pending: heads };
        let next = walk.frames.drop_last().push(asked);
        lemma_settled_free_of_self_loops(next, walk.done);
    }
}

/// A walk begins without a child of any node.
pub proof fn law_begun_free_of_self_loops(pid: u32, name: Seq<char>)
    ensures
        free_of_self_loops(begun(pid, name)),
{
}

/// The state after `times` snapshots that all hold the same table.
pub open spec fn fed_times(walk: WalkView, table: Seq<Record>, times: nat) -> WalkView
    decreases times,
{
    if times == 0 {
        walk
    } else {
        fed_times(fed(walk, table), table, (times - 1) as nat)
    }
}

/// The number of nodes of the full expansion of a pid, as far as `depth`
/// links reach.
spec fn nodes_below(table: Seq<Record>, pid: u32, depth: nat) -> nat
    decreases depth, 0nat,
{
    if depth == 0 {
        1
    } else {
        1 + nodes_of(table, child_records(table, pid), (depth - 1) as nat)
    }
}

/// The number of nodes of the full expansions of the given records, as far
/// as `depth` links reach.
spec fn nodes_of(table: Seq<Record>, heads: Seq<Record>, depth: nat) -> nat
    decreases depth, heads.len(),
{
    if heads.len() == 0 {
        0
    } else {
        nodes_below(table, heads[0].pid, depth) + nodes_of(table, heads.drop_first(), depth)
    }
}

/// The number of nodes that the records still to do on the path stand for.
spec fn pending_work(frames: Seq<FrameView>, table: Seq<Record>, depth: nat) -> nat
    decreases frames.len(),
{
    if frames.len() == 0 {
        0
    } else {
        pending_work(frames.drop_last(), table, depth) + nodes_of(
            table,
            frames.last().pending,
            (depth - frames.len()) as nat,
        )
    }
}

/// The number of snapshots that a walk still needs: one for each node that
/// is not yet looked up.
spec fn work(walk: WalkView, table: Seq<Record>, depth: nat) -> nat {
    if walk.frames.len() == 0 {
        0
    } else {
        pending_work(walk.frames, table, depth) + nodes_below(
            table,
            walk.frames.last().node.pid,
            (depth - (walk.frames.len() - 1)) as nat,
        )
    }
}

/// Moving on keeps the number of snapshots that are still needed.
proof fn lemma_settled_work(
    frames: Seq<FrameView>,
    done: Option<Tree>,
    table: Seq<Record>,
    depth: nat,
)
    ensures
        work(settled(frames, done), table, depth) == pending_work(frames, table, depth),
    decreases frames.len(),
{
    if frames.len() > 0 {
        let top = frames.last();
        let under = frames.drop_last();
        let fuel = (depth - frames.len()) as nat;
        if top.pending.len() > 0 {
            let stays = FrameView { node: top.node, pending: top.pending.drop_first() };
            let joins = FrameView { node: leaf(top.pending[0]), pending: Seq::empty() };
            let kept = under.push(stays);
            let next = kept.push(joins);
            assert(next.drop_last() =~= kept);
            assert(kept.drop_last() =~= under);
            assert(pending_work(kept, table, depth) == pending_work(under, table, depth) + nodes_of(
                table,
                stays.pending,
                fuel,
            ));
        } else if under.len() > 0 {
            let parent = under.last();
            let more = FrameView { node: with_child(parent.node, top.node), pending: parent.pending };
            let next = under.drop_last().push(more);
            assert(next.drop_last() =~= under.drop_last());
            assert(pending_work(next, table, depth) == pending_work(under.drop_last(), table, depth)
                + nodes_of(table, more.pending, (depth - next.len()) as nat));
            lemma_settled_work(next, done, table, depth);
        } else {
            assert(nodes_of(table, top.pending, fuel) == 0);
        }
    }
}

/// Over a table that does not change, a node on the path that is `k` links
/// below the root has a descent that is `k` links shorter.
proof fn lemma_path_within(frames: Seq<FrameView>, table: Seq<Record>, depth: nat, k: int)
    requires
        path_agrees(frames, table),
        0 <= k < frames.len(),
        descent_within(table, frames[0].node.pid, depth),
    ensures
        k <= depth,
        descent_within(table, frames[k].node.pid, (depth - k) as nat),
    decreases k,
{
    if k > 0 {
        lemma_path_within(frames, table, depth, k - 1);
        let below = frames[k - 1];
        let at = lemma_child_record_index(table, below.node.pid, below.node.children.len() as int);
    }
}

/// Over a table that does not change, each snapshot is one of those that
/// the walk still needed.
proof fn lemma_fed_work(walk: WalkView, table: Seq<Record>, depth: nat)
    requires
        agrees(walk, table),
        walk.frames.len() > 0,
        descent_within(table, walk.frames[0].node.pid, depth),
    ensures
        work(fed(walk, table), table, depth) + 1 == work(walk, table, depth),
{
    let top = walk.frames.last();
    let under = walk.frames.drop_last();
    let heads = child_records(table, top.node.pid);
    let asked = FrameView { node: top.node, pending: heads };
    let next = under.push(asked);
    lemma_path_within(walk.frames, table, depth, walk.frames.len() - 1);
    if heads.len() > 0 {
        let at = lemma_child_record_index(table, top.node.pid, 0);
    }
    assert(next.drop_last() =~= under);
    lemma_settled_work(next, walk.done, table, depth);
}

/// Over a table that does not change, a walk from a pid whose descent is
/// finite ends, and then holds the process tree of the pid. The result is
/// the number of snapshots after which it has ended.
pub proof fn law_walk_over_one_table_ends(walk: WalkView, table: Seq<Record>, pid: u32) -> (times:
    nat)
    requires
        follows(walk, table, pid),
        finite_descent(table, pid),
    ensures
        awaited(fed_times(walk, table, times)) is None,
        fed_times(walk, table, times).done matches Some(tree) && is_process_tree(tree, table, pid),
{
    let depth = choose|depth: nat| descent_within(table, pid, depth);
    lemma_walk_ends(walk, table, pid, depth)
}

/// The walk ends after as many snapshots as it still needs.
proof fn lemma_walk_ends(walk: WalkView, table: Seq<Record>, pid: u32, depth: nat) -> (times: nat)
    requires
        follows(walk, table, pid),
        descent_within(table, pid, depth),
    ensures
        awaited(fed_times(walk, table, times)) is None,
        fed_times(walk, table, times).done matches Some(tree) && is_process_tree(tree, table, pid),
    decreases work(walk, table, depth),
{
    if walk.frames.len() == 0 {
        0
    } else {
        lemma_fed_work(walk, table, depth);
        law_fed_follows(walk, table, pid);
        1 + lemma_walk_ends(fed(walk, table), table, pid, depth)
    }
}

} // verus!
