//! Building a process tree from one fresh snapshot per node.
//!
//! A live process table changes between two looks at it. A `TreeWalk` holds
//! the tree under construction and the decisions: which process to look up
//! next, and what a snapshot adds. Its caller takes the snapshots, one for
//! each node, and feeds them in. The nodes are visited each before its
//! children, and the children in the order of the snapshot.

use crate::node::{ProcessNode, Tree};
use crate::record::{
    child_records, children_of, has_pid, recorded_name, table_view, ProcessRecord, Record,
};
use crate::tree::get_process_name;
use vstd::prelude::*;

verus! {

/// A node on the path from the root to the node that is looked up next: the
/// tree built below it so far, and the records of its children that are not
/// yet visited.
pub struct FrameView {
    pub node: Tree,
    pub pending: Seq<Record>,
}

/// The state of a walk: the path from the root to the node that is looked up
/// next, the root first; and, once the walk has ended, the finished tree.
pub struct WalkView {
    pub frames: Seq<FrameView>,
    pub done: Option<Tree>,
}

/// A node without children, for a record.
pub open spec fn leaf(record: Record) -> Tree {
    Tree { pid: record.pid, name: record.name, children: Seq::empty() }
}

/// The tree with one more child at the end.
pub open spec fn with_child(tree: Tree, child: Tree) -> Tree {
    Tree { pid: tree.pid, name: tree.name, children: tree.children.push(child) }
}

/// The state in which a walk from a root begins: the root awaits its
/// snapshot.
pub open spec fn begun(pid: u32, name: Seq<char>) -> WalkView {
    WalkView {
        frames: seq![
            FrameView { node: Tree { pid, name, children: Seq::empty() }, pending: Seq::empty() },
        ],
        done: None,
    }
}

/// The pid whose children the walk looks up next; nothing once it has ended.
pub open spec fn awaited(walk: WalkView) -> Option<u32> {
    if walk.frames.len() == 0 {
        None
    } else {
        Some(walk.frames.last().node.pid)
    }
}

/// Moves on from the last node of the path. Where it has a child to visit,
/// the child joins the path and awaits its snapshot. Where it has none, it is
/// complete: it becomes the last child of the node before it, which moves on
/// in turn; the root, once complete, is the finished tree.
pub open spec fn settled(frames: Seq<FrameView>, done: Option<Tree>) -> WalkView
    decreases frames.len(),
{
    if frames.len() == 0 {
        WalkView { frames, done }
    } else {
        let top = frames.last();
        let under = frames.drop_last();
        if top.pending.len() > 0 {
            WalkView {
                frames: under.push(FrameView { node: top.node, pending: top.pending.drop_first() }).push(
                    FrameView { node: leaf(top.pending[0]), pending: Seq::empty() },
                ),
                done,
            }
        } else if under.len() == 0 {
            WalkView { frames: under, done: Some(top.node) }
        } else {
            let parent = under.last();
            settled(
                under.drop_last().push(
                    FrameView { node: with_child(parent.node, top.node), pending: parent.pending },
                ),
                done,
            )
        }
    }
}

/// The state after a snapshot: the awaited node gets the records of the
/// snapshot that make their process its child, and the walk moves on. A walk
/// that has ended stays as it is.
pub open spec fn fed(walk: WalkView, snapshot: Seq<Record>) -> WalkView {
    if walk.frames.len() == 0 {
        walk
    } else {
        let top = walk.frames.last();
        settled(
            walk.frames.drop_last().push(
                FrameView { node: top.node, pending: child_records(snapshot, top.node.pid) },
            ),
            walk.done,
        )
    }
}

struct Frame {
    node: ProcessNode,
    heads: Vec<ProcessRecord>,
    next: usize,
}

spec fn frame_view(frame: Frame) -> FrameView {
    FrameView {
        node: frame.node@,
        pending: if frame.next <= frame.heads@.len() {
            table_view(frame.heads@).skip(frame.next as int)
        } else {
            Seq::empty()
        },
    }
}

spec fn frames_view(frames: Seq<Frame>) -> Seq<FrameView> {
    frames.map_values(|frame: Frame| frame_view(frame))
}

/// A process tree under construction, one snapshot per node.
pub struct TreeWalk {
    frames: Vec<Frame>,
    done: Option<ProcessNode>,
}

impl View for TreeWalk {
    type V = WalkView;

    closed spec fn view(&self) -> WalkView {
        WalkView {
            frames: frames_view(self.frames@),
            done: match self.done {
                Some(node) => Some(node@),
                None => None,
            },
        }
    }
}

impl TreeWalk {
    /// Begins a walk from `pid`, whose name is that of the first record of
    /// the snapshot with the pid. Where the snapshot has no such record there
    /// is no walk.
    pub fn start(pid: u32, snapshot: &[ProcessRecord]) -> (walk: Option<TreeWalk>)
        ensures
            walk is Some <==> has_pid(table_view(snapshot@), pid),
            walk matches Some(w) ==> recorded_name(table_view(snapshot@), pid) matches Some(name)
                && w@ == begun(pid, name),
    {
        match get_process_name(pid, snapshot) {
            None => None,
            Some(name) => {
                let mut frames: Vec<Frame> = Vec::new();
                frames.push(Frame { node: ProcessNode::new(pid, name), heads: Vec::new(), next: 0 });
                let walk = TreeWalk { frames, done: None };
                proof {
                    assert(table_view(walk.frames@[0].heads@).skip(0) =~= Seq::<Record>::empty());
                    assert(walk@.frames =~= begun(pid, name@).frames);
                }
                Some(walk)
            },
        }
    }

    /// The pid whose children are to be looked up next: the walk awaits a
    /// snapshot for it. `None` once the walk has ended.
    pub fn next_pid(&self) -> (pid: Option<u32>)
        ensures
            pid == awaited(self@),
    {
        let n = self.frames.len();
        if n == 0 {
            None
        } else {
            Some(self.frames[n - 1].node.pid)
        }
    }

    /// Takes the snapshot for the awaited node and moves on to the next node
    /// that awaits one, or to the end.
    pub fn feed(&mut self, snapshot: &[ProcessRecord])
        ensures
            final(self)@ == fed(old(self)@, table_view(snapshot@)),
    {
        let ghost goal = fed(self@, table_view(snapshot@));
        let mut top = match self.frames.pop() {
            None => {
                return ;
            },
            Some(frame) => frame,
        };
        top.heads = children_of(top.node.pid, snapshot);
        top.next = 0;
        proof {
            assert(table_view(top.heads@).skip(0) =~= table_view(top.heads@));
            assert(frames_view(self.frames@) =~= old(self)@.frames.drop_last());
        }
        loop
            invariant_except_break
                self.done == old(self).done,
                settled(frames_view(self.frames@).push(frame_view(top)), self@.done) == goal,
            ensures
                self@ == goal,
            decreases self.frames.len(),
        {
            let ghost under = frames_view(self.frames@);
            let ghost whole = under.push(frame_view(top));
            proof {
                assert(whole.drop_last() =~= under);
            }
            if top.next < top.heads.len() {
                let record = &top.heads[top.next];
                let child = ProcessNode::new(record.pid, record.name.clone());
                let ghost pending = frame_view(top).pending;
                top.next += 1;
                proof {
                    assert(frame_view(top).pending =~= pending.drop_first());
                }
                let fresh = Frame { node: child, heads: Vec::new(), next: 0 };
                proof {
                    assert(frame_view(fresh).pending =~= Seq::<Record>::empty());
                }
                self.frames.push(top);
                self.frames.push(fresh);
                proof {
                    assert(frames_view(self.frames@) =~= under.push(frame_view(top)).push(
                        frame_view(fresh),
                    ));
                }
                break ;
            } else {
                match self.frames.pop() {
                    None => {
                        self.done = Some(top.node);
                        break ;
                    },
                    Some(mut parent) => {
                        let ghost grown = parent.node@;
                        let ghost finished = top.node@;
                        parent.node.children.push(top.node);
                        proof {
                            assert(parent.node@.children =~= grown.children.push(finished));
                            assert(frames_view(self.frames@) =~= under.drop_last());
                        }
                        top = parent;
                    },
                }
            }
        }
    }

    /// The finished tree; `None` while the walk has not ended.
    pub fn finish(self) -> (tree: Option<ProcessNode>)
        ensures
            match tree {
                Some(root) => self@.done == Some(root@),
                None => self@.done is None,
            },
    {
        self.done
    }
}

} // verus!
