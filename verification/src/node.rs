//! The nodes of a process tree, and the tree as a mathematical value.

use vstd::prelude::*;

verus! {

/// A process tree as a mathematical value: a process and the trees of its
/// children, in the order in which they were found.
pub struct Tree {
    pub pid: u32,
    pub name: Seq<char>,
    pub children: Seq<Tree>,
}

/// A node of a process tree under construction. It owns its children.
#[derive(Debug)]
pub struct ProcessNode {
    pub pid: u32,
    pub name: String,
    pub children: Vec<ProcessNode>,
}

/// A node of a finished process tree, in the shape in which it is handed out.
#[derive(Debug, PartialEq, Eq)]
pub struct JsProcessNode {
    pub pid: u32,
    pub name: String,
    pub children: Vec<JsProcessNode>,
}

/// The tree that a node and its descendants stand for.
pub open spec fn tree_of(node: ProcessNode) -> Tree
    decreases node,
{
    Tree {
        pid: node.pid,
        name: node.name@,
        children: Seq::new(
            node.children@.len(),
            |i: int|
                if 0 <= i < node.children@.len() {
                    tree_of(node.children@[i])
                } else {
                    arbitrary()
                },
        ),
    }
}

/// The tree that a finished node and its descendants stand for.
pub open spec fn js_tree_of(node: JsProcessNode) -> Tree
    decreases node,
{
    Tree {
        pid: node.pid,
        name: node.name@,
        children: Seq::new(
            node.children@.len(),
            |i: int|
                if 0 <= i < node.children@.len() {
                    js_tree_of(node.children@[i])
                } else {
                    arbitrary()
                },
        ),
    }
}

impl View for ProcessNode {
    type V = Tree;

    open spec fn view(&self) -> Tree {
        tree_of(*self)
    }
}

impl View for JsProcessNode {
    type V = Tree;

    open spec fn view(&self) -> Tree {
        js_tree_of(*self)
    }
}

impl ProcessNode {
    /// A node without children.
    pub fn new(pid: u32, name: String) -> (node: ProcessNode)
        ensures
            node@ == (Tree { pid, name: name@, children: Seq::empty() }),
    {
        let node = ProcessNode { pid, name, children: Vec::new() };
        assert(node@.children =~= Seq::empty());
        node
    }
}

/// Moves every node of a tree into the shape in which it is handed out.
fn convert(node: ProcessNode) -> (out: JsProcessNode)
    ensures
        out@ == node@,
    decreases node,
{
    let ghost whole = node;
    let ProcessNode { pid, name, children } = node;
    let mut converted: Vec<JsProcessNode> = Vec::new();
    for child in it: children
        invariant
            whole == node,
            it.seq() == whole.children@,
            converted@.len() == it.index(),
            forall|k: int|
                0 <= k < converted@.len() ==> (#[trigger] converted@[k])@ == whole.children@[k]@,
    {
        converted.push(convert(child));
    }
    let out = JsProcessNode { pid, name, children: converted };
    assert(out@.children =~= whole@.children);
    out
}

/// No formula gives the converted node itself, as it holds strings and
/// vectors: what the conversion keeps is stated of its tree, at `from`.
impl vstd::std_specs::convert::FromSpecImpl<ProcessNode> for JsProcessNode {
    open spec fn obeys_from_spec() -> bool {
        false
    }

    open spec fn from_spec(node: ProcessNode) -> JsProcessNode {
        arbitrary()
    }
}

impl From<ProcessNode> for JsProcessNode {
    /// The same tree in the shape in which it is handed out.
    fn from(node: ProcessNode) -> (out: JsProcessNode)
        ensures
            out@ == node@,
    {
        convert(node)
    }
}

} // verus!
