//! Building the tree of a process's descendants from one snapshot.

use crate::descent::{descent_within, finite_descent};
use crate::node::{tree_of, JsProcessNode, ProcessNode, Tree};
use crate::record::{
    child_records, has_pid, lemma_child_records_step,
    lemma_first_with_pid_unique, recorded_name, table_view, ProcessRecord, Record,
};
use vstd::prelude::*;

verus! {

/// Whether a tree is fully expanded against a table: the children of every
/// node are, one for one and in the order of the table, the records that make
/// their process a child of the node, each with its pid and name, and each
/// fully expanded in turn. The node's own name is not constrained.
pub open spec fn expands(tree: Tree, table: Seq<Record>) -> bool
    decreases tree,
{
    let heads = child_records(table, tree.pid);
    &&& tree.children.len() == heads.len()
    &&& forall|i: int|
        0 <= i < tree.children.len() ==> {
            &&& (#[trigger] tree.children[i]).pid == heads[i].pid
            &&& tree.children[i].name == heads[i].name
            &&& expands(tree.children[i], table)
        }
}

/// Whether the trees of `grown` are, one for one and in order, what the
/// records of `heads` grow into: each has the pid and the name of its record
/// and is fully expanded against the table.
pub open spec fn grown_from(grown: Seq<Tree>, heads: Seq<Record>, table: Seq<Record>) -> bool {
    &&& grown.len() == heads.len()
    &&& forall|i: int|
        0 <= i < grown.len() ==> {
            &&& (#[trigger] grown[i]).pid == heads[i].pid
            &&& grown[i].name == heads[i].name
            &&& expands(grown[i], table)
        }
}

/// Whether `after` is `before` expanded against the table: the same node,
/// with what it held before in front, and behind it what the records of its
/// children grow into.
pub open spec fn expanded_from(after: Tree, before: Tree, table: Seq<Record>) -> bool {
    &&& after.pid == before.pid
    &&& after.name == before.name
    &&& after.children.len() >= before.children.len()
    &&& after.children.take(before.children.len() as int) == before.children
    &&& grown_from(
        after.children.skip(before.children.len() as int),
        child_records(table, before.pid),
        table,
    )
}

/// Whether `tree` is the process tree of `pid` in the table: its root has the
/// pid and the name recorded for it, and it is fully expanded.
pub open spec fn is_process_tree(tree: Tree, table: Seq<Record>, pid: u32) -> bool {
    &&& tree.pid == pid
    &&& recorded_name(table, pid) == Some(tree.name)
    &&& expands(tree, table)
}

/// The name of the first record with the given pid; `None` where the table
/// holds no such record.
pub fn get_process_name(pid: u32, table: &[ProcessRecord]) -> (name: Option<String>)
    ensures
        name is Some <==> has_pid(table_view(table@), pid),
        match name {
            Some(text) => recorded_name(table_view(table@), pid) == Some(text@),
            None => recorded_name(table_view(table@), pid) is None,
        },
{
    let ghost t = table_view(table@);
    let mut i: usize = 0;
    while i < table.len()
        invariant
            i <= table.len(),
            t == table_view(table@),
            forall|j: int| 0 <= j < i ==> (#[trigger] t[j]).pid != pid,
        decreases table.len() - i,
    {
        if table[i].pid == pid {
            proof {
                lemma_first_with_pid_unique(t, pid, i as int);
            }
            return Some(table[i].name.clone());
        }
        i += 1;
    }
    None
}

/// Expands a node against the table, with a bound on the depth below it.
fn expand(node: &mut ProcessNode, table: &[ProcessRecord], Ghost(depth): Ghost<nat>)
    requires
        descent_within(table_view(table@), old(node).pid, depth),
    ensures
        expanded_from(final(node)@, old(node)@, table_view(table@)),
    decreases depth,
{
    let ghost t = table_view(table@);
    let ghost before = tree_of(*node).children;
    let ghost name = node.name;
    let pid = node.pid;
    let mut i: usize = 0;
    while i < table.len()
        invariant
            i <= table.len(),
            t == table_view(table@),
            descent_within(t, pid, depth),
            node.pid == pid,
            node.name == name,
            tree_of(*node).children.len() >= before.len(),
            tree_of(*node).children.take(before.len() as int) == before,
            grown_from(
                tree_of(*node).children.skip(before.len() as int),
                child_records(t.take(i as int), pid),
                t,
            ),
        decreases table.len() - i,
    {
        let record = &table[i];
        proof {
            lemma_child_records_step(t, pid, i as int);
        }
        if record.parent_pid == pid && record.pid != pid {
            let mut child = ProcessNode::new(record.pid, record.name.clone());
            expand(&mut child, table, Ghost((depth - 1) as nat));
            let ghost grown = tree_of(*node).children;
            node.children.push(child);
            proof {
                assert(tree_of(child).children.skip(0) =~= tree_of(child).children);
                assert(tree_of(*node).children.skip(before.len() as int) =~= grown.skip(
                    before.len() as int,
                ).push(tree_of(child)));
            }
        }
        i += 1;
    }
    proof {
        assert(t.take(i as int) =~= t);
    }
}

/// Expands a node in place: appends to its children, in the order of the
/// table, one fully expanded child for each record that makes its process a
/// child of the node. What the node held before stays in front.
///
/// The descent from the node has to be finite, which `descends_finitely`
/// decides: below a process that is its own descendant there is no tree.
pub fn build_process_tree(node: &mut ProcessNode, table: &[ProcessRecord])
    requires
        finite_descent(table_view(table@), old(node).pid),
    ensures
        expanded_from(final(node)@, old(node)@, table_view(table@)),
{
    let ghost depth = choose|depth: nat| descent_within(table_view(table@), node.pid, depth);
    expand(node, table, Ghost(depth));
}

/// The process tree of `pid`: `None` where the table has no record of the
/// pid, else the tree whose root is the first record with the pid and whose
/// nodes are all of its descendants.
///
/// Where the table has a record of the pid, the descent from it has to be
/// finite, which `descends_finitely` decides.
pub fn get_process_tree(pid: u32, table: &[ProcessRecord]) -> (tree: Option<JsProcessNode>)
    requires
        has_pid(table_view(table@), pid) ==> finite_descent(table_view(table@), pid),
    ensures
        tree is Some <==> has_pid(table_view(table@), pid),
        tree matches Some(root) ==> is_process_tree(root@, table_view(table@), pid),
{
    match get_process_name(pid, table) {
        None => None,
        Some(root_name) => {
            let mut root = ProcessNode::new(pid, root_name);
            build_process_tree(&mut root, table);
            proof {
                assert(root@.children.skip(0) =~= root@.children);
            }
            Some(JsProcessNode::from(root))
        },
    }
}

} // verus!
